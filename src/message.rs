//! Messages between server and client, and their text encoding.
//!
//! A message is sent as one JSON text: a variant without fields as its name
//! in quotes (`"ConnectRequest"`), a variant with fields as an object that
//! names the variant and lists the fields
//! (`{"variant":"ConnectResponse","fields":[3]}`), numbers in decimal without
//! leading zeros. Parsing accepts exactly these texts.
use vstd::prelude::*;

verus! {

/// A message from the server to a client.
#[derive(Clone, Copy, Debug, PartialEq, Eq, Structural)]
pub enum ServerToClient {
    /// Answer to a connection request, with the identity given to the user.
    ConnectResponse(usize),
}

/// A message from a client to the server.
#[derive(Clone, Copy, Debug, PartialEq, Eq, Structural)]
pub enum ClientToServer {
    ConnectRequest,
}

/// A text that encodes no message of the expected kind.
#[derive(Clone, Copy, Debug, PartialEq, Eq, Structural)]
pub struct DecodeError;

/// A message with a text encoding.
pub trait Message: Sized {
    /// The text that encodes this message.
    spec fn wire(&self) -> Seq<char>;

    fn stringify(&self) -> (r: String)
        ensures
            r@ == self.wire(),
    ;

    /// The message that `text` encodes; fails when it encodes none.
    fn parse(text: &String) -> (r: Result<Self, DecodeError>)
        ensures
            match r {
                Ok(m) => m.wire() == text@,
                Err(_) => forall|m: Self| #[trigger] m.wire() != text@,
            },
    ;
}

pub open spec fn is_digit(c: char) -> bool {
    '0' <= c <= '9'
}

pub open spec fn digit_char(d: nat) -> char {
    ((d + 48) as u8) as char
}

/// The number that a string of digits spells in decimal.
pub open spec fn value_of(s: Seq<char>) -> nat
    decreases s.len(),
{
    if s.len() == 0 {
        0
    } else {
        value_of(s.drop_last()) * 10 + (s.last() as int - 48) as nat
    }
}

/// Decimal notation of `n`, without leading zeros.
pub open spec fn decimal(n: nat) -> Seq<char>
    decreases n,
{
    if n < 10 {
        seq![digit_char(n)]
    } else {
        decimal(n / 10) + seq![digit_char(n % 10)]
    }
}

/// A string of digits with no leading zero.
pub open spec fn canonical(s: Seq<char>) -> bool {
    &&& s.len() >= 1
    &&& forall|i: int| 0 <= i < s.len() ==> is_digit(#[trigger] s[i])
    &&& (s.len() == 1 || s[0] != '0')
}

pub open spec fn request_text() -> Seq<char> {
    "\"ConnectRequest\""@
}

pub open spec fn response_head() -> Seq<char> {
    "{\"variant\":\"ConnectResponse\",\"fields\":["@
}

pub open spec fn response_tail() -> Seq<char> {
    "]}"@
}

impl Message for ClientToServer {
    open spec fn wire(&self) -> Seq<char> {
        request_text()
    }

    fn stringify(&self) -> (r: String) {
        String::from_str("\"ConnectRequest\"")
    }

    fn parse(text: &String) -> (r: Result<Self, DecodeError>) {
        let t = text.as_str();
        let pat = "\"ConnectRequest\"";
        if t.unicode_len() == pat.unicode_len() && matches_at(t, 0, pat) {
            assert(t@.subrange(0, t@.len() as int) =~= t@);
            assert(pat@ == request_text());
            let m = ClientToServer::ConnectRequest;
            assert(m.wire() == text@);
            Ok(m)
        } else {
            assert forall|m: ClientToServer| #[trigger] m.wire() != text@ by {
                if text@ == pat@ {
                    assert(t@.subrange(0, pat@.len() as int) =~= t@);
                }
            }
            Err(DecodeError)
        }
    }
}

impl Message for ServerToClient {
    open spec fn wire(&self) -> Seq<char> {
        match self {
            ServerToClient::ConnectResponse(n) => response_head() + decimal(*n as nat)
                + response_tail(),
        }
    }

    fn stringify(&self) -> (r: String) {
        match self {
            ServerToClient::ConnectResponse(n) => {
                let mut s = String::from_str("{\"variant\":\"ConnectResponse\",\"fields\":[");
                let digits = decimal_string(*n);
                s.append(digits.as_str());
                s.append("]}");
                s
            },
        }
    }

    fn parse(text: &String) -> (r: Result<Self, DecodeError>) {
        let t = text.as_str();
        let head = "{\"variant\":\"ConnectResponse\",\"fields\":[";
        let tail = "]}";
        let len = t.unicode_len();
        let hl = head.unicode_len();
        let tl = tail.unicode_len();
        proof {
            reveal_strlit("{\"variant\":\"ConnectResponse\",\"fields\":[");
            reveal_strlit("]}");
        }
        let ghost s = text@;
        if len < hl + tl || !matches_at(t, 0, head) || !matches_at(t, len - tl, tail) {
            assert forall|m: ServerToClient| #[trigger] m.wire() != s by {
                let w = m.wire();
                let ServerToClient::ConnectResponse(n) = m;
                lemma_decimal(n as nat);
                if w == s {
                    assert(w.subrange(0, hl as int) =~= response_head());
                    assert(w.subrange(w.len() - 2, w.len() as int) =~= response_tail());
                }
            }
            return Err(DecodeError);
        }
        match parse_decimal(t, hl, len - tl) {
            Some(n) => {
                assert(s =~= response_head() + decimal(n as nat) + response_tail());
                Ok(ServerToClient::ConnectResponse(n))
            },
            None => {
                assert forall|m: ServerToClient| #[trigger] m.wire() != s by {
                    let w = m.wire();
                    let ServerToClient::ConnectResponse(n) = m;
                    lemma_decimal(n as nat);
                    if w == s {
                        assert(w.subrange(hl as int, w.len() - 2) =~= decimal(n as nat));
                    }
                }
                Err(DecodeError)
            },
        }
    }
}

/// Whether `pat` occurs in `text` at position `at`.
fn matches_at(text: &str, at: usize, pat: &str) -> (r: bool)
    ensures
        r == (at + pat@.len() <= text@.len() && text@.subrange(at as int, at + pat@.len()) == pat@),
{
    let tl = text.unicode_len();
    let pl = pat.unicode_len();
    if at > tl || pl > tl - at {
        return false;
    }
    let mut i: usize = 0;
    while i < pl
        invariant
            tl == text@.len(),
            pl == pat@.len(),
            at + pl <= tl,
            0 <= i <= pl,
            forall|j: int| 0 <= j < i ==> text@[at + j] == pat@[j],
        decreases pl - i,
    {
        if text.get_char(at + i) != pat.get_char(i) {
            assert(text@.subrange(at as int, at + pat@.len())[i as int] != pat@[i as int]);
            return false;
        }
        i = i + 1;
    }
    assert(text@.subrange(at as int, at + pat@.len()) =~= pat@);
    true
}

/// The one-character text of the digit `d`.
fn digit_str(d: usize) -> (r: &'static str)
    requires
        d < 10,
    ensures
        r@ == seq![digit_char(d as nat)],
{
    if d == 0 {
        proof { reveal_strlit("0"); }
        "0"
    } else if d == 1 {
        proof { reveal_strlit("1"); }
        "1"
    } else if d == 2 {
        proof { reveal_strlit("2"); }
        "2"
    } else if d == 3 {
        proof { reveal_strlit("3"); }
        "3"
    } else if d == 4 {
        proof { reveal_strlit("4"); }
        "4"
    } else if d == 5 {
        proof { reveal_strlit("5"); }
        "5"
    } else if d == 6 {
        proof { reveal_strlit("6"); }
        "6"
    } else if d == 7 {
        proof { reveal_strlit("7"); }
        "7"
    } else if d == 8 {
        proof { reveal_strlit("8"); }
        "8"
    } else {
        proof { reveal_strlit("9"); }
        "9"
    }
}

/// Decimal notation of `n`.
fn decimal_string(n: usize) -> (r: String)
    ensures
        r@ == decimal(n as nat),
    decreases n,
{
    if n < 10 {
        String::from_str(digit_str(n))
    } else {
        let mut s = decimal_string(n / 10);
        assert(n % 10 < 10);
        s.append(digit_str(n % 10));
        s
    }
}

/// The number spelled by `text[lo..hi]`, when that is the decimal notation of
/// a `usize`.
fn parse_decimal(text: &str, lo: usize, hi: usize) -> (r: Option<usize>)
    requires
        lo <= hi <= text@.len(),
    ensures
        match r {
            Some(n) => decimal(n as nat) == text@.subrange(lo as int, hi as int),
            None => forall|n: usize| decimal(n as nat) != text@.subrange(lo as int, hi as int),
        },
{
    let ghost s = text@.subrange(lo as int, hi as int);
    if lo == hi {
        proof { lemma_decimal_all(); }
        return None;
    }
    let first = text.get_char(lo);
    if first == '0' && hi - lo > 1 {
        proof { lemma_decimal_all(); }
        return None;
    }
    let mut acc: usize = 0;
    let mut i: usize = lo;
    while i < hi
        invariant
            lo < hi <= text@.len(),
            s == text@.subrange(lo as int, hi as int),
            lo <= i <= hi,
            forall|j: int| lo <= j < i ==> is_digit(#[trigger] text@[j]),
            acc == value_of(text@.subrange(lo as int, i as int)),
        decreases hi - i,
    {
        let c = text.get_char(i);
        if c < '0' || c > '9' {
            proof {
                lemma_decimal_all();
                assert(s[i - lo] == c);
            }
            return None;
        }
        let d: usize = (c as u32 - '0' as u32) as usize;
        let ghost next = text@.subrange(lo as int, i + 1);
        assert(next.drop_last() =~= text@.subrange(lo as int, i as int));
        let ghost q = (usize::MAX - d) / 10;
        proof {
            vstd::arithmetic::div_mod::lemma_fundamental_div_mod((usize::MAX - d) as int, 10);
            vstd::arithmetic::div_mod::lemma_mod_pos_bound((usize::MAX - d) as int, 10);
            assert(next.last() == c);
        }
        if acc > (usize::MAX - d) / 10 {
            proof {
                assert(acc * 10 + d > usize::MAX) by (nonlinear_arith)
                    requires
                        acc >= q + 1,
                        usize::MAX - d == 10 * q + (usize::MAX - d) % 10,
                        (usize::MAX - d) % 10 < 10;
                assert(next =~= s.subrange(0, i + 1 - lo));
                assert forall|n: usize| decimal(n as nat) != s by {
                    if decimal(n as nat) == s {
                        lemma_decimal(n as nat);
                        lemma_value_prefix(s, i + 1 - lo);
                    }
                }
            }
            return None;
        }
        assert(acc * 10 + d <= usize::MAX) by (nonlinear_arith)
            requires
                acc <= q,
                usize::MAX - d == 10 * q + (usize::MAX - d) % 10,
                (usize::MAX - d) % 10 >= 0;
        acc = acc * 10 + d;
        i = i + 1;
    }
    proof {
        assert(canonical(s)) by {
            assert forall|j: int| 0 <= j < s.len() implies is_digit(#[trigger] s[j]) by {
                assert(s[j] == text@[lo + j]);
            }
            assert(s[0] == first);
        }
        assert(text@.subrange(lo as int, hi as int) == s);
        lemma_canonical_decimal(s);
    }
    Some(acc)
}

/// The decimal notation of a number is canonical and spells that number.
proof fn lemma_decimal(n: nat)
    ensures
        canonical(decimal(n)),
        value_of(decimal(n)) == n,
        n >= 1 ==> decimal(n)[0] != '0',
    decreases n,
{
    if n >= 10 {
        lemma_decimal(n / 10);
        let s = decimal(n);
        assert(s.drop_last() =~= decimal(n / 10));
        assert(s.last() == digit_char(n % 10));
        assert(n == (n / 10) * 10 + n % 10) by (nonlinear_arith);
        assert(n % 10 < 10);
        assert(digit_char(n % 10) as int - 48 == n % 10);
        assert(value_of(s) == value_of(s.drop_last()) * 10 + (s.last() as int - 48) as nat);
        assert(s[0] == decimal(n / 10)[0]);
        assert forall|i: int| 0 <= i < s.len() implies is_digit(#[trigger] s[i]) by {
            if i < s.len() - 1 {
                assert(s[i] == decimal(n / 10)[i]);
            }
        }
    } else {
        let s = decimal(n);
        assert(s.drop_last() =~= Seq::<char>::empty());
        assert(value_of(s.drop_last()) == 0);
    }
}

proof fn lemma_decimal_all()
    ensures
        forall|n: nat|
            canonical(#[trigger] decimal(n)) && value_of(decimal(n)) == n,
{
    assert forall|n: nat| canonical(#[trigger] decimal(n)) && value_of(decimal(n)) == n by {
        lemma_decimal(n);
    }
}

/// A canonical string of digits is the decimal notation of what it spells.
proof fn lemma_canonical_decimal(s: Seq<char>)
    requires
        canonical(s),
    ensures
        decimal(value_of(s)) == s,
    decreases s.len(),
{
    if s.len() == 1 {
        assert(decimal(value_of(s)) =~= s);
    } else {
        let p = s.drop_last();
        assert(p[0] == s[0]);
        assert forall|i: int| 0 <= i < p.len() implies is_digit(#[trigger] p[i]) by {
            assert(p[i] == s[i]);
        }
        assert(s.last() == s[s.len() - 1]);
        lemma_canonical_decimal(p);
        lemma_value_positive(p);
        let v = value_of(s);
        let d = (s.last() as int - 48) as nat;
        assert(v == value_of(p) * 10 + d);
        assert(v / 10 == value_of(p) && v % 10 == d) by (nonlinear_arith)
            requires v == value_of(p) * 10 + d, 0 <= d < 10;
        assert(decimal(v) =~= s);
    }
}

/// A string of digits that starts with a nonzero one spells a positive number.
proof fn lemma_value_positive(s: Seq<char>)
    requires
        s.len() >= 1,
        forall|i: int| 0 <= i < s.len() ==> is_digit(#[trigger] s[i]),
        s[0] != '0',
    ensures
        value_of(s) >= 1,
    decreases s.len(),
{
    if s.len() > 1 {
        let p = s.drop_last();
        assert(p[0] == s[0]);
        assert forall|i: int| 0 <= i < p.len() implies is_digit(#[trigger] p[i]) by {
            assert(p[i] == s[i]);
        }
        lemma_value_positive(p);
    }
}

/// Extending a string of digits never makes the number it spells smaller.
proof fn lemma_value_prefix(s: Seq<char>, k: int)
    requires
        0 <= k <= s.len(),
        forall|i: int| 0 <= i < s.len() ==> is_digit(#[trigger] s[i]),
    ensures
        value_of(s.subrange(0, k)) <= value_of(s),
    decreases s.len(),
{
    if k < s.len() {
        let p = s.drop_last();
        assert forall|i: int| 0 <= i < p.len() implies is_digit(#[trigger] p[i]) by {
            assert(p[i] == s[i]);
        }
        lemma_value_prefix(p, k);
        assert(p.subrange(0, k) =~= s.subrange(0, k));
        assert(is_digit(s[s.len() - 1]));
    } else {
        assert(s.subrange(0, k) =~= s);
    }
}

/// Round trip of server messages: parsing the text of a message gives that
/// message back. `r` is any result that the contract of `parse` allows on
/// the text of `v`.
pub proof fn lemma_server_round_trip(v: ServerToClient, r: Result<ServerToClient, DecodeError>)
    requires
        match r {
            Ok(m) => m.wire() == v.wire(),
            Err(_) => forall|m: ServerToClient| #[trigger] m.wire() != v.wire(),
        },
    ensures
        r == Ok::<ServerToClient, DecodeError>(v),
{
    if let Ok(m) = r {
        let ServerToClient::ConnectResponse(a) = m;
        let ServerToClient::ConnectResponse(b) = v;
        lemma_decimal(a as nat);
        lemma_decimal(b as nat);
        let wa = m.wire();
        assert(wa.subrange(response_head().len() as int, wa.len() - response_tail().len())
            =~= decimal(a as nat));
        assert(v.wire().subrange(response_head().len() as int, wa.len() - response_tail().len())
            =~= decimal(b as nat));
    } else {
        let m = v;
        assert(m.wire() != v.wire());
    }
}

/// Round trip of client messages: parsing the text of a message gives that
/// message back. `r` is any result that the contract of `parse` allows on
/// the text of `v`.
pub proof fn lemma_client_round_trip(v: ClientToServer, r: Result<ClientToServer, DecodeError>)
    requires
        match r {
            Ok(m) => m.wire() == v.wire(),
            Err(_) => forall|m: ClientToServer| #[trigger] m.wire() != v.wire(),
        },
    ensures
        r == Ok::<ClientToServer, DecodeError>(v),
{
    if r is Err {
        let m = ClientToServer::ConnectRequest;
        assert(m.wire() != v.wire());
    }
}

} // verus!
