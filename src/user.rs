//! The server's registry of connected users, keyed by network address.
use vstd::prelude::*;

verus! {

/// A network address: the IP address as a 128-bit number (an IPv4 address
/// in its low 32 bits), whether it is an IPv6 address, and the port.
#[derive(Clone, Copy, Debug, PartialEq, Eq, Structural)]
pub struct Address {
    pub ip: u128,
    pub v6: bool,
    pub port: u16,
}

/// A connected user: the identity allocated to it and the address it
/// connected from.
#[derive(Clone, Copy, Debug, PartialEq, Eq, Structural)]
pub struct User {
    pub id: usize,
    pub addr: Address,
}

impl User {
    pub fn new(id: &usize, addr: &Address) -> (r: User)
        ensures
            r == (User { id: *id, addr: *addr }),
    {
        User { id: *id, addr: *addr }
    }
}

/// The abstract value of a registry: its users in the order they came, and
/// the identity the next new user will get.
pub struct UserManagerView {
    pub users: Seq<User>,
    pub next: nat,
}

impl UserManagerView {
    /// Addresses and identities are each unique, and every identity given out
    /// is below the next one.
    pub open spec fn wf(self) -> bool {
        &&& forall|i: int, j: int|
            0 <= i < j < self.users.len() ==> self.users[i].addr != self.users[j].addr
                && self.users[i].id != self.users[j].id
        &&& forall|i: int| 0 <= i < self.users.len() ==> self.users[i].id < self.next
    }
}

/// The identity recorded for address `a`: the last one, if there are several.
pub open spec fn id_for(users: Seq<User>, a: Address) -> Option<usize>
    decreases users.len(),
{
    if users.len() == 0 {
        None
    } else if users.last().addr == a {
        Some(users.last().id)
    } else {
        id_for(users.drop_last(), a)
    }
}

/// The address recorded with identity `id`: the last one, if there are several.
pub open spec fn addr_for(users: Seq<User>, id: usize) -> Option<Address>
    decreases users.len(),
{
    if users.len() == 0 {
        None
    } else if users.last().id == id {
        Some(users.last().addr)
    } else {
        addr_for(users.drop_last(), id)
    }
}

/// `post` and `id` are the registry and the identity after `a` registers
/// with `pre`: a known address gets its identity back and changes nothing; a
/// new one gets the next identity and is recorded with it.
pub open spec fn registered(pre: UserManagerView, a: Address, post: UserManagerView, id: usize) -> bool {
    match id_for(pre.users, a) {
        Some(known) => id == known && post == pre,
        None => {
            &&& id == pre.next
            &&& post.users == pre.users.push(User { id, addr: a })
            &&& post.next == pre.next + 1
        },
    }
}

/// The registry of users.
pub struct UserManager {
    users: Vec<User>,
    next: usize,
}

impl View for UserManager {
    type V = UserManagerView;

    closed spec fn view(&self) -> UserManagerView {
        UserManagerView { users: self.users@, next: self.next as nat }
    }
}

/// Where the identity recorded for an address comes from.
proof fn lemma_id_for(users: Seq<User>, a: Address) -> (k: int)
    requires
        id_for(users, a) is Some,
    ensures
        0 <= k < users.len(),
        users[k] == (User { id: id_for(users, a)->0, addr: a }),
    decreases users.len(),
{
    if users.last().addr == a {
        users.len() - 1
    } else {
        let k = lemma_id_for(users.drop_last(), a);
        assert(users[k] == users.drop_last()[k]);
        k
    }
}

/// An address with no identity recorded is nowhere among the users.
proof fn lemma_id_for_none(users: Seq<User>, a: Address)
    requires
        id_for(users, a) is None,
    ensures
        forall|k: int| 0 <= k < users.len() ==> users[k].addr != a,
    decreases users.len(),
{
    if users.len() > 0 {
        lemma_id_for_none(users.drop_last(), a);
        assert forall|k: int| 0 <= k < users.len() implies users[k].addr != a by {
            if k < users.len() - 1 {
                assert(users[k] == users.drop_last()[k]);
            }
        }
    }
}

impl UserManager {
    /// An empty registry; the first identity it gives out is 0.
    pub fn new() -> (r: UserManager)
        ensures
            r@.users == Seq::<User>::empty(),
            r@.next == 0,
            r@.wf(),
    {
        UserManager { users: Vec::new(), next: 0 }
    }

    /// Whether the registry has given out every identity it can.
    pub fn is_exhausted(&self) -> (r: bool)
        ensures
            r == (self@.next >= usize::MAX),
    {
        self.next == usize::MAX
    }

    /// The identity of the user at `addr`, allocated on its first request.
    pub fn register(&mut self, addr: &Address) -> (r: usize)
        requires
            old(self)@.wf(),
            old(self)@.next < usize::MAX,
        ensures
            registered(old(self)@, *addr, final(self)@, r),
            final(self)@.wf(),
    {
        let mut i: usize = self.users.len();
        assert(self.users@.subrange(0, i as int) =~= self.users@);
        while i > 0
            invariant
                self@.wf(),
                i <= self.users@.len(),
                id_for(self.users@, *addr) == id_for(self.users@.subrange(0, i as int), *addr),
            decreases i,
        {
            assert(self.users@.subrange(0, i - 1) =~= self.users@.subrange(0, i as int).drop_last());
            if self.users[i - 1].addr == *addr {
                return self.users[i - 1].id;
            }
            i = i - 1;
        }
        let id = self.next;
        let ghost pre = self@;
        self.users.push(User::new(&id, addr));
        self.next = self.next + 1;
        assert(self@.users == pre.users.push(User { id, addr: *addr }));
        proof { lemma_registered_wf(pre, *addr, self@, id); }
        id
    }

    /// The address of the user with identity `id`, if there is one.
    pub fn lookup(&self, id: usize) -> (r: Option<Address>)
        ensures
            r == addr_for(self@.users, id),
    {
        let mut i: usize = self.users.len();
        assert(self.users@.subrange(0, i as int) =~= self.users@);
        while i > 0
            invariant
                i <= self.users@.len(),
                addr_for(self.users@, id) == addr_for(self.users@.subrange(0, i as int), id),
            decreases i,
        {
            assert(self.users@.subrange(0, i - 1) =~= self.users@.subrange(0, i as int).drop_last());
            if self.users[i - 1].id == id {
                return Some(self.users[i - 1].addr);
            }
            i = i - 1;
        }
        None
    }
}

/// Registering is idempotent: an address that registers twice gets the same
/// identity both times, and the second time changes nothing.
pub proof fn lemma_register_twice(
    m0: UserManagerView,
    a: Address,
    m1: UserManagerView,
    i1: usize,
    m2: UserManagerView,
    i2: usize,
)
    requires
        registered(m0, a, m1, i1),
        registered(m1, a, m2, i2),
    ensures
        i1 == i2,
        m2 == m1,
{
}

/// Distinct addresses get distinct identities.
pub proof fn lemma_register_distinct(
    m0: UserManagerView,
    a1: Address,
    m1: UserManagerView,
    i1: usize,
    a2: Address,
    m2: UserManagerView,
    i2: usize,
)
    requires
        m0.wf(),
        a1 != a2,
        registered(m0, a1, m1, i1),
        registered(m1, a2, m2, i2),
    ensures
        i1 != i2,
{
    lemma_registered_wf(m0, a1, m1, i1);
    assert(id_for(m1.users, a1) == Some(i1));
    let k1 = lemma_id_for(m1.users, a1);
    if id_for(m1.users, a2) is Some {
        let k2 = lemma_id_for(m1.users, a2);
        assert(k1 != k2);
    } else {
        assert(i1 < m1.next);
    }
}

/// Registering keeps a registry well formed.
pub proof fn lemma_registered_wf(pre: UserManagerView, a: Address, post: UserManagerView, id: usize)
    requires
        pre.wf(),
        registered(pre, a, post, id),
    ensures
        post.wf(),
{
    if id_for(pre.users, a) is None {
        lemma_id_for_none(pre.users, a);
        assert forall|i: int, j: int| 0 <= i < j < post.users.len() implies post.users[i].addr
            != post.users[j].addr && post.users[i].id != post.users[j].id by {
            if j == pre.users.len() {
                assert(post.users[i] == pre.users[i]);
            }
        }
    }
}

} // verus!
