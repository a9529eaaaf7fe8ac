//! Simulation of a single unit, advanced once per frame.
//!
//! Positions are fixed-point integers in milli-units and time is counted in
//! milliseconds, so that one unit per second is one milli-unit per
//! millisecond. The facing of a unit is the direction vector towards the
//! destination of its last accepted move command; its angle is
//! `atan2(dy, dx)`.
use vstd::prelude::*;

verus! {

/// Distance covered in one millisecond while moving, in milli-units
/// (that is, units per second).
pub const SPEED: u64 = 50;

/// Duration of a cast of the unit's ability, in milliseconds.
pub const CAST_MS: u32 = 1000;

/// A position on the map, in milli-units.
#[derive(Clone, Copy, Debug, PartialEq, Eq, Structural)]
pub struct Point {
    pub x: i32,
    pub y: i32,
}

/// The direction a unit faces, as a vector.
#[derive(Clone, Copy, Debug, PartialEq, Eq, Structural)]
pub struct Heading {
    pub dx: i64,
    pub dy: i64,
}

/// What a unit is doing.
#[derive(Clone, Copy, Debug, PartialEq, Eq, Structural)]
pub enum State {
    /// Standing still.
    Stopped,
    /// Walking towards `dest`.
    Moving { dest: Point },
    /// Casting its ability; `t` milliseconds of the cast have elapsed.
    QSkill { t: u32 },
}

/// The abstract value of a unit: its pose and its behaviour.
pub struct NemoView {
    pub pos: Point,
    pub heading: Heading,
    pub state: State,
}

/// A unit of the game.
pub struct Nemo {
    pos: Point,
    heading: Heading,
    state: State,
}

/// Squared distance between two points.
pub open spec fn dist2(a: Point, b: Point) -> int {
    (b.x - a.x) * (b.x - a.x) + (b.y - a.y) * (b.y - a.y)
}

/// Taxicab distance between two points.
pub open spec fn l1(a: Point, b: Point) -> nat {
    (abs(b.x - a.x) + abs(b.y - a.y)) as nat
}

/// Absolute value.
pub open spec fn abs(v: int) -> int {
    if v < 0 { -v } else { v }
}

/// `r` is the smallest natural number whose square is at least `n`.
pub open spec fn is_ceil_sqrt(n: int, r: int) -> bool {
    &&& r >= 0
    &&& r * r >= n
    &&& (r == 0 || (r - 1) * (r - 1) < n)
}

/// The ceiling of the square root of `n`.
pub open spec fn ceil_sqrt(n: int) -> int {
    choose|r: int| is_ceil_sqrt(n, r)
}

/// The part of the offset `d` covered when `step` out of a distance `r` is
/// walked, rounded towards zero.
pub open spec fn stride(d: int, step: int, r: int) -> int {
    if d >= 0 {
        d * step / r
    } else {
        -((-d) * step / r)
    }
}

/// Distance walked in `dt` milliseconds.
pub open spec fn step_len(dt: nat) -> int {
    SPEED * dt
}

/// The unit after `dt` more milliseconds of simulation. A stopped unit stays
/// as it is. A moving unit that is no further from its destination than the
/// distance it walks in `dt` lands exactly on it and stops; any other moving
/// unit walks that distance straight towards its destination, each
/// coordinate rounded towards where it stood. A cast ends, leaving the unit
/// stopped, once its elapsed time reaches the cast's duration.
pub open spec fn advance(u: NemoView, dt: nat) -> NemoView {
    match u.state {
        State::Stopped => u,
        State::Moving { dest } => {
            let step = step_len(dt);
            let n = dist2(u.pos, dest);
            if n <= step * step {
                NemoView { pos: dest, heading: u.heading, state: State::Stopped }
            } else {
                let r = ceil_sqrt(n);
                let x = u.pos.x + stride(dest.x - u.pos.x, step, r);
                let y = u.pos.y + stride(dest.y - u.pos.y, step, r);
                NemoView { pos: Point { x: x as i32, y: y as i32 }, heading: u.heading, state: u.state }
            }
        },
        State::QSkill { t } => {
            if t + dt >= CAST_MS {
                NemoView { pos: u.pos, heading: u.heading, state: State::Stopped }
            } else {
                NemoView { pos: u.pos, heading: u.heading, state: State::QSkill { t: (t + dt) as u32 } }
            }
        },
    }
}

/// The unit after a sequence of frames lasting `dts` milliseconds each.
pub open spec fn run(u: NemoView, dts: Seq<u32>) -> NemoView
    decreases dts.len(),
{
    if dts.len() == 0 {
        u
    } else {
        run(advance(u, dts[0] as nat), dts.drop_first())
    }
}

/// Total duration of a sequence of frames.
pub open spec fn total(dts: Seq<u32>) -> nat
    decreases dts.len(),
{
    if dts.len() == 0 {
        0
    } else {
        dts[0] as nat + total(dts.drop_first())
    }
}

/// The direction from `from` towards `to`.
pub open spec fn heading_to(from: Point, to: Point) -> Heading {
    Heading { dx: (to.x - from.x) as i64, dy: (to.y - from.y) as i64 }
}

/// The unit after a command to move to `dest`: ignored while casting and
/// when `dest` is where the unit stands; otherwise the unit turns towards
/// `dest` and walks there, whatever move it was making before.
pub open spec fn command_move(u: NemoView, dest: Point) -> NemoView {
    if u.state is QSkill || u.pos == dest {
        u
    } else {
        NemoView { pos: u.pos, heading: heading_to(u.pos, dest), state: State::Moving { dest } }
    }
}

/// The unit after a command to cast its ability, which drops any move.
pub open spec fn command_cast(u: NemoView) -> NemoView {
    NemoView { pos: u.pos, heading: u.heading, state: State::QSkill { t: 0 } }
}

/// The value handed to the shader to colour the unit: 1 while casting, else 0.
pub open spec fn q_flag_of(s: State) -> i32 {
    if s is QSkill { 1 } else { 0 }
}

proof fn lemma_ceil_sqrt_unique(n: int, r: int)
    requires
        is_ceil_sqrt(n, r),
    ensures
        ceil_sqrt(n) == r,
{
    let c = ceil_sqrt(n);
    assert(is_ceil_sqrt(n, c));
    if c < r {
        assert(c * c <= (r - 1) * (r - 1)) by (nonlinear_arith)
            requires 0 <= c <= r - 1;
    } else if r < c {
        assert(r * r <= (c - 1) * (c - 1)) by (nonlinear_arith)
            requires 0 <= r <= c - 1;
    }
}

/// Smallest natural number whose square is at least `n`.
fn isqrt_ceil(n: u128) -> (r: u128)
    requires
        0 < n <= 0x4_0000_0000_0000_0000,
    ensures
        is_ceil_sqrt(n as int, r as int),
        r <= 0x2_0000_0000,
{
    let mut lo: u128 = 0;
    let mut hi: u128 = 0x2_0000_0000;
    assert(hi * hi == 0x4_0000_0000_0000_0000);
    while hi - lo > 1
        invariant
            lo < hi <= 0x2_0000_0000,
            (lo as int) * (lo as int) < n,
            n <= (hi as int) * (hi as int),
        decreases hi - lo,
    {
        let mid: u128 = lo + (hi - lo) / 2;
        assert(mid * mid <= 0x4_0000_0000_0000_0000) by (nonlinear_arith)
            requires mid <= 0x2_0000_0000;
        if mid * mid >= n {
            hi = mid;
        } else {
            lo = mid;
        }
    }
    assert(lo == hi - 1);
    hi
}

/// `d * step / r` rounded towards zero, for a walk of `step` out of `r > step`.
fn stride_exec(d: i64, step: u64, r: u128) -> (m: i64)
    requires
        -0x1_0000_0000 <= d <= 0x1_0000_0000,
        step <= 0x40_0000_0000,
        step < r,
    ensures
        m == stride(d as int, step as int, r as int),
        abs(m as int) <= abs(d as int),
        d >= 0 ==> m >= 0,
        d <= 0 ==> m <= 0,
{
    let a: u128 = if d >= 0 { d as u128 } else { (-d) as u128 };
    assert(a * (step as u128) <= 0x1_0000_0000 * 0x40_0000_0000) by (nonlinear_arith)
        requires a <= 0x1_0000_0000, step <= 0x40_0000_0000;
    let q = a * (step as u128) / r;
    proof { lemma_scaled_le(a as int, step as int, r as int); }
    if d >= 0 {
        q as i64
    } else {
        -(q as i64)
    }
}

/// Scaling by a fraction smaller than one does not grow a value.
proof fn lemma_scaled_le(a: int, b: int, c: int)
    requires
        a >= 0,
        0 <= b < c,
    ensures
        0 <= a * b / c <= a,
{
    assert(a * b <= a * c) by (nonlinear_arith)
        requires a >= 0, b < c;
    assert(0 <= a * b) by (nonlinear_arith)
        requires a >= 0, b >= 0;
    vstd::arithmetic::div_mod::lemma_div_is_ordered(a * b, a * c, c);
    vstd::arithmetic::div_mod::lemma_div_multiples_vanish(a, c);
    assert(a * c == c * a) by (nonlinear_arith);
    vstd::arithmetic::div_mod::lemma_div_pos_is_pos(a * b, c);
}

/// Every natural number has a ceiling square root.
proof fn lemma_ceil_sqrt_exists(n: int)
    requires
        n >= 0,
    ensures
        is_ceil_sqrt(n, ceil_sqrt(n)),
{
    lemma_ceil_sqrt_search(n, 0);
}

proof fn lemma_ceil_sqrt_search(n: int, r: int)
    requires
        n >= 0,
        r >= 0,
        r == 0 || (r - 1) * (r - 1) < n,
    ensures
        is_ceil_sqrt(n, ceil_sqrt(n)),
    decreases n - r + 1,
{
    if r * r >= n {
        assert(is_ceil_sqrt(n, r));
    } else {
        assert(r < n) by (nonlinear_arith)
            requires r >= 0, r * r < n;
        lemma_ceil_sqrt_search(n, r + 1);
    }
}

/// What a rounded stride keeps of the offset it is taken from.
proof fn lemma_stride(d: int, step: int, r: int)
    requires
        0 <= step < r,
    ensures
        abs(stride(d, step, r)) <= abs(d),
        abs(stride(d, step, r)) * r <= abs(d) * step,
        abs(d - stride(d, step, r)) == abs(d) - abs(stride(d, step, r)),
        abs(d) * step >= r ==> abs(stride(d, step, r)) >= 1,
{
    let a = abs(d);
    let q = a * step / r;
    lemma_scaled_le(a, step, r);
    assert(abs(stride(d, step, r)) == q);
    vstd::arithmetic::div_mod::lemma_fundamental_div_mod(a * step, r);
    assert(0 <= a * step) by (nonlinear_arith)
        requires a >= 0, step >= 0;
    vstd::arithmetic::div_mod::lemma_mod_pos_bound(a * step, r);
    assert(q * r <= a * step) by (nonlinear_arith)
        requires a * step == r * q + (a * step) % r, 0 <= (a * step) % r;
    if a * step >= r {
        vstd::arithmetic::div_mod::lemma_div_is_ordered(r, a * step, r);
        vstd::arithmetic::div_mod::lemma_div_multiples_vanish(1, r);
    }
}

/// The square root of a squared distance is at most the taxicab distance.
proof fn lemma_ceil_sqrt_le_l1(ax: int, ay: int, r: int)
    requires
        ax >= 0,
        ay >= 0,
        ax * ax + ay * ay > 0,
        is_ceil_sqrt(ax * ax + ay * ay, r),
    ensures
        r <= ax + ay,
{
    if r > ax + ay {
        assert((ax + ay) * (ax + ay) <= (r - 1) * (r - 1)) by (nonlinear_arith)
            requires 0 <= ax + ay <= r - 1;
        assert((ax + ay) * (ax + ay) >= ax * ax + ay * ay) by (nonlinear_arith)
            requires ax >= 0, ay >= 0;
    }
}

/// One frame of a move: the unit either reaches its destination exactly and
/// stops on that frame, or keeps moving towards the same destination and has
/// not reached it; then, if the frame lasts at least a millisecond, it is
/// strictly closer in taxicab distance. In both cases it covers at most one
/// step's distance.
pub proof fn lemma_move_frame(u: NemoView, dt: nat)
    requires
        u.state is Moving,
    ensures
        ({
            let v = advance(u, dt);
            let dest = u.state->dest;
            &&& v.heading == u.heading
            &&& dist2(u.pos, v.pos) <= step_len(dt) * step_len(dt)
            &&& v.pos == dest <==> v.state == State::Stopped
            &&& v.state != State::Stopped ==> v.state == u.state
            &&& v.state != State::Stopped && dt >= 1 ==> l1(v.pos, dest) < l1(u.pos, dest)
        }),
{
    let dest = u.state->dest;
    let step = step_len(dt);
    let n = dist2(u.pos, dest);
    let v = advance(u, dt);
    let dx = dest.x - u.pos.x;
    let dy = dest.y - u.pos.y;
    if n <= step * step {
        assert(dist2(u.pos, v.pos) == n);
    } else {
        assert(n >= 0) by (nonlinear_arith)
            requires n == dx * dx + dy * dy;
        lemma_ceil_sqrt_exists(n);
        let r = ceil_sqrt(n);
        assert(step < r) by (nonlinear_arith)
            requires step * step < n, n <= r * r, r >= 0, step >= 0;
        lemma_stride(dx, step, r);
        lemma_stride(dy, step, r);
        let mx = stride(dx, step, r);
        let my = stride(dy, step, r);
        let ax = abs(dx);
        let ay = abs(dy);
        assert(n == ax * ax + ay * ay) by (nonlinear_arith)
            requires n == dx * dx + dy * dy, ax == abs(dx), ay == abs(dy);
        assert(v.pos.x == u.pos.x + mx);
        assert(v.pos.y == u.pos.y + my);
        let bx = abs(mx);
        let by_ = abs(my);
        assert(dist2(u.pos, v.pos) == bx * bx + by_ * by_) by (nonlinear_arith)
            requires
                v.pos.x == u.pos.x + mx,
                v.pos.y == u.pos.y + my,
                bx == abs(mx),
                by_ == abs(my);
        assert((bx * bx + by_ * by_) * (r * r) <= n * (step * step)) by (nonlinear_arith)
            requires
                0 <= bx, 0 <= by_, 0 <= r, 0 <= step,
                bx * r <= ax * step,
                by_ * r <= ay * step,
                n == ax * ax + ay * ay;
        assert(bx * bx + by_ * by_ <= step * step) by (nonlinear_arith)
            requires
                (bx * bx + by_ * by_) * (r * r) <= n * (step * step),
                n <= r * r,
                r > 0,
                step >= 0;
        if dt >= 1 {
            lemma_ceil_sqrt_le_l1(ax, ay, r);
            assert(ax * step >= r || ay * step >= r) by (nonlinear_arith)
                requires r <= ax + ay, step >= 50, ax >= 0, ay >= 0;
        }
        if v.pos == dest {
            assert(bx == ax && by_ == ay);
            assert(false) by (nonlinear_arith)
                requires
                    bx * bx + by_ * by_ <= step * step,
                    step * step < n,
                    n == ax * ax + ay * ay,
                    bx == ax,
                    by_ == ay;
        }
    }
}

/// A moving unit has not reached its destination yet.
pub open spec fn on_the_way(u: NemoView) -> bool {
    u.state matches State::Moving { dest } ==> u.pos != dest
}

/// A new unit is on its way to nowhere, and commands and frames keep every
/// moving unit short of its destination.
pub proof fn lemma_on_the_way_kept(u: NemoView, dest: Point, dt: nat)
    requires
        on_the_way(u),
    ensures
        on_the_way(command_move(u, dest)),
        on_the_way(command_cast(u)),
        on_the_way(advance(u, dt)),
{
    if u.state is Moving {
        lemma_move_frame(u, dt);
    }
}

/// Arrival: a moving unit that is simulated frame after frame, each of at
/// least a millisecond, stands exactly on its destination and has stopped
/// once it has had as many frames as its taxicab distance in milli-units.
pub proof fn lemma_arrival(u: NemoView, dts: Seq<u32>)
    requires
        u.state is Moving,
        on_the_way(u),
        forall|i: int| 0 <= i < dts.len() ==> dts[i] >= 1,
        dts.len() >= l1(u.pos, u.state->dest),
    ensures
        run(u, dts).pos == u.state->dest,
        run(u, dts).state == State::Stopped,
    decreases dts.len(),
{
    let dest = u.state->dest;
    if dts.len() == 0 {
        assert(u.pos.x == dest.x && u.pos.y == dest.y);
    } else {
        lemma_move_frame(u, dts[0] as nat);
        let v = advance(u, dts[0] as nat);
        let rest = dts.drop_first();
        assert forall|i: int| 0 <= i < rest.len() implies rest[i] >= 1 by {
            assert(rest[i] == dts[i + 1]);
        }
        if v.state == State::Stopped {
            lemma_run_stopped(v, rest);
        } else {
            lemma_arrival(v, rest);
        }
    }
}

/// A stopped unit stays where it is, however long it is simulated.
pub proof fn lemma_run_stopped(u: NemoView, dts: Seq<u32>)
    requires
        u.state == State::Stopped,
    ensures
        run(u, dts) == u,
    decreases dts.len(),
{
    if dts.len() > 0 {
        lemma_run_stopped(advance(u, dts[0] as nat), dts.drop_first());
    }
}

/// Casting: a cast that has just begun is still under way after frames that
/// last less than the cast's duration in all, with exactly their total
/// elapsed, and has ended, leaving the unit stopped, after frames that last
/// at least that long. The unit does not move meanwhile.
pub proof fn lemma_cast_run(u: NemoView, dts: Seq<u32>)
    requires
        u.state == (State::QSkill { t: 0 }),
    ensures
        run(u, dts).pos == u.pos,
        run(u, dts).heading == u.heading,
        total(dts) >= CAST_MS ==> run(u, dts).state == State::Stopped,
        total(dts) < CAST_MS ==> run(u, dts).state == (State::QSkill { t: total(dts) as u32 }),
{
    lemma_cast_run_from(u, dts);
}

proof fn lemma_cast_run_from(u: NemoView, dts: Seq<u32>)
    requires
        u.state is QSkill,
        u.state->t < CAST_MS,
    ensures
        run(u, dts).pos == u.pos,
        run(u, dts).heading == u.heading,
        u.state->t + total(dts) >= CAST_MS ==> run(u, dts).state == State::Stopped,
        u.state->t + total(dts) < CAST_MS ==> run(u, dts).state == (State::QSkill {
            t: (u.state->t + total(dts)) as u32,
        }),
    decreases dts.len(),
{
    if dts.len() > 0 {
        let v = advance(u, dts[0] as nat);
        if v.state == State::Stopped {
            lemma_run_stopped(v, dts.drop_first());
        } else {
            lemma_cast_run_from(v, dts.drop_first());
        }
    }
}

/// A move command given while the unit casts changes nothing.
pub proof fn lemma_cast_blocks_move(u: NemoView, dest: Point)
    requires
        u.state is QSkill,
    ensures
        command_move(u, dest) == u,
{
}

/// Of two move commands given one after the other, the second wins: the unit
/// heads for the second destination and faces it, provided it is not casting
/// and does not already stand there.
pub proof fn lemma_move_supersedes_move(u: NemoView, d1: Point, d2: Point)
    requires
        !(u.state is QSkill),
        u.pos != d2,
    ensures
        command_move(command_move(u, d1), d2) == (NemoView {
            pos: u.pos,
            heading: heading_to(u.pos, d2),
            state: State::Moving { dest: d2 },
        }),
{
}

impl View for Nemo {
    type V = NemoView;

    closed spec fn view(&self) -> NemoView {
        NemoView { pos: self.pos, heading: self.heading, state: self.state }
    }
}

impl Nemo {
    /// A unit standing still at the origin, facing along the x axis.
    pub fn new() -> (r: Nemo)
        ensures
            r@.pos == (Point { x: 0, y: 0 }),
            r@.heading == (Heading { dx: 1, dy: 0 }),
            r@.state == State::Stopped,
    {
        Nemo { pos: Point { x: 0, y: 0 }, heading: Heading { dx: 1, dy: 0 }, state: State::Stopped }
    }

    /// Orders the unit to walk to `dest`.
    pub fn go(&mut self, dest: Point)
        ensures
            final(self)@ == command_move(old(self)@, dest),
    {
        if let State::QSkill { .. } = self.state {
            return;
        }
        if self.pos == dest {
            return;
        }
        let dx: i64 = dest.x as i64 - self.pos.x as i64;
        let dy: i64 = dest.y as i64 - self.pos.y as i64;
        self.heading = Heading { dx, dy };
        self.state = State::Moving { dest };
    }

    /// Orders the unit to cast its ability.
    pub fn q(&mut self)
        ensures
            final(self)@ == command_cast(old(self)@),
    {
        self.state = State::QSkill { t: 0 };
    }

    /// The flag that the unit's shader reads to pick its colour.
    pub fn q_flag(&self) -> (r: i32)
        ensures
            r == q_flag_of(self@.state),
    {
        match self.state {
            State::QSkill { .. } => 1,
            _ => 0,
        }
    }

    pub fn position(&self) -> (r: Point)
        ensures
            r == self@.pos,
    {
        self.pos
    }

    pub fn heading(&self) -> (r: Heading)
        ensures
            r == self@.heading,
    {
        self.heading
    }

    pub fn state(&self) -> (r: State)
        ensures
            r == self@.state,
    {
        self.state
    }

    /// Advances the simulation of this unit by `elapsed` milliseconds.
    pub fn update(&mut self, elapsed: u32)
        ensures
            final(self)@ == advance(old(self)@, elapsed as nat),
    {
        match self.state {
            State::Stopped => {},
            State::Moving { dest } => {
                let dx: i64 = dest.x as i64 - self.pos.x as i64;
                let dy: i64 = dest.y as i64 - self.pos.y as i64;
                let ax: u128 = if dx >= 0 { dx as u128 } else { (-dx) as u128 };
                let ay: u128 = if dy >= 0 { dy as u128 } else { (-dy) as u128 };
                assert(ax * ax <= 0x1_0000_0000 * 0x1_0000_0000) by (nonlinear_arith)
                    requires ax <= 0x1_0000_0000;
                assert(ay * ay <= 0x1_0000_0000 * 0x1_0000_0000) by (nonlinear_arith)
                    requires ay <= 0x1_0000_0000;
                let n: u128 = ax * ax + ay * ay;
                assert(n as int == dist2(self.pos, dest)) by (nonlinear_arith)
                    requires
                        ax as int == abs(dx as int),
                        ay as int == abs(dy as int),
                        dx == dest.x - self.pos.x,
                        dy == dest.y - self.pos.y,
                        n == ax * ax + ay * ay;
                let step: u64 = SPEED * elapsed as u64;
                let s: u128 = step as u128;
                assert(s * s <= 0x40_0000_0000 * 0x40_0000_0000) by (nonlinear_arith)
                    requires s <= 0x40_0000_0000;
                if n <= s * s {
                    self.pos = dest;
                    self.state = State::Stopped;
                } else {
                    let r = isqrt_ceil(n);
                    proof {
                        lemma_ceil_sqrt_unique(n as int, r as int);
                        assert(s < r) by (nonlinear_arith)
                            requires s * s < n, n <= r * r, r >= 0, s >= 0;
                    }
                    let mx = stride_exec(dx, step, r);
                    let my = stride_exec(dy, step, r);
                    let x: i64 = self.pos.x as i64 + mx;
                    let y: i64 = self.pos.y as i64 + my;
                    self.pos = Point { x: x as i32, y: y as i32 };
                }
            },
            State::QSkill { t } => {
                let total: u64 = t as u64 + elapsed as u64;
                if total >= CAST_MS as u64 {
                    self.state = State::Stopped;
                } else {
                    self.state = State::QSkill { t: total as u32 };
                }
            },
        }
    }
}

} // verus!
