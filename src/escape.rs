use vstd::prelude::*;

verus! {

/// Each closure is a function: a call on given arguments has one possible result.
pub open spec fn deterministic<S, Z, K, W, T>(start: Z, known: K, bounded: W, step: T) -> bool where
    Z: Fn(u32, u32) -> S,
    K: Fn(&S) -> bool,
    W: Fn(&S) -> bool,
    T: Fn(&S) -> S,
 {
    &&& forall|px: u32, py: u32, a: S, b: S|
        #[trigger] start.ensures((px, py), a) && #[trigger] start.ensures((px, py), b) ==> a == b
    &&& forall|s: S, a: bool, b: bool|
        #[trigger] known.ensures((&s,), a) && #[trigger] known.ensures((&s,), b) ==> a == b
    &&& forall|s: S, a: bool, b: bool|
        #[trigger] bounded.ensures((&s,), a) && #[trigger] bounded.ensures((&s,), b) ==> a == b
    &&& forall|s: S, a: S, b: S|
        #[trigger] step.ensures((&s,), a) && #[trigger] step.ensures((&s,), b) ==> a == b
}

/// `orbit` starts at `first` and each state is a result of `step` on the one before.
pub open spec fn is_orbit<S, T: Fn(&S) -> S>(step: T, first: S, orbit: Seq<S>) -> bool {
    &&& orbit.len() >= 1
    &&& orbit[0] == first
    &&& forall|k: int| 0 <= k < orbit.len() - 1 ==> step.ensures((&orbit[k],), #[trigger] orbit[k + 1])
}

/// Iterating from `first`, the radius test holds on the first `n` states and,
/// unless the cap `i_max` was reached, fails on the next one: the escape count is `n`.
pub open spec fn escapes_at<S, W: Fn(&S) -> bool, T: Fn(&S) -> S>(
    bounded: W,
    step: T,
    first: S,
    i_max: nat,
    n: nat,
) -> bool {
    &&& n <= i_max
    &&& exists|orbit: Seq<S>|
        {
            &&& orbit.len() == n + 1
            &&& is_orbit(step, first, orbit)
            &&& forall|k: int| 0 <= k < n ==> bounded.ensures((&orbit[k],), true)
            &&& n < i_max ==> bounded.ensures((&orbit[n as int],), false)
        }
}

/// `r` is the escape count of pixel `(px, py)`: the cap when the point is a
/// known member of the set, otherwise the count of iterations before escape.
pub open spec fn escape_result<S, Z, K, W, T>(
    start: Z,
    known: K,
    bounded: W,
    step: T,
    px: u32,
    py: u32,
    i_max: u32,
    r: u32,
) -> bool where
    Z: Fn(u32, u32) -> S,
    K: Fn(&S) -> bool,
    W: Fn(&S) -> bool,
    T: Fn(&S) -> S,
 {
    exists|c: S, member: bool|
        {
            &&& start.ensures((px, py), c)
            &&& known.ensures((&c,), member)
            &&& member ==> r == i_max
            &&& !member ==> escapes_at(bounded, step, c, i_max as nat, r as nat)
        }
}

/// Every closure may be called on every argument.
pub open spec fn callable<S, Z, K, W, T>(start: Z, known: K, bounded: W, step: T) -> bool where
    Z: Fn(u32, u32) -> S,
    K: Fn(&S) -> bool,
    W: Fn(&S) -> bool,
    T: Fn(&S) -> S,
 {
    &&& forall|px: u32, py: u32| start.requires((px, py))
    &&& forall|s: S| known.requires((&s,))
    &&& forall|s: S| bounded.requires((&s,))
    &&& forall|s: S| step.requires((&s,))
}

/// Escape count of pixel `(px, py)`, capped at `i_max`.
///
/// `start` maps the pixel to its initial orbit state, `known` is the closed-form
/// membership test (main cardioid or period-2 bulb), `bounded` tells whether a
/// state is still within the escape radius, and `step` applies the recurrence once.
pub fn calc<S, Z, K, W, T>(
    px: u32,
    py: u32,
    start: &Z,
    known: &K,
    bounded: &W,
    step: &T,
    i_max: u32,
) -> (r: u32) where
    Z: Fn(u32, u32) -> S,
    K: Fn(&S) -> bool,
    W: Fn(&S) -> bool,
    T: Fn(&S) -> S,

    requires
        callable(*start, *known, *bounded, *step),
    ensures
        r <= i_max,
        escape_result(*start, *known, *bounded, *step, px, py, i_max, r),
{
    let c = start(px, py);
    let member = known(&c);
    if member {
        assert(escape_result(*start, *known, *bounded, *step, px, py, i_max, i_max));
        return i_max;
    }
    let mut z = c;
    let mut i: u32 = 0;
    let ghost orbit: Seq<S> = seq![z];
    while i < i_max && bounded(&z)
        invariant
            callable(*start, *known, *bounded, *step),
            start.ensures((px, py), c),
            known.ensures((&c,), member),
            !member,
            i <= i_max,
            orbit.len() == i + 1,
            is_orbit(*step, c, orbit),
            orbit[i as int] == z,
            forall|k: int| 0 <= k < i ==> bounded.ensures((&orbit[k],), true),
        decreases i_max - i,
    {
        let next = step(&z);
        proof {
            orbit = orbit.push(next);
        }
        z = next;
        i = i + 1;
    }
    assert(escapes_at(*bounded, *step, c, i_max as nat, i as nat));
    assert(escape_result(*start, *known, *bounded, *step, px, py, i_max, i));
    i
}

/// An escape count lies between zero and the cap.
pub proof fn lemma_escape_within_cap<S, Z, K, W, T>(
    start: Z,
    known: K,
    bounded: W,
    step: T,
    px: u32,
    py: u32,
    i_max: u32,
    r: u32,
) where
    Z: Fn(u32, u32) -> S,
    K: Fn(&S) -> bool,
    W: Fn(&S) -> bool,
    T: Fn(&S) -> S,

    requires
        escape_result(start, known, bounded, step, px, py, i_max, r),
    ensures
        0 <= r <= i_max,
{
}

/// Two orbits of a deterministic `step` from the same first state agree
/// wherever both are defined.
proof fn lemma_orbits_agree<S, T: Fn(&S) -> S>(step: T, first: S, a: Seq<S>, b: Seq<S>, k: int)
    requires
        forall|s: S, x: S, y: S| #[trigger] step.ensures((&s,), x) && #[trigger] step.ensures((&s,), y) ==> x == y,
        is_orbit(step, first, a),
        is_orbit(step, first, b),
        0 <= k < a.len(),
        k < b.len(),
    ensures
        a[k] == b[k],
    decreases k,
{
    if k > 0 {
        lemma_orbits_agree(step, first, a, b, k - 1);
        assert(step.ensures((&a[k - 1],), a[k - 1 + 1]));
        assert(step.ensures((&b[k - 1],), b[k - 1 + 1]));
    }
}

/// The escape count is determined by its inputs: when the supplied arithmetic
/// is deterministic, two evaluations of the same pixel with the same cap agree.
pub proof fn lemma_escape_deterministic<S, Z, K, W, T>(
    start: Z,
    known: K,
    bounded: W,
    step: T,
    px: u32,
    py: u32,
    i_max: u32,
    r1: u32,
    r2: u32,
) where
    Z: Fn(u32, u32) -> S,
    K: Fn(&S) -> bool,
    W: Fn(&S) -> bool,
    T: Fn(&S) -> S,

    requires
        deterministic(start, known, bounded, step),
        escape_result(start, known, bounded, step, px, py, i_max, r1),
        escape_result(start, known, bounded, step, px, py, i_max, r2),
    ensures
        r1 == r2,
{
    let (c1, m1) = choose|c: S, member: bool|
        {
            &&& start.ensures((px, py), c)
            &&& known.ensures((&c,), member)
            &&& member ==> r1 == i_max
            &&& !member ==> escapes_at(bounded, step, c, i_max as nat, r1 as nat)
        };
    let (c2, m2) = choose|c: S, member: bool|
        {
            &&& start.ensures((px, py), c)
            &&& known.ensures((&c,), member)
            &&& member ==> r2 == i_max
            &&& !member ==> escapes_at(bounded, step, c, i_max as nat, r2 as nat)
        };
    assert(c1 == c2);
    assert(m1 == m2);
    if !m1 {
        let o1 = choose|orbit: Seq<S>|
            {
                &&& orbit.len() == r1 + 1
                &&& is_orbit(step, c1, orbit)
                &&& forall|k: int| 0 <= k < r1 ==> bounded.ensures((&orbit[k],), true)
                &&& r1 < i_max ==> bounded.ensures((&orbit[r1 as int],), false)
            };
        let o2 = choose|orbit: Seq<S>|
            {
                &&& orbit.len() == r2 + 1
                &&& is_orbit(step, c1, orbit)
                &&& forall|k: int| 0 <= k < r2 ==> bounded.ensures((&orbit[k],), true)
                &&& r2 < i_max ==> bounded.ensures((&orbit[r2 as int],), false)
            };
        if r1 < r2 {
            lemma_orbits_agree(step, c1, o1, o2, r1 as int);
            assert(bounded.ensures((&o2[r1 as int],), true));
        } else if r2 < r1 {
            lemma_orbits_agree(step, c1, o1, o2, r2 as int);
            assert(bounded.ensures((&o1[r2 as int],), true));
        }
    }
}

} // verus!
