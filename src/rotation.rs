//! The round-robin rotation: the circle method over team positions, and its
//! reshuffling between cycles.
use vstd::prelude::*;
use rand::rngs::StdRng;
use crate::contract::IdAndName;
use crate::random::{flip_coin, shuffle_indices};

verus! {

/// The number of places in the circle: the team count, made even by a bye.
pub open spec fn padded_count(n: int) -> int {
    if n % 2 == 1 { n + 1 } else { n }
}

/// Pairing `k` of round `r` of the circle method over `n` places (`n` even). Place 0
/// stays fixed; the others turn by one place each round. The fixed place meets the
/// first place of the circle, and the rest pair up from both ends inward.
pub open spec fn circle_pair(n: int, r: int, k: int) -> (int, int) {
    let m = n - 1;
    if k == 0 {
        (1 + r % m, 0)
    } else {
        (1 + (k + r) % m, 1 + (m - k + r) % m)
    }
}

/// The rounds as sequences of pairings of team positions.
pub open spec fn rounds_view(rounds: Seq<Vec<(usize, usize)>>) -> Seq<Seq<(usize, usize)>> {
    rounds.map_values(|round: Vec<(usize, usize)>| round@)
}

/// The rotation is the circle method over `n` places.
#[verifier::opaque]
pub open spec fn is_circle_rotation(rotation: Seq<Seq<(usize, usize)>>, n: int) -> bool {
    &&& rotation.len() == n - 1
    &&& forall|r: int| 0 <= r < n - 1 ==> #[trigger] rotation[r].len() == n / 2
    &&& forall|r: int, k: int|
        0 <= r < n - 1 && 0 <= k < n / 2 ==> {
            let p = #[trigger] rotation[r][k];
            (p.0 as int, p.1 as int) == circle_pair(n, r, k)
        }
}

/// The round-robin rotation of `teams`: each pairing holds two positions in
/// `teams`. With an odd count, position `teams.len()` stands for the bye, which
/// makes the count even; there are one round fewer than places, and half as many
/// pairings in each round as places.
pub fn generate_round_robin(teams: &Vec<IdAndName>) -> (r: Vec<Vec<(usize, usize)>>)
    requires
        2 <= teams.len() < usize::MAX / 2,
    ensures
        is_circle_rotation(rounds_view(r@), padded_count(teams.len() as int)),
{
    let n: usize = if teams.len() % 2 == 1 { teams.len() + 1 } else { teams.len() };
    let m: usize = n - 1;
    let mut result: Vec<Vec<(usize, usize)>> = Vec::new();
    let mut r: usize = 0;
    while r < m
        invariant
            n == padded_count(teams.len() as int),
            2 <= n < usize::MAX / 2,
            m == n - 1,
            r <= m,
            result.len() == r,
            forall|q: int| 0 <= q < r ==> #[trigger] result@[q]@.len() == n / 2,
            forall|q: int, k: int|
                0 <= q < r && 0 <= k < n / 2 ==> {
                    let p = #[trigger] result@[q]@[k];
                    (p.0 as int, p.1 as int) == circle_pair(n as int, q, k)
                },
        decreases m - r,
    {
        let mut round: Vec<(usize, usize)> = Vec::new();
        round.push((1 + r % m, 0));
        let mut k: usize = 1;
        while k < n / 2
            invariant
                2 <= n < usize::MAX / 2,
                m == n - 1,
                r < m,
                1 <= k <= n / 2,
                round.len() == k,
                forall|j: int|
                    0 <= j < k ==> {
                        let p = #[trigger] round@[j];
                        (p.0 as int, p.1 as int) == circle_pair(n as int, r as int, j)
                    },
            decreases n / 2 - k,
        {
            round.push((1 + (k + r) % m, 1 + (m - k + r) % m));
            k = k + 1;
        }
        result.push(round);
        r = r + 1;
    }
    assert(rounds_view(result@).len() == result.len());
    proof {
        reveal(is_circle_rotation);
    }
    result
}

/// Reshuffles that may be drawn before the round order is repaired by a swap.
pub const RESHUFFLE_LIMIT: usize = 100;

/// `p` lists each of `0 .. n` once.
pub open spec fn is_permutation(p: Seq<usize>, n: int) -> bool {
    &&& p.len() == n
    &&& forall|i: int| 0 <= i < n ==> p[i] < n
    &&& p.no_duplicates()
}

/// The same two teams, in either order.
pub open spec fn same_pairing(x: (usize, usize), y: (usize, usize)) -> bool {
    x == y || (x.0 == y.1 && x.1 == y.0)
}

/// The round holds the pairing `p`, in either order.
pub open spec fn round_has(round: Seq<(usize, usize)>, p: (usize, usize)) -> bool {
    exists|k: int| 0 <= k < round.len() && same_pairing(#[trigger] round[k], p)
}

/// `new` holds the pairings of `round` in another order, each in either orientation.
pub open spec fn is_round_arrangement(round: Seq<(usize, usize)>, new: Seq<(usize, usize)>) -> bool {
    exists|perm: Seq<usize>|
        is_permutation(perm, round.len() as int) && new.len() == round.len() && forall|k: int|
            0 <= k < new.len() ==> same_pairing(#[trigger] new[k], round[perm[k] as int])
}

/// `new` holds the rounds of `rotation` in another order, each of them rearranged.
pub open spec fn is_arrangement(rotation: Seq<Seq<(usize, usize)>>, new: Seq<Seq<(usize, usize)>>) -> bool {
    exists|order: Seq<usize>|
        is_permutation(order, rotation.len() as int) && new.len() == rotation.len() && forall|i: int|
            0 <= i < new.len() ==> is_round_arrangement(rotation[order[i] as int], #[trigger] new[i])
}

/// The pairing that a pass through the rotation ends on: the first of its last round.
pub open spec fn closing_pairing(rotation: Seq<Seq<(usize, usize)>>) -> (usize, usize) {
    rotation.last()[0]
}

/// Every team position in the rotation is below `n`.
pub open spec fn positions_below(rotation: Seq<Seq<(usize, usize)>>, n: int) -> bool {
    forall|i: int, k: int|
        0 <= i < rotation.len() && 0 <= k < rotation[i].len() ==> (#[trigger] rotation[i][k]).0 < n
            && rotation[i][k].1 < n
}

/// No pairing puts a team against itself.
pub open spec fn pairs_distinct(rotation: Seq<Seq<(usize, usize)>>) -> bool {
    forall|i: int, k: int|
        0 <= i < rotation.len() && 0 <= k < rotation[i].len() ==> (#[trigger] rotation[i][k]).0
            != rotation[i][k].1
}

proof fn lemma_mod_shift_differs(a: int, d: int, m: int)
    requires
        m > 0,
        0 < d < m,
    ensures
        (a + d) % m != a % m,
{
    vstd::arithmetic::div_mod::lemma_fundamental_div_mod(a, m);
    vstd::arithmetic::div_mod::lemma_fundamental_div_mod(a + d, m);
    let q1 = (a + d) / m;
    let q0 = a / m;
    if (a + d) % m == a % m {
        assert(m * q1 - m * q0 == d);
        assert(m * (q1 - q0) == d) by (nonlinear_arith)
            requires
                m * q1 - m * q0 == d,
        ;
        if q1 - q0 >= 1 {
            assert(m * (q1 - q0) >= m) by (nonlinear_arith)
                requires
                    q1 - q0 >= 1,
                    m > 0,
            ;
        } else {
            assert(m * (q1 - q0) <= 0) by (nonlinear_arith)
                requires
                    q1 - q0 <= 0,
                    m > 0,
            ;
        }
    }
}

/// Each pairing of the circle method meets two different places, both below `n`.
pub proof fn lemma_circle_pair_facts(n: int, r: int, k: int)
    requires
        n >= 2,
        n % 2 == 0,
        0 <= r < n - 1,
        0 <= k < n / 2,
    ensures
        0 <= circle_pair(n, r, k).0 < n,
        0 <= circle_pair(n, r, k).1 < n,
        circle_pair(n, r, k).0 != circle_pair(n, r, k).1,
{
    let m = n - 1;
    if k > 0 {
        lemma_mod_shift_differs(k + r, m - 2 * k, m);
        assert(k + r + (m - 2 * k) == m - k + r);
    }
}

/// The circle rotation keeps its positions below `n`, never pairs a place with
/// itself, and has `n / 2` pairings in every round.
pub proof fn lemma_circle_rotation_facts(rotation: Seq<Seq<(usize, usize)>>, n: int)
    requires
        is_circle_rotation(rotation, n),
        n >= 2,
        n % 2 == 0,
    ensures
        positions_below(rotation, n),
        pairs_distinct(rotation),
        forall|i: int| 0 <= i < rotation.len() ==> #[trigger] rotation[i].len() == n / 2,
        rotation.len() == n - 1,
{
    reveal(is_circle_rotation);
    assert forall|i: int, k: int| 0 <= i < rotation.len() && 0 <= k < rotation[i].len() implies (#[trigger] rotation[i][k]).0 < n
        && rotation[i][k].1 < n && rotation[i][k].0 != rotation[i][k].1 by {
        lemma_circle_pair_facts(n, i, k);
    }
}

/// The pairing holds the places `a` and `b`, in either order.
pub open spec fn meets(p: (int, int), a: int, b: int) -> bool {
    (p.0 == a && p.1 == b) || (p.0 == b && p.1 == a)
}

proof fn lemma_mod_once(v: int, m: int)
    requires
        m > 0,
        0 <= v < 2 * m,
    ensures
        v % m == if v < m { v } else { v - m },
{
    if v < m {
        vstd::arithmetic::div_mod::lemma_fundamental_div_mod_converse(v, m, 0, v);
    } else {
        vstd::arithmetic::div_mod::lemma_fundamental_div_mod_converse(v, m, 1, v - m);
    }
}

/// `circle_pair` without the remainders: each sum wraps around the circle at most once.
spec fn circle_pair_linear(n: int, r: int, k: int) -> (int, int) {
    let m = n - 1;
    let u = k + r;
    let v = m - k + r;
    if k == 0 {
        (1 + r, 0)
    } else {
        (1 + if u < m { u } else { u - m }, 1 + if v < m { v } else { v - m })
    }
}

proof fn lemma_circle_pair_linear(n: int, r: int, k: int)
    requires
        n >= 2,
        n % 2 == 0,
        0 <= r < n - 1,
        0 <= k < n / 2,
    ensures
        circle_pair(n, r, k) == circle_pair_linear(n, r, k),
{
    let m = n - 1;
    lemma_mod_once(r, m);
    if k > 0 {
        lemma_mod_once(k + r, m);
        lemma_mod_once(m - k + r, m);
    }
}

proof fn lemma_linear_unique(m: int, h: int, a: int, b: int, r1: int, k1: int, r2: int, k2: int)
    requires
        m == 2 * h + 1,
        h >= 0,
        0 <= r1 < m,
        0 <= r2 < m,
        0 <= k1 <= h,
        0 <= k2 <= h,
        a != b,
        meets(circle_pair_linear(m + 1, r1, k1), a, b),
        meets(circle_pair_linear(m + 1, r2, k2), a, b),
    ensures
        r1 == r2 && k1 == k2,
{
    if k1 == 0 || k2 == 0 {
        // a pairing with the fixed place 0 is the round's first one
        assert(k1 == 0 && k2 == 0);
    } else {
        let u1 = k1 + r1;
        let v1 = m - k1 + r1;
        let u2 = k2 + r2;
        let v2 = m - k2 + r2;
        let x1 = if u1 < m { u1 } else { u1 - m };
        let y1 = if v1 < m { v1 } else { v1 - m };
        let x2 = if u2 < m { u2 } else { u2 - m };
        let y2 = if v2 < m { v2 } else { v2 - m };
        assert(x1 + y1 == x2 + y2);
        assert(r1 == r2);
        if x1 == x2 {
            assert(k1 == k2);
        } else {
            assert(x1 == y2 && y1 == x2);
            assert(false);
        }
    }
}

proof fn lemma_circle_meets_some(n: int, a: int, b: int)
    requires
        n >= 2,
        n % 2 == 0,
        0 <= a < b < n,
    ensures
        exists|r: int, k: int|
            0 <= r < n - 1 && 0 <= k < n / 2 && #[trigger] meets(circle_pair(n, r, k), a, b),
{
    let m = n - 1;
    if a == 0 {
        lemma_circle_pair_linear(n, b - 1, 0);
        assert(meets(circle_pair(n, b - 1, 0), a, b));
    } else {
        let x = a - 1;
        let y = b - 1;
        let s = x + y;
        if s % 2 == 0 {
            let r = s / 2;
            let k = (y - x) / 2;
            lemma_circle_pair_linear(n, r, k);
            assert(meets(circle_pair(n, r, k), a, b));
        } else {
            let r0 = (s + m) / 2;
            let k = (m - (y - x)) / 2;
            let r = if r0 < m { r0 } else { r0 - m };
            lemma_circle_pair_linear(n, r, k);
            assert(meets(circle_pair(n, r, k), a, b));
        }
    }
}

/// Every two different places of the circle meet in exactly one pairing of one
/// round.
pub proof fn lemma_circle_meets_once(n: int, a: int, b: int)
    requires
        n >= 2,
        n % 2 == 0,
        0 <= a < n,
        0 <= b < n,
        a != b,
    ensures
        exists|r: int, k: int|
            0 <= r < n - 1 && 0 <= k < n / 2 && #[trigger] meets(circle_pair(n, r, k), a, b),
        forall|r1: int, k1: int, r2: int, k2: int|
            0 <= r1 < n - 1 && 0 <= k1 < n / 2 && 0 <= r2 < n - 1 && 0 <= k2 < n / 2 && #[trigger] meets(
                circle_pair(n, r1, k1),
                a,
                b,
            ) && #[trigger] meets(circle_pair(n, r2, k2), a, b) ==> r1 == r2 && k1 == k2,
{
    if a < b {
        lemma_circle_meets_some(n, a, b);
    } else {
        lemma_circle_meets_some(n, b, a);
        let (r, k) = choose|r: int, k: int|
            0 <= r < n - 1 && 0 <= k < n / 2 && #[trigger] meets(circle_pair(n, r, k), b, a);
        assert(meets(circle_pair(n, r, k), a, b));
    }
    assert forall|r1: int, k1: int, r2: int, k2: int|
        0 <= r1 < n - 1 && 0 <= k1 < n / 2 && 0 <= r2 < n - 1 && 0 <= k2 < n / 2 && #[trigger] meets(
            circle_pair(n, r1, k1),
            a,
            b,
        ) && #[trigger] meets(circle_pair(n, r2, k2), a, b) implies r1 == r2 && k1 == k2 by {
        lemma_circle_pair_linear(n, r1, k1);
        lemma_circle_pair_linear(n, r2, k2);
        lemma_linear_unique(n - 1, n / 2 - 1, a, b, r1, k1, r2, k2);
    }
}

/// The pairing holds the place `p`.
pub open spec fn holds_place(q: (int, int), p: int) -> bool {
    q.0 == p || q.1 == p
}

proof fn lemma_linear_place_some(m: int, h: int, r: int, p: int)
    requires
        m == 2 * h + 1,
        h >= 0,
        0 <= r < m,
        0 <= p <= m,
    ensures
        exists|k: int| 0 <= k <= h && #[trigger] holds_place(circle_pair_linear(m + 1, r, k), p),
{
    if p == 0 || p - 1 == r {
        assert(holds_place(circle_pair_linear(m + 1, r, 0), p));
    } else {
        let x = p - 1;
        let d = if x > r { x - r } else { x - r + m };
        if d <= h {
            assert(holds_place(circle_pair_linear(m + 1, r, d), p));
        } else {
            assert(holds_place(circle_pair_linear(m + 1, r, m - d), p));
        }
    }
}

proof fn lemma_linear_place_unique(m: int, h: int, r: int, p: int, k1: int, k2: int)
    requires
        m == 2 * h + 1,
        h >= 0,
        0 <= r < m,
        0 <= k1 <= h,
        0 <= k2 <= h,
        holds_place(circle_pair_linear(m + 1, r, k1), p),
        holds_place(circle_pair_linear(m + 1, r, k2), p),
    ensures
        k1 == k2,
{
    if k1 != 0 && k2 != 0 {
        let u1 = k1 + r;
        let v1 = m - k1 + r;
        let u2 = k2 + r;
        let v2 = m - k2 + r;
        let x1 = if u1 < m { u1 } else { u1 - m };
        let y1 = if v1 < m { v1 } else { v1 - m };
        let x2 = if u2 < m { u2 } else { u2 - m };
        let y2 = if v2 < m { v2 } else { v2 - m };
        if x1 + 1 == p && x2 + 1 == p {
            assert(k1 == k2);
        } else if y1 + 1 == p && y2 + 1 == p {
            assert(k1 == k2);
        } else if x1 + 1 == p {
            assert(y2 + 1 == p);
            assert(k1 + k2 == m || k1 + k2 == 0 || k1 + k2 == 2 * m);
        } else {
            assert(y1 + 1 == p && x2 + 1 == p);
            assert(k1 + k2 == m || k1 + k2 == 0 || k1 + k2 == 2 * m);
        }
    }
}

/// Each round of the rotation holds every place of the circle in exactly one
/// pairing: the rounds tile the teams, and with an odd team count each round
/// holds exactly one pairing with the bye place `n`.
pub proof fn lemma_round_tiles(rotation: Seq<Seq<(usize, usize)>>, n: int, r: int, p: int)
    requires
        n >= 2,
        is_circle_rotation(rotation, padded_count(n)),
        0 <= r < rotation.len(),
        0 <= p < padded_count(n),
    ensures
        exists|k: int| 0 <= k < rotation[r].len() && #[trigger] holds_place(places_of(rotation[r][k]), p),
        forall|k1: int, k2: int|
            0 <= k1 < rotation[r].len() && 0 <= k2 < rotation[r].len() && #[trigger] holds_place(
                places_of(rotation[r][k1]),
                p,
            ) && #[trigger] holds_place(places_of(rotation[r][k2]), p) ==> k1 == k2,
{
    reveal(is_circle_rotation);
    let places = padded_count(n);
    let m = places - 1;
    let h = places / 2 - 1;
    lemma_linear_place_some(m, h, r, p);
    let k = choose|k: int| 0 <= k <= h && #[trigger] holds_place(circle_pair_linear(m + 1, r, k), p);
    lemma_circle_pair_linear(places, r, k);
    assert(places_of(rotation[r][k]) == circle_pair(places, r, k));
    assert(holds_place(places_of(rotation[r][k]), p));
    assert forall|k1: int, k2: int|
        0 <= k1 < rotation[r].len() && 0 <= k2 < rotation[r].len() && #[trigger] holds_place(
            places_of(rotation[r][k1]),
            p,
        ) && #[trigger] holds_place(places_of(rotation[r][k2]), p) implies k1 == k2 by {
        lemma_circle_pair_linear(places, r, k1);
        lemma_circle_pair_linear(places, r, k2);
        assert(places_of(rotation[r][k1]) == circle_pair(places, r, k1));
        assert(places_of(rotation[r][k2]) == circle_pair(places, r, k2));
        lemma_linear_place_unique(m, h, r, p, k1, k2);
    }
}

/// A pairing's two positions as integers.
pub open spec fn places_of(p: (usize, usize)) -> (int, int) {
    (p.0 as int, p.1 as int)
}

/// The rotation of `n` teams has one round fewer than the circle has places, and
/// every two different places (the bye's included) meet in exactly one of its
/// pairings; so every two different teams meet exactly once.
pub proof fn lemma_round_robin_complete(rotation: Seq<Seq<(usize, usize)>>, n: int, a: int, b: int)
    requires
        n >= 2,
        is_circle_rotation(rotation, padded_count(n)),
        0 <= a < padded_count(n),
        0 <= b < padded_count(n),
        a != b,
    ensures
        rotation.len() == padded_count(n) - 1,
        exists|r: int, k: int|
            0 <= r < rotation.len() && 0 <= k < rotation[r].len() && #[trigger] meets(
                places_of(rotation[r][k]),
                a,
                b,
            ),
        forall|r1: int, k1: int, r2: int, k2: int|
            0 <= r1 < rotation.len() && 0 <= k1 < rotation[r1].len() && 0 <= r2 < rotation.len() && 0
                <= k2 < rotation[r2].len() && #[trigger] meets(places_of(rotation[r1][k1]), a, b)
                && #[trigger] meets(places_of(rotation[r2][k2]), a, b) ==> r1 == r2 && k1 == k2,
{
    reveal(is_circle_rotation);
    let places = padded_count(n);
    lemma_circle_meets_once(places, a, b);
    let (r, k) = choose|r: int, k: int|
        0 <= r < places - 1 && 0 <= k < places / 2 && #[trigger] meets(circle_pair(places, r, k), a, b);
    assert(places_of(rotation[r][k]) == circle_pair(places, r, k));
    assert(meets(places_of(rotation[r][k]), a, b));
    assert forall|r1: int, k1: int, r2: int, k2: int|
        0 <= r1 < rotation.len() && 0 <= k1 < rotation[r1].len() && 0 <= r2 < rotation.len() && 0
            <= k2 < rotation[r2].len() && #[trigger] meets(places_of(rotation[r1][k1]), a, b)
            && #[trigger] meets(places_of(rotation[r2][k2]), a, b) implies r1 == r2 && k1 == k2 by {
        assert(places_of(rotation[r1][k1]) == circle_pair(places, r1, k1));
        assert(places_of(rotation[r2][k2]) == circle_pair(places, r2, k2));
        assert(meets(circle_pair(places, r1, k1), a, b));
        assert(meets(circle_pair(places, r2, k2), a, b));
    }
}

/// With an odd team count, each team meets the bye place `n` in exactly one
/// pairing of the rotation: one bye per team per pass.
pub proof fn lemma_bye_once_per_team(rotation: Seq<Seq<(usize, usize)>>, n: int, a: int)
    requires
        n >= 2,
        n % 2 == 1,
        is_circle_rotation(rotation, padded_count(n)),
        0 <= a < n,
    ensures
        exists|r: int, k: int|
            0 <= r < rotation.len() && 0 <= k < rotation[r].len() && #[trigger] meets(
                places_of(rotation[r][k]),
                a,
                n,
            ),
        forall|r1: int, k1: int, r2: int, k2: int|
            0 <= r1 < rotation.len() && 0 <= k1 < rotation[r1].len() && 0 <= r2 < rotation.len() && 0
                <= k2 < rotation[r2].len() && #[trigger] meets(places_of(rotation[r1][k1]), a, n)
                && #[trigger] meets(places_of(rotation[r2][k2]), a, n) ==> r1 == r2 && k1 == k2,
{
    lemma_round_robin_complete(rotation, n, a, n);
}

/// No pairing of two different teams occurs in two rounds.
pub open spec fn rounds_disjoint(rotation: Seq<Seq<(usize, usize)>>) -> bool {
    forall|i: int, j: int, p: (usize, usize)|
        0 <= i < rotation.len() && 0 <= j < rotation.len() && i != j && p.0 != p.1 ==> !(
        #[trigger] round_has(rotation[i], p) && #[trigger] round_has(rotation[j], p))
}

/// The circle rotation holds each pairing in one round only.
pub proof fn lemma_circle_rounds_disjoint(rotation: Seq<Seq<(usize, usize)>>, n: int)
    requires
        n >= 2,
        is_circle_rotation(rotation, padded_count(n)),
    ensures
        rounds_disjoint(rotation),
{
    let places = padded_count(n);
    lemma_circle_rotation_facts(rotation, places);
    assert forall|i: int, j: int, p: (usize, usize)|
        0 <= i < rotation.len() && 0 <= j < rotation.len() && i != j && p.0 != p.1 implies !(
        #[trigger] round_has(rotation[i], p) && #[trigger] round_has(rotation[j], p)) by {
        if round_has(rotation[i], p) && round_has(rotation[j], p) {
            let ki = choose|k: int| 0 <= k < rotation[i].len() && same_pairing(#[trigger] rotation[i][k], p);
            let kj = choose|k: int| 0 <= k < rotation[j].len() && same_pairing(#[trigger] rotation[j][k], p);
            assert(rotation[i][ki].0 < places && rotation[i][ki].1 < places);
            lemma_round_robin_complete(rotation, n, p.0 as int, p.1 as int);
            assert(meets(places_of(rotation[i][ki]), p.0 as int, p.1 as int));
            assert(meets(places_of(rotation[j][kj]), p.0 as int, p.1 as int));
        }
    }
}

/// Rearranging keeps each pairing in one round only.
pub proof fn lemma_arrangement_disjoint(rotation: Seq<Seq<(usize, usize)>>, new: Seq<Seq<(usize, usize)>>)
    requires
        is_arrangement(rotation, new),
        rounds_disjoint(rotation),
    ensures
        rounds_disjoint(new),
{
    let order = choose|order: Seq<usize>|
        is_permutation(order, rotation.len() as int) && new.len() == rotation.len() && forall|i: int|
            0 <= i < new.len() ==> is_round_arrangement(rotation[order[i] as int], #[trigger] new[i]);
    assert forall|i: int, j: int, p: (usize, usize)|
        0 <= i < new.len() && 0 <= j < new.len() && i != j && p.0 != p.1 implies !(
        #[trigger] round_has(new[i], p) && #[trigger] round_has(new[j], p)) by {
        if round_has(new[i], p) && round_has(new[j], p) {
            assert(is_round_arrangement(rotation[order[i] as int], new[i]));
            assert(is_round_arrangement(rotation[order[j] as int], new[j]));
            lemma_arranged_round_has(rotation[order[i] as int], new[i], p);
            lemma_arranged_round_has(rotation[order[j] as int], new[j], p);
            assert(order[i] != order[j]);
        }
    }
}

fn identity(n: usize) -> (r: Vec<usize>)
    ensures
        is_permutation(r@, n as int),
        forall|i: int| 0 <= i < n ==> r@[i] == i,
{
    let mut v: Vec<usize> = Vec::new();
    let mut i: usize = 0;
    while i < n
        invariant
            i <= n,
            v.len() == i,
            forall|j: int| 0 <= j < i ==> v@[j] == j,
        decreases n - i,
    {
        v.push(i);
        i = i + 1;
    }
    v
}

proof fn lemma_shuffled_permutation(before: Seq<usize>, after: Seq<usize>, n: int)
    requires
        is_permutation(before, n),
        after.to_multiset() == before.to_multiset(),
    ensures
        is_permutation(after, n),
{
    broadcast use vstd::seq_lib::group_to_multiset_ensures;
    before.lemma_multiset_has_no_duplicates();
    assert forall|x: usize| after.to_multiset().contains(x) implies after.to_multiset().count(x)
        == 1 by {}
    after.lemma_multiset_has_no_duplicates_conv();
    assert(after.len() == after.to_multiset().len());
    assert(before.len() == before.to_multiset().len());
    assert forall|i: int| 0 <= i < n implies after[i] < n by {
        assert(after.contains(after[i]));
        assert(after.to_multiset().count(after[i]) > 0);
        assert(before.contains(after[i]));
        let j = choose|j: int| 0 <= j < before.len() && before[j] == after[i];
        assert(before[j] < n);
    }
}

/// Shuffles `0 .. n` into a permutation drawn from `rng`.
fn draw_permutation(n: usize, rng: &mut StdRng) -> (r: Vec<usize>)
    ensures
        is_permutation(r@, n as int),
        forall|j: usize| j < n ==> #[trigger] r@.contains(j),
{
    let mut order = identity(n);
    let ghost before = order@;
    shuffle_indices(&mut order, rng);
    proof {
        broadcast use vstd::seq_lib::group_to_multiset_ensures;
        lemma_shuffled_permutation(before, order@, n as int);
        assert forall|j: usize| j < n implies #[trigger] order@.contains(j) by {
            assert(before[j as int] == j);
            assert(before.contains(j));
            assert(before.to_multiset().count(j) > 0);
        }
    }
    order
}

/// `n` coin tosses drawn from `rng`.
fn draw_flips(n: usize, rng: &mut StdRng) -> (r: Vec<bool>)
    ensures
        r.len() == n,
{
    let mut flips: Vec<bool> = Vec::new();
    let mut k: usize = 0;
    while k < n
        invariant
            k <= n,
            flips.len() == k,
        decreases n - k,
    {
        flips.push(flip_coin(rng));
        k = k + 1;
    }
    flips
}

/// The pairing with its two teams swapped where `flip` holds.
pub open spec fn oriented(p: (usize, usize), flip: bool) -> (usize, usize) {
    if flip { (p.1, p.0) } else { p }
}

pub open spec fn orders_view(v: Seq<Vec<usize>>) -> Seq<Seq<usize>> {
    v.map_values(|o: Vec<usize>| o@)
}

pub open spec fn flips_view(v: Seq<Vec<bool>>) -> Seq<Seq<bool>> {
    v.map_values(|f: Vec<bool>| f@)
}

/// Round `i` of the result is round `order[i]` of the rotation, its pairing `k`
/// being that round's pairing `perms[i][k]`, turned round where `flips[i][k]` holds.
pub open spec fn arranged(
    rotation: Seq<Seq<(usize, usize)>>,
    order: Seq<usize>,
    perms: Seq<Seq<usize>>,
    flips: Seq<Seq<bool>>,
) -> Seq<Seq<(usize, usize)>> {
    Seq::new(
        order.len(),
        |i: int|
            Seq::new(
                perms[i].len(),
                |k: int| oriented(rotation[order[i] as int][perms[i][k] as int], flips[i][k]),
            ),
    )
}

/// The drawn values fit the rotation: `order` permutes its rounds, and `perms[i]`
/// the pairings of round `order[i]`, with one flip per pairing.
pub open spec fn fits_draws(
    rotation: Seq<Seq<(usize, usize)>>,
    order: Seq<usize>,
    perms: Seq<Seq<usize>>,
    flips: Seq<Seq<bool>>,
) -> bool {
    &&& is_permutation(order, rotation.len() as int)
    &&& perms.len() == order.len()
    &&& flips.len() == order.len()
    &&& forall|i: int|
        0 <= i < order.len() ==> is_permutation(
            #[trigger] perms[i],
            rotation[order[i] as int].len() as int,
        ) && flips[i].len() == perms[i].len()
}

/// Rebuilds the rotation from drawn values: the rounds in the order `order`, the
/// pairings of each round in the order `perms`, and the teams of a pairing swapped
/// where `flips` says so.
pub fn arrange_rotation(
    round_robin: &Vec<Vec<(usize, usize)>>,
    order: &Vec<usize>,
    perms: &Vec<Vec<usize>>,
    flips: &Vec<Vec<bool>>,
) -> (r: Vec<Vec<(usize, usize)>>)
    requires
        fits_draws(rounds_view(round_robin@), order@, orders_view(perms@), flips_view(flips@)),
    ensures
        rounds_view(r@) == arranged(
            rounds_view(round_robin@),
            order@,
            orders_view(perms@),
            flips_view(flips@),
        ),
        is_arrangement(rounds_view(round_robin@), rounds_view(r@)),
{
    let ghost rot = rounds_view(round_robin@);
    let ghost pv = orders_view(perms@);
    let ghost fv = flips_view(flips@);
    let ghost target = arranged(rot, order@, pv, fv);
    let mut result: Vec<Vec<(usize, usize)>> = Vec::new();
    let mut i: usize = 0;
    while i < order.len()
        invariant
            fits_draws(rot, order@, pv, fv),
            rot == rounds_view(round_robin@),
            pv == orders_view(perms@),
            fv == flips_view(flips@),
            target == arranged(rot, order@, pv, fv),
            i <= order.len(),
            result.len() == i,
            forall|q: int| 0 <= q < i ==> #[trigger] result@[q]@ == target[q],
        decreases order.len() - i,
    {
        let round = &round_robin[order[i]];
        let perm = &perms[i];
        let flip = &flips[i];
        assert(pv[i as int] == perm@ && fv[i as int] == flip@ && rot[order@[i as int] as int] == round@);
        assert(is_permutation(pv[i as int], rot[order@[i as int] as int].len() as int));
        let mut new: Vec<(usize, usize)> = Vec::new();
        let mut k: usize = 0;
        while k < perm.len()
            invariant
                is_permutation(perm@, round.len() as int),
                flip.len() == perm.len(),
                k <= perm.len(),
                new.len() == k,
                forall|j: int|
                    0 <= j < k ==> #[trigger] new@[j] == oriented(round@[perm@[j] as int], flip@[j]),
            decreases perm.len() - k,
        {
            let p = round[perm[k]];
            if flip[k] {
                new.push((p.1, p.0));
            } else {
                new.push(p);
            }
            k = k + 1;
        }
        assert(new@ =~= target[i as int]);
        result.push(new);
        i = i + 1;
    }
    proof {
        let rv = rounds_view(result@);
        assert(rv =~= target) by {
            assert forall|q: int| 0 <= q < rv.len() implies rv[q] == target[q] by {
                assert(rv[q] == result@[q]@);
            }
        }
        assert forall|q: int| 0 <= q < rv.len() implies is_round_arrangement(
            rot[order@[q] as int],
            #[trigger] rv[q],
        ) by {
            assert(is_permutation(pv[q], rot[order@[q] as int].len() as int));
            assert forall|k: int| 0 <= k < rv[q].len() implies same_pairing(
                #[trigger] rv[q][k],
                rot[order@[q] as int][pv[q][k] as int],
            ) by {}
        }
        assert(is_permutation(order@, rot.len() as int));
    }
    result
}

/// Whether the round holds the pairing `p`, in either order.
fn round_holds(round: &Vec<(usize, usize)>, p: (usize, usize)) -> (r: bool)
    ensures
        r == round_has(round@, p),
{
    let mut k: usize = 0;
    while k < round.len()
        invariant
            k <= round.len(),
            forall|j: int| 0 <= j < k ==> !same_pairing(#[trigger] round@[j], p),
        decreases round.len() - k,
    {
        let q = round[k];
        if (q.0 == p.0 && q.1 == p.1) || (q.0 == p.1 && q.1 == p.0) {
            return true;
        }
        k = k + 1;
    }
    false
}

proof fn lemma_arranged_round_has(round: Seq<(usize, usize)>, new: Seq<(usize, usize)>, p: (usize, usize))
    requires
        is_round_arrangement(round, new),
        round_has(new, p),
    ensures
        round_has(round, p),
{
    let perm = choose|perm: Seq<usize>|
        is_permutation(perm, round.len() as int) && new.len() == round.len() && forall|k: int|
            0 <= k < new.len() ==> same_pairing(#[trigger] new[k], round[perm[k] as int]);
    let k = choose|k: int| 0 <= k < new.len() && same_pairing(#[trigger] new[k], p);
    assert(same_pairing(new[k], round[perm[k] as int]));
    assert(same_pairing(round[perm[k] as int], p));
}

/// Rearranging keeps the positions in range and the round lengths.
pub proof fn lemma_arrangement_keeps(
    rotation: Seq<Seq<(usize, usize)>>,
    new: Seq<Seq<(usize, usize)>>,
    n: int,
    len: int,
)
    requires
        is_arrangement(rotation, new),
        positions_below(rotation, n),
        pairs_distinct(rotation),
        forall|i: int| 0 <= i < rotation.len() ==> #[trigger] rotation[i].len() == len,
    ensures
        positions_below(new, n),
        pairs_distinct(new),
        forall|i: int| 0 <= i < new.len() ==> #[trigger] new[i].len() == len,
{
    let order = choose|order: Seq<usize>|
        is_permutation(order, rotation.len() as int) && new.len() == rotation.len() && forall|i: int|
            0 <= i < new.len() ==> is_round_arrangement(rotation[order[i] as int], #[trigger] new[i]);
    assert forall|i: int| 0 <= i < new.len() implies #[trigger] new[i].len() == len by {
        assert(is_round_arrangement(rotation[order[i] as int], new[i]));
    }
    assert forall|i: int, k: int| 0 <= i < new.len() && 0 <= k < new[i].len() implies (#[trigger] new[i][k]).0 < n
        && new[i][k].1 < n && new[i][k].0 != new[i][k].1 by {
        let old_round = rotation[order[i] as int];
        assert(is_round_arrangement(old_round, new[i]));
        let perm = choose|perm: Seq<usize>|
            is_permutation(perm, old_round.len() as int) && new[i].len() == old_round.len() && forall|k: int|
                0 <= k < new[i].len() ==> same_pairing(#[trigger] new[i][k], old_round[perm[k] as int]);
        assert(same_pairing(new[i][k], old_round[perm[k] as int]));
        assert(old_round[perm[k] as int] == rotation[order[i] as int][perm[k] as int]);
    }
}

proof fn lemma_swap_permutation(p: Seq<usize>, n: int, a: int, b: int)
    requires
        is_permutation(p, n),
        0 <= a < n,
        0 <= b < n,
    ensures
        is_permutation(p.update(a, p[b]).update(b, p[a]), n),
{
    let q = p.update(a, p[b]).update(b, p[a]);
    assert forall|i: int, j: int| 0 <= i < q.len() && 0 <= j < q.len() && i != j implies q[i] != q[j] by {
        let si = if i == a { b } else if i == b { a } else { i };
        let sj = if j == a { b } else if j == b { a } else { j };
        assert(q[i] == p[si]);
        assert(q[j] == p[sj]);
    }
}

/// The first draw from position `i` on whose first round lacks the pairing `p`, or
/// -1 where there is none.
pub open spec fn first_fresh(
    rotation: Seq<Seq<(usize, usize)>>,
    draws: Seq<Seq<usize>>,
    p: (usize, usize),
    i: int,
) -> int
    decreases draws.len() - i,
{
    if i < 0 || i >= draws.len() {
        -1
    } else if !round_has(rotation[draws[i][0] as int], p) {
        i
    } else {
        first_fresh(rotation, draws, p, i + 1)
    }
}

/// The first round from position `j` on that lacks the pairing `p`, or -1.
pub open spec fn first_lacking(rotation: Seq<Seq<(usize, usize)>>, p: (usize, usize), j: int) -> int
    decreases rotation.len() - j,
{
    if j < 0 || j >= rotation.len() {
        -1
    } else if !round_has(rotation[j], p) {
        j
    } else {
        first_lacking(rotation, p, j + 1)
    }
}

/// The first position from `at` on that holds `x`, or -1.
pub open spec fn position_of(s: Seq<usize>, x: usize, at: int) -> int
    decreases s.len() - at,
{
    if at < 0 || at >= s.len() {
        -1
    } else if s[at] == x {
        at
    } else {
        position_of(s, x, at + 1)
    }
}

/// The round order chosen from the drawn orders: the first that does not open with
/// the pairing the rotation ended on; failing that, the last one, with the first
/// round that lacks that pairing swapped to the front (if there is such a round).
pub open spec fn picked_order(rotation: Seq<Seq<(usize, usize)>>, draws: Seq<Seq<usize>>) -> Seq<usize> {
    let p = closing_pairing(rotation);
    let f = first_fresh(rotation, draws, p, 0);
    let last = draws.last();
    let j = first_lacking(rotation, p, 0);
    let at = position_of(last, j as usize, 0);
    if f >= 0 {
        draws[f]
    } else if j < 0 || at < 0 {
        last
    } else {
        last.update(0, j as usize).update(at, last[0])
    }
}

proof fn lemma_first_lacking(rotation: Seq<Seq<(usize, usize)>>, p: (usize, usize), j: int)
    requires
        0 <= j,
    ensures
        first_lacking(rotation, p, j) == -1 || (j <= first_lacking(rotation, p, j) < rotation.len()
            && !round_has(rotation[first_lacking(rotation, p, j)], p)),
        (exists|i: int| j <= i < rotation.len() && !round_has(#[trigger] rotation[i], p))
            ==> first_lacking(rotation, p, j) >= 0,
    decreases rotation.len() - j,
{
    if j < rotation.len() && round_has(rotation[j], p) {
        lemma_first_lacking(rotation, p, j + 1);
        if exists|i: int| j <= i < rotation.len() && !round_has(#[trigger] rotation[i], p) {
            let i = choose|i: int| j <= i < rotation.len() && !round_has(#[trigger] rotation[i], p);
            assert(i != j);
        }
    }
}

proof fn lemma_position_of(s: Seq<usize>, x: usize, at: int)
    requires
        0 <= at,
    ensures
        position_of(s, x, at) == -1 || (at <= position_of(s, x, at) < s.len() && s[position_of(s, x, at)] == x),
        (exists|i: int| at <= i < s.len() && #[trigger] s[i] == x) ==> position_of(s, x, at) >= 0,
    decreases s.len() - at,
{
    if at < s.len() && s[at] != x {
        lemma_position_of(s, x, at + 1);
        if exists|i: int| at <= i < s.len() && #[trigger] s[i] == x {
            let i = choose|i: int| at <= i < s.len() && #[trigger] s[i] == x;
            assert(i != at);
        }
    }
}

fn copy_order(v: &Vec<usize>) -> (r: Vec<usize>)
    ensures
        r@ == v@,
{
    let mut r: Vec<usize> = Vec::new();
    let mut i: usize = 0;
    while i < v.len()
        invariant
            i <= v.len(),
            r@ == v@.subrange(0, i as int),
        decreases v.len() - i,
    {
        r.push(v[i]);
        i = i + 1;
        assert(r@ =~= v@.subrange(0, i as int));
    }
    assert(v@.subrange(0, v.len() as int) =~= v@);
    r
}

/// Chooses the round order of the next pass from the drawn orders, as
/// `picked_order` says. Where some round lacks the pairing that the rotation ended
/// on, the chosen order does not open with that pairing.
pub fn pick_round_order(round_robin: &Vec<Vec<(usize, usize)>>, draws: &Vec<Vec<usize>>) -> (r: Vec<usize>)
    requires
        round_robin.len() > 0,
        round_robin@.last()@.len() > 0,
        draws.len() > 0,
        forall|d: int|
            0 <= d < draws.len() ==> is_permutation(#[trigger] draws@[d]@, round_robin.len() as int),
        forall|j: usize| j < round_robin.len() ==> #[trigger] draws@.last()@.contains(j),
    ensures
        r@ == picked_order(rounds_view(round_robin@), orders_view(draws@)),
        is_permutation(r@, round_robin.len() as int),
        (exists|i: int|
            0 <= i < round_robin.len() && !round_has(
                #[trigger] rounds_view(round_robin@)[i],
                closing_pairing(rounds_view(round_robin@)),
            )) ==> !round_has(
            rounds_view(round_robin@)[r@[0] as int],
            closing_pairing(rounds_view(round_robin@)),
        ),
{
    let ghost rot = rounds_view(round_robin@);
    let ghost dv = orders_view(draws@);
    let n = round_robin.len();
    let closing = round_robin[n - 1][0];
    assert(closing == closing_pairing(rot));
    let mut i: usize = 0;
    while i < draws.len()
        invariant
            rot == rounds_view(round_robin@),
            dv == orders_view(draws@),
            n == round_robin.len(),
            n > 0,
            closing == closing_pairing(rot),
            forall|d: int| 0 <= d < draws.len() ==> is_permutation(#[trigger] draws@[d]@, n as int),
            i <= draws.len(),
            first_fresh(rot, dv, closing, 0) == first_fresh(rot, dv, closing, i as int),
        decreases draws.len() - i,
    {
        let draw = &draws[i];
        assert(dv[i as int] == draw@);
        assert(is_permutation(draw@, n as int));
        assert(rot[draw@[0] as int] == round_robin@[draw@[0] as int]@);
        if !round_holds(&round_robin[draw[0]], closing) {
            return copy_order(draw);
        }
        i = i + 1;
    }
    let last = &draws[draws.len() - 1];
    assert(dv.last() == last@);
    let mut j: usize = 0;
    while j < n && round_holds(&round_robin[j], closing)
        invariant
            rot == rounds_view(round_robin@),
            n == round_robin.len(),
            j <= n,
            first_lacking(rot, closing, 0) == first_lacking(rot, closing, j as int),
            forall|q: int| 0 <= q < j ==> round_has(#[trigger] rot[q], closing),
        decreases n - j,
    {
        assert(rot[j as int] == round_robin@[j as int]@);
        j = j + 1;
    }
    if j == n {
        assert(first_lacking(rot, closing, 0) == -1);
        return copy_order(last);
    }
    assert(rot[j as int] == round_robin@[j as int]@);
    assert(first_lacking(rot, closing, 0) == j);
    let mut at: usize = 0;
    while at < n && last[at] != j
        invariant
            n == last.len(),
            at <= n,
            position_of(last@, j, 0) == position_of(last@, j, at as int),
            forall|q: int| 0 <= q < at ==> last@[q] != j,
        decreases n - at,
    {
        at = at + 1;
    }
    proof {
        assert(last@ == draws@.last()@);
        assert(draws@.last()@.contains(j));
        assert(last@.contains(j));
        let w = choose|w: int| 0 <= w < last@.len() && last@[w] == j;
        assert(at < n) by {
            if at == n {
                assert(last@[w] != j);
            }
        }
        lemma_swap_permutation(last@, n as int, 0, at as int);
    }
    let mut order = copy_order(last);
    let first = order[0];
    order.set(0, j);
    order.set(at, first);
    assert(order@ =~= last@.update(0, j).update(at as int, last@[0]));
    assert(order@[0] == j);
    order
}

/// Reshuffles the rotation for its next pass: the rounds in a random order, the
/// pairings of each round in a random order, and the two teams of each pairing in
/// a random order. Round orders are drawn until one does not open with the pairing
/// that the rotation ended on (the first of its last round), at most
/// `RESHUFFLE_LIMIT + 1` of them; `pick_round_order` and `arrange_rotation` make
/// the new rotation from the draws. Whatever is drawn, the result rearranges the
/// rotation and does not open with that pairing, unless every round holds it.
pub fn shuffle_round_robin(round_robin: &mut Vec<Vec<(usize, usize)>>, rng: &mut StdRng)
    requires
        old(round_robin).len() > 0,
        old(round_robin)@.last()@.len() > 0,
    ensures
        is_arrangement(rounds_view(old(round_robin)@), rounds_view(final(round_robin)@)),
        (exists|i: int|
            0 <= i < old(round_robin).len() && !round_has(
                #[trigger] old(round_robin)@[i]@,
                closing_pairing(rounds_view(old(round_robin)@)),
            )) ==> !round_has(
            final(round_robin)@[0]@,
            closing_pairing(rounds_view(old(round_robin)@)),
        ),
{
    let n = round_robin.len();
    let closing = round_robin[n - 1][0];
    let ghost rot = rounds_view(round_robin@);
    let mut draws: Vec<Vec<usize>> = Vec::new();
    let mut done = false;
    while !done
        invariant
            n == round_robin.len(),
            n > 0,
            rot == rounds_view(round_robin@),
            draws.len() <= RESHUFFLE_LIMIT + 1,
            !done ==> draws.len() <= RESHUFFLE_LIMIT,
            done ==> draws.len() > 0,
            forall|d: int| 0 <= d < draws.len() ==> is_permutation(#[trigger] draws@[d]@, n as int),
            draws.len() > 0 ==> forall|j: usize| j < n ==> #[trigger] draws@.last()@.contains(j),
        decreases RESHUFFLE_LIMIT + 1 - draws.len(),
    {
        let order = draw_permutation(n, rng);
        done = !round_holds(&round_robin[order[0]], closing) || draws.len() == RESHUFFLE_LIMIT;
        draws.push(order);
    }
    let order = pick_round_order(round_robin, &draws);
    let mut perms: Vec<Vec<usize>> = Vec::new();
    let mut flips: Vec<Vec<bool>> = Vec::new();
    let mut i: usize = 0;
    while i < n
        invariant
            n == round_robin.len(),
            is_permutation(order@, n as int),
            i <= n,
            perms.len() == i,
            flips.len() == i,
            forall|q: int|
                0 <= q < i ==> is_permutation(
                    #[trigger] perms@[q]@,
                    round_robin@[order@[q] as int]@.len() as int,
                ) && flips@[q].len() == perms@[q].len(),
        decreases n - i,
    {
        let len = round_robin[order[i]].len();
        let perm = draw_permutation(len, rng);
        let flip = draw_flips(len, rng);
        perms.push(perm);
        flips.push(flip);
        i = i + 1;
    }
    proof {
        let pv = orders_view(perms@);
        let fv = flips_view(flips@);
        assert forall|q: int| 0 <= q < order.len() implies is_permutation(
            #[trigger] pv[q],
            rot[order@[q] as int].len() as int,
        ) && fv[q].len() == pv[q].len() by {
            assert(pv[q] == perms@[q]@);
            assert(fv[q] == flips@[q]@);
            assert(rot[order@[q] as int] == round_robin@[order@[q] as int]@);
        }
    }
    let new = arrange_rotation(round_robin, &order, &perms, &flips);
    proof {
        let nv = rounds_view(new@);
        let pv = orders_view(perms@);
        let fv = flips_view(flips@);
        assert forall|i: int| 0 <= i < n implies #[trigger] rot[i] == round_robin@[i]@ by {}
        if exists|i: int| 0 <= i < n && !round_has(#[trigger] round_robin@[i]@, closing) {
            let i = choose|i: int| 0 <= i < n && !round_has(#[trigger] round_robin@[i]@, closing);
            assert(!round_has(rot[i], closing));
            assert(!round_has(rot[order@[0] as int], closing));
            let first = nv[0];
            assert(first == new@[0]@);
            if round_has(first, closing) {
                let k = choose|k: int| 0 <= k < first.len() && same_pairing(#[trigger] first[k], closing);
                assert(first[k] == oriented(rot[order@[0] as int][pv[0][k] as int], fv[0][k]));
                assert(is_permutation(pv[0], rot[order@[0] as int].len() as int));
                assert(same_pairing(rot[order@[0] as int][pv[0][k] as int], closing));
            }
        }
    }
    *round_robin = new;
}

} // verus!
