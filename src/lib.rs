//! Turns a league specification into a fixture list of games and byes.
use vstd::prelude::*;

pub mod contract;
pub mod calendar;
pub mod validate;
pub mod slots;
pub mod rotation;
pub mod random;
pub mod schedule;

pub use crate::rotation::{generate_round_robin, shuffle_round_robin};
pub use crate::slots::generate_shells;
pub use crate::validate::validate;

use rand::rngs::StdRng;
use crate::contract::{GameShell, IdAndName, LeagueSpec, TeamEvent};
use crate::rotation::{
    closing_pairing, is_arrangement, is_circle_rotation, lemma_arrangement_disjoint,
    lemma_arrangement_keeps, lemma_circle_rotation_facts, lemma_circle_rounds_disjoint,
    padded_count, pairs_distinct, positions_below, round_has, rounds_disjoint, rounds_view,
    same_pairing,
};
use crate::schedule::{group_nights, nights_view, play_night, round_fits, schedule_events, split_nights};
use crate::slots::{all_shells, kept_locations_declared, lemma_kept_locations_declared, locations_declared};
use crate::validate::{date_errors, is_valid_spec, validation_errors};
use crate::calendar::is_valid_date;
use crate::random::seeded_rng;

verus! {

/// The round played on night `t`: passes of `len` rounds follow each other.
#[verifier::opaque]
pub open spec fn rounds_played(passes: Seq<Seq<Seq<(usize, usize)>>>, len: int, nights: int) -> Seq<Seq<(usize, usize)>> {
    Seq::new(nights as nat, |t: int| passes[t / len][t % len])
}

/// The pass before pass `c`: the rotation itself before the first.
pub open spec fn pass_before(
    rotation: Seq<Seq<(usize, usize)>>,
    passes: Seq<Seq<Seq<(usize, usize)>>>,
    c: int,
) -> Seq<Seq<(usize, usize)>> {
    if c == 0 { rotation } else { passes[c - 1] }
}

/// `next` does not open with the pairing that `prev` ended on, unless every round
/// of `prev` holds it.
pub open spec fn opens_fresh(prev: Seq<Seq<(usize, usize)>>, next: Seq<Seq<(usize, usize)>>) -> bool {
    (exists|i: int| 0 <= i < prev.len() && !round_has(#[trigger] prev[i], closing_pairing(prev)))
        ==> !round_has(next[0], closing_pairing(prev))
}

/// Each pass rearranges the one before it and opens fresh after it.
#[verifier::opaque]
pub open spec fn is_pass_chain(rotation: Seq<Seq<(usize, usize)>>, passes: Seq<Seq<Seq<(usize, usize)>>>) -> bool {
    forall|c: int|
        0 <= c < passes.len() ==> is_arrangement(pass_before(rotation, passes, c), #[trigger] passes[c])
            && opens_fresh(pass_before(rotation, passes, c), passes[c])
}

proof fn lemma_chain_push(
    rotation: Seq<Seq<(usize, usize)>>,
    passes: Seq<Seq<Seq<(usize, usize)>>>,
    next: Seq<Seq<(usize, usize)>>,
)
    requires
        is_pass_chain(rotation, passes),
        is_arrangement(pass_before(rotation, passes, passes.len() as int), next),
        opens_fresh(pass_before(rotation, passes, passes.len() as int), next),
    ensures
        is_pass_chain(rotation, passes.push(next)),
{
    reveal(is_pass_chain);
    let longer = passes.push(next);
    assert forall|c: int| 0 <= c < longer.len() implies is_arrangement(pass_before(rotation, longer, c), #[trigger] longer[c])
        && opens_fresh(pass_before(rotation, longer, c), longer[c]) by {
        if c < passes.len() {
            assert(longer[c] == passes[c]);
            assert(pass_before(rotation, longer, c) == pass_before(rotation, passes, c));
        } else {
            assert(longer[c] == next);
            assert(pass_before(rotation, longer, c) == pass_before(rotation, passes, c));
        }
    }
}

/// What every pass of a chain keeps from the circle rotation of `n` teams.
proof fn lemma_chain_keeps(
    rotation: Seq<Seq<(usize, usize)>>,
    passes: Seq<Seq<Seq<(usize, usize)>>>,
    n: int,
    c: int,
)
    requires
        n >= 2,
        is_circle_rotation(rotation, padded_count(n)),
        is_pass_chain(rotation, passes),
        0 <= c <= passes.len(),
    ensures
        pass_before(rotation, passes, c).len() == padded_count(n) - 1,
        forall|i: int|
            0 <= i < pass_before(rotation, passes, c).len() ==> #[trigger] pass_before(
                rotation,
                passes,
                c,
            )[i].len() == padded_count(n) / 2,
        pairs_distinct(pass_before(rotation, passes, c)),
        positions_below(pass_before(rotation, passes, c), padded_count(n)),
        rounds_disjoint(pass_before(rotation, passes, c)),
    decreases c,
{
    let places = padded_count(n);
    if c == 0 {
        lemma_circle_rotation_facts(rotation, places);
        lemma_circle_rounds_disjoint(rotation, n);
    } else {
        lemma_chain_keeps(rotation, passes, n, c - 1);
        let prev = pass_before(rotation, passes, c - 1);
        reveal(is_pass_chain);
        assert(is_arrangement(prev, passes[c - 1]));
        lemma_arrangement_keeps(prev, passes[c - 1], places, places / 2);
        lemma_arrangement_disjoint(prev, passes[c - 1]);
    }
}

/// With three teams or more, no pass opens with a pairing that the pass before it
/// (for the first pass, the rotation) ended on: the pairing that closes one cycle
/// does not reopen the next.
pub proof fn lemma_no_immediate_rematch(
    rotation: Seq<Seq<(usize, usize)>>,
    passes: Seq<Seq<Seq<(usize, usize)>>>,
    n: int,
    c: int,
)
    requires
        n >= 3,
        is_circle_rotation(rotation, padded_count(n)),
        is_pass_chain(rotation, passes),
        0 <= c < passes.len(),
    ensures
        !round_has(passes[c][0], closing_pairing(pass_before(rotation, passes, c))),
{
    let prev = pass_before(rotation, passes, c);
    lemma_chain_keeps(rotation, passes, n, c);
    let last = prev.len() - 1;
    let p = closing_pairing(prev);
    assert(prev[last][0] == p);
    assert(same_pairing(prev[last][0], p));
    assert(round_has(prev[last], p));
    assert(p.0 != p.1);
    assert(!round_has(prev[0], p));
    reveal(is_pass_chain);
    assert(opens_fresh(prev, passes[c]));
}

/// The events lay reshuffled passes through the circle rotation of the teams over
/// the game nights of the specification, one round a night.
pub open spec fn is_fixture_list(spec: LeagueSpec, events: Seq<TeamEvent>) -> bool {
    let n = spec.teams.len() as int;
    let nights = group_nights(all_shells(spec));
    let len = padded_count(n) - 1;
    exists|rotation: Seq<Seq<(usize, usize)>>, passes: Seq<Seq<Seq<(usize, usize)>>>|
        #[trigger] is_pass_chain(rotation, passes)
        && is_circle_rotation(rotation, padded_count(n))
        && passes.len() == passes_needed(nights.len() as int, len)
        && events == schedule_events(spec.teams@, n, nights, rounds_played(passes, len, nights.len() as int))
}

proof fn lemma_valid_spec_facts(spec: LeagueSpec)
    requires
        is_valid_spec(spec),
    ensures
        is_valid_date(spec.start_date),
        is_valid_date(spec.end_date),
        locations_declared(spec),
        kept_locations_declared(spec),
        spec.teams.len() >= 2,
{
    reveal(validation_errors);
    assert(date_errors(spec).len() == 0);
    lemma_kept_locations_declared(spec);
}

/// Passes of `len` rounds needed to cover `total` nights.
#[verifier::opaque]
pub open spec fn passes_needed(total: int, len: int) -> int {
    (total + len - 1) / len
}

/// Night `t` is played as round `rd - 1` of pass `passes - 1`, for passes of `len`
/// rounds.
#[verifier::opaque]
spec fn walk_at(t: int, passes: int, len: int, rd: int) -> bool {
    t == (passes - 1) * len + rd
}

proof fn lemma_walk_new_pass(t: int, passes: int, len: int)
    requires
        len >= 1,
        (t == 0 && passes == 0) || (passes >= 1 && walk_at(t, passes, len, len)),
    ensures
        walk_at(t, passes + 1, len, 0),
{
    reveal(walk_at);
    assert(t == passes * len) by (nonlinear_arith)
        requires
            (t == 0 && passes == 0) || (t == (passes - 1) * len + len),
    ;
}

proof fn lemma_played_push(
    passes: Seq<Seq<Seq<(usize, usize)>>>,
    next: Seq<Seq<(usize, usize)>>,
    len: int,
    t: int,
)
    requires
        len >= 1,
        t >= 0,
        t <= passes.len() * len,
    ensures
        rounds_played(passes.push(next), len, t) == rounds_played(passes, len, t),
{
    reveal(rounds_played);
    assert forall|q: int| 0 <= q < t implies #[trigger] rounds_played(passes.push(next), len, t)[q]
        == rounds_played(passes, len, t)[q] by {
        vstd::arithmetic::div_mod::lemma_fundamental_div_mod(q, len);
        assert(q / len < passes.len()) by (nonlinear_arith)
            requires
                q == len * (q / len) + q % len,
                0 <= q % len,
                q < passes.len() * len,
                len >= 1,
        ;
        assert(passes.push(next)[q / len] == passes[q / len]);
    }
    assert(rounds_played(passes.push(next), len, t) =~= rounds_played(passes, len, t));
}

proof fn lemma_walk_bound(t: int, passes: int, len: int, rd: int)
    requires
        len >= 1,
        passes >= 1,
        0 <= rd <= len,
        walk_at(t, passes, len, rd),
    ensures
        t <= passes * len,
        t >= 0,
{
    reveal(walk_at);
    assert(t <= passes * len && t >= 0) by (nonlinear_arith)
        requires
            t == (passes - 1) * len + rd,
            0 <= rd <= len,
            passes >= 1,
    ;
}

proof fn lemma_played_step(passes: Seq<Seq<Seq<(usize, usize)>>>, len: int, t: int, rd: int)
    requires
        len >= 1,
        passes.len() >= 1,
        0 <= rd < len,
        walk_at(t, passes.len() as int, len, rd),
    ensures
        rounds_played(passes, len, t + 1) == rounds_played(passes, len, t).push(passes.last()[rd]),
        walk_at(t + 1, passes.len() as int, len, rd + 1),
        t >= 0,
{
    reveal(walk_at);
    reveal(rounds_played);
    vstd::arithmetic::div_mod::lemma_fundamental_div_mod_converse(t, len, passes.len() - 1, rd);
    assert(t >= 0) by (nonlinear_arith)
        requires
            t == (passes.len() - 1) * len + rd,
            passes.len() >= 1,
            len >= 1,
            rd >= 0,
    ;
    assert(rounds_played(passes, len, t + 1) =~= rounds_played(passes, len, t).push(passes.last()[rd]));
}

proof fn lemma_pass_count(total: int, passes: int, len: int, rd: int)
    requires
        len >= 1,
        (total == 0 && passes == 0) || (passes >= 1 && 1 <= rd <= len && walk_at(total, passes, len, rd)),
    ensures
        passes == passes_needed(total, len),
{
    reveal(walk_at);
    reveal(passes_needed);
    if total == 0 && passes == 0 {
        vstd::arithmetic::div_mod::lemma_fundamental_div_mod_converse(len - 1, len, 0, len - 1);
    } else {
        assert(total + len - 1 == passes * len + (rd - 1)) by (nonlinear_arith)
            requires
                total == (passes - 1) * len + rd,
        ;
        vstd::arithmetic::div_mod::lemma_fundamental_div_mod_converse(total + len - 1, len, passes, rd - 1);
    }
}

/// Lays passes through the rotation over the nights, one round a night, and
/// reshuffles the rotation before each pass.
fn lay_passes(
    teams: &Vec<IdAndName>,
    nights: &Vec<Vec<GameShell>>,
    round_robin: Vec<Vec<(usize, usize)>>,
    rng: &mut StdRng,
) -> (r: (Vec<TeamEvent>, Ghost<Seq<Seq<Seq<(usize, usize)>>>>))
    requires
        2 <= teams.len(),
        is_circle_rotation(rounds_view(round_robin@), padded_count(teams.len() as int)),
        forall|i: int| 0 <= i < nights.len() ==> #[trigger] nights@[i].len() > 0,
    ensures
        is_pass_chain(rounds_view(round_robin@), r.1@),
        r.1@.len() == passes_needed(nights.len() as int, padded_count(teams.len() as int) - 1),
        r.0@ == schedule_events(
            teams@,
            teams.len() as int,
            nights_view(nights@),
            rounds_played(r.1@, padded_count(teams.len() as int) - 1, nights.len() as int),
        ),
{
    let ghost n = teams.len() as int;
    let ghost places = padded_count(n);
    let ghost rotation = rounds_view(round_robin@);
    proof {
        lemma_circle_rotation_facts(rotation, places);
        assert forall|i: int| 0 <= i < round_robin.len() implies #[trigger] round_robin@[i]@ == rotation[i] by {}
    }
    let mut round_robin = round_robin;
    let len = round_robin.len();
    let mut events: Vec<TeamEvent> = Vec::new();
    let mut rd: usize = len;
    let ghost mut passes: Seq<Seq<Seq<(usize, usize)>>> = seq![];
    let ghost all_nights = nights_view(nights@);
    assert(is_pass_chain(rotation, passes)) by {
        reveal(is_pass_chain);
    }
    let mut t: usize = 0;
    while t < nights.len()
        invariant
            n == teams.len(),
            places == padded_count(n),
            places <= n + 1,
            len == places - 1,
            len >= 1,
            round_robin.len() == len,
            positions_below(rounds_view(round_robin@), places),
            pairs_distinct(rounds_view(round_robin@)),
            forall|i: int| 0 <= i < len ==> #[trigger] round_robin@[i]@.len() == places / 2,
            1 <= rd <= len,
            t == 0 ==> passes.len() == 0 && rd == len && rounds_view(round_robin@) == rotation,
            t > 0 ==> passes.len() >= 1 && walk_at(t as int, passes.len() as int, len as int, rd as int)
                && rounds_view(round_robin@) == passes.last(),
            is_pass_chain(rotation, passes),
            t <= nights.len(),
            all_nights == nights_view(nights@),
            forall|i: int| 0 <= i < nights.len() ==> #[trigger] nights@[i].len() > 0,
            events@ == schedule_events(
                teams@,
                n,
                all_nights.subrange(0, t as int),
                rounds_played(passes, len as int, t as int),
            ),
        decreases nights.len() - t,
    {
        if rd == len {
            let ghost prev = rounds_view(round_robin@);
            let ghost prev_vecs = round_robin@;
            assert(round_robin@.last()@ == prev.last());
            shuffle_round_robin(&mut round_robin, rng);
            proof {
                let next = rounds_view(round_robin@);
                assert(prev == pass_before(rotation, passes, passes.len() as int));
                assert forall|i: int| 0 <= i < prev.len() implies #[trigger] prev[i] == prev_vecs[i]@ by {}
                assert(next[0] == round_robin@[0]@);
                assert(opens_fresh(prev, next));
                lemma_chain_push(rotation, passes, next);
                lemma_arrangement_keeps(prev, next, places, places / 2);
                assert forall|i: int| 0 <= i < len implies #[trigger] round_robin@[i]@.len() == places / 2 by {
                    assert(next[i] == round_robin@[i]@);
                }
                lemma_walk_new_pass(t as int, passes.len() as int, len as int);
                if t > 0 {
                    lemma_walk_bound(t as int, passes.len() as int, len as int, rd as int);
                }
                lemma_played_push(passes, next, len as int, t as int);
                passes = passes.push(next);
            }
            rd = 0;
        }
        proof {
            lemma_played_step(passes, len as int, t as int, rd as int);
            assert(round_fits(round_robin@[rd as int]@, n)) by {
                assert(rounds_view(round_robin@)[rd as int] == round_robin@[rd as int]@);
            }
        }
        let ghost before = events@;
        play_night(teams, &round_robin[rd], &nights[t], &mut events);
        proof {
            let done = all_nights.subrange(0, t + 1);
            assert(done.drop_last() =~= all_nights.subrange(0, t as int));
            assert(done.last() == nights@[t as int]@);
            assert(round_robin@[rd as int]@ == passes.last()[rd as int]);
            let played = rounds_played(passes, len as int, t + 1);
            assert(played.drop_last() =~= rounds_played(passes, len as int, t as int));
            assert(played.last() == passes.last()[rd as int]);
        }
        rd = rd + 1;
        t = t + 1;
    }
    proof {
        let total = nights.len() as int;
        assert(all_nights.subrange(0, total) =~= all_nights);
        lemma_pass_count(total, passes.len() as int, len as int, rd as int);
    }
    (events, Ghost(passes))
}

/// Validates the specification and, when it holds no error, lays the round-robin
/// rotation of its teams over its game nights. Each pass through the rotation is
/// reshuffled with draws from a generator seeded with `seed`, so a seed fixes the
/// outcome. An odd team count gives one bye a round, reported as a `Bye` event.
pub fn generate_games(spec: &LeagueSpec, seed: u64) -> (r: Result<Vec<TeamEvent>, Vec<&'static str>>)
    requires
        spec.teams.len() < usize::MAX / 2,
    ensures
        match r {
            Ok(events) => is_valid_spec(*spec) && is_fixture_list(*spec, events@),
            Err(errors) => !is_valid_spec(*spec) && errors@ == validation_errors(*spec),
        },
{
    let errors = validate(spec);
    if errors.len() > 0 {
        return Err(errors);
    }
    proof {
        lemma_valid_spec_facts(*spec);
    }
    let shells = generate_shells(spec);
    let nights = split_nights(&shells);
    let round_robin = generate_round_robin(&spec.teams);
    let ghost rotation = rounds_view(round_robin@);
    let mut rng = seeded_rng(seed);
    let (events, passes) = lay_passes(&spec.teams, &nights, round_robin, &mut rng);
    Ok(events)
}

} // verus!
