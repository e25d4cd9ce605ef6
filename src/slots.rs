//! Expanding the weekly game times into concrete game slots over the date window.
use vstd::prelude::*;
use crate::calendar::{
    between_dates, calendar_day, date_of_day, date_of_number, day_number, is_valid_date,
    weekday_of_day, weekday_of_number,
};
use crate::contract::{GameShell, GameTime, IdAndName, LeagueSpec, Time};
use crate::validate::{declared_ids, is_valid_spec, total_slots, used_location_ids, validation_errors};

verus! {

/// The (time, venue id) combinations of one game time, venue by venue.
pub open spec fn combos_of(gt: GameTime) -> Seq<(Time, Seq<char>)> {
    gt.location_ids@.map_values(|id: String| (gt.time, id@))
}

/// All (time, venue id) combinations of a night, game time by game time.
pub open spec fn combos(game_times: Seq<GameTime>) -> Seq<(Time, Seq<char>)>
    decreases game_times.len(),
{
    if game_times.len() == 0 {
        seq![]
    } else {
        combos(game_times.drop_last()) + combos_of(game_times.last())
    }
}

/// Games a night: half the teams, and never more than the combinations offered.
pub open spec fn games_per_night(spec: LeagueSpec) -> int {
    let cap = (spec.teams.len() / 2) as int;
    let offered = combos(spec.game_weekday.game_times@).len() as int;
    if cap < offered { cap } else { offered }
}

/// `k` is the first position of a venue with the id `id`.
pub open spec fn is_first_match(locations: Seq<IdAndName>, id: Seq<char>, k: int) -> bool {
    &&& 0 <= k < locations.len()
    &&& locations[k].id@ == id
    &&& forall|m: int| 0 <= m < k ==> locations[m].id@ != id
}

/// The first venue with the id `id`.
pub open spec fn location_index(locations: Seq<IdAndName>, id: Seq<char>) -> int {
    choose|k: int| is_first_match(locations, id, k)
}

/// The night's slots as (time, venue position) pairs, in game time then venue order.
pub open spec fn night_plan(spec: LeagueSpec) -> Seq<(Time, int)> {
    combos(spec.game_weekday.game_times@).take(games_per_night(spec)).map_values(
        |c: (Time, Seq<char>)| (c.0, location_index(spec.locations@, c.1)),
    )
}

/// The slots of the day numbered `n`: none unless it falls on the game weekday.
pub open spec fn night_shells(spec: LeagueSpec, n: int) -> Seq<GameShell> {
    if weekday_of_number(n) == spec.game_weekday.day {
        night_plan(spec).map_values(
            |p: (Time, int)|
                GameShell { date: date_of_number(n), time: p.0, location: spec.locations@[p.1] },
        )
    } else {
        seq![]
    }
}

/// The slots of the days numbered `from` up to `to`, `to` excluded.
pub open spec fn shells_between(spec: LeagueSpec, from: int, to: int) -> Seq<GameShell>
    decreases to - from,
{
    if to <= from {
        seq![]
    } else {
        shells_between(spec, from, to - 1) + night_shells(spec, to - 1)
    }
}

/// Every venue that a game time names is declared.
pub open spec fn locations_declared(spec: LeagueSpec) -> bool {
    used_location_ids(spec.game_weekday.game_times@).subset_of(declared_ids(spec.locations@))
}

/// Every venue that a kept slot of the night names is declared; the combinations
/// past the nightly cap are never looked up.
pub open spec fn kept_locations_declared(spec: LeagueSpec) -> bool {
    forall|k: int|
        0 <= k < games_per_night(spec) ==> declared_ids(spec.locations@).contains(
            (#[trigger] combos(spec.game_weekday.game_times@)[k]).1,
        )
}

/// The slots of the whole date window, day by day.
pub open spec fn all_shells(spec: LeagueSpec) -> Seq<GameShell> {
    shells_between(spec, day_number(spec.start_date), day_number(spec.end_date) + 1)
}

proof fn lemma_combos_len(game_times: Seq<GameTime>)
    ensures
        combos(game_times).len() == total_slots(game_times),
    decreases game_times.len(),
{
    if game_times.len() > 0 {
        lemma_combos_len(game_times.drop_last());
    }
}

/// On a valid specification a day on the game weekday has exactly half the team
/// count of slots, and any other day none.
pub proof fn lemma_night_capacity(spec: LeagueSpec, n: int)
    requires
        is_valid_spec(spec),
    ensures
        night_shells(spec, n).len() == if weekday_of_number(n) == spec.game_weekday.day {
            spec.teams.len() / 2
        } else {
            0
        },
{
    reveal(validation_errors);
    lemma_combos_len(spec.game_weekday.game_times@);
}

proof fn lemma_combos_prefix(gts: Seq<GameTime>, i: int)
    requires
        0 <= i <= gts.len(),
    ensures
        combos(gts.subrange(0, i)).len() <= combos(gts).len(),
        forall|k: int|
            0 <= k < combos(gts.subrange(0, i)).len() ==> #[trigger] combos(gts.subrange(0, i))[k]
                == combos(gts)[k],
    decreases gts.len(),
{
    if i == gts.len() {
        assert(gts.subrange(0, i) =~= gts);
    } else {
        lemma_combos_prefix(gts.drop_last(), i);
        assert(gts.drop_last().subrange(0, i) =~= gts.subrange(0, i));
    }
}

proof fn lemma_combos_used(gts: Seq<GameTime>)
    ensures
        forall|k: int|
            0 <= k < combos(gts).len() ==> used_location_ids(gts).contains(
                (#[trigger] combos(gts)[k]).1,
            ),
    decreases gts.len(),
{
    if gts.len() > 0 {
        let init = gts.drop_last();
        lemma_combos_used(init);
        assert forall|k: int| 0 <= k < combos(gts).len() implies used_location_ids(gts).contains(
            (#[trigger] combos(gts)[k]).1,
        ) by {
            if k < combos(init).len() {
                assert(combos(gts)[k] == combos(init)[k]);
                assert(used_location_ids(init).contains(combos(init)[k].1));
                let (i, j) = choose|i: int, j: int|
                    0 <= i < init.len() && 0 <= j < init[i].location_ids.len()
                        && init[i].location_ids@[j]@ == combos(init)[k].1;
                assert(init[i] == gts[i]);
            } else {
                let j = k - combos(init).len();
                assert(combos(gts)[k] == combos_of(gts.last())[j]);
                assert(gts[gts.len() - 1].location_ids@[j]@ == combos(gts)[k].1);
            }
        }
    }
}

/// Where every named venue is declared, so is every kept one.
pub proof fn lemma_kept_locations_declared(spec: LeagueSpec)
    requires
        locations_declared(spec),
    ensures
        kept_locations_declared(spec),
{
    lemma_combos_used(spec.game_weekday.game_times@);
}

fn find_location(locations: &Vec<IdAndName>, id: &String) -> (r: usize)
    requires
        declared_ids(locations@).contains(id@),
    ensures
        r < locations.len(),
        r == location_index(locations@, id@),
{
    let mut k: usize = 0;
    while k < locations.len()
        invariant
            k <= locations.len(),
            declared_ids(locations@).contains(id@),
            forall|m: int| 0 <= m < k ==> locations@[m].id@ != id@,
        decreases locations.len() - k,
    {
        if locations[k].id == *id {
            assert(is_first_match(locations@, id@, k as int));
            let ghost c = location_index(locations@, id@);
            assert(is_first_match(locations@, id@, c));
            assert(c == k) by {
                if c < k {
                    assert(locations@[c].id@ != id@);
                } else if k < c {
                    assert(locations@[k as int].id@ != id@);
                }
            }
            return k;
        }
        k = k + 1;
    }
    assert(false);
    0
}

proof fn lemma_combos_step(gts: Seq<GameTime>, i: int)
    requires
        0 <= i < gts.len(),
    ensures
        combos(gts.subrange(0, i + 1)) == combos(gts.subrange(0, i)) + combos_of(gts[i]),
{
    assert(gts.subrange(0, i + 1).drop_last() =~= gts.subrange(0, i));
}

/// The positions `night_plan` describes, computed once for every game night.
fn plan_night(spec: &LeagueSpec) -> (r: Vec<(Time, usize)>)
    requires
        kept_locations_declared(*spec),
    ensures
        r.len() == night_plan(*spec).len(),
        forall|k: int|
            0 <= k < r.len() ==> r@[k].0 == night_plan(*spec)[k].0 && r@[k].1 as int
                == night_plan(*spec)[k].1 && night_plan(*spec)[k].1 < spec.locations.len(),
{
    let cap = spec.teams.len() / 2;
    let gts = &spec.game_weekday.game_times;
    let locations = &spec.locations;
    let ghost all = combos(gts@);
    let mut plan: Vec<(Time, usize)> = Vec::new();
    let mut i: usize = 0;
    while i < gts.len()
        invariant
            i <= gts.len(),
            cap == spec.teams.len() / 2,
            gts == spec.game_weekday.game_times,
            locations == spec.locations,
            kept_locations_declared(*spec),
            plan.len() <= cap,
            plan.len() <= combos(gts@.subrange(0, i as int)).len(),
            plan.len() < cap ==> plan.len() == combos(gts@.subrange(0, i as int)).len(),
            forall|k: int|
                0 <= k < plan.len() ==> {
                    let c = #[trigger] combos(gts@.subrange(0, i as int))[k];
                    plan@[k].0 == c.0 && plan@[k].1 as int == location_index(locations@, c.1)
                        && plan@[k].1 < locations.len()
                },
        decreases gts.len() - i,
    {
        proof {
            lemma_combos_step(gts@, i as int);
        }
        let ghost before = combos(gts@.subrange(0, i as int));
        let ghost after = combos(gts@.subrange(0, i + 1));
        let gt = &gts[i];
        let mut j: usize = 0;
        while j < gt.location_ids.len()
            invariant
                i < gts.len(),
                gt == gts@[i as int],
                j <= gt.location_ids.len(),
                cap == spec.teams.len() / 2,
                gts == spec.game_weekday.game_times,
                locations == spec.locations,
                kept_locations_declared(*spec),
                after == before + combos_of(gts@[i as int]),
                after == combos(gts@.subrange(0, i + 1)),
                i + 1 <= gts.len(),
                plan.len() <= cap,
                plan.len() <= before.len() + j,
                plan.len() < cap ==> plan.len() == before.len() + j,
                forall|k: int|
                    0 <= k < plan.len() ==> {
                        let c = #[trigger] after[k];
                        plan@[k].0 == c.0 && plan@[k].1 as int == location_index(locations@, c.1)
                            && plan@[k].1 < locations.len()
                    },
            decreases gt.location_ids.len() - j,
        {
            if plan.len() < cap {
                let id = &gt.location_ids[j];
                let ghost q = plan.len() as int;
                assert(after[q] == (gt.time, id@));
                proof {
                    lemma_combos_prefix(gts@, i + 1);
                    assert(after[q] == combos(gts@)[q]);
                }
                assert(declared_ids(locations@).contains(id@));
                let at = find_location(locations, id);
                plan.push((gt.time, at));
            }
            j = j + 1;
        }
        i = i + 1;
    }
    assert(gts@.subrange(0, i as int) =~= gts@);
    plan
}

/// Every game slot of the date window: for each day from the start date to the end
/// date, both included, that falls on the game weekday, the night's slots in game
/// time then venue order, at most half the team count of them.
pub fn generate_shells(spec: &LeagueSpec) -> (r: Vec<GameShell>)
    requires
        is_valid_date(spec.start_date),
        is_valid_date(spec.end_date),
        kept_locations_declared(*spec),
    ensures
        r@ == all_shells(*spec),
{
    let plan = plan_night(spec);
    let start = calendar_day(spec.start_date).unwrap();
    let end = calendar_day(spec.end_date).unwrap();
    let ghost night = night_plan(*spec);
    let mut result: Vec<GameShell> = Vec::new();
    let mut n: i64 = start as i64;
    while n <= end as i64
        invariant
            start <= n,
            n <= end + 1 || n == start,
            start == day_number(spec.start_date),
            end == day_number(spec.end_date),
            is_valid_date(spec.start_date),
            is_valid_date(spec.end_date),
            plan.len() == night.len(),
            night == night_plan(*spec),
            forall|k: int|
                0 <= k < plan.len() ==> plan@[k].0 == night[k].0 && plan@[k].1 as int
                    == night[k].1 && night[k].1 < spec.locations.len(),
            result@ == shells_between(*spec, start as int, n as int),
        decreases end + 1 - n,
    {
        let day = n as i32;
        assert(between_dates(day as int)) by {
            assert(is_valid_date(spec.start_date) && is_valid_date(spec.end_date)
                && day_number(spec.start_date) <= day <= day_number(spec.end_date));
        }
        let ghost before = result@;
        if weekday_of_day(day) == spec.game_weekday.day {
            let date = date_of_day(day);
            let mut k: usize = 0;
            while k < plan.len()
                invariant
                    k <= plan.len(),
                    date == date_of_number(n as int),
                    plan.len() == night.len(),
                    forall|q: int|
                        0 <= q < plan.len() ==> plan@[q].0 == night[q].0 && plan@[q].1 as int
                            == night[q].1 && night[q].1 < spec.locations.len(),
                    result.len() == before.len() + k,
                    forall|q: int| 0 <= q < before.len() ==> result@[q] == before[q],
                    forall|q: int|
                        0 <= q < k ==> result@[before.len() + q] == (GameShell {
                            date: date,
                            time: night[q].0,
                            location: spec.locations@[night[q].1],
                        }),
                decreases plan.len() - k,
            {
                let at = plan[k].1;
                assert(at == night[k as int].1);
                let location = spec.locations[at].duplicate();
                result.push(GameShell { date: date, time: plan[k].0, location: location });
                k = k + 1;
            }
            assert(result@ =~= before + night_shells(*spec, n as int));
        } else {
            assert(result@ =~= before + night_shells(*spec, n as int));
        }
        n = n + 1;
    }
    result
}

} // verus!
