//! Consistency checks on a league specification, made before any schedule is
//! generated.
use vstd::prelude::*;
use crate::calendar::{
    calendar_day, day_number, is_final_date, is_last_date, is_time_of_day, is_valid_date,
    is_valid_time, weekday_of_day, weekday_of_number, between_dates,
};
use crate::contract::{GameTime, IdAndName, LeagueSpec, Time};

verus! {

pub const START_DATE_WRONG_WEEKDAY: &'static str = "The start date does not occur on the day of the week.";
pub const END_DATE_WRONG_WEEKDAY: &'static str = "The end date does not occur on the day of the week.";
pub const END_DATE_TOO_LATE: &'static str = "The end date occurs too far in the future";
pub const START_NOT_BEFORE_END: &'static str = "The start date must occur before end date.";
pub const START_DATE_INVALID: &'static str = "Start date is an invalid date";
pub const END_DATE_INVALID: &'static str = "End date is an invalid date";
pub const LOCATIONS_MISMATCH: &'static str = "Locations used in game_weekday are not equal to the list of locations";
pub const TOO_FEW_TEAMS: &'static str = "There must be at least two teams";
pub const NO_LOCATIONS: &'static str = "There must be at least one location";
pub const NO_GAME_TIMES: &'static str = "There must be at least one game time for the game weekday";
pub const GAME_TIME_WITHOUT_LOCATION: &'static str = "There must be at least one location id for each game time for the game weekday";
pub const REPEATED_GAME_TIMES: &'static str = "There cannot be repeating game times on a particular day";
pub const INVALID_GAME_TIMES: &'static str = "All game times must be valid times";
pub const WRONG_GAMES_PER_WEEK: &'static str = "There are a different number of possible games per week than team matchups";

/// The errors on the date window, in the order in which they are reported. A
/// check that needs a date is made whenever that date is real.
pub open spec fn date_errors(spec: LeagueSpec) -> Seq<&'static str> {
    let s = spec.start_date;
    let e = spec.end_date;
    let day = spec.game_weekday.day;
    flag(!is_valid_date(s), START_DATE_INVALID)
        + flag(!is_valid_date(e), END_DATE_INVALID)
        + flag(is_valid_date(s) && weekday_of_number(day_number(s)) != day, START_DATE_WRONG_WEEKDAY)
        + flag(is_valid_date(e) && weekday_of_number(day_number(e)) != day, END_DATE_WRONG_WEEKDAY)
        + flag(is_valid_date(e) && is_last_date(e), END_DATE_TOO_LATE)
        + flag(
            is_valid_date(s) && is_valid_date(e) && day_number(s) >= day_number(e),
            START_NOT_BEFORE_END,
        )
}

/// The venue ids that the game times name.
pub open spec fn used_location_ids(game_times: Seq<GameTime>) -> Set<Seq<char>> {
    Set::new(|id: Seq<char>| exists|i: int, j: int|
        0 <= i < game_times.len() && 0 <= j < game_times[i].location_ids.len()
            && game_times[i].location_ids@[j]@ == id)
}

/// The ids of the declared venues.
pub open spec fn declared_ids(locations: Seq<IdAndName>) -> Set<Seq<char>> {
    Set::new(|id: Seq<char>| exists|k: int| 0 <= k < locations.len() && locations[k].id@ == id)
}

pub open spec fn minute_of_day(t: Time) -> int {
    t.hour * 60 + t.min
}

pub open spec fn has_repeated_time(game_times: Seq<GameTime>) -> bool {
    exists|i: int, j: int|
        0 <= i < game_times.len() && 0 <= j < game_times.len() && i != j
            && minute_of_day(game_times[i].time) == minute_of_day(game_times[j].time)
}

/// The number of (time, venue) combinations: the games one night can host.
pub open spec fn total_slots(game_times: Seq<GameTime>) -> int
    decreases game_times.len(),
{
    if game_times.len() == 0 {
        0
    } else {
        total_slots(game_times.drop_last()) + game_times.last().location_ids.len()
    }
}

/// `msg` alone where `cond` holds, else nothing.
pub open spec fn flag(cond: bool, msg: &'static str) -> Seq<&'static str> {
    if cond { seq![msg] } else { seq![] }
}

pub open spec fn has_time_without_location(game_times: Seq<GameTime>) -> bool {
    exists|i: int| 0 <= i < game_times.len() && game_times[i].location_ids.len() == 0
}

pub open spec fn has_invalid_time(game_times: Seq<GameTime>) -> bool {
    exists|i: int| 0 <= i < game_times.len() && !is_valid_time(game_times[i].time)
}

/// Every error of the specification, in the order in which they are reported.
#[verifier::opaque]
pub open spec fn validation_errors(spec: LeagueSpec) -> Seq<&'static str> {
    let gts = spec.game_weekday.game_times@;
    date_errors(spec)
        + flag(used_location_ids(gts) != declared_ids(spec.locations@), LOCATIONS_MISMATCH)
        + flag(spec.teams.len() < 2, TOO_FEW_TEAMS)
        + flag(spec.locations.len() == 0, NO_LOCATIONS)
        + flag(gts.len() == 0, NO_GAME_TIMES)
        + flag(has_time_without_location(gts), GAME_TIME_WITHOUT_LOCATION)
        + flag(has_repeated_time(gts), REPEATED_GAME_TIMES)
        + flag(has_invalid_time(gts), INVALID_GAME_TIMES)
        + flag(total_slots(gts) != spec.teams.len() / 2, WRONG_GAMES_PER_WEEK)
}

/// What a valid specification guarantees to the generator.
pub open spec fn is_valid_spec(spec: LeagueSpec) -> bool {
    validation_errors(spec).len() == 0
}

/// No check hides another: an invalid start date and an invalid end date are
/// both reported, and every check that fails adds its error, whatever the other
/// checks find.
pub proof fn lemma_every_failure_reported(spec: LeagueSpec)
    ensures
        !is_valid_date(spec.start_date) ==> validation_errors(spec).contains(START_DATE_INVALID),
        !is_valid_date(spec.end_date) ==> validation_errors(spec).contains(END_DATE_INVALID),
        is_valid_date(spec.start_date) && weekday_of_number(day_number(spec.start_date))
            != spec.game_weekday.day ==> validation_errors(spec).contains(START_DATE_WRONG_WEEKDAY),
        is_valid_date(spec.end_date) && weekday_of_number(day_number(spec.end_date))
            != spec.game_weekday.day ==> validation_errors(spec).contains(END_DATE_WRONG_WEEKDAY),
        used_location_ids(spec.game_weekday.game_times@) != declared_ids(spec.locations@)
            ==> validation_errors(spec).contains(LOCATIONS_MISMATCH),
        spec.teams.len() < 2 ==> validation_errors(spec).contains(TOO_FEW_TEAMS),
        spec.locations.len() == 0 ==> validation_errors(spec).contains(NO_LOCATIONS),
        spec.game_weekday.game_times.len() == 0 ==> validation_errors(spec).contains(NO_GAME_TIMES),
        has_time_without_location(spec.game_weekday.game_times@)
            ==> validation_errors(spec).contains(GAME_TIME_WITHOUT_LOCATION),
        has_repeated_time(spec.game_weekday.game_times@)
            ==> validation_errors(spec).contains(REPEATED_GAME_TIMES),
        has_invalid_time(spec.game_weekday.game_times@)
            ==> validation_errors(spec).contains(INVALID_GAME_TIMES),
        total_slots(spec.game_weekday.game_times@) != spec.teams.len() / 2
            ==> validation_errors(spec).contains(WRONG_GAMES_PER_WEEK),
{
    reveal(validation_errors);
    let gts = spec.game_weekday.game_times@;
    let s = spec.start_date;
    let e = spec.end_date;
    let day = spec.game_weekday.day;
    let d1 = flag(!is_valid_date(s), START_DATE_INVALID);
    let d2 = flag(!is_valid_date(e), END_DATE_INVALID);
    let d3 = flag(is_valid_date(s) && weekday_of_number(day_number(s)) != day, START_DATE_WRONG_WEEKDAY);
    let d4 = flag(is_valid_date(e) && weekday_of_number(day_number(e)) != day, END_DATE_WRONG_WEEKDAY);
    lemma_flag_contains(!is_valid_date(s), START_DATE_INVALID);
    lemma_flag_contains(!is_valid_date(e), END_DATE_INVALID);
    lemma_flag_contains(is_valid_date(s) && weekday_of_number(day_number(s)) != day, START_DATE_WRONG_WEEKDAY);
    lemma_flag_contains(is_valid_date(e) && weekday_of_number(day_number(e)) != day, END_DATE_WRONG_WEEKDAY);
    lemma_concat_contains(d1, d2);
    lemma_concat_contains(d1 + d2, d3);
    lemma_concat_contains(d1 + d2 + d3, d4);
    let l0 = date_errors(spec);
    let d5 = flag(is_valid_date(e) && is_last_date(e), END_DATE_TOO_LATE);
    let d6 = flag(
        is_valid_date(s) && is_valid_date(e) && day_number(s) >= day_number(e),
        START_NOT_BEFORE_END,
    );
    lemma_concat_contains(d1 + d2 + d3 + d4, d5);
    lemma_concat_contains(d1 + d2 + d3 + d4 + d5, d6);
    assert(l0 == d1 + d2 + d3 + d4 + d5 + d6);
    let f1 = flag(used_location_ids(gts) != declared_ids(spec.locations@), LOCATIONS_MISMATCH);
    let f2 = flag(spec.teams.len() < 2, TOO_FEW_TEAMS);
    let f3 = flag(spec.locations.len() == 0, NO_LOCATIONS);
    let f4 = flag(gts.len() == 0, NO_GAME_TIMES);
    let f5 = flag(has_time_without_location(gts), GAME_TIME_WITHOUT_LOCATION);
    let f6 = flag(has_repeated_time(gts), REPEATED_GAME_TIMES);
    let f7 = flag(has_invalid_time(gts), INVALID_GAME_TIMES);
    let f8 = flag(total_slots(gts) != spec.teams.len() / 2, WRONG_GAMES_PER_WEEK);
    lemma_flag_contains(used_location_ids(gts) != declared_ids(spec.locations@), LOCATIONS_MISMATCH);
    lemma_flag_contains(spec.teams.len() < 2, TOO_FEW_TEAMS);
    lemma_flag_contains(spec.locations.len() == 0, NO_LOCATIONS);
    lemma_flag_contains(gts.len() == 0, NO_GAME_TIMES);
    lemma_flag_contains(has_time_without_location(gts), GAME_TIME_WITHOUT_LOCATION);
    lemma_flag_contains(has_repeated_time(gts), REPEATED_GAME_TIMES);
    lemma_flag_contains(has_invalid_time(gts), INVALID_GAME_TIMES);
    lemma_flag_contains(total_slots(gts) != spec.teams.len() / 2, WRONG_GAMES_PER_WEEK);
    lemma_concat_contains(l0, f1);
    lemma_concat_contains(l0 + f1, f2);
    lemma_concat_contains(l0 + f1 + f2, f3);
    lemma_concat_contains(l0 + f1 + f2 + f3, f4);
    lemma_concat_contains(l0 + f1 + f2 + f3 + f4, f5);
    lemma_concat_contains(l0 + f1 + f2 + f3 + f4 + f5, f6);
    lemma_concat_contains(l0 + f1 + f2 + f3 + f4 + f5 + f6, f7);
    lemma_concat_contains(l0 + f1 + f2 + f3 + f4 + f5 + f6 + f7, f8);
}

proof fn lemma_flag_contains(cond: bool, msg: &'static str)
    ensures
        cond ==> flag(cond, msg).contains(msg),
{
    if cond {
        assert(flag(cond, msg)[0] == msg);
    }
}

proof fn lemma_concat_contains(a: Seq<&'static str>, b: Seq<&'static str>)
    ensures
        forall|x: &'static str| a.contains(x) ==> #[trigger] (a + b).contains(x),
        forall|x: &'static str| b.contains(x) ==> #[trigger] (a + b).contains(x),
{
    assert forall|x: &'static str| a.contains(x) implies #[trigger] (a + b).contains(x) by {
        let i = choose|i: int| 0 <= i < a.len() && a[i] == x;
        assert((a + b)[i] == x);
    }
    assert forall|x: &'static str| b.contains(x) implies #[trigger] (a + b).contains(x) by {
        let i = choose|i: int| 0 <= i < b.len() && b[i] == x;
        assert((a + b)[a.len() + i] == x);
    }
}

fn check_dates(spec: &LeagueSpec) -> (r: Vec<&'static str>)
    ensures
        r@ == date_errors(*spec),
{
    let start = calendar_day(spec.start_date);
    let end = calendar_day(spec.end_date);
    let day = spec.game_weekday.day;
    let start_off_day = match start {
        Some(n) => {
            assert(between_dates(n as int));
            weekday_of_day(n) != day
        },
        None => false,
    };
    let end_off_day = match end {
        Some(n) => {
            assert(between_dates(n as int));
            weekday_of_day(n) != day
        },
        None => false,
    };
    let too_late = match end {
        Some(_) => is_final_date(spec.end_date),
        None => false,
    };
    let out_of_order = match (start, end) {
        (Some(a), Some(b)) => a >= b,
        _ => false,
    };
    let mut result: Vec<&'static str> = Vec::new();
    push_if(&mut result, start.is_none(), START_DATE_INVALID);
    push_if(&mut result, end.is_none(), END_DATE_INVALID);
    push_if(&mut result, start_off_day, START_DATE_WRONG_WEEKDAY);
    push_if(&mut result, end_off_day, END_DATE_WRONG_WEEKDAY);
    push_if(&mut result, too_late, END_DATE_TOO_LATE);
    push_if(&mut result, out_of_order, START_NOT_BEFORE_END);
    assert(result@ =~= date_errors(*spec));
    result
}

fn declares_id(locations: &Vec<IdAndName>, id: &String) -> (r: bool)
    ensures
        r == declared_ids(locations@).contains(id@),
{
    let mut k: usize = 0;
    while k < locations.len()
        invariant
            k <= locations.len(),
            forall|m: int| 0 <= m < k ==> locations@[m].id@ != id@,
        decreases locations.len() - k,
    {
        if locations[k].id == *id {
            return true;
        }
        k = k + 1;
    }
    false
}

fn uses_id(game_times: &Vec<GameTime>, id: &String) -> (r: bool)
    ensures
        r == used_location_ids(game_times@).contains(id@),
{
    let mut i: usize = 0;
    while i < game_times.len()
        invariant
            i <= game_times.len(),
            forall|a: int, b: int|
                0 <= a < i && 0 <= b < game_times@[a].location_ids.len()
                    ==> game_times@[a].location_ids@[b]@ != id@,
        decreases game_times.len() - i,
    {
        let ids = &game_times[i].location_ids;
        let mut j: usize = 0;
        while j < ids.len()
            invariant
                i < game_times.len(),
                ids == game_times@[i as int].location_ids,
                j <= ids.len(),
                forall|a: int, b: int|
                    0 <= a < i && 0 <= b < game_times@[a].location_ids.len()
                        ==> game_times@[a].location_ids@[b]@ != id@,
                forall|b: int| 0 <= b < j ==> ids@[b]@ != id@,
            decreases ids.len() - j,
        {
            if ids[j] == *id {
                return true;
            }
            j = j + 1;
        }
        i = i + 1;
    }
    false
}

/// Whether the venues that the game times name are exactly the declared ones.
fn same_location_ids(game_times: &Vec<GameTime>, locations: &Vec<IdAndName>) -> (r: bool)
    ensures
        r == (used_location_ids(game_times@) == declared_ids(locations@)),
{
    let mut i: usize = 0;
    while i < game_times.len()
        invariant
            i <= game_times.len(),
            forall|a: int, b: int|
                0 <= a < i && 0 <= b < game_times@[a].location_ids.len()
                    ==> declared_ids(locations@).contains(game_times@[a].location_ids@[b]@),
        decreases game_times.len() - i,
    {
        let ids = &game_times[i].location_ids;
        let mut j: usize = 0;
        while j < ids.len()
            invariant
                i < game_times.len(),
                ids == game_times@[i as int].location_ids,
                j <= ids.len(),
                forall|a: int, b: int|
                    0 <= a < i && 0 <= b < game_times@[a].location_ids.len()
                        ==> declared_ids(locations@).contains(game_times@[a].location_ids@[b]@),
                forall|b: int| 0 <= b < j ==> declared_ids(locations@).contains(ids@[b]@),
            decreases ids.len() - j,
        {
            if !declares_id(locations, &ids[j]) {
                assert(used_location_ids(game_times@).contains(ids@[j as int]@));
                return false;
            }
            j = j + 1;
        }
        i = i + 1;
    }
    let mut k: usize = 0;
    while k < locations.len()
        invariant
            k <= locations.len(),
            forall|m: int|
                0 <= m < k ==> used_location_ids(game_times@).contains(locations@[m].id@),
        decreases locations.len() - k,
    {
        if !uses_id(game_times, &locations[k].id) {
            assert(declared_ids(locations@).contains(locations@[k as int].id@));
            return false;
        }
        k = k + 1;
    }
    assert(used_location_ids(game_times@) =~= declared_ids(locations@));
    true
}

fn minutes(t: Time) -> (r: u32)
    ensures
        r as int == minute_of_day(t),
{
    t.hour as u32 * 60 + t.min as u32
}

fn has_repeated_times(game_times: &Vec<GameTime>) -> (r: bool)
    ensures
        r == has_repeated_time(game_times@),
{
    let n = game_times.len();
    let mut i: usize = 0;
    while i < n
        invariant
            n == game_times.len(),
            i <= n,
            forall|a: int, b: int|
                0 <= a < i && a < b < n
                    ==> minute_of_day(game_times@[a].time) != minute_of_day(game_times@[b].time),
        decreases n - i,
    {
        let mut j: usize = i + 1;
        while j < n
            invariant
                n == game_times.len(),
                i < n,
                i < j <= n,
                forall|a: int, b: int|
                    0 <= a < i && a < b < n
                        ==> minute_of_day(game_times@[a].time) != minute_of_day(game_times@[b].time),
                forall|b: int|
                    i < b < j ==> minute_of_day(game_times@[i as int].time) != minute_of_day(game_times@[b].time),
            decreases n - j,
        {
            if minutes(game_times[i].time) == minutes(game_times[j].time) {
                return true;
            }
            j = j + 1;
        }
        i = i + 1;
    }
    assert forall|a: int, b: int|
        0 <= a < n && 0 <= b < n && a != b implies
            minute_of_day(game_times@[a].time) != minute_of_day(game_times@[b].time) by {
        if b < a {
            assert(minute_of_day(game_times@[b].time) != minute_of_day(game_times@[a].time));
        }
    }
    false
}

fn time_without_location(game_times: &Vec<GameTime>) -> (r: bool)
    ensures
        r == has_time_without_location(game_times@),
{
    let mut i: usize = 0;
    while i < game_times.len()
        invariant
            i <= game_times.len(),
            forall|a: int| 0 <= a < i ==> game_times@[a].location_ids.len() != 0,
        decreases game_times.len() - i,
    {
        if game_times[i].location_ids.len() == 0 {
            return true;
        }
        i = i + 1;
    }
    false
}

fn invalid_time(game_times: &Vec<GameTime>) -> (r: bool)
    ensures
        r == has_invalid_time(game_times@),
{
    let mut i: usize = 0;
    while i < game_times.len()
        invariant
            i <= game_times.len(),
            forall|a: int| 0 <= a < i ==> is_valid_time(game_times@[a].time),
        decreases game_times.len() - i,
    {
        if !is_time_of_day(game_times[i].time) {
            return true;
        }
        i = i + 1;
    }
    false
}

proof fn lemma_total_slots_step(s: Seq<GameTime>, i: int)
    requires
        0 <= i < s.len(),
    ensures
        total_slots(s.subrange(0, i + 1)) == total_slots(s.subrange(0, i)) + s[i].location_ids.len(),
{
    assert(s.subrange(0, i + 1).drop_last() =~= s.subrange(0, i));
}

proof fn lemma_total_slots_prefix(s: Seq<GameTime>, i: int)
    requires
        0 <= i <= s.len(),
    ensures
        total_slots(s.subrange(0, i)) <= total_slots(s),
    decreases s.len(),
{
    if i == s.len() {
        assert(s.subrange(0, i) =~= s);
    } else {
        lemma_total_slots_prefix(s.drop_last(), i);
        assert(s.drop_last().subrange(0, i) =~= s.subrange(0, i));
    }
}

/// Whether the game times offer exactly `required` games a night.
fn slots_match(game_times: &Vec<GameTime>, required: usize) -> (r: bool)
    ensures
        r == (total_slots(game_times@) == required),
{
    let mut total: usize = 0;
    let mut i: usize = 0;
    while i < game_times.len()
        invariant
            i <= game_times.len(),
            total <= required,
            total == total_slots(game_times@.subrange(0, i as int)),
        decreases game_times.len() - i,
    {
        let n = game_times[i].location_ids.len();
        proof {
            lemma_total_slots_step(game_times@, i as int);
        }
        if n > required - total {
            proof {
                lemma_total_slots_prefix(game_times@, i + 1);
            }
            return false;
        }
        total = total + n;
        i = i + 1;
    }
    assert(game_times@.subrange(0, i as int) =~= game_times@);
    total == required
}

fn push_if(result: &mut Vec<&'static str>, cond: bool, msg: &'static str)
    ensures
        final(result)@ == old(result)@ + flag(cond, msg),
{
    if cond {
        result.push(msg);
    }
    assert(final(result)@ =~= old(result)@ + flag(cond, msg));
}

/// Checks a league specification. The result lists every problem found, in a
/// fixed order; it is empty exactly when the specification can be scheduled.
pub fn validate(spec: &LeagueSpec) -> (r: Vec<&'static str>)
    ensures
        r@ == validation_errors(*spec),
{
    let mut result = check_dates(spec);
    let game_times = &spec.game_weekday.game_times;
    let teams = spec.teams.len();
    push_if(&mut result, !same_location_ids(game_times, &spec.locations), LOCATIONS_MISMATCH);
    push_if(&mut result, teams < 2, TOO_FEW_TEAMS);
    push_if(&mut result, spec.locations.len() == 0, NO_LOCATIONS);
    push_if(&mut result, game_times.len() == 0, NO_GAME_TIMES);
    push_if(&mut result, time_without_location(game_times), GAME_TIME_WITHOUT_LOCATION);
    push_if(&mut result, has_repeated_times(game_times), REPEATED_GAME_TIMES);
    push_if(&mut result, invalid_time(game_times), INVALID_GAME_TIMES);
    push_if(&mut result, !slots_match(game_times, teams / 2), WRONG_GAMES_PER_WEEK);
    proof {
        reveal(validation_errors);
    }
    result
}

} // verus!
