//! Laying the rotation over the game nights: each night plays the next round of
//! the current pass, and every pass starts from a reshuffled rotation.
use vstd::prelude::*;
use crate::contract::{Date, GameShell, IdAndName, TeamEvent};

verus! {

/// Runs of consecutive slots that share a date: the game nights.
pub open spec fn group_nights(s: Seq<GameShell>) -> Seq<Seq<GameShell>>
    decreases s.len(),
{
    if s.len() == 0 {
        seq![]
    } else {
        let g = group_nights(s.drop_last());
        if g.len() > 0 && g.last().last().date == s.last().date {
            g.update(g.len() - 1, g.last().push(s.last()))
        } else {
            g.push(seq![s.last()])
        }
    }
}

pub open spec fn nights_view(nights: Seq<Vec<GameShell>>) -> Seq<Seq<GameShell>> {
    nights.map_values(|night: Vec<GameShell>| night@)
}

/// The events of one night on `date`: the round's pairings in order. A pairing with
/// the bye position `bye` is a bye for the other team and takes no slot; any other
/// pairing is a game in the next free slot (the home team first), and is left out
/// when no slot is free.
pub open spec fn night_events(
    teams: Seq<IdAndName>,
    bye: int,
    round: Seq<(usize, usize)>,
    slots: Seq<GameShell>,
    date: Date,
) -> Seq<TeamEvent>
    decreases round.len(),
{
    if round.len() == 0 {
        seq![]
    } else {
        let p = round[0];
        let rest = round.drop_first();
        if p.0 == bye {
            seq![TeamEvent::Bye(teams[p.1 as int], date)] + night_events(teams, bye, rest, slots, date)
        } else if p.1 == bye {
            seq![TeamEvent::Bye(teams[p.0 as int], date)] + night_events(teams, bye, rest, slots, date)
        } else if slots.len() == 0 {
            night_events(teams, bye, rest, slots, date)
        } else {
            seq![
                TeamEvent::Game(
                    teams[p.0 as int],
                    teams[p.1 as int],
                    slots[0].date,
                    slots[0].time,
                    slots[0].location,
                ),
            ] + night_events(teams, bye, rest, slots.drop_first(), date)
        }
    }
}

/// The events of all nights, night `t` playing `rounds[t]`.
pub open spec fn schedule_events(
    teams: Seq<IdAndName>,
    bye: int,
    nights: Seq<Seq<GameShell>>,
    rounds: Seq<Seq<(usize, usize)>>,
) -> Seq<TeamEvent>
    decreases nights.len(),
{
    if nights.len() == 0 {
        seq![]
    } else {
        schedule_events(teams, bye, nights.drop_last(), rounds.drop_last())
            + night_events(teams, bye, rounds.last(), nights.last(), nights.last()[0].date)
    }
}

/// Splits the slots into game nights.
pub fn split_nights(shells: &Vec<GameShell>) -> (r: Vec<Vec<GameShell>>)
    ensures
        nights_view(r@) == group_nights(shells@),
        forall|i: int| 0 <= i < r.len() ==> #[trigger] r@[i].len() > 0,
{
    let mut nights: Vec<Vec<GameShell>> = Vec::new();
    let mut current: Vec<GameShell> = Vec::new();
    let mut i: usize = 0;
    while i < shells.len()
        invariant
            i <= shells.len(),
            current.len() == 0 ==> nights.len() == 0,
            current.len() == 0 ==> i == 0,
            group_nights(shells@.subrange(0, i as int)) == if current.len() == 0 {
                nights_view(nights@)
            } else {
                nights_view(nights@).push(current@)
            },
            forall|j: int| 0 <= j < nights.len() ==> #[trigger] nights@[j].len() > 0,
        decreases shells.len() - i,
    {
        let shell = shells[i].duplicate();
        let ghost g = group_nights(shells@.subrange(0, i as int));
        assert(shells@.subrange(0, i + 1).drop_last() =~= shells@.subrange(0, i as int));
        if current.len() > 0 && current[current.len() - 1].date == shell.date {
            current.push(shell);
            assert(nights_view(nights@).push(current@) =~= g.update(g.len() - 1, g.last().push(shells@[i as int])));
        } else {
            if current.len() > 0 {
                nights.push(current);
            }
            current = Vec::new();
            current.push(shell);
            assert(nights_view(nights@).push(current@) =~= g.push(seq![shells@[i as int]]));
        }
        i = i + 1;
    }
    assert(shells@.subrange(0, i as int) =~= shells@);
    if current.len() > 0 {
        nights.push(current);
    }
    assert(nights_view(nights@) =~= group_nights(shells@));
    nights
}

/// Every pairing of the round meets two different positions, none past the bye's.
pub open spec fn round_fits(round: Seq<(usize, usize)>, bye: int) -> bool {
    forall|k: int|
        0 <= k < round.len() ==> (#[trigger] round[k]).0 != round[k].1 && round[k].0 <= bye
            && round[k].1 <= bye
}

/// Appends the events of one night.
pub fn play_night(
    teams: &Vec<IdAndName>,
    round: &Vec<(usize, usize)>,
    night: &Vec<GameShell>,
    events: &mut Vec<TeamEvent>,
)
    requires
        night.len() > 0,
        round_fits(round@, teams.len() as int),
    ensures
        final(events)@ == old(events)@ + night_events(
            teams@,
            teams.len() as int,
            round@,
            night@,
            night@[0].date,
        ),
{
    let bye = teams.len();
    let date = night[0].date;
    let ghost whole = night_events(teams@, bye as int, round@, night@, date);
    let ghost start = events@;
    assert(round@.subrange(0, round.len() as int) =~= round@);
    assert(night@.subrange(0, night.len() as int) =~= night@);
    let mut k: usize = 0;
    let mut s: usize = 0;
    while k < round.len()
        invariant
            bye == teams.len(),
            round_fits(round@, bye as int),
            k <= round.len(),
            s <= night.len(),
            whole == night_events(teams@, bye as int, round@, night@, date),
            start + whole == events@ + night_events(
                teams@,
                bye as int,
                round@.subrange(k as int, round.len() as int),
                night@.subrange(s as int, night.len() as int),
                date,
            ),
        decreases round.len() - k,
    {
        let ghost rest = round@.subrange(k as int, round.len() as int);
        let ghost free = night@.subrange(s as int, night.len() as int);
        assert(rest[0] == round@[k as int]);
        assert(rest.drop_first() =~= round@.subrange(k + 1, round.len() as int));
        let p = round[k];
        if p.0 == bye {
            events.push(TeamEvent::Bye(teams[p.1].duplicate(), date));
        } else if p.1 == bye {
            events.push(TeamEvent::Bye(teams[p.0].duplicate(), date));
        } else if s < night.len() {
            assert(free[0] == night@[s as int]);
            assert(free.drop_first() =~= night@.subrange(s + 1, night.len() as int));
            let slot = &night[s];
            events.push(
                TeamEvent::Game(
                    teams[p.0].duplicate(),
                    teams[p.1].duplicate(),
                    slot.date,
                    slot.time,
                    slot.location.duplicate(),
                ),
            );
            s = s + 1;
        }
        k = k + 1;
    }
    assert(round@.subrange(k as int, round.len() as int).len() == 0);
}

} // verus!
