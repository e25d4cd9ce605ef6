use rand::SeedableRng;
use schedule_gen::contract::{Date, GameShell, GameTime, GameWeekday, IdAndName, LeagueSpec, TeamEvent, Time, Weekday};
use schedule_gen::generate_games;
use schedule_gen::rotation::{arrange_rotation, generate_round_robin, pick_round_order, shuffle_round_robin};
use schedule_gen::schedule::split_nights;
use schedule_gen::slots::generate_shells;
use schedule_gen::validate::{
    validate, END_DATE_INVALID, END_DATE_TOO_LATE, END_DATE_WRONG_WEEKDAY, GAME_TIME_WITHOUT_LOCATION,
    INVALID_GAME_TIMES, LOCATIONS_MISMATCH, NO_GAME_TIMES, NO_LOCATIONS, REPEATED_GAME_TIMES,
    START_DATE_INVALID, START_DATE_WRONG_WEEKDAY, START_NOT_BEFORE_END, TOO_FEW_TEAMS,
    WRONG_GAMES_PER_WEEK,
};

fn named(id: &str, name: &str) -> IdAndName {
    IdAndName { id: id.to_string(), name: name.to_string() }
}

fn teams(n: usize) -> Vec<IdAndName> {
    (1..=n).map(|i| named(&i.to_string(), &format!("team{}", i))).collect()
}

fn date(year: u16, month: u8, day: u8) -> Date {
    Date { year, month, day }
}

fn game_time(hour: u8, min: u8, ids: &[&str]) -> GameTime {
    GameTime { time: Time { hour, min }, location_ids: ids.iter().map(|s| s.to_string()).collect() }
}

fn league(n: usize, start: Date, end: Date, times: Vec<GameTime>) -> LeagueSpec {
    LeagueSpec {
        teams: teams(n),
        locations: vec![named("1", "field1"), named("2", "field2")],
        start_date: start,
        end_date: end,
        game_weekday: GameWeekday { day: Weekday::Tuesday, game_times: times },
    }
}

fn pair_key(a: &IdAndName, b: &IdAndName) -> (String, String) {
    if a.id < b.id { (a.id.clone(), b.id.clone()) } else { (b.id.clone(), a.id.clone()) }
}

fn unordered(p: (usize, usize)) -> (usize, usize) {
    if p.0 < p.1 { p } else { (p.1, p.0) }
}

#[test]
fn four_teams_one_time_two_venues_schedules_three_rounds() {
    let spec = league(4, date(2014, 9, 16), date(2014, 9, 30), vec![game_time(16, 0, &["1", "2"])]);
    let events = generate_games(&spec, 7).expect("a valid league");
    assert_eq!(events.len(), 6);
    let mut pairs = Vec::new();
    for (i, event) in events.iter().enumerate() {
        match event {
            TeamEvent::Game(home, away, d, time, venue) => {
                let night = [date(2014, 9, 16), date(2014, 9, 23), date(2014, 9, 30)][i / 2];
                assert_eq!(*d, night);
                assert_eq!((time.hour, time.min), (16, 0));
                assert_eq!(venue.id, if i % 2 == 0 { "1" } else { "2" });
                pairs.push(pair_key(home, away));
            }
            TeamEvent::Bye(..) => panic!("an even league has no byes"),
        }
    }
    pairs.sort();
    pairs.dedup();
    assert_eq!(pairs.len(), 6);
}

#[test]
fn seven_teams_with_four_games_a_night_is_refused() {
    let spec = league(
        7,
        date(2014, 9, 16),
        date(2014, 12, 23),
        vec![game_time(16, 0, &["1", "2"]), game_time(17, 0, &["1", "2"])],
    );
    let errors = generate_games(&spec, 1).err().expect("capacity 4 against 3 games");
    assert_eq!(errors, vec![WRONG_GAMES_PER_WEEK]);
    assert_eq!(
        WRONG_GAMES_PER_WEEK,
        "There are a different number of possible games per week than team matchups"
    );
}

#[test]
fn seven_teams_with_two_games_a_night_is_refused() {
    let spec = league(7, date(2014, 9, 16), date(2014, 12, 23), vec![game_time(16, 0, &["1", "2"])]);
    assert_eq!(validate(&spec), vec![WRONG_GAMES_PER_WEEK]);
}

#[test]
fn start_date_off_the_weekday_is_refused() {
    let spec = league(4, date(2014, 9, 17), date(2014, 9, 30), vec![game_time(16, 0, &["1", "2"])]);
    let errors = generate_games(&spec, 3).err().expect("start date is a Wednesday");
    assert_eq!(errors, vec![START_DATE_WRONG_WEEKDAY]);
    assert_eq!(START_DATE_WRONG_WEEKDAY, "The start date does not occur on the day of the week.");
}

#[test]
fn five_teams_give_one_bye_per_team_per_rotation() {
    let spec = league(5, date(2014, 9, 16), date(2014, 10, 28), vec![game_time(16, 0, &["1", "2"])]);
    let events = generate_games(&spec, 11).expect("a valid league");
    // seven Tuesdays: one full pass of five rounds, then two rounds of the next
    let first_pass: Vec<&TeamEvent> =
        events.iter().filter(|e| e.get_date() <= date(2014, 10, 14)).collect();
    let mut byes: Vec<String> = Vec::new();
    let mut games = Vec::new();
    for event in &first_pass {
        match event {
            TeamEvent::Bye(team, _) => byes.push(team.id.clone()),
            TeamEvent::Game(home, away, ..) => games.push(pair_key(home, away)),
        }
    }
    byes.sort();
    assert_eq!(byes, vec!["1", "2", "3", "4", "5"]);
    games.sort();
    games.dedup();
    assert_eq!(games.len(), 10);
    let nights = events.iter().filter(|e| matches!(e, TeamEvent::Bye(..))).count();
    assert_eq!(nights, 7);
}

#[test]
fn same_seed_gives_same_schedule() {
    let spec = league(6, date(2014, 9, 16), date(2014, 12, 23), vec![game_time(16, 0, &["1", "2"]), game_time(18, 30, &["1"])]);
    let a = generate_games(&spec, 42).expect("a valid league");
    let b = generate_games(&spec, 42).expect("a valid league");
    assert_eq!(format!("{:?}", a), format!("{:?}", b));
}

#[test]
fn closing_pairing_does_not_open_the_next_pass() {
    let spec = league(4, date(2014, 9, 16), date(2014, 12, 23), vec![game_time(16, 0, &["1", "2"])]);
    for seed in 0..20u64 {
        let events = generate_games(&spec, seed).expect("a valid league");
        let keys: Vec<(String, String)> = events
            .iter()
            .map(|e| match e {
                TeamEvent::Game(h, a, ..) => pair_key(h, a),
                TeamEvent::Bye(..) => panic!("no byes"),
            })
            .collect();
        // 15 nights of two games, passes of three nights
        assert_eq!(keys.len(), 30);
        let mut night = 3;
        while night < 15 {
            let closing = &keys[(night - 1) * 2];
            assert_ne!(&keys[night * 2], closing);
            assert_ne!(&keys[night * 2 + 1], closing);
            night += 3;
        }
    }
}

#[test]
fn invalid_dates_report_both_errors() {
    let spec = league(4, date(2014, 2, 30), date(2014, 13, 1), vec![game_time(16, 0, &["1", "2"])]);
    assert_eq!(validate(&spec), vec![START_DATE_INVALID, END_DATE_INVALID]);
}

#[test]
fn start_weekday_is_checked_when_end_date_is_invalid() {
    let spec = league(4, date(2014, 9, 17), date(2015, 2, 29), vec![game_time(16, 0, &["1", "2"])]);
    assert_eq!(validate(&spec), vec![END_DATE_INVALID, START_DATE_WRONG_WEEKDAY]);
}

#[test]
fn end_weekday_is_checked_when_start_date_is_invalid() {
    let spec = league(4, date(2014, 4, 31), date(2014, 10, 1), vec![game_time(16, 0, &["1", "2"])]);
    assert_eq!(validate(&spec), vec![START_DATE_INVALID, END_DATE_WRONG_WEEKDAY]);
}

#[test]
fn invalid_end_date_alone() {
    let spec = league(4, date(2014, 9, 16), date(2015, 2, 29), vec![game_time(16, 0, &["1", "2"])]);
    assert_eq!(validate(&spec), vec![END_DATE_INVALID]);
}

#[test]
fn many_independent_errors_are_all_reported() {
    let spec = LeagueSpec {
        teams: teams(1),
        locations: vec![],
        start_date: date(2014, 9, 30),
        end_date: date(2014, 9, 17),
        game_weekday: GameWeekday {
            day: Weekday::Tuesday,
            game_times: vec![game_time(24, 0, &["9"]), game_time(24, 0, &[])],
        },
    };
    assert_eq!(
        validate(&spec),
        vec![
            END_DATE_WRONG_WEEKDAY,
            START_NOT_BEFORE_END,
            LOCATIONS_MISMATCH,
            TOO_FEW_TEAMS,
            NO_LOCATIONS,
            GAME_TIME_WITHOUT_LOCATION,
            REPEATED_GAME_TIMES,
            INVALID_GAME_TIMES,
            WRONG_GAMES_PER_WEEK,
        ]
    );
}

#[test]
fn no_game_times_is_reported() {
    let spec = league(2, date(2014, 9, 16), date(2014, 9, 30), vec![]);
    assert_eq!(validate(&spec), vec![LOCATIONS_MISMATCH, NO_GAME_TIMES, WRONG_GAMES_PER_WEEK]);
}

#[test]
fn last_representable_end_date_is_too_late() {
    // 65535-12-31 is a Tuesday
    let spec = league(4, date(65535, 12, 24), date(65535, 12, 31), vec![game_time(16, 0, &["1", "2"])]);
    assert_eq!(validate(&spec), vec![END_DATE_TOO_LATE]);
}

#[test]
fn equal_dates_are_refused() {
    let spec = league(4, date(2014, 9, 16), date(2014, 9, 16), vec![game_time(16, 0, &["1", "2"])]);
    assert_eq!(validate(&spec), vec![START_NOT_BEFORE_END]);
}

#[test]
fn minutes_past_the_hour_that_collide_are_repeats() {
    let spec = league(4, date(2014, 9, 16), date(2014, 9, 30), vec![game_time(16, 0, &["1"]), game_time(15, 60, &["2"])]);
    assert_eq!(validate(&spec), vec![REPEATED_GAME_TIMES, INVALID_GAME_TIMES]);
}

#[test]
fn valid_league_has_no_errors() {
    let spec = league(4, date(2014, 9, 16), date(2014, 9, 30), vec![game_time(16, 0, &["1", "2"])]);
    assert!(validate(&spec).is_empty());
}

#[test]
fn shells_fill_each_game_night_to_half_the_teams() {
    let spec = league(6, date(2014, 9, 16), date(2014, 10, 7), vec![game_time(16, 0, &["2", "1"]), game_time(18, 0, &["1"])]);
    let shells = generate_shells(&spec);
    assert_eq!(shells.len(), 12);
    let nights = [date(2014, 9, 16), date(2014, 9, 23), date(2014, 9, 30), date(2014, 10, 7)];
    for (i, shell) in shells.iter().enumerate() {
        assert_eq!(shell.date, nights[i / 3]);
        let (hour, venue) = [(16, "2"), (16, "1"), (18, "1")][i % 3];
        assert_eq!(shell.time.hour, hour);
        assert_eq!(shell.location.id, venue);
        assert_eq!(shell.location.name, if venue == "1" { "field1" } else { "field2" });
    }
}

#[test]
fn shells_are_capped_at_half_the_teams() {
    let spec = league(2, date(2014, 9, 16), date(2014, 9, 23), vec![game_time(16, 0, &["1", "2"])]);
    let shells = generate_shells(&spec);
    assert_eq!(shells.len(), 2);
    assert_eq!(shells[0].location.id, "1");
    assert_eq!(shells[1].date, date(2014, 9, 23));
}

#[test]
fn shells_skip_venues_past_the_cap() {
    // the third combination names an undeclared venue, but a night holds only two games
    let spec = league(4, date(2014, 9, 16), date(2014, 9, 16), vec![game_time(16, 0, &["1", "2", "9"])]);
    let shells = generate_shells(&spec);
    let venues: Vec<&str> = shells.iter().map(|s| s.location.id.as_str()).collect();
    assert_eq!(venues, vec!["1", "2"]);
}

#[test]
fn shells_cross_month_and_year_ends() {
    let mut spec = league(2, date(2015, 12, 29), date(2016, 3, 1), vec![game_time(9, 15, &["1"])]);
    spec.locations = vec![named("1", "field1")];
    let shells = generate_shells(&spec);
    assert_eq!(shells.len(), 10);
    assert_eq!(shells[0].date, date(2015, 12, 29));
    assert_eq!(shells[1].date, date(2016, 1, 5));
    assert_eq!(shells[8].date, date(2016, 2, 23));
    assert_eq!(shells[9].date, date(2016, 3, 1));
}

#[test]
fn round_robin_of_six_meets_every_pair_once() {
    let rounds = generate_round_robin(&teams(6));
    assert_eq!(rounds.len(), 5);
    let mut pairs = Vec::new();
    for round in &rounds {
        assert_eq!(round.len(), 3);
        let mut seen: Vec<usize> = round.iter().flat_map(|p| [p.0, p.1]).collect();
        seen.sort();
        assert_eq!(seen, vec![0, 1, 2, 3, 4, 5]);
        pairs.extend(round.iter().map(|p| unordered(*p)));
    }
    pairs.sort();
    pairs.dedup();
    assert_eq!(pairs.len(), 15);
}

#[test]
fn round_robin_first_rounds_follow_the_circle() {
    let rounds = generate_round_robin(&teams(4));
    assert_eq!(rounds, vec![vec![(1, 0), (2, 3)], vec![(2, 0), (3, 1)], vec![(3, 0), (1, 2)]]);
}

#[test]
fn round_robin_of_five_gives_each_team_one_bye() {
    let rounds = generate_round_robin(&teams(5));
    assert_eq!(rounds.len(), 5);
    let mut byes: Vec<usize> = Vec::new();
    for round in &rounds {
        assert_eq!(round.len(), 3);
        for p in round {
            if p.0 == 5 {
                byes.push(p.1);
            } else if p.1 == 5 {
                byes.push(p.0);
            }
        }
    }
    byes.sort();
    assert_eq!(byes, vec![0, 1, 2, 3, 4]);
}

#[test]
fn round_robin_of_two_is_one_game() {
    assert_eq!(generate_round_robin(&teams(2)), vec![vec![(1, 0)]]);
}

#[test]
fn reshuffle_keeps_the_pairings_and_opens_fresh() {
    let mut rng = rand::rngs::StdRng::seed_from_u64(5);
    let base = generate_round_robin(&teams(6));
    let mut rounds = base.clone();
    for _ in 0..50 {
        let closing = unordered(rounds[rounds.len() - 1][0]);
        shuffle_round_robin(&mut rounds, &mut rng);
        assert_eq!(rounds.len(), 5);
        assert!(rounds[0].iter().all(|p| unordered(*p) != closing));
        let mut now: Vec<(usize, usize)> = rounds.iter().flatten().map(|p| unordered(*p)).collect();
        let mut before: Vec<(usize, usize)> = base.iter().flatten().map(|p| unordered(*p)).collect();
        now.sort();
        before.sort();
        assert_eq!(now, before);
    }
}

#[test]
fn nights_group_slots_by_date() {
    let slot = |d: Date, venue: &str| GameShell { date: d, time: Time { hour: 16, min: 0 }, location: named(venue, "field") };
    let shells = vec![
        slot(date(2014, 9, 16), "1"),
        slot(date(2014, 9, 16), "2"),
        slot(date(2014, 9, 23), "1"),
        slot(date(2014, 9, 16), "1"),
    ];
    let nights = split_nights(&shells);
    let sizes: Vec<usize> = nights.iter().map(|n| n.len()).collect();
    assert_eq!(sizes, vec![2, 1, 1]);
    assert_eq!(nights[1][0].date, date(2014, 9, 23));
}

#[test]
fn event_dates() {
    let game = TeamEvent::Game(named("1", "a"), named("2", "b"), date(2014, 9, 16), Time { hour: 1, min: 2 }, named("1", "f"));
    let bye = TeamEvent::Bye(named("3", "c"), date(2015, 1, 6));
    assert_eq!(game.get_date(), date(2014, 9, 16));
    assert_eq!(bye.get_date(), date(2015, 1, 6));
}

#[test]
fn copies_keep_every_field() {
    let team = named("7", "seven");
    let copy = team.duplicate();
    assert_eq!((copy.id.as_str(), copy.name.as_str()), ("7", "seven"));
    let shell = GameShell { date: date(2014, 9, 16), time: Time { hour: 20, min: 45 }, location: named("2", "field2") };
    let again = shell.duplicate();
    assert_eq!(again.date, shell.date);
    assert_eq!((again.time.hour, again.time.min), (20, 45));
    assert_eq!(again.location.name, "field2");
}

#[test]
fn arrangement_follows_the_draws() {
    let rounds = generate_round_robin(&teams(4));
    let order = vec![2, 0, 1];
    let perms = vec![vec![1, 0], vec![0, 1], vec![1, 0]];
    let flips = vec![vec![true, false], vec![false, false], vec![false, true]];
    let arranged = arrange_rotation(&rounds, &order, &perms, &flips);
    assert_eq!(arranged, vec![vec![(2, 1), (3, 0)], vec![(1, 0), (2, 3)], vec![(3, 1), (0, 2)]]);
}

#[test]
fn first_draw_that_opens_fresh_is_picked() {
    // the rotation ends on (3, 0), which round 2 holds
    let rounds = generate_round_robin(&teams(4));
    let draws = vec![vec![2, 0, 1], vec![1, 2, 0], vec![0, 1, 2]];
    assert_eq!(pick_round_order(&rounds, &draws), vec![1, 2, 0]);
}

#[test]
fn stale_draws_are_repaired_by_a_swap() {
    let rounds = generate_round_robin(&teams(4));
    let draws = vec![vec![2, 0, 1], vec![2, 1, 0]];
    assert_eq!(pick_round_order(&rounds, &draws), vec![0, 1, 2]);
}

#[test]
fn single_round_keeps_its_order() {
    let rounds = generate_round_robin(&teams(2));
    assert_eq!(pick_round_order(&rounds, &vec![vec![0]]), vec![0]);
}
