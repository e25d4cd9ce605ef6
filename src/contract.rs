//! The data that a league specification and a fixture list are made of.
use vstd::prelude::*;

verus! {

/// An identifier with a display name: a team or a venue.
#[derive(Debug, Clone)]
pub struct IdAndName {
    pub id: String,
    pub name: String,
}

impl IdAndName {
    /// A field-by-field copy.
    pub fn duplicate(&self) -> (r: IdAndName)
        ensures
            r == *self,
    {
        IdAndName { id: self.id.clone(), name: self.name.clone() }
    }
}

/// A time of day.
#[derive(Debug, Clone, Copy, PartialEq, Eq, Structural)]
pub struct Time {
    pub hour: u8,
    pub min: u8,
}

/// A calendar date; not every value names a real day.
#[derive(Debug, Clone, Copy, PartialEq, Eq, Structural, PartialOrd, Ord, Hash)]
pub struct Date {
    pub year: u16,
    pub month: u8,
    pub day: u8,
}

/// A day of the week.
#[derive(Debug, Clone, Copy, PartialEq, Eq, Structural)]
pub enum Weekday {
    Sunday,
    Monday,
    Tuesday,
    Wednesday,
    Thursday,
    Friday,
    Saturday,
}

/// One weekly time at which games start, and the venues that host them.
#[derive(Debug, Clone)]
pub struct GameTime {
    pub time: Time,
    pub location_ids: Vec<String>,
}

/// The day of the week on which the league plays, and its game times.
#[derive(Debug, Clone)]
pub struct GameWeekday {
    pub day: Weekday,
    pub game_times: Vec<GameTime>,
}

/// What a league asks of its schedule.
#[derive(Debug, Clone)]
pub struct LeagueSpec {
    pub teams: Vec<IdAndName>,
    pub locations: Vec<IdAndName>,
    pub start_date: Date,
    pub end_date: Date,
    pub game_weekday: GameWeekday,
}

/// A bookable game slot: a date, a time and a venue.
#[derive(Debug, Clone)]
pub struct GameShell {
    pub date: Date,
    pub time: Time,
    pub location: IdAndName,
}

impl GameShell {
    /// A field-by-field copy.
    pub fn duplicate(&self) -> (r: GameShell)
        ensures
            r == *self,
    {
        GameShell { date: self.date, time: self.time, location: self.location.duplicate() }
    }
}

/// One entry of the fixture list.
#[derive(Debug, Clone)]
pub enum TeamEvent {
    /// Home team, away team, date, time and venue.
    Game(IdAndName, IdAndName, Date, Time, IdAndName),
    /// A team that does not play on a date.
    Bye(IdAndName, Date),
}

impl TeamEvent {
    pub open spec fn date(&self) -> Date {
        match *self {
            TeamEvent::Game(_, _, date, _, _) => date,
            TeamEvent::Bye(_, date) => date,
        }
    }

    /// The date on which the event takes place.
    pub fn get_date(&self) -> (r: Date)
        ensures
            r == self.date(),
    {
        match self {
            TeamEvent::Game(_, _, date, _, _) => *date,
            TeamEvent::Bye(_, date) => *date,
        }
    }
}

} // verus!
