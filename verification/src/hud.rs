use vstd::prelude::*;
use crate::engine::map::Tile;

verus! {

/// The most messages the event log keeps.
pub const LOG_CAPACITY: usize = 16;

/// The event log: messages in the order they came, each flagged as combat
/// news or not.
pub struct EventLog {
    pub messages: Vec<(String, bool)>,
}

impl EventLog {
    /// A log holding `messages`.
    pub fn new(messages: Vec<(String, bool)>) -> (log: Self)
        ensures
            log.messages@ == messages@,
    {
        EventLog { messages }
    }

    /// Appends a message; once the log holds more than `LOG_CAPACITY`
    /// messages, the oldest one goes.
    pub fn push(&mut self, msg: String, combat: bool)
        ensures
            final(self).messages@ == (if old(self).messages@.len() + 1 > LOG_CAPACITY {
                old(self).messages@.push((msg, combat)).drop_first()
            } else {
                old(self).messages@.push((msg, combat))
            }),
            old(self).messages@.len() <= LOG_CAPACITY ==> final(self).messages@.len() <= LOG_CAPACITY,
    {
        self.messages.push((msg, combat));
        if self.messages.len() > LOG_CAPACITY {
            self.messages.remove(0);
        }
    }
}

/// What the terrain panel shows of a tile: its name, whether units can
/// cross it and the cost of stepping onto it ("—" where it cannot be
/// crossed).
pub fn terrain_info(t: &Tile) -> (r: (&'static str, bool, &'static str))
    ensures
        r.1 == t.is_walkable(),
        r.0@ == (match t {
            Tile::Grass => "Grassland"@,
            Tile::DarkGrass => "Dense Grass"@,
            Tile::Wall => "Stone Wall"@,
            Tile::Water => "Water"@,
            Tile::Sand => "Sand"@,
            Tile::Forest => "Forest"@,
            Tile::Road => "Road"@,
        }),
        r.2@ == (match t {
            Tile::Road => "1"@,
            Tile::Grass | Tile::DarkGrass => "2"@,
            Tile::Sand => "3"@,
            _ => "—"@,
        }),
{
    match t {
        Tile::Grass => ("Grassland", true, "2"),
        Tile::DarkGrass => ("Dense Grass", true, "2"),
        Tile::Wall => ("Stone Wall", false, "—"),
        Tile::Water => ("Water", false, "—"),
        Tile::Sand => ("Sand", true, "3"),
        Tile::Forest => ("Forest", false, "—"),
        Tile::Road => ("Road", true, "1"),
    }
}

} // verus!
