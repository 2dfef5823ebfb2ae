//! The text report of a schedule: each station's slots, then the individuals
//! that could not be placed.
use vstd::prelude::*;

verus! {

/// One line per slot: the timeslot name and its occupant, or `None`.
pub open spec fn slot_line(timeslot: Seq<char>, occupant: Option<Seq<char>>) -> Seq<char> {
    timeslot + ": "@ + match occupant {
        Some(name) => name,
        None => "None"@,
    } + "\n"@
}

/// The lines of the first `n` timeslots of the station whose row starts at
/// position `base` of `slots`.
pub open spec fn station_lines(
    timeslots: Seq<Seq<char>>,
    slots: Seq<Option<Seq<char>>>,
    base: int,
    n: nat,
) -> Seq<char>
    decreases n,
{
    if n == 0 {
        Seq::empty()
    } else {
        station_lines(timeslots, slots, base, (n - 1) as nat) + slot_line(
            timeslots[n - 1],
            slots[base + n - 1],
        )
    }
}

pub open spec fn station_header(station: Seq<char>) -> Seq<char> {
    "[Station: "@ + station + "]\n"@
}

/// The blocks of the first `n` stations, each its header, its slot lines and
/// a blank line.
pub open spec fn grid_text(
    stations: Seq<Seq<char>>,
    timeslots: Seq<Seq<char>>,
    slots: Seq<Option<Seq<char>>>,
    n: nat,
) -> Seq<char>
    decreases n,
{
    if n == 0 {
        Seq::empty()
    } else {
        grid_text(stations, timeslots, slots, (n - 1) as nat) + station_header(stations[n - 1])
            + station_lines(timeslots, slots, (n - 1) * timeslots.len(), timeslots.len()) + "\n"@
    }
}

/// The first `n` unassigned individuals, one per line.
pub open spec fn unassigned_text(unassigned: Seq<Seq<char>>, n: nat) -> Seq<char>
    decreases n,
{
    if n == 0 {
        Seq::empty()
    } else {
        unassigned_text(unassigned, (n - 1) as nat) + unassigned[n - 1] + "\n"@
    }
}

/// The whole report.
pub open spec fn report_text(
    stations: Seq<Seq<char>>,
    timeslots: Seq<Seq<char>>,
    slots: Seq<Option<Seq<char>>>,
    unassigned: Seq<Seq<char>>,
) -> Seq<char> {
    grid_text(stations, timeslots, slots, stations.len()) + "[Unassigned]\n"@ + unassigned_text(
        unassigned,
        unassigned.len(),
    )
}

} // verus!
