//! Randomised placement of individuals into a grid of (station, timeslot)
//! slots, with a bounded number of attempts per individual.
mod model;
mod input;
mod laws;
mod random;
mod report;
mod schedule;

pub use input::{lines_of, lower_of, parse_lines, parse_sections, header_mode, ParseMode, Sections};
pub use laws::{
    lemma_each_individual_placed_or_unassigned, lemma_every_individual_accounted_for,
    lemma_no_individuals_changes_nothing,
    lemma_occupied_slots_are_kept, lemma_overflow_leaves_unassigned, lemma_single_slot_run,
};
pub use model::{
    all_empty, distinct_in_order, empty_count, left_over, occupants, placements_valid, run_outcome,
};
pub use report::{grid_text, report_text, slot_line, station_header, station_lines, unassigned_text};
pub use schedule::{
    names_view, occupant_view, shuffle_individuals, slot_pos, ConfigError, Placement, Schedule,
    RETRY_CAP,
};

