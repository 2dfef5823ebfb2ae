//! Reading the three name lists out of a sectioned text: a header line
//! (`[stations]`, `[timeslots]` or `[times]`, `[individuals]` or `[people]`,
//! in upper or lower case) opens a section, and every other non-empty line is a name of
//! the section opened last. Lines before the first header are ignored.
use vstd::prelude::*;
use vstd::string::*;
use crate::schedule::names_view;

verus! {

/// The section a header line opens.
#[derive(Debug, Clone, Copy, PartialEq, Eq, Structural)]
pub enum ParseMode {
    /// Not a header, or no header seen yet.
    NoSection,
    Stations,
    Timeslots,
    Individuals,
}

/// The lines of a text, as `str::lines` splits them.
pub uninterp spec fn lines_of(text: Seq<char>) -> Seq<Seq<char>>;

/// A text in lower case, as `str::to_lowercase` maps it.
pub uninterp spec fn lower_of(text: Seq<char>) -> Seq<char>;

/// Relies on str::lines: the lines of `text`, without their line endings.
#[verifier::external_body]
fn split_lines(text: &str) -> (r: Vec<String>)
    ensures
        names_view(r@) == lines_of(text@),
{
    text.lines().map(|line| line.to_string()).collect()
}

/// Relies on str::to_lowercase: the lower-case form of `text`, which
/// depends on the characters alone.
#[verifier::external_body]
fn lowercase(text: &str) -> (r: String)
    ensures
        r@ == lower_of(text@),
{
    text.to_lowercase()
}

/// The section that a line opens, given its lower-case form.
pub open spec fn header_mode(lowered: Seq<char>) -> ParseMode {
    if lowered == "[stations]"@ {
        ParseMode::Stations
    } else if lowered == "[timeslots]"@ || lowered == "[times]"@ {
        ParseMode::Timeslots
    } else if lowered == "[individuals]"@ || lowered == "[people]"@ {
        ParseMode::Individuals
    } else {
        ParseMode::NoSection
    }
}

/// Station, timeslot and individual names, in the order of the text.
pub struct Sections {
    pub stations: Vec<String>,
    pub timeslots: Vec<String>,
    pub individuals: Vec<String>,
}

/// The section open after `lines` and the names read so far.
pub open spec fn parse_lines(lines: Seq<Seq<char>>) -> (
    ParseMode,
    Seq<Seq<char>>,
    Seq<Seq<char>>,
    Seq<Seq<char>>,
)
    decreases lines.len(),
{
    if lines.len() == 0 {
        (ParseMode::NoSection, Seq::empty(), Seq::empty(), Seq::empty())
    } else {
        let (mode, st, ts, ind) = parse_lines(lines.drop_last());
        let line = lines.last();
        if line.len() == 0 {
            (mode, st, ts, ind)
        } else if header_mode(lower_of(line)) != ParseMode::NoSection {
            (header_mode(lower_of(line)), st, ts, ind)
        } else {
            match mode {
                ParseMode::NoSection => (mode, st, ts, ind),
                ParseMode::Stations => (mode, st.push(line), ts, ind),
                ParseMode::Timeslots => (mode, st, ts.push(line), ind),
                ParseMode::Individuals => (mode, st, ts, ind.push(line)),
            }
        }
    }
}

fn classify(lowered: &String) -> (r: ParseMode)
    ensures
        r == header_mode(lowered@),
{
    if *lowered == <String as StringExecFns>::from_str("[stations]") {
        ParseMode::Stations
    } else if *lowered == <String as StringExecFns>::from_str("[timeslots]")
        || *lowered == <String as StringExecFns>::from_str("[times]") {
        ParseMode::Timeslots
    } else if *lowered == <String as StringExecFns>::from_str("[individuals]")
        || *lowered == <String as StringExecFns>::from_str("[people]") {
        ParseMode::Individuals
    } else {
        ParseMode::NoSection
    }
}

/// Splits `text` into its station, timeslot and individual sections.
pub fn parse_sections(text: &str) -> (r: Sections)
    ensures
        names_view(r.stations@) == parse_lines(lines_of(text@)).1,
        names_view(r.timeslots@) == parse_lines(lines_of(text@)).2,
        names_view(r.individuals@) == parse_lines(lines_of(text@)).3,
{
    let lines = split_lines(text);
    let ghost lv = names_view(lines@);
    let mut mode = ParseMode::NoSection;
    let mut stations: Vec<String> = Vec::new();
    let mut timeslots: Vec<String> = Vec::new();
    let mut individuals: Vec<String> = Vec::new();
    let mut i: usize = 0;
    proof {
        assert(lv.take(0) =~= Seq::<Seq<char>>::empty());
        assert(names_view(stations@) =~= Seq::<Seq<char>>::empty());
        assert(names_view(timeslots@) =~= Seq::<Seq<char>>::empty());
        assert(names_view(individuals@) =~= Seq::<Seq<char>>::empty());
    }
    while i < lines.len()
        invariant
            lv == names_view(lines@),
            i <= lines@.len(),
            parse_lines(lv.take(i as int)) == (
                mode,
                names_view(stations@),
                names_view(timeslots@),
                names_view(individuals@),
            ),
        decreases lines@.len() - i,
    {
        let line = &lines[i];
        proof {
            assert(lv.take(i + 1).drop_last() =~= lv.take(i as int));
            assert(lv.take(i + 1).last() == line@);
        }
        let ghost st0 = stations@;
        let ghost ts0 = timeslots@;
        let ghost ind0 = individuals@;
        if !line.as_str().is_empty() {
            let header = classify(&lowercase(line.as_str()));
            if header != ParseMode::NoSection {
                mode = header;
            } else {
                match mode {
                    ParseMode::NoSection => {},
                    ParseMode::Stations => {
                        stations.push(line.clone());
                        proof {
                            assert(names_view(stations@) =~= names_view(st0).push(line@));
                        }
                    },
                    ParseMode::Timeslots => {
                        timeslots.push(line.clone());
                        proof {
                            assert(names_view(timeslots@) =~= names_view(ts0).push(line@));
                        }
                    },
                    ParseMode::Individuals => {
                        individuals.push(line.clone());
                        proof {
                            assert(names_view(individuals@) =~= names_view(ind0).push(line@));
                        }
                    },
                }
            }
        }
        i += 1;
    }
    proof {
        assert(lv.take(i as int) =~= lv);
    }
    Sections { stations, timeslots, individuals }
}

} // verus!
