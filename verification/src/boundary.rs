//! What the language bindings decide: names of enumerations, and the shapes of inputs and
//! anchors that cross the boundary.
use crate::config::ChannelConfig;
use crate::double::Double;
use crate::fuser::ChannelFlag;
use crate::ingest::anchor::{stored, Anchor};
use crate::ingest::input::{ingested, ChannelInput, Items};
use crate::keys::{BaselineMode, ChannelId};
use crate::ordered::{text_place, Place};
use crate::score::{orient, sanitize, Direction};
use crate::state::MergePolicy;
use crate::text::{decimal, decimal_text};
use vstd::prelude::*;

verus! {

fn is_text(s: &str, literal: &str) -> (r: bool)
    ensures
        r == (s@ == literal@),
{
    match text_place(s, literal) {
        Place::Same => true,
        _ => false,
    }
}

/// The direction that a name stands for.
pub open spec fn named_direction(name: Seq<char>) -> Option<Direction> {
    if name == "higher_is_better"@ {
        Some(Direction::HigherIsBetter)
    } else if name == "lower_is_better"@ {
        Some(Direction::LowerIsBetter)
    } else {
        None
    }
}

/// Reads a direction by its name.
pub fn parse_direction(name: &str) -> (d: Option<Direction>)
    ensures
        d == named_direction(name@),
{
    if is_text(name, "higher_is_better") {
        Some(Direction::HigherIsBetter)
    } else if is_text(name, "lower_is_better") {
        Some(Direction::LowerIsBetter)
    } else {
        None
    }
}

/// Reads a merge policy by its name.
pub fn parse_policy(name: &str) -> (p: Option<MergePolicy>)
    ensures
        p == if name@ == "strict"@ {
            Some(MergePolicy::Strict)
        } else {
            None
        },
{
    if is_text(name, "strict") {
        Some(MergePolicy::Strict)
    } else {
        None
    }
}

/// Reads a baseline mode by its name.
pub fn parse_baseline_mode(name: &str) -> (m: Option<BaselineMode>)
    ensures
        m == if name@ == "z_score"@ {
            Some(BaselineMode::ZScore)
        } else {
            None
        },
{
    if is_text(name, "z_score") {
        Some(BaselineMode::ZScore)
    } else {
        None
    }
}

/// The name of a channel flag.
pub fn flag_str(flag: ChannelFlag) -> (name: &'static str)
    ensures
        name@ == match flag {
            ChannelFlag::RanksOnlyDefaultWeighted => "ranks_only_default_weighted"@,
            ChannelFlag::DegenerateSeparation => "degenerate_separation"@,
            ChannelFlag::NoReference => "no_reference"@,
        },
{
    match flag {
        ChannelFlag::RanksOnlyDefaultWeighted => "ranks_only_default_weighted",
        ChannelFlag::DegenerateSeparation => "degenerate_separation",
        ChannelFlag::NoReference => "no_reference",
    }
}

/// Why a channel's input is not accepted.
#[derive(Debug, Clone, PartialEq, Eq)]
pub enum InputError {
    /// It carries scores without a direction to orient them by.
    NoDirection,
    /// Its direction is not a known one.
    UnknownDirection,
    /// It does not carry exactly one of scores and ranks.
    NotExactlyOne,
}

/// Builds a channel's input from what crosses the boundary: exactly one of scored items,
/// with the direction they orient by, and ranked ids.
pub fn channel_input<Id>(
    key: String,
    direction: Option<String>,
    scored: Option<Vec<(Id, Double)>>,
    ranked: Option<Vec<Id>>,
) -> (r: Result<ChannelInput<Id>, InputError>)
    ensures
        match (scored, ranked) {
            (Some(items), None) => match direction {
                None => r == Err::<ChannelInput<Id>, InputError>(InputError::NoDirection),
                Some(name) => match named_direction(name@) {
                    None => r == Err::<ChannelInput<Id>, InputError>(InputError::UnknownDirection),
                    Some(dir) => {
                        &&& r is Ok
                        &&& r->Ok_0.key == key
                        &&& r->Ok_0.items is Scored
                        &&& r->Ok_0.items->Scored_0@ == ingested(items@, dir, items@.len() as int)
                    },
                },
            },
            (None, Some(ids)) => r is Ok && r->Ok_0.key == key && r->Ok_0.items == Items::Ranks(
                ids,
            ),
            _ => r == Err::<ChannelInput<Id>, InputError>(InputError::NotExactlyOne),
        },
{
    match (scored, ranked) {
        (Some(items), None) => match direction {
            None => Err(InputError::NoDirection),
            Some(name) => match parse_direction(name.as_str()) {
                None => Err(InputError::UnknownDirection),
                Some(dir) => {
                    let cfg = ChannelConfig::new(
                        ChannelId { key, tag: String::new() },
                        dir,
                        None,
                    );
                    Ok(ChannelInput::from_values(&cfg, items))
                },
            },
        },
        (None, Some(ids)) => {
            let cfg = ChannelConfig::new(
                ChannelId { key, tag: String::new() },
                Direction::HigherIsBetter,
                None,
            );
            Ok(ChannelInput::ranked(&cfg, ids))
        },
        _ => Err(InputError::NotExactlyOne),
    }
}

/// Why a matrix of anchor scores is not accepted.
#[derive(Debug, Clone, PartialEq, Eq)]
pub enum AnchorError {
    /// There are not as many rows as channels.
    RowCount {
        /// The number of channels.
        channels: usize,
        /// The number of rows.
        rows: usize,
    },
    /// The rows are not equally long.
    RaggedRows,
}

impl AnchorError {
    /// What the refusal says to a reader.
    pub open spec fn says(&self) -> Seq<char> {
        match *self {
            AnchorError::RowCount { channels, rows } => "anchor has "@ + decimal(channels as int)
                + " channels but "@ + decimal(rows as int) + " score rows"@,
            AnchorError::RaggedRows => "anchor score rows must all have one entry per candidate"@,
        }
    }

    /// The refusal as text.
    pub fn to_string(&self) -> (text: String)
        ensures
            text@ == self.says(),
    {
        match self {
            AnchorError::RowCount { channels, rows } => {
                let mut text = "anchor has ".to_owned();
                text.append(decimal_text(*channels as u64).as_str());
                text.append(" channels but ");
                text.append(decimal_text(*rows as u64).as_str());
                text.append(" score rows");
                text
            },
            AnchorError::RaggedRows => "anchor score rows must all have one entry per candidate".to_owned(),
        }
    }
}

/// The rows are equally long.
pub open spec fn even(rows: Seq<Vec<Option<Double>>>) -> bool {
    forall|i: int| 0 <= i < rows.len() ==> (#[trigger] rows[i])@.len() == rows[0]@.len()
}

/// `h` is the first channel with the key of channel `c`.
pub open spec fn first_named(channels: Seq<(String, Direction)>, c: int, h: int) -> bool {
    &&& 0 <= h < channels.len()
    &&& channels[h].0@ == channels[c].0@
    &&& forall|g: int| 0 <= g < h ==> (#[trigger] channels[g]).0@ != channels[c].0@
}

/// What is stored for a cell.
pub open spec fn stored_cell(dir: Direction, cell: Option<Double>) -> Option<Double> {
    match cell {
        Some(x) => stored(dir, x),
        None => None,
    }
}

fn first_row(channels: &[(String, Direction)], c: usize) -> (h: usize)
    requires
        c < channels@.len(),
    ensures
        first_named(channels@, c as int, h as int),
{
    let mut h: usize = 0;
    while h < c
        invariant
            h <= c < channels@.len(),
            forall|g: int| 0 <= g < h ==> (#[trigger] channels@[g]).0@ != channels@[c as int].0@,
        decreases c - h,
    {
        if channels[h].0 == channels[c].0 {
            return h;
        }
        h += 1;
    }
    c
}

/// Checks the shape of an anchor's matrix: one row for each channel, and rows of one length.
pub fn check_rows(channels: usize, rows: &[Vec<Option<Double>>]) -> (r: Result<(), AnchorError>)
    ensures
        r is Ok <==> channels == rows@.len() && even(rows@),
        channels != rows@.len() ==> r == Err::<(), AnchorError>(
            AnchorError::RowCount { channels, rows: rows@.len() as usize },
        ),
        channels == rows@.len() && !even(rows@) ==> r == Err::<(), AnchorError>(
            AnchorError::RaggedRows,
        ),
{
    if channels != rows.len() {
        return Err(AnchorError::RowCount { channels, rows: rows.len() });
    }
    let mut i: usize = 0;
    while i < rows.len()
        invariant
            channels == rows@.len(),
            i <= rows@.len(),
            forall|h: int| 0 <= h < i ==> (#[trigger] rows@[h])@.len() == rows@[0]@.len(),
        decreases rows@.len() - i,
    {
        if rows[i].len() != rows[0].len() {
            assert(rows@[i as int]@.len() != rows@[0]@.len());
            return Err(AnchorError::RaggedRows);
        }
        i += 1;
    }
    Ok(())
}

/// Builds an anchor from a matrix of native scores, one row for each channel and one entry
/// for each candidate.
///
/// A channel named twice reads the row of its first mention.
pub fn build_anchor(channels: &[(String, Direction)], rows: &[Vec<Option<Double>>]) -> (r: Result<
    Anchor,
    AnchorError,
>)
    ensures
        r is Ok <==> channels@.len() == rows@.len() && even(rows@),
        channels@.len() != rows@.len() ==> r == Err::<Anchor, AnchorError>(
            AnchorError::RowCount {
                channels: channels@.len() as usize,
                rows: rows@.len() as usize,
            },
        ),
        channels@.len() == rows@.len() && !even(rows@) ==> r == Err::<Anchor, AnchorError>(
            AnchorError::RaggedRows,
        ),
        r is Ok ==> {
            let anchor = r->Ok_0;
            &&& anchor.wf()
            &&& anchor.channels@.len() == channels@.len()
            &&& forall|c: int|
                0 <= c < channels@.len() ==> #[trigger] anchor.channels@[c] == channels@[c].0
            &&& forall|c: int, h: int|
                0 <= c < channels@.len() && #[trigger] first_named(channels@, c, h)
                    ==> anchor.scores@[c]@ == Seq::new(
                    rows@[h]@.len(),
                    |i: int| stored_cell(channels@[c].1, rows@[h]@[i]),
                )
        },
{
    match check_rows(channels.len(), rows) {
        Ok(_) => {},
        Err(e) => {
            return Err(e);
        },
    }
    let mut keys: Vec<String> = Vec::new();
    let mut scores: Vec<Vec<Option<Double>>> = Vec::new();
    let mut c: usize = 0;
    while c < channels.len()
        invariant
            channels@.len() == rows@.len(),
            c <= channels@.len(),
            keys@.len() == c,
            scores@.len() == c,
            forall|x: int| 0 <= x < c ==> #[trigger] keys@[x] == channels@[x].0,
            forall|x: int, h: int|
                0 <= x < c && #[trigger] first_named(channels@, x, h) ==> scores@[x]@ == Seq::new(
                    rows@[h]@.len(),
                    |i: int| stored_cell(channels@[x].1, rows@[h]@[i]),
                ),
            forall|x: int, i: int|
                0 <= x < c && 0 <= i < scores@[x]@.len() && (#[trigger] scores@[x]@[i]) is Some
                    ==> scores@[x]@[i]->0.finite(),
        decreases channels@.len() - c,
    {
        let h: usize = first_row(channels, c);
        let row = orient_row(&rows[h], channels[c].1);
        proof {
            assert forall|g: int| #[trigger] first_named(channels@, c as int, g) implies g == h by {
                if g < h {
                    assert(channels@[g].0@ != channels@[c as int].0@);
                } else if h < g {
                    assert(channels@[h as int].0@ != channels@[c as int].0@);
                }
            }
        }
        keys.push(channels[c].0.clone());
        scores.push(row);
        c += 1;
    }
    Ok(Anchor { channels: keys, scores })
}

fn orient_row(cells: &Vec<Option<Double>>, dir: Direction) -> (row: Vec<Option<Double>>)
    ensures
        row@ == Seq::new(cells@.len(), |i: int| stored_cell(dir, cells@[i])),
        forall|i: int| 0 <= i < row@.len() && (#[trigger] row@[i]) is Some ==> row@[i]->0.finite(),
{
    let mut row: Vec<Option<Double>> = Vec::new();
    let mut i: usize = 0;
    while i < cells.len()
        invariant
            i <= cells@.len(),
            row@.len() == i,
            forall|h: int| 0 <= h < i ==> #[trigger] row@[h] == stored_cell(dir, cells@[h]),
        decreases cells@.len() - i,
    {
        let cell = match cells[i] {
            Some(x) => sanitize(orient(dir, x)),
            None => None,
        };
        row.push(cell);
        i += 1;
    }
    assert(row@ =~= Seq::new(cells@.len(), |i: int| stored_cell(dir, cells@[i])));
    row
}

} // verus!
