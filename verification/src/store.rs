//! The schedule store.
//!
//! One file per ISO week, named after the week's Monday and Sunday, holding
//! the canonical text of the grid. Reading a missing file falls back to a
//! fresh blank week; reading a present but undecodable file is a fatal
//! corruption, never silently discarded. The functions here compute file
//! names and contents; the caller moves bytes to and from disk.

use vstd::prelude::*;
use crate::codec::{spec_encode, encode_grid, parse_grid, grid_bounded, lemma_encode_injective};
use crate::date::{Date, WeekId, week_in_range, monday_of, day_of, month_of, year_of, same_iso_week};
use crate::model::{WeekGrid, HourUnitView, grid_wf, spec_init_week, lemma_set_content_idempotent};
use crate::num::{spec_dec, push_dec};
use crate::text::{str_to_chars, chars_to_string};

verus! {

/// A week file that is present but does not decode: fatal, since guessing
/// a repair would risk losing the user's notes.
#[derive(Clone, Copy, PartialEq, Eq, Structural, Debug)]
pub struct CorruptStoreError;

/// The storage directory every week file lives in.
pub open spec fn spec_dir_prefix() -> Seq<char> {
    seq!['.', 'f', 'r', 'e', 'e', 't', 'i', 'm', 'e', '/']
}

/// The file name suffix of a stored week.
pub open spec fn spec_path_suffix() -> Seq<char> {
    seq!['.', 'w', 'e', 'e', 'k']
}

/// The storage path of a week:
/// `.freetime/<Mon-month>_<Mon-day>_<Mon-year>-<Sun-month>_<Sun-day>_<Sun-year>.week`.
pub open spec fn spec_week_path(monday: int) -> Seq<char> {
    spec_dir_prefix() + spec_dec(month_of(monday) as nat) + seq!['_']
        + spec_dec(day_of(monday) as nat) + seq!['_'] + spec_dec(year_of(monday) as nat)
        + seq!['-'] + spec_dec(month_of(monday + 6) as nat) + seq!['_']
        + spec_dec(day_of(monday + 6) as nat) + seq!['_'] + spec_dec(year_of(monday + 6) as nat)
        + spec_path_suffix()
}

/// The file path for a week's grid. Weeks with the same identifier get the
/// same path, so every date of a week reaches the same file.
pub fn week_file_path(id: WeekId) -> (r: String)
    requires
        id.wf(),
    ensures
        r@ == spec_week_path(id.monday as int),
{
    let monday = Date { rd: id.monday };
    let sunday = Date { rd: id.monday + 6 };
    let (my, mm, md) = monday.civil();
    let (sy, sm, sd) = sunday.civil();
    let mut out: Vec<char> = Vec::new();
    out.push('.');
    out.push('f');
    out.push('r');
    out.push('e');
    out.push('e');
    out.push('t');
    out.push('i');
    out.push('m');
    out.push('e');
    out.push('/');
    push_dec(&mut out, mm);
    out.push('_');
    push_dec(&mut out, md);
    out.push('_');
    push_dec(&mut out, my);
    out.push('-');
    push_dec(&mut out, sm);
    out.push('_');
    push_dec(&mut out, sd);
    out.push('_');
    push_dec(&mut out, sy);
    out.push('.');
    out.push('w');
    out.push('e');
    out.push('e');
    out.push('k');
    proof {
        assert(out@ =~= spec_week_path(id.monday as int));
    }
    chars_to_string(&out)
}

/// The exact file contents to persist for a grid.
pub fn save_week(g: &WeekGrid) -> (r: String)
    requires
        g.wf(),
    ensures
        r@ == spec_encode(g@),
{
    encode_grid(g)
}

/// Rebuilds a week's grid from what the store holds for it: a missing file
/// yields the fresh blank week of `anchor`; a present file yields exactly
/// the grid it encodes, or the corruption error when it encodes none.
pub fn load_week(anchor: Date, file: Option<&str>) -> (r: Result<WeekGrid, CorruptStoreError>)
    requires
        anchor.wf(),
        week_in_range(anchor.rd as int),
    ensures
        r matches Ok(g) ==> g.wf(),
        file is None ==> (r matches Ok(g) && g@ == spec_init_week(anchor.rd as int)),
        file matches Some(s) ==> match r {
            Ok(g) => s@ == spec_encode(g@),
            Err(_) => forall|gv: Seq<Seq<HourUnitView>>|
                grid_wf(gv) && grid_bounded(gv) ==> s@ != spec_encode(gv),
        },
{
    match file {
        None => Ok(WeekGrid::init_week(anchor)),
        Some(s) => {
            let cs = str_to_chars(s);
            match parse_grid(&cs) {
                Some(g) => Ok(g),
                None => Err(CorruptStoreError),
            }
        },
    }
}

/// Dates of one ISO week share their storage path: the file name is a
/// function of the week's Monday alone.
pub proof fn lemma_same_week_same_file(rd1: int, rd2: int)
    requires
        same_iso_week(rd1, rd2),
    ensures
        spec_week_path(monday_of(rd1)) == spec_week_path(monday_of(rd2)),
{
}

/// Round trip: saving a grid and loading the saved text yields an equal
/// grid — the saved text encodes that grid and no other.
pub proof fn lemma_store_round_trip(g1: Seq<Seq<HourUnitView>>, g2: Seq<Seq<HourUnitView>>)
    requires
        grid_wf(g1),
        grid_wf(g2),
        spec_encode(g1) == spec_encode(g2),
    ensures
        g1 == g2,
{
    lemma_encode_injective(g1, g2);
}

/// Committing the same note twice to the same slot persists the same file
/// bytes as committing it once.
pub proof fn lemma_commit_twice_same_bytes(
    g: Seq<Seq<HourUnitView>>,
    i: int,
    j: int,
    text: Seq<char>,
)
    requires
        grid_wf(g),
        0 <= i < 7,
        0 <= j < 13,
    ensures
        spec_encode(
            WeekGrid::spec_set_content(WeekGrid::spec_set_content(g, i, j, text), i, j, text),
        ) == spec_encode(WeekGrid::spec_set_content(g, i, j, text)),
{
    lemma_set_content_idempotent(g, i, j, text);
}

} // verus!
