//! An editing session: what each part of the window shows, and what an action
//! leads to.

use vstd::prelude::*;
use vstd::slice::slice_subrange;

use crate::encode::{CutMode, Progress};
use crate::export::ExportEvent;
use crate::fixed::{parse_real, push_real, real_number, real_text, signed, Real};
use crate::library::{
    a_path_names_its_last_part, file_name, format_modified, format_size, on_calendar, shows,
    size_text, CivilTime, VideoFile,
};
use crate::marks::Marks;
use crate::media::SnapResult;
use crate::text::{
    chars_of, contents, digits, find_last, last_before, last_before_finds, padded, parse_whole,
    pieces, push_digits, same, split, text_of, trim, trimmed, whole_number,
};
use crate::timecode::{clock, clock_precise, clock_text, precise_text};

verus! {

// ---- the list -----------------------------------------------------------------

/// A row of the list.
#[derive(Debug, Clone, PartialEq, Eq)]
pub struct FileEntry {
    pub display_name: String,
    pub sub_path: String,
    pub modified: String,
    pub duration: String,
    pub path: String,
}

/// Convert a scanned file into a row for the list.
///
/// All formatting happens here so the UI never has to know about timestamps.
pub fn to_entry(file: &VideoFile) -> (r: FileEntry)
    requires
        on_calendar(file.modified),
    ensures
        r.display_name@ == file.display_name@,
        r.sub_path@ == file.sub_path@,
        exists|time: CivilTime, now: CivilTime| #[trigger]
            shows(r.modified@, file.modified, time, now),
        r.duration@ == Seq::<char>::empty(),
        r.path@ == file.path@,
{
    let modified: String = format_modified(file.modified);
    let r: FileEntry = FileEntry {
        display_name: file.display_name.as_str().to_string(),
        sub_path: file.sub_path.as_str().to_string(),
        modified,
        duration: String::new(),
        path: file.path.as_str().to_string(),
    };
    assert(r.modified@ == modified@);
    r
}

/// The row of the file at `path`.
pub open spec fn is_row_of(files: Seq<VideoFile>, path: Seq<char>, row: int) -> bool {
    &&& 0 <= row < files.len()
    &&& files[row].path@ == path
    &&& forall|i: int| 0 <= i < row ==> (#[trigger] files[i]).path@ != path
}

fn equal(a: &str, b: &str) -> (r: bool)
    ensures
        r == (a@ == b@),
{
    let x: Vec<char> = chars_of(a);
    let y: Vec<char> = chars_of(b);
    same(x.as_slice(), y.as_slice())
}

/// The row to select after a scan.
///
/// Follows the selected *file*, not its row number. Rows shift whenever a file is
/// added or removed, so tracking the index would silently move the selection to a
/// different video.
pub fn selected_row(files: &Vec<VideoFile>, current: &str) -> (r: Option<usize>)
    ensures
        match r {
            Some(row) => current@.len() > 0 && is_row_of(files@, current@, row as int),
            None => current@.len() == 0 || forall|i: int|
                0 <= i < files@.len() ==> (#[trigger] files@[i]).path@ != current@,
        },
{
    let cs: Vec<char> = chars_of(current);
    if cs.len() == 0 {
        return None;
    }
    let mut i: usize = 0;
    while i < files.len()
        invariant
            i <= files@.len(),
            current@.len() > 0,
            forall|k: int| 0 <= k < i ==> (#[trigger] files@[k]).path@ != current@,
        decreases files@.len() - i,
    {
        if equal(files[i].path.as_str(), current) {
            return Some(i);
        }
        i += 1;
    }
    None
}

/// The size of all files.
pub open spec fn sizes(files: Seq<VideoFile>) -> nat
    decreases files.len(),
{
    if files.len() == 0 {
        0
    } else {
        sizes(files.drop_last()) + files.last().size as nat
    }
}

proof fn sizes_grow(files: Seq<VideoFile>, i: int)
    requires
        0 <= i <= files.len(),
    ensures
        sizes(files.take(i)) <= sizes(files),
    decreases files.len() - i,
{
    if i < files.len() {
        sizes_grow(files, i + 1);
        assert(files.take(i + 1).drop_last() =~= files.take(i));
    } else {
        assert(files.take(i) =~= files);
    }
}

/// The size of all files, if it can be told.
pub fn total_size(files: &Vec<VideoFile>) -> (r: Option<u64>)
    ensures
        match r {
            Some(n) => n == sizes(files@),
            None => sizes(files@) > u64::MAX,
        },
{
    let mut total: u64 = 0;
    let mut i: usize = 0;
    assert(files@.take(0) =~= Seq::<VideoFile>::empty());
    while i < files.len()
        invariant
            i <= files@.len(),
            total == sizes(files@.take(i as int)),
        decreases files@.len() - i,
    {
        assert(files@.take(i + 1).drop_last() =~= files@.take(i as int));
        proof {
            sizes_grow(files@, i + 1);
        }
        match total.checked_add(files[i].size) {
            Some(n) => {
                total = n;
            },
            None => {
                return None;
            },
        }
        i += 1;
    }
    assert(files@.take(i as int) =~= files@);
    Some(total)
}

/// How many files there are, and how large they are together.
pub open spec fn library_text(count: nat, total: u64) -> Seq<char> {
    if count == 0 {
        Seq::empty()
    } else {
        digits(count) + " file"@ + if count == 1 {
            ""@
        } else {
            "s"@
        } + " · "@ + size_text(total)
    }
}

pub fn library_summary(count: usize, total: u64) -> (r: String)
    ensures
        r@ == library_text(count as nat, total),
{
    let mut r: String = String::new();
    if count > 0 {
        push_digits(&mut r, count as u128);
        r.append(" file");
        if count == 1 {
            r.append("");
        } else {
            r.append("s");
        }
        r.append(" · ");
        r.append(format_size(total).as_str());
    }
    assert(r@ =~= library_text(count as nat, total));
    r
}

// ---- marks --------------------------------------------------------------------

/// Marks per file, so switching away and back does not lose work. Deliberately
/// not persisted: marks belong to an editing session.
#[derive(Debug)]
pub struct MarksByFile {
    entries: Vec<(String, Marks)>,
}

/// The marks of the entries, the last entry of a file counting.
pub open spec fn marks_in(entries: Seq<(Seq<char>, Marks)>) -> Map<Seq<char>, Marks>
    decreases entries.len(),
{
    if entries.len() == 0 {
        Map::empty()
    } else {
        marks_in(entries.drop_last()).insert(entries.last().0, entries.last().1)
    }
}

pub open spec fn entry_views(entries: Seq<(String, Marks)>) -> Seq<(Seq<char>, Marks)> {
    entries.map_values(|e: (String, Marks)| (e.0@, e.1))
}

impl View for MarksByFile {
    type V = Map<Seq<char>, Marks>;

    closed spec fn view(&self) -> Map<Seq<char>, Marks> {
        marks_in(entry_views(self.entries@))
    }
}

/// A file's marks: none until it has some.
pub open spec fn marks_for_file(all: Map<Seq<char>, Marks>, path: Seq<char>) -> Marks {
    if all.dom().contains(path) {
        all[path]
    } else {
        Marks::unset()
    }
}

impl MarksByFile {
    pub fn new() -> (r: Self)
        ensures
            r@ == Map::<Seq<char>, Marks>::empty(),
    {
        let r = MarksByFile { entries: Vec::new() };
        assert(entry_views(r.entries@) =~= Seq::<(Seq<char>, Marks)>::empty());
        r
    }

    pub fn marks_for(&self, path: &str) -> (r: Marks)
        ensures
            r == marks_for_file(self@, path@),
    {
        let ghost es = entry_views(self.entries@);
        let mut i: usize = self.entries.len();
        assert(es.take(i as int) =~= es);
        while i > 0
            invariant
                i <= self.entries@.len(),
                es == entry_views(self.entries@),
                marks_for_file(self@, path@) == marks_for_file(
                    marks_in(es.take(i as int)),
                    path@,
                ),
            decreases i,
        {
            assert(es.take(i as int).drop_last() =~= es.take(i - 1));
            assert(es.take(i as int).last() == es[i - 1]);
            if equal(self.entries[i - 1].0.as_str(), path) {
                return self.entries[i - 1].1;
            }
            i -= 1;
        }
        Marks::default()
    }

    pub fn insert(&mut self, path: &str, marks: Marks)
        ensures
            final(self)@ == old(self)@.insert(path@, marks),
    {
        self.remove(path);
        let ghost before = entry_views(self.entries@);
        self.entries.push((path.to_string(), marks));
        assert(entry_views(self.entries@) =~= before.push((path@, marks)));
        assert(before.push((path@, marks)).drop_last() =~= before);
        assert(self@ =~= old(self)@.insert(path@, marks));
    }

    pub fn remove(&mut self, path: &str)
        ensures
            final(self)@ == old(self)@.remove(path@),
    {
        let mut kept: Vec<(String, Marks)> = Vec::new();
        let ghost es = entry_views(self.entries@);
        let mut i: usize = 0;
        assert(es.take(0) =~= Seq::<(Seq<char>, Marks)>::empty());
        assert(entry_views(kept@) =~= Seq::<(Seq<char>, Marks)>::empty());
        assert(marks_in(entry_views(kept@)) =~= marks_in(es.take(0)).remove(path@));
        while i < self.entries.len()
            invariant
                i <= self.entries@.len(),
                self.entries@ == old(self).entries@,
                es == entry_views(self.entries@),
                marks_in(entry_views(kept@)) == marks_in(es.take(i as int)).remove(path@),
            decreases self.entries@.len() - i,
        {
            let ghost before = entry_views(kept@);
            assert(es.take(i + 1).drop_last() =~= es.take(i as int));
            assert(es.take(i + 1).last() == es[i as int]);
            if !equal(self.entries[i].0.as_str(), path) {
                kept.push((self.entries[i].0.as_str().to_string(), self.entries[i].1));
                assert(entry_views(kept@) =~= before.push(es[i as int]));
                assert(before.push(es[i as int]).drop_last() =~= before);
            }
            i += 1;
            assert(marks_in(entry_views(kept@)) =~= marks_in(es.take(i as int)).remove(path@));
        }
        assert(es.take(i as int) =~= es);
        self.entries = kept;
    }
}

/// The mark to go to: the in-mark for zero, else the out-mark.
pub fn goto_target(marks: &Marks, which: i32) -> (r: Option<i128>)
    ensures
        r == if which == 0 {
            marks.in_point
        } else {
            marks.out_point
        },
{
    if which == 0 {
        marks.in_point
    } else {
        marks.out_point
    }
}

/// What decides on an export besides the marks.
#[derive(Debug, Clone, Copy, PartialEq, Eq, Structural)]
pub struct Readiness {
    pub refining: bool,
    pub audio_only: bool,
    pub precise: bool,
    pub encoder_available: bool,
    pub has_output_folder: bool,
    pub exporting: bool,
}

/// What is shown of the marks.
#[derive(Debug, Clone, PartialEq, Eq)]
pub struct MarksView {
    pub mark_in: Option<i128>,
    pub mark_out: Option<i128>,
    pub selection_label: String,
    pub can_refine: bool,
    /// The selection that was being refined no longer exists.
    pub leave_refining: bool,
    pub can_export: bool,
    pub export_status: String,
}

/// `start → end  (length)`
pub open spec fn selection_text(marks: Marks) -> Seq<char> {
    match marks.span() {
        Some((start, length)) => precise_text(Real::Finite(start)) + " → "@ + precise_text(
            Real::Finite((start + length) as i128),
        ) + "  ("@ + precise_text(Real::Finite(length)).push(')'),
        None => Seq::empty(),
    }
}

/// Only a re-encode actually runs the chosen video encoder; a stream copy or an
/// audio-only export does not care whether it exists.
pub open spec fn encoder_ok(now: Readiness) -> bool {
    now.audio_only || !now.precise || now.encoder_available
}

/// What still needs doing before an export.
pub open spec fn status_text(marks: Marks, now: Readiness) -> Seq<char> {
    match marks.missing_text() {
        Some(note) => note,
        None => if now.has_output_folder {
            "Ready to export"@
        } else {
            "Choose an output folder"@
        },
    }
}

/// Whether an export can be asked for.
pub open spec fn offered(marks: Marks, now: Readiness) -> bool {
    marks.span() is Some && encoder_ok(now) && now.has_output_folder && !now.exporting
}

/// What to show of the marks: timeline positions, the selection readout, and
/// whether an export is possible.
pub fn show_marks(marks: &Marks, now: &Readiness) -> (r: MarksView)
    ensures
        r.mark_in == marks.in_point,
        r.mark_out == marks.out_point,
        r.selection_label@ == selection_text(*marks),
        r.can_refine == marks.span() is Some,
        r.leave_refining == (marks.span() is None && now.refining),
        r.can_export == offered(*marks, *now),
        r.export_status@ == status_text(*marks, *now),
{
    let mut label: String = String::new();
    if let Some((start, length)) = marks.selection() {
        label.append(clock_precise(Real::Finite(start)).as_str());
        label.append(" → ");
        label.append(clock_precise(Real::Finite(start + length)).as_str());
        label.append("  (");
        label.append(clock_precise(Real::Finite(length)).as_str());
        label.push(')');
    }
    assert(label@ =~= selection_text(*marks));
    let ready: bool = marks.is_exportable();
    let encoder_ok: bool = now.audio_only || !now.precise || now.encoder_available;
    let export_status: String = match marks.missing() {
        Some(note) => note.to_string(),
        None => {
            if now.has_output_folder {
                "Ready to export".to_string()
            } else {
                "Choose an output folder".to_string()
            }
        },
    };
    MarksView {
        mark_in: marks.in_point,
        mark_out: marks.out_point,
        selection_label: label,
        can_refine: ready,
        leave_refining: !ready && now.refining,
        can_export: ready && encoder_ok && now.has_output_folder && !now.exporting,
        export_status,
    }
}

/// An export is offered only when the status says that it is ready.
pub proof fn an_offered_export_is_ready(marks: Marks, now: Readiness)
    ensures
        offered(marks, now) ==> status_text(marks, now) == "Ready to export"@,
        marks.span() is None ==> status_text(marks, now) == marks.missing_text()->0,
{
}

// ---- refining -----------------------------------------------------------------

/// The part of the timeline shown, and the span that is looped.
#[derive(Debug, Clone, Copy, PartialEq, Eq, Structural)]
pub struct RefineView {
    pub view_start: i128,
    pub view_end: i128,
    pub loop_start: i128,
    pub loop_end: i128,
}

/// A little context either side, so the marks are reachable rather than pinned to
/// the very edges of the track: three twentieths of the clip, between a quarter
/// of a second and five seconds.
pub open spec fn margin(length: int) -> int {
    let m = length * 3 / 20;
    if m < 250_000_000 {
        250_000_000
    } else if m > 5_000_000_000 {
        5_000_000_000
    } else {
        m
    }
}

/// The end of the view: no farther than the file goes, where that is known.
pub open spec fn view_end(end: int, duration: Real) -> int {
    match duration {
        Real::Finite(d) if 0 < d < end => d as int,
        _ => if end > i128::MAX {
            i128::MAX as int
        } else {
            end
        },
    }
}

fn margin_of(length: i128) -> (r: i128)
    requires
        length >= 0,
    ensures
        r == margin(length as int),
{
    if length >= 100_000_000_000 {
        return 5_000_000_000;
    }
    let m: i128 = length * 3 / 20;
    if m < 250_000_000 {
        250_000_000
    } else if m > 5_000_000_000 {
        5_000_000_000
    } else {
        m
    }
}

/// The selection with its margins, and the loop over it.
pub open spec fn refined(marks: Marks, duration: Real) -> Option<RefineView> {
    match marks.span() {
        Some((start, length)) => Some(
            RefineView {
                view_start: if start - margin(length as int) > 0 {
                    (start - margin(length as int)) as i128
                } else {
                    0
                },
                view_end: view_end(start + length + margin(length as int), duration) as i128,
                loop_start: start,
                loop_end: (start + length) as i128,
            },
        ),
        None => None,
    }
}

/// Zooms the timeline into the selection and loops it, so marks can be nudged
/// precisely on a file where the whole clip is otherwise a few pixels wide.
/// Without a selection there is nothing to refine.
pub fn refine_view(marks: &Marks, duration: Real) -> (r: Option<RefineView>)
    ensures
        r == refined(*marks, duration),
{
    match marks.selection() {
        Some((start, length)) => {
            let pad: i128 = margin_of(length);
            let end: i128 = start + length;
            let view_start: i128 = if start > pad {
                start - pad
            } else {
                0
            };
            let far: i128 = if end > i128::MAX - pad {
                i128::MAX
            } else {
                end + pad
            };
            let view_end: i128 = match duration {
                Real::Finite(d) => {
                    if 0 < d && d < far {
                        d
                    } else {
                        far
                    }
                },
                _ => far,
            };
            Some(RefineView { view_start, view_end, loop_start: start, loop_end: end })
        },
        None => None,
    }
}

/// The view never shows what is before the file or, where its end is known, behind
/// it, and keeps both marks in sight.
pub proof fn a_refined_view_holds_the_selection(start: int, length: int, duration: Real)
    requires
        0 <= start,
        0 <= length,
        start + length <= i128::MAX,
        duration matches Real::Finite(d) ==> (d > 0 ==> start + length <= d),
    ensures
        ({
            let m = margin(length);
            let from = if start - m > 0 {
                start - m
            } else {
                0
            };
            let to = view_end(start + length + m, duration);
            &&& 0 <= from <= start
            &&& start + length <= to
            &&& duration matches Real::Finite(d) ==> (d > 0 ==> to <= d)
        }),
{
}

/// The span to loop while marks are nudged during refinement. `None` ends it.
pub fn refined_loop(marks: &Marks) -> (r: Option<(i128, i128)>)
    ensures
        match marks.span() {
            Some((start, length)) => r == Some((start, (start + length) as i128)),
            None => r is None,
        },
{
    match marks.selection() {
        Some((start, length)) => Some((start, start + length)),
        None => None,
    }
}

/// What toggling leads to: the view to show, or `None` for the whole file. It is
/// left when it was on, and entered only with a selection.
pub fn toggle_refine(refining: bool, marks: &Marks, duration: Real) -> (r: Option<RefineView>)
    ensures
        r == (if refining {
            None
        } else {
            refined(*marks, duration)
        }),
{
    if refining {
        None
    } else {
        refine_view(marks, duration)
    }
}

// ---- keyframe snapping --------------------------------------------------------

/// What to do about the position a fast cut would start from.
#[derive(Debug, Clone, PartialEq, Eq)]
pub enum SnapAction {
    /// Ask where it is.
    Request { file: String, mark: i128 },
    /// The question does not apply.
    Clear,
    Nothing,
}

/// Ask for a snap position, or clear it when the question does not apply.
///
/// In Fast mode a stream copy cannot start mid-GOP, so it lands on the preceding
/// keyframe. Precise mode honours the mark exactly, so there is nothing to warn
/// about.
pub fn refresh_snap(
    mode: CutMode,
    marks: &Marks,
    can_probe: bool,
    current: Option<String>,
) -> (r: SnapAction)
    ensures
        match marks.in_point {
            Some(at) if mode == CutMode::Fast && can_probe => match current {
                Some(path) => r matches SnapAction::Request { file, mark } && file@ == path@
                    && mark == at,
                None => r is Nothing,
            },
            _ => r is Clear,
        },
{
    match (mode, marks.in_point, can_probe) {
        (CutMode::Fast, Some(mark), true) => {
            match current {
                Some(file) => SnapAction::Request { file, mark },
                None => SnapAction::Nothing,
            }
        },
        _ => SnapAction::Clear,
    }
}

/// Where the fast cut begins, and what is said of it.
#[derive(Debug, Clone, PartialEq, Eq)]
pub struct SnapView {
    pub ghost_in: Option<i128>,
    pub note: String,
}

/// What is said of a cut that begins `at` for the mark. On a keyframe already,
/// nothing is lost.
pub open spec fn snap_text(mark: i128, at: i128) -> Seq<char> {
    if mark - at < 50_000_000 {
        "Fast cut starts exactly on the in point"@
    } else {
        "Fast cut starts at "@ + precise_text(Real::Finite(at)) + " — "@ + real_text(
            behind(mark, at),
            1,
            false,
        ) + "s before the in point"@
    }
}

/// By how much a cut begins before the mark.
pub open spec fn behind(mark: i128, at: i128) -> Real {
    if mark - at > i128::MAX {
        Real::PosInf
    } else {
        Real::Finite((mark - at) as i128)
    }
}

/// Whether the answer is to what is shown: the same file, and the same mark but
/// for a thousandth of a second.
pub open spec fn still_asked(result: SnapResult, current: Seq<char>, mark_in: i128) -> bool {
    &&& result.file@ == current
    &&& -1_000_000 <= mark_in - result.mark <= 1_000_000
}

/// What to show of a probe's answer. Answers for a file or mark we have already
/// moved on from are discarded.
pub fn snap_view(result: &SnapResult, current: &str, mark_in: i128) -> (r: Option<SnapView>)
    ensures
        match r {
            Some(v) => still_asked(*result, current@, mark_in) && match result.snapped {
                Some(at) => v.ghost_in == Some(at) && v.note@ == snap_text(result.mark, at),
                None => v.ghost_in is None && v.note@ == Seq::<char>::empty(),
            },
            None => !still_asked(*result, current@, mark_in),
        },
{
    if !equal(result.file.as_str(), current) {
        return None;
    }
    match mark_in.checked_sub(result.mark) {
        Some(off) => {
            if off < -1_000_000 || off > 1_000_000 {
                return None;
            }
        },
        None => {
            return None;
        },
    }
    match result.snapped {
        Some(at) => {
            let behind: Real = match result.mark.checked_sub(at) {
                Some(d) => Real::Finite(d),
                None => if at < 0 {
                    Real::PosInf
                } else {
                    Real::NegInf
                },
            };
            let on_it: bool = match behind {
                Real::Finite(d) => d < 50_000_000,
                Real::PosInf => false,
                _ => true,
            };
            let mut note: String = String::new();
            if on_it {
                note.append("Fast cut starts exactly on the in point");
            } else {
                note.append("Fast cut starts at ");
                note.append(clock_precise(Real::Finite(at)).as_str());
                note.append(" — ");
                push_real(&mut note, behind, 1, false);
                note.append("s before the in point");
            }
            assert(note@ =~= snap_text(result.mark, at));
            Some(SnapView { ghost_in: Some(at), note })
        },
        None => Some(SnapView { ghost_in: None, note: String::new() }),
    }
}

// ---- sound --------------------------------------------------------------------

/// What moving the volume slider leads to.
#[derive(Debug, Clone, Copy, PartialEq, Eq, Structural)]
pub struct VolumeChange {
    pub volume: Real,
    pub unmute: bool,
}

pub open spec fn volume_change(asked: Real, muted: bool) -> VolumeChange {
    let volume = crate::player::audible(asked);
    VolumeChange { volume, unmute: muted && (volume matches Real::Finite(v) && v > 0) }
}

/// Touching the slider is an unambiguous intent to hear something.
pub fn set_volume(asked: Real, muted: bool) -> (r: VolumeChange)
    ensures
        r == volume_change(asked, muted),
{
    let volume: Real = crate::player::clamp_volume(asked);
    let heard: bool = match volume {
        Real::Finite(v) => v > 0,
        _ => false,
    };
    VolumeChange { volume, unmute: heard && muted }
}

// ---- exporting ----------------------------------------------------------------

/// The file's name without its extension.
pub open spec fn stem_of(path: Seq<char>) -> Option<Seq<char>> {
    match file_name(path) {
        Some(name) => {
            let i = last_before(name, '.', name.len() as int);
            if i > 0 {
                Some(name.take(i))
            } else {
                Some(name)
            }
        },
        None => None,
    }
}

pub open spec fn suggested(path: Seq<char>) -> Seq<char> {
    match stem_of(path) {
        Some(stem) => stem + "_001"@,
        None => "clip"@ + "_001"@,
    }
}

/// Suggest an output name from the source, e.g. `Session 2026-08-14_001`.
///
/// The counter is a starting point only; collision handling happens at export,
/// once the output folder and container are both known.
pub fn suggest_filename(source: &str) -> (r: String)
    ensures
        r@ == suggested(source@),
{
    let cs: Vec<char> = chars_of(source);
    let mut r: String = match crate::library::name_of(cs.as_slice()) {
        Some(name) => {
            let end: usize = match find_last(name.as_slice(), '.') {
                Some(at) => if at > 0 {
                    at
                } else {
                    name.len()
                },
                None => name.len(),
            };
            let stem = slice_subrange(name.as_slice(), 0, end);
            assert(stem@ =~= name@.take(end as int));
            assert(name@.take(name@.len() as int) =~= name@);
            text_of(stem)
        },
        None => "clip".to_string(),
    };
    r.append("_001");
    r
}

/// Why an export does not begin, or that it does.
#[derive(Debug, Clone, Copy, PartialEq, Eq, Structural)]
pub enum ExportPlan {
    NoTools,
    /// No file is loaded, or its marks enclose nothing.
    NothingSelected,
    NoOutputFolder,
    /// From `start` on, for `duration`.
    Begin { start: i128, duration: i128 },
}

impl ExportPlan {
    /// What is shown instead of an export, where anything is.
    pub open spec fn text(self) -> Option<Seq<char>> {
        match self {
            ExportPlan::NoTools => Some("ffmpeg was not found — cannot export"@),
            ExportPlan::NoOutputFolder => Some("Choose an output folder first"@),
            _ => None,
        }
    }

    pub fn message(&self) -> (r: Option<&'static str>)
        ensures
            match r {
                Some(m) => self.text() == Some(m@),
                None => self.text() is None,
            },
    {
        match self {
            ExportPlan::NoTools => Some("ffmpeg was not found — cannot export"),
            ExportPlan::NoOutputFolder => Some("Choose an output folder first"),
            _ => None,
        }
    }
}

/// What comes of asking for an export.
pub open spec fn planned(
    has_tools: bool,
    has_file: bool,
    marks: Marks,
    has_output_folder: bool,
) -> ExportPlan {
    if !has_tools {
        ExportPlan::NoTools
    } else {
        match marks.span() {
            Some((start, duration)) if has_file => if has_output_folder {
                ExportPlan::Begin { start, duration }
            } else {
                ExportPlan::NoOutputFolder
            },
            _ => ExportPlan::NothingSelected,
        }
    }
}

/// Whether an export can begin.
pub fn plan_export(
    has_tools: bool,
    has_file: bool,
    marks: &Marks,
    has_output_folder: bool,
) -> (r: ExportPlan)
    ensures
        r == planned(has_tools, has_file, *marks, has_output_folder),
{
    if !has_tools {
        return ExportPlan::NoTools;
    }
    if !has_file {
        return ExportPlan::NothingSelected;
    }
    match marks.selection() {
        Some((start, duration)) => {
            if has_output_folder {
                ExportPlan::Begin { start, duration }
            } else {
                ExportPlan::NoOutputFolder
            }
        },
        None => ExportPlan::NothingSelected,
    }
}

/// How far the export is, and how long it will take, where that is known.
pub open spec fn detail_text(p: Progress, clip: Real) -> Seq<char> {
    let done = clock_text(signed(false, p.out_time as nat)) + " of "@ + clock_text(clip);
    match p.remaining(clip) {
        Some(eta) => done + "  ·  "@ + real_text(p.speed, 1, false) + "x  ·  about "@ + clock_text(
            eta,
        ) + " left"@,
        None => done,
    }
}

fn seconds(ns: u128) -> (r: Real)
    ensures
        r == signed(false, ns as nat),
{
    if ns > i128::MAX as u128 {
        Real::PosInf
    } else {
        Real::Finite(ns as i128)
    }
}

pub fn export_detail(p: &Progress, clip: Real) -> (r: String)
    ensures
        r@ == detail_text(*p, clip),
{
    let mut r: String = clock(seconds(p.out_time));
    r.append(" of ");
    r.append(clock(clip).as_str());
    if let Some(eta) = p.eta_secs(clip) {
        r.append("  ·  ");
        push_real(&mut r, p.speed, 1, false);
        r.append("x  ·  about ");
        r.append(clock(eta).as_str());
        r.append(" left");
    }
    assert(r@ =~= detail_text(*p, clip));
    r
}

/// The status line once an export has ended. ffmpeg's own words, not a generic
/// failure.
pub open spec fn ended_text(event: ExportEvent) -> Option<Seq<char>> {
    match event {
        ExportEvent::Progress(_) => None,
        ExportEvent::Finished { output } => Some(
            "Saved "@ + match file_name(output@) {
                Some(name) => name,
                None => Seq::empty(),
            },
        ),
        ExportEvent::Failed { message } => Some("Export failed: "@ + message@),
        ExportEvent::Cancelled => Some("Export cancelled"@),
    }
}

pub fn ended_status(event: &ExportEvent) -> (r: Option<String>)
    ensures
        match r {
            Some(t) => ended_text(*event) == Some(t@),
            None => ended_text(*event) is None,
        },
{
    match event {
        ExportEvent::Progress(_) => None,
        ExportEvent::Finished { output } => {
            let mut r: String = "Saved ".to_string();
            let cs: Vec<char> = chars_of(output.as_str());
            if let Some(name) = crate::library::name_of(cs.as_slice()) {
                r.append(text_of(name.as_slice()).as_str());
            }
            assert(r@ =~= ended_text(*event)->0);
            Some(r)
        },
        ExportEvent::Failed { message } => {
            let mut r: String = "Export failed: ".to_string();
            r.append(message.as_str());
            Some(r)
        },
        ExportEvent::Cancelled => Some("Export cancelled".to_string()),
    }
}

// ---- self-checks --------------------------------------------------------------

/// A whole number that may have a sign, if it is not negative.
pub open spec fn row_number(s: Seq<char>) -> Option<nat> {
    if s.len() > 0 && s[0] == '-' {
        if s.len() > 1 && s[1] != '+' {
            whole_number(s.skip(1), 0)
        } else {
            None
        }
    } else {
        whole_number(s, i32::MAX as nat)
    }
}

/// The row that a headless check selects: the one asked for, if there is such a
/// row and none is selected yet.
pub fn autoselect(asked: &str, count: usize, selected: i32) -> (r: Option<i32>)
    ensures
        match r {
            Some(n) => row_number(asked@) == Some(n as nat) && 0 <= n < count && selected < 0,
            None => match row_number(asked@) {
                Some(n) => n >= count || selected >= 0,
                None => true,
            },
        },
{
    let cs: Vec<char> = chars_of(asked);
    let n: Option<u64> = if cs.len() > 0 && cs[0] == '-' {
        if cs.len() > 1 && cs[1] != '+' {
            let rest = slice_subrange(cs.as_slice(), 1, cs.len());
            assert(rest@ =~= cs@.skip(1));
            parse_whole(rest, 0)
        } else {
            None
        }
    } else {
        parse_whole(cs.as_slice(), i32::MAX as u64)
    };
    match n {
        Some(n) => {
            if n < count as u64 && selected < 0 {
                Some(n as i32)
            } else {
                None
            }
        },
        None => None,
    }
}

/// The numbers among the parts of a list.
pub open spec fn numbers(parts: Seq<Seq<char>>) -> Seq<Real>
    decreases parts.len(),
{
    if parts.len() == 0 {
        Seq::empty()
    } else {
        match real_number(trimmed(parts.last())) {
            Some(x) => numbers(parts.drop_last()).push(x),
            None => numbers(parts.drop_last()),
        }
    }
}

/// The marks that a headless check places: the first two numbers of a list.
pub fn automark(list: &str) -> (r: Option<(Real, Real)>)
    ensures
        ({
            let all = numbers(pieces(list@, ',', 0));
            r == if all.len() >= 2 {
                Some((all[0], all[1]))
            } else {
                None
            }
        }),
{
    let cs: Vec<char> = chars_of(list);
    let parts: Vec<&[char]> = split(cs.as_slice(), ',');
    let ghost ps = contents(parts@);
    let mut found: Vec<Real> = Vec::new();
    let mut i: usize = 0;
    assert(ps.take(0) =~= Seq::<Seq<char>>::empty());
    while i < parts.len()
        invariant
            i <= parts@.len(),
            ps == contents(parts@),
            found@ == numbers(ps.take(i as int)),
        decreases parts@.len() - i,
    {
        assert(ps.take(i + 1).drop_last() =~= ps.take(i as int));
        assert(ps.take(i + 1).last() == parts@[i as int]@);
        if let Some(x) = parse_real(trim(parts[i])) {
            found.push(x);
        }
        i += 1;
    }
    assert(ps.take(i as int) =~= ps);
    if found.len() >= 2 {
        Some((found[0], found[1]))
    } else {
        None
    }
}

/// After how many frames a headless check dumps the picture: as asked, or
/// a hundred and twenty.
pub fn dump_after(asked: Option<&str>) -> (r: u32)
    ensures
        r == match asked {
            Some(text) => match whole_number(text@, u32::MAX as nat) {
                Some(n) => n,
                None => 120,
            },
            None => 120,
        },
{
    match asked {
        Some(text) => {
            let cs: Vec<char> = chars_of(text);
            match parse_whole(cs.as_slice(), u32::MAX as u64) {
                Some(n) => n as u32,
                None => 120,
            }
        },
        None => 120,
    }
}

/// Whether the picture is due, with so many frames before this one.
pub fn dump_is_due(frames_before: u32, after: u32) -> (r: bool)
    ensures
        r == (frames_before + 1 >= after),
{
    after == 0 || frames_before >= after - 1
}

// ---- laws ---------------------------------------------------------------------

/// The size of the library is the sum of the sizes in it, whatever they are.
pub proof fn the_library_is_as_large_as_its_files(
    a: Seq<VideoFile>,
    b: Seq<VideoFile>,
    f: VideoFile,
)
    ensures
        sizes(a + b) == sizes(a) + sizes(b),
        sizes(seq![f]) == f.size,
        sizes(Seq::empty()) == 0,
    decreases b.len(),
{
    assert(seq![f].drop_last() =~= Seq::<VideoFile>::empty());
    assert(seq![f].last() == f);
    assert(sizes(seq![f].drop_last()) == 0);
    if b.len() == 0 {
        assert(a + b =~= a);
    } else {
        the_library_is_as_large_as_its_files(a, b.drop_last(), f);
        assert((a + b).drop_last() =~= a + b.drop_last());
        assert((a + b).last() == b.last());
    }
}

/// The library is summed up by how many files it holds and how large they are, and an
/// empty one not at all.
pub proof fn the_library_is_summed_up_by_count_and_size(count: nat, total: u64)
    ensures
        count == 0 ==> library_text(count, total).len() == 0,
        count == 1 ==> library_text(count, total) == digits(1) + " file · "@ + size_text(total),
        count > 1 ==> library_text(count, total) == digits(count) + " files · "@ + size_text(total),
{
    reveal_strlit(" file");
    reveal_strlit("");
    reveal_strlit("s");
    reveal_strlit(" · ");
    reveal_strlit(" file · ");
    reveal_strlit(" files · ");
    if count == 1 {
        assert(" file"@ + ""@ + " · "@ =~= " file · "@);
        assert(library_text(count, total) =~= digits(1) + " file · "@ + size_text(total));
    }
    if count > 1 {
        assert(" file"@ + "s"@ + " · "@ =~= " files · "@);
        assert(library_text(count, total) =~= digits(count) + " files · "@ + size_text(total));
    }
}

/// The readout of a selection is its two marks and what lies between them; without one
/// it is empty.
pub proof fn a_selection_is_read_out_by_its_marks(start: i128, end: i128)
    requires
        0 <= start,
    ensures
        ({
            let m = Marks { in_point: Some(start), out_point: Some(end) };
            &&& end - start >= 10_000_000 ==> selection_text(m) == precise_text(Real::Finite(start))
                + " → "@ + precise_text(Real::Finite(end)) + "  ("@ + precise_text(
                Real::Finite((end - start) as i128),
            ).push(')')
            &&& end - start < 10_000_000 ==> selection_text(m).len() == 0
        }),
        selection_text(Marks::unset()).len() == 0,
{
}

/// The encoder has a say in a re-encode alone; and what is said of an export is what
/// the marks still need, then the folder, and then that it is ready.
pub proof fn an_export_waits_for_marks_and_then_a_folder(marks: Marks, now: Readiness)
    ensures
        encoder_ok(now) <==> !(now.precise && !now.audio_only && !now.encoder_available),
        marks.missing_text() matches Some(note) ==> status_text(marks, now) == note,
        marks.missing_text() is None && !now.has_output_folder ==> status_text(marks, now)
            == "Choose an output folder"@,
        marks.missing_text() is None && now.has_output_folder ==> status_text(marks, now)
            == "Ready to export"@,
{
}

/// The margin beside a selection is three twentieths of it, but at least a quarter of a
/// second and at most five.
pub proof fn the_margin_is_in_proportion(length: int)
    requires
        length >= 0,
    ensures
        250_000_000 <= margin(length) <= 5_000_000_000,
        250_000_000 < margin(length) < 5_000_000_000 ==> 20 * margin(length) <= 3 * length < 20
            * margin(length) + 20,
        margin(length) == 250_000_000 ==> 3 * length < 20 * 250_000_001,
        margin(length) == 5_000_000_000 ==> 3 * length >= 20 * 5_000_000_000,
{
}

/// The view ends where it is asked to, unless the file ends before that.
pub proof fn the_view_ends_with_the_file(end: i128, d: i128)
    requires
        end >= 0,
    ensures
        d > 0 ==> view_end(end as int, Real::Finite(d)) == (if d < end {
            d as int
        } else {
            end as int
        }),
        d <= 0 ==> view_end(end as int, Real::Finite(d)) == end,
        view_end(end as int, Real::PosInf) == end,
        view_end(end as int, Real::NaN) == end,
{
}

/// A fast cut is told by where it starts and by how much that is before the mark, unless
/// it is as good as on it.
pub proof fn a_fast_cut_is_told_by_where_it_starts(mark: i128, at: i128)
    requires
        0 <= at <= mark,
    ensures
        mark - at < 50_000_000 ==> snap_text(mark, at) == "Fast cut starts exactly on the in point"@,
        mark - at >= 50_000_000 ==> snap_text(mark, at) == "Fast cut starts at "@ + precise_text(
            Real::Finite(at),
        ) + " — "@ + real_text(Real::Finite((mark - at) as i128), 1, false)
            + "s before the in point"@,
{
}

/// An answer counts for the file and the mark it was asked for, within a millisecond,
/// and for no other.
pub proof fn an_answer_counts_for_what_was_asked(
    result: SnapResult,
    current: Seq<char>,
    mark_in: i128,
)
    ensures
        still_asked(result, current, mark_in) ==> result.file@ == current && mark_in - result.mark
            <= 1_000_000 && result.mark - mark_in <= 1_000_000,
        result.file@ == current && result.mark == mark_in ==> still_asked(result, current, mark_in),
        result.file@ != current ==> !still_asked(result, current, mark_in),
        mark_in - result.mark > 1_000_000 || result.mark - mark_in > 1_000_000 ==> !still_asked(
            result,
            current,
            mark_in,
        ),
        result.file@ == current && -1_000_000 <= mark_in - result.mark <= 1_000_000 ==> still_asked(
            result,
            current,
            mark_in,
        ),
{
}

/// A clip is named after its source, without folder and extension, and counted from one.
pub proof fn a_clip_is_named_after_its_source(folder: Seq<char>, stem: Seq<char>, ext: Seq<char>)
    requires
        stem.len() > 0,
        !stem.contains('/'),
        !ext.contains('/'),
        !ext.contains('.'),
        ext.len() > 0,
    ensures
        suggested(folder.push('/') + (stem.push('.') + ext)) == stem + "_001"@,
        suggested(stem.push('.') + ext) == stem + "_001"@,
        !stem.contains('.') ==> suggested(folder.push('/') + stem) == stem + "_001"@,
        crate::export::counted(stem + "_001"@) == (stem, 1nat),
{
    let name = stem.push('.') + ext;
    assert(!name.contains('/')) by {
        assert forall|j: int| 0 <= j < name.len() implies name[j] != '/' by {
            if j < stem.len() {
                assert(stem.contains(stem[j]));
                assert(name[j] == stem[j]);
            } else if j > stem.len() {
                assert(ext.contains(ext[j - stem.len() - 1]));
                assert(name[j] == ext[j - stem.len() - 1]);
            }
        }
    }
    reveal_strlit(".");
    reveal_strlit("..");
    assert("."@.len() == 1 && ".."@.len() == 2);
    assert(".."@[1] == '.');
    if name.len() == 2 {
        assert(ext.contains(ext[0]));
        assert(name[1] == '.');
    }
    a_path_names_its_last_part(folder, name);
    last_before_finds(name, '.', name.len() as int);
    let i = last_before(name, '.', name.len() as int);
    assert(name[stem.len() as int] == '.');
    assert(i == stem.len()) by {
        if i > stem.len() {
            assert(ext.contains(ext[i - stem.len() - 1]));
            assert(name[i] == ext[i - stem.len() - 1]);
        }
    }
    assert(name.take(i) =~= stem);
    if !stem.contains('.') {
        assert("."@[0] == '.');
        assert(stem != "."@ && stem != ".."@) by {
            if stem == "."@ || stem == ".."@ {
                assert(stem[0] == '.');
            }
        }
        a_path_names_its_last_part(folder, stem);
        last_before_finds(stem, '.', stem.len() as int);
        let k = last_before(stem, '.', stem.len() as int);
        if k >= 0 {
            assert(stem.contains(stem[k]));
        }
    }
    reveal_strlit("_001");
    crate::text::padding_is_zeros(1, 3);
    crate::text::numbers_are_decimal(1);
    let p = padded(1, 3);
    assert(p =~= seq!['0', '0', '1']) by {
        assert(p.skip(2) == digits(1));
        assert(p[2] == p.skip(2)[0]);
        assert(digits(1).last() == digits(1)[0]);
    }
    assert(stem.push('_') + p =~= stem + "_001"@);
    crate::export::a_counter_reads_back(stem, 1);
}

/// What an export does is told by its position and its length, and where they are known
/// by its speed and what remains.
pub proof fn an_export_is_told_by_how_far_it_is(p: Progress, clip: Real)
    requires
        p.out_time <= i128::MAX,
    ensures
        p.remaining(clip) is None ==> detail_text(p, clip) == clock_text(
            Real::Finite(p.out_time as i128),
        ) + " of "@ + clock_text(clip),
        p.remaining(clip) matches Some(eta) ==> detail_text(p, clip) == clock_text(
            Real::Finite(p.out_time as i128),
        ) + " of "@ + clock_text(clip) + "  ·  "@ + real_text(p.speed, 1, false)
            + "x  ·  about "@ + clock_text(eta) + " left"@,
{
}

/// How an export ended is told by the name of the file, or in ffmpeg's own words; while
/// it runs, nothing is.
pub proof fn an_end_is_told_by_the_file(folder: Seq<char>, name: Seq<char>, event: ExportEvent)
    requires
        name.len() > 0,
        !name.contains('/'),
        name != "."@,
        name != ".."@,
    ensures
        event matches ExportEvent::Finished { output } ==> (output@ == folder.push('/') + name
            ==> ended_text(event) == Some("Saved "@ + name)),
        event matches ExportEvent::Failed { message } ==> ended_text(event) == Some(
            "Export failed: "@ + message@,
        ),
        event is Cancelled ==> ended_text(event) == Some("Export cancelled"@),
        event is Progress ==> ended_text(event) is None,
{
    a_path_names_its_last_part(folder, name);
}

/// What stops an export is said, unless nothing was asked for.
pub proof fn what_stops_an_export_is_said(start: i128, duration: i128)
    ensures
        ExportPlan::NoTools.text() == Some("ffmpeg was not found — cannot export"@),
        ExportPlan::NoOutputFolder.text() == Some("Choose an output folder first"@),
        ExportPlan::NothingSelected.text() is None,
        (ExportPlan::Begin { start, duration }).text() is None,
{
}

/// A row is asked for by its number, from zero on.
pub proof fn a_row_is_asked_for_by_its_number(n: nat)
    ensures
        n <= i32::MAX ==> row_number(digits(n)) == Some(n),
        n > i32::MAX ==> row_number(digits(n)) is None,
        n > 0 ==> row_number(seq!['-'] + digits(n)) is None,
{
    crate::text::a_whole_number_is_read(n, i32::MAX as nat, digits(n));
    crate::text::a_whole_number_is_read(n, 0, digits(n));
    crate::text::digits_read_back(n);
    assert(crate::text::is_digit(digits(n)[0]));
    let s = seq!['-'] + digits(n);
    assert(s.skip(1) =~= digits(n));
    assert(s[1] == digits(n)[0]);
}

/// Every number of a list is taken, in its order, and what is none is passed over.
pub proof fn the_numbers_of_a_list_are_taken_in_order(
    a: Seq<Seq<char>>,
    b: Seq<Seq<char>>,
    s: Seq<char>,
)
    ensures
        numbers(a + b) == numbers(a) + numbers(b),
        numbers(seq![s]) == match real_number(trimmed(s)) {
            Some(x) => seq![x],
            None => Seq::empty(),
        },
    decreases b.len(),
{
    assert(seq![s].drop_last() =~= Seq::<Seq<char>>::empty());
    assert(seq![s].last() == s);
    assert(numbers(seq![s].drop_last()) =~= Seq::<Real>::empty());
    assert(numbers(seq![s]) =~= match real_number(trimmed(s)) {
        Some(x) => seq![x],
        None => Seq::empty(),
    });
    if b.len() == 0 {
        assert(a + b =~= a);
        assert(numbers(a) + numbers(b) =~= numbers(a));
    } else {
        the_numbers_of_a_list_are_taken_in_order(a, b.drop_last(), s);
        assert((a + b).drop_last() =~= a + b.drop_last());
        assert((a + b).last() == b.last());
        assert(numbers(a + b) =~= numbers(a) + numbers(b));
    }
}

/// A file's marks are those it was last given, and none before.
pub proof fn marks_belong_to_their_file(
    all: Map<Seq<char>, Marks>,
    path: Seq<char>,
    other: Seq<char>,
    marks: Marks,
)
    ensures
        marks_for_file(all.insert(path, marks), path) == marks,
        path != other ==> marks_for_file(all.insert(path, marks), other) == marks_for_file(
            all,
            other,
        ),
        marks_for_file(all.remove(path), path) == (Marks { in_point: None, out_point: None }),
        marks_for_file(Map::empty(), path) == (Marks { in_point: None, out_point: None }),
{
}

/// An export is offered exactly when there is a clip, a folder to put it in, an encoder
/// where one is needed, and none under way; and it takes nothing else.
pub proof fn an_export_is_offered_when_it_can_be_done(start: i128, end: i128, now: Readiness)
    requires
        0 <= start,
    ensures
        ({
            let m = Marks { in_point: Some(start), out_point: Some(end) };
            offered(m, now) <==> {
                &&& end - start >= 10_000_000
                &&& now.has_output_folder
                &&& !now.exporting
                &&& now.encoder_available || !now.precise || now.audio_only
            }
        }),
        !offered(Marks::unset(), now),
{
}

/// An export begins at the in-mark and lasts to the out-mark, as soon as there are tools,
/// a file, a clip and a folder; otherwise the first of these that is missing stops it.
pub proof fn an_export_begins_at_its_marks(
    has_tools: bool,
    has_file: bool,
    start: i128,
    end: i128,
    has_folder: bool,
)
    requires
        0 <= start,
    ensures
        ({
            let m = Marks { in_point: Some(start), out_point: Some(end) };
            let r = planned(has_tools, has_file, m, has_folder);
            let clip = end - start >= 10_000_000;
            &&& !has_tools ==> r == ExportPlan::NoTools
            &&& has_tools && !(has_file && clip) ==> r == ExportPlan::NothingSelected
            &&& has_tools && has_file && clip && !has_folder ==> r == ExportPlan::NoOutputFolder
            &&& has_tools && has_file && clip && has_folder ==> r == (ExportPlan::Begin {
                start,
                duration: (end - start) as i128,
            })
        }),
{
}

/// Refining shows the selection between its margins, within the file, and loops exactly
/// what was selected.
pub proof fn refining_loops_what_was_selected(start: i128, end: i128, d: i128)
    requires
        0 <= start,
        end - start >= 10_000_000,
        end <= d,
        d <= i128::MAX - 5_000_000_000,
    ensures
        ({
            let m = Marks { in_point: Some(start), out_point: Some(end) };
            let pad = margin(end - start);
            refined(m, Real::Finite(d)) matches Some(v) && {
                &&& v.loop_start == start && v.loop_end == end
                &&& v.view_start == start - pad || v.view_start == 0 && start <= pad
                &&& v.view_end == end + pad && end + pad <= d || v.view_end == d && end + pad >= d
            }
        }),
        refined(Marks::unset(), Real::Finite(d)) is None,
{
}

/// Moving the slider sets the volume, and ends the silence as soon as there is anything
/// to hear.
pub proof fn moving_the_slider_ends_the_silence(v: i128, muted: bool)
    requires
        0 <= v <= 130_000_000_000,
    ensures
        volume_change(Real::Finite(v), muted).volume == Real::Finite(v),
        volume_change(Real::Finite(v), muted).unmute <==> muted && v > 0,
{
}

/// The row of a file is the first that shows it.
pub proof fn a_row_is_the_first_of_its_file(files: Seq<VideoFile>, path: Seq<char>, row: int, i: int)
    requires
        is_row_of(files, path, row),
    ensures
        0 <= row < files.len() && files[row].path@ == path,
        0 <= i < files.len() && files[i].path@ == path ==> row <= i,
{
}

/// A row's number may have a sign. With a minus sign only zero is a row, two signs make
/// no number, and neither does a sign alone.
pub proof fn a_row_may_be_asked_for_with_a_sign(n: nat, rest: Seq<char>)
    ensures
        n <= i32::MAX ==> row_number(seq!['+'] + digits(n)) == Some(n),
        n > i32::MAX ==> row_number(seq!['+'] + digits(n)) is None,
        row_number(seq!['-'] + digits(0)) == Some(0nat),
        row_number(seq!['-', '+'] + rest) is None,
        row_number(seq!['+', '-'] + rest) is None,
        row_number(seq!['-']) is None,
        row_number(seq!['+']) is None,
        row_number(Seq::empty()) is None,
{
    crate::text::a_whole_number_is_read(n, i32::MAX as nat, seq!['+', '-'] + rest);
    crate::text::a_whole_number_is_read(0, 0, Seq::empty());
    crate::text::leading_zeros_do_not_count(0, n, i32::MAX as nat);
    crate::text::digits_read_back(0);
    assert(crate::text::is_digit(digits(0)[0]));
    let zero = seq!['-'] + digits(0);
    assert(zero.skip(1) =~= digits(0));
    assert(zero[1] == digits(0)[0]);
    assert((seq!['-', '+'] + rest)[1] == '+');
    assert((seq!['+', '-'] + rest)[1] == '-');
}

/// A name that only begins with a dot is all stem; a path that names nothing gives a
/// clip its plain name.
pub proof fn a_clip_of_a_hidden_or_nameless_source(folder: Seq<char>, rest: Seq<char>)
    requires
        rest.len() > 0,
        !rest.contains('/'),
        !rest.contains('.'),
    ensures
        suggested(folder.push('/') + (seq!['.'] + rest)) == seq!['.'] + rest + "_001"@,
        suggested(seq!['.'] + rest) == seq!['.'] + rest + "_001"@,
        suggested(folder.push('/').push('.').push('.')) == "clip"@ + "_001"@,
        suggested(Seq::empty()) == "clip"@ + "_001"@,
{
    let name = seq!['.'] + rest;
    assert forall|j: int| 0 < j < name.len() implies name[j] != '.' && name[j] != '/' by {
        assert(name[j] == rest[j - 1]);
    }
    assert(!name.contains('/'));
    reveal_strlit(".");
    reveal_strlit("..");
    assert("."@.len() == 1 && ".."@.len() == 2 && ".."@[1] == '.');
    if name.len() == 2 {
        assert(name[1] != '.');
    }
    a_path_names_its_last_part(folder, name);
    last_before_finds(name, '.', name.len() as int);
    let i = last_before(name, '.', name.len() as int);
    assert(name[0] == '.');
    assert(i == 0);
    crate::library::what_a_path_does_not_name(folder);
}

/// A file without a name is told of without one.
pub proof fn an_end_without_a_name(folder: Seq<char>, event: ExportEvent)
    ensures
        event matches ExportEvent::Finished { output } ==> (output@.len() == 0 || output@
            == folder.push('/').push('.').push('.') ==> ended_text(event) == Some("Saved "@)),
{
    crate::library::what_a_path_does_not_name(folder);
    assert("Saved "@ + Seq::<char>::empty() =~= "Saved "@);
    if let ExportEvent::Finished { output } = event {
        if output@.len() == 0 {
            assert(output@ =~= Seq::<char>::empty());
        }
    }
}

} // verus!
