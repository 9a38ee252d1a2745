//! Discovering source videos in the input folder.
//!
//! What a walk of the folder found is filtered and sorted oldest-first:
//! recordings accumulate chronologically, so the newest work sits at the bottom
//! where you last left off.

use vstd::prelude::*;
use vstd::slice::slice_subrange;

use crate::fixed::{
    as_double, decimal_text, half_even, half_even_near, nearest_double, nearest_is_near,
    push_decimal, reaches, units_text, MANTISSA_END,
};
use crate::queue::{stepped, Step};
use crate::text::{
    chars_of, contents, digits, digits_read_back, find_last, first_at, first_at_finds, in_order,
    last_before, last_before_finds, lowered, padded, pieces, pieces_of_one, pieces_of_parts, pow10,
    push_digits, spells, spells_ignoring_case, split, text_le, text_le_chains, text_le_total,
    vec_of,
};

verus! {

/// Extensions treated as source video.
///
/// mpv will happily open more than this, but an allowlist keeps the list free of
/// the sidecar files that live alongside recordings.
pub const VIDEO_EXTENSIONS: [&'static str; 14] = [
    "mkv",
    "mp4",
    "mov",
    "webm",
    "m4v",
    "avi",
    "ts",
    "m2ts",
    "mts",
    "mpg",
    "mpeg",
    "wmv",
    "flv",
    "ogv",
];

/// How long the filesystem must be quiet before a change is reported, in
/// milliseconds.
///
/// Long enough that a file still being written does not produce a burst of
/// events, short enough that a finished recording appears promptly.
pub const WATCH_DEBOUNCE_MS: u64 = 750;

// ---- what is a video ----------------------------------------------------------

/// The last of a path's parts that names something: not empty, not the folder
/// itself, and not the folder above.
pub open spec fn last_named(parts: Seq<Seq<char>>) -> Option<Seq<char>>
    decreases parts.len(),
{
    if parts.len() == 0 {
        None
    } else if parts.last().len() == 0 || parts.last() == "."@ {
        last_named(parts.drop_last())
    } else if parts.last() == ".."@ {
        None
    } else {
        Some(parts.last())
    }
}

/// The name of the file at `path`.
pub open spec fn file_name(path: Seq<char>) -> Option<Seq<char>> {
    last_named(pieces(path, '/', 0))
}

/// What follows the last dot of the file's name, unless the name begins there.
pub open spec fn extension(path: Seq<char>) -> Option<Seq<char>> {
    match file_name(path) {
        Some(name) => {
            let i = last_before(name, '.', name.len() as int);
            if i > 0 {
                Some(name.skip(i + 1))
            } else {
                None
            }
        },
        None => None,
    }
}

/// Whether the extension is one of video, in whatever case it is written.
pub open spec fn is_video_path(path: Seq<char>) -> bool {
    match extension(path) {
        Some(e) => exists|k: int|
            0 <= k < VIDEO_EXTENSIONS@.len() && lowered(#[trigger] VIDEO_EXTENSIONS@[k]@)
                == lowered(e),
        None => false,
    }
}

/// The name of the file at `path`.
pub fn name_of(path: &[char]) -> (r: Option<Vec<char>>)
    ensures
        match r {
            Some(name) => file_name(path@) == Some(name@),
            None => file_name(path@) is None,
        },
{
    let parts: Vec<&[char]> = split(path, '/');
    let ghost all = contents(parts@);
    let mut n: usize = parts.len();
    assert(all.take(n as int) =~= all);
    while n > 0
        invariant
            n <= parts@.len(),
            all == contents(parts@),
            all == pieces(path@, '/', 0),
            last_named(all) == last_named(all.take(n as int)),
        decreases n,
    {
        let name = parts[n - 1];
        assert(all[n - 1] == name@);
        assert(all.take(n as int).last() == name@);
        assert(all.take(n as int).drop_last() =~= all.take(n - 1));
        if name.len() == 0 || spells(name, ".") {
            n -= 1;
        } else if spells(name, "..") {
            return None;
        } else {
            return Some(vec_of(name));
        }
    }
    None
}

fn extension_of(path: &[char]) -> (r: Option<Vec<char>>)
    ensures
        match r {
            Some(e) => extension(path@) == Some(e@),
            None => extension(path@) is None,
        },
{
    match name_of(path) {
        Some(name) => {
            match find_last(name.as_slice(), '.') {
                Some(at) => {
                    if at == 0 {
                        return None;
                    }
                    let len: usize = name.len();
                    let tail = slice_subrange(name.as_slice(), at + 1, len);
                    assert(tail@ =~= name@.skip(at + 1));
                    Some(vec_of(tail))
                },
                None => None,
            }
        },
        None => None,
    }
}

pub fn is_video(path: &str) -> (r: bool)
    ensures
        r == is_video_path(path@),
{
    let cs: Vec<char> = chars_of(path);
    match extension_of(cs.as_slice()) {
        Some(e) => {
            let mut k: usize = 0;
            while k < 14
                invariant
                    k <= 14,
                    extension(path@) == Some(e@),
                    forall|j: int|
                        0 <= j < k ==> lowered(#[trigger] VIDEO_EXTENSIONS@[j]@) != lowered(e@),
                decreases 14 - k,
            {
                if spells_ignoring_case(e.as_slice(), VIDEO_EXTENSIONS[k]) {
                    assert(lowered(VIDEO_EXTENSIONS@[k as int]@) == lowered(e@));
                    return true;
                }
                k += 1;
            }
            false
        },
        None => false,
    }
}

// ---- the listing --------------------------------------------------------------

#[derive(Debug, Clone, PartialEq, Eq)]
pub struct VideoFile {
    pub path: String,
    /// File name, without any directory part.
    pub display_name: String,
    /// Directory relative to the scan root; empty when directly inside it.
    pub sub_path: String,
    /// Nanoseconds since the start of 1970, UTC.
    pub modified: i128,
    pub size: u64,
}

/// What a listed file shows.
pub ghost struct Listed {
    pub path: Seq<char>,
    pub display_name: Seq<char>,
    pub sub_path: Seq<char>,
    pub modified: i128,
    pub size: u64,
}

impl View for VideoFile {
    type V = Listed;

    open spec fn view(&self) -> Listed {
        Listed {
            path: self.path@,
            display_name: self.display_name@,
            sub_path: self.sub_path@,
            modified: self.modified,
            size: self.size,
        }
    }
}

pub open spec fn views(files: Seq<VideoFile>) -> Seq<Listed> {
    files.map_values(|f: VideoFile| f@)
}

/// What the filesystem tells of a file.
#[derive(Debug, Clone)]
pub struct Metadata {
    /// Nanoseconds since the start of 1970, UTC, where it is known.
    pub modified: Option<i128>,
    pub size: u64,
}

/// One step of a walk through the folder.
#[derive(Debug, Clone)]
pub struct WalkEntry {
    pub is_file: bool,
    pub path: String,
    /// The last part of the path, if it names something.
    pub name: Option<String>,
    /// The directory relative to the root, if it lies under the root.
    pub sub_path: Option<String>,
    pub metadata: Option<Metadata>,
}

/// Forward slashes, whatever the platform.
pub open spec fn slashed(s: Seq<char>) -> Seq<char> {
    s.map_values(
        |c: char|
            if c == '\\' {
                '/'
            } else {
                c
            },
    )
}

/// How an entry is listed: only a readable video file is.
pub open spec fn entry_listed(entry: Option<WalkEntry>) -> Option<Listed> {
    match entry {
        Some(e) => match (e.name, e.metadata) {
            (Some(name), Some(meta)) if e.is_file && is_video_path(name@) => Some(
                Listed {
                    path: e.path@,
                    display_name: name@,
                    sub_path: match e.sub_path {
                        Some(p) => slashed(p@),
                        None => Seq::empty(),
                    },
                    modified: match meta.modified {
                        Some(t) => t,
                        None => 0,
                    },
                    size: meta.size,
                },
            ),
            _ => None,
        },
        None => None,
    }
}

/// The entries that are listed, in the order of the walk.
pub open spec fn listed(entries: Seq<Option<WalkEntry>>) -> Seq<Listed>
    decreases entries.len(),
{
    if entries.len() == 0 {
        Seq::empty()
    } else {
        match entry_listed(entries.last()) {
            Some(f) => listed(entries.drop_last()).push(f),
            None => listed(entries.drop_last()),
        }
    }
}

/// `a` is older than `b`, or as old and not behind it by name.
pub open spec fn not_after(a: Listed, b: Listed) -> bool {
    a.modified < b.modified || a.modified == b.modified && text_le(a.display_name, b.display_name)
}

pub open spec fn oldest_first(files: Seq<Listed>) -> bool {
    forall|i: int, j: int| 0 <= i <= j < files.len() ==> not_after(files[i], files[j])
}

/// Files of that age and name.
pub open spec fn of_rank(modified: i128, name: Seq<char>) -> spec_fn(Listed) -> bool {
    |f: Listed| f.modified == modified && f.display_name == name
}

/// The files of `found`, sorted oldest first and by name; those of one age and
/// name stay in the order in which they were found.
pub open spec fn sorted_from(files: Seq<Listed>, found: Seq<Listed>) -> bool {
    &&& oldest_first(files)
    &&& files.len() == found.len()
    &&& forall|modified: i128, name: Seq<char>| #[trigger]
        files.filter(of_rank(modified, name)) == found.filter(of_rank(modified, name))
}

fn with_slashes(path: &str) -> (r: String)
    ensures
        r@ == slashed(path@),
{
    let mut r: String = String::new();
    for c in it: path.chars()
        invariant
            r@ == slashed(path@.take(it.index())),
            it.seq() == path@,
    {
        if c == '\\' {
            r.push('/');
        } else {
            r.push(c);
        }
        assert(r@ =~= slashed(path@.take(it.index() + 1)));
    }
    assert(path@.take(path@.len() as int) =~= path@);
    r
}

fn file_of(entry: &Option<WalkEntry>) -> (r: Option<VideoFile>)
    ensures
        match r {
            Some(f) => entry_listed(*entry) == Some(f@),
            None => entry_listed(*entry) is None,
        },
{
    match entry {
        Some(e) => {
            if !e.is_file {
                return None;
            }
            match (&e.name, &e.metadata) {
                (Some(name), Some(meta)) => {
                    if !is_video(name.as_str()) {
                        return None;
                    }
                    let sub_path: String = match &e.sub_path {
                        Some(p) => with_slashes(p.as_str()),
                        None => String::new(),
                    };
                    let modified: i128 = match meta.modified {
                        Some(t) => t,
                        None => 0,
                    };
                    let f = VideoFile {
                        path: e.path.as_str().to_string(),
                        display_name: name.as_str().to_string(),
                        sub_path,
                        modified,
                        size: meta.size,
                    };
                    assert(e.sub_path is None ==> f.sub_path@ =~= Seq::<char>::empty());
                    Some(f)
                },
                _ => None,
            }
        },
        None => None,
    }
}

fn is_not_after(a: &VideoFile, b: &VideoFile) -> (r: bool)
    ensures
        r == not_after(a@, b@),
{
    if a.modified != b.modified {
        return a.modified < b.modified;
    }
    let x: Vec<char> = chars_of(a.display_name.as_str());
    let y: Vec<char> = chars_of(b.display_name.as_str());
    in_order(x.as_slice(), y.as_slice())
}

proof fn not_after_chains(a: Listed, b: Listed, c: Listed)
    requires
        not_after(a, b),
        not_after(b, c),
    ensures
        not_after(a, c),
{
    if a.modified == b.modified && b.modified == c.modified {
        text_le_chains(a.display_name, b.display_name, c.display_name);
    }
}

/// Putting a file behind all that are not after it, and before the rest.
proof fn put_in_place(files: Seq<Listed>, found: Seq<Listed>, f: Listed, at: int)
    requires
        sorted_from(files, found),
        0 <= at <= files.len(),
        forall|i: int| 0 <= i < at ==> not_after(#[trigger] files[i], f),
        forall|i: int| at <= i < files.len() ==> !not_after(#[trigger] files[i], f),
    ensures
        sorted_from(files.insert(at, f), found.push(f)),
{
    let r = files.insert(at, f);
    let a = files.take(at);
    let b = files.skip(at);
    assert(files =~= a + b);
    assert(r =~= a + (seq![f] + b));
    text_le_total(f.display_name, f.display_name);
    assert forall|i: int, j: int| 0 <= i <= j < r.len() implies not_after(r[i], r[j]) by {
        if i < at && j == at {
            assert(not_after(files[i], f));
        } else if i == at && j > at {
            assert(!not_after(files[j - 1], f));
            text_le_total(files[j - 1].display_name, f.display_name);
        } else if i < at && j > at {
            assert(not_after(files[i], files[j - 1]));
        } else if i > at {
            assert(not_after(files[i - 1], files[j - 1]));
        } else if i < at && j < at {
            assert(not_after(files[i], files[j]));
        }
    }
    assert forall|modified: i128, name: Seq<char>| #[trigger]
        r.filter(of_rank(modified, name)) == found.push(f).filter(of_rank(modified, name)) by {
        let pred = of_rank(modified, name);
        assert(files.filter(pred) == found.filter(pred));
        Seq::filter_distributes_over_add(a, b, pred);
        Seq::filter_distributes_over_add(a, seq![f] + b, pred);
        Seq::filter_distributes_over_add(seq![f], b, pred);
        Seq::filter_distributes_over_add(found, seq![f], pred);
        assert(found.push(f) =~= found + seq![f]);
        if pred(f) {
            // Nothing of that rank stands behind.
            assert(b.filter(pred).len() == 0) by {
                broadcast use vstd::seq_lib::group_filter_ensures;
                if b.filter(pred).len() > 0 {
                    let g = b.filter(pred)[0];
                    assert(pred(g));
                    filtered_from(b, pred, 0);
                    let k = choose|k: int| 0 <= k < b.len() && b[k] == g;
                    assert(files[at + k] == g);
                    assert(!not_after(files[at + k], f));
                    text_le_total(g.display_name, f.display_name);
                }
            }
            assert(a.filter(pred) + (seq![f].filter(pred) + b.filter(pred)) =~= (a.filter(pred)
                + b.filter(pred)) + seq![f].filter(pred));
        } else {
            assert(seq![f].filter(pred) =~= Seq::<Listed>::empty()) by {
                reveal_with_fuel(Seq::filter, 2);
                assert(seq![f].drop_last() =~= Seq::<Listed>::empty());
            }
            assert(a.filter(pred) + (seq![f].filter(pred) + b.filter(pred)) =~= (a.filter(pred)
                + b.filter(pred)) + seq![f].filter(pred));
        }
    }
}

/// What is filtered out of a sequence stands in it.
proof fn filtered_from(s: Seq<Listed>, pred: spec_fn(Listed) -> bool, i: int)
    requires
        0 <= i < s.filter(pred).len(),
    ensures
        s.contains(s.filter(pred)[i]),
    decreases s.len(),
{
    reveal(Seq::filter);
    let before = s.drop_last().filter(pred);
    if i < before.len() {
        filtered_from(s.drop_last(), pred, i);
        let k = choose|k: int| 0 <= k < s.len() - 1 && s.drop_last()[k] == before[i];
        assert(s[k] == before[i]);
    } else {
        assert(s[s.len() - 1] == s.filter(pred)[i]);
    }
}

/// Where a file belongs: behind all that are not after it.
fn place(files: &Vec<VideoFile>, f: &VideoFile) -> (at: usize)
    requires
        oldest_first(views(files@)),
    ensures
        at <= files@.len(),
        forall|i: int| 0 <= i < at ==> not_after(#[trigger] views(files@)[i], f@),
        forall|i: int| at <= i < files@.len() ==> !not_after(#[trigger] views(files@)[i], f@),
{
    let ghost vs = views(files@);
    let mut low: usize = 0;
    let mut high: usize = files.len();
    while low < high
        invariant
            low <= high <= files@.len(),
            vs == views(files@),
            oldest_first(vs),
            forall|i: int| 0 <= i < low ==> not_after(#[trigger] vs[i], f@),
            forall|i: int| high <= i < vs.len() ==> !not_after(#[trigger] vs[i], f@),
        decreases high - low,
    {
        let mid: usize = low + (high - low) / 2;
        if is_not_after(&files[mid], f) {
            proof {
                assert(vs[mid as int] == files@[mid as int]@);
                assert forall|i: int| 0 <= i < mid + 1 implies not_after(
                    #[trigger] vs[i],
                    f@,
                ) by {
                    assert(not_after(vs[i], vs[mid as int]));
                    not_after_chains(vs[i], vs[mid as int], f@);
                }
            }
            low = mid + 1;
        } else {
            proof {
                assert(vs[mid as int] == files@[mid as int]@);
                assert forall|i: int| mid <= i < vs.len() implies !not_after(
                    #[trigger] vs[i],
                    f@,
                ) by {
                    assert(not_after(vs[mid as int], vs[i]));
                    if not_after(vs[i], f@) {
                        not_after_chains(vs[mid as int], vs[i], f@);
                    }
                }
            }
            high = mid;
        }
    }
    low
}

/// The video files among what a walk through the folder found, oldest first.
///
/// What could not be read is skipped rather than failing the whole scan: one
/// permission-denied subfolder should not empty the list. With the name as a
/// tiebreaker, the order is stable across scans when several files share a
/// timestamp.
pub fn scan(root_is_dir: bool, entries: &Vec<Option<WalkEntry>>) -> (r: Vec<VideoFile>)
    ensures
        !root_is_dir ==> r@.len() == 0,
        root_is_dir ==> sorted_from(views(r@), listed(entries@)),
{
    let mut files: Vec<VideoFile> = Vec::new();
    if !root_is_dir {
        return files;
    }
    assert(views(files@) =~= listed(entries@.take(0)));
    let mut i: usize = 0;
    while i < entries.len()
        invariant
            i <= entries@.len(),
            sorted_from(views(files@), listed(entries@.take(i as int))),
        decreases entries@.len() - i,
    {
        proof {
            let upto = entries@.take(i + 1);
            assert(upto.drop_last() =~= entries@.take(i as int));
            assert(upto.last() == entries@[i as int]);
        }
        if let Some(f) = file_of(&entries[i]) {
            let at: usize = place(&files, &f);
            proof {
                put_in_place(views(files@), listed(entries@.take(i as int)), f@, at as int);
                assert(views(files@.insert(at as int, f)) =~= views(files@).insert(
                    at as int,
                    f@,
                ));
            }
            files.insert(at, f);
        }
        i += 1;
    }
    assert(entries@.take(i as int) =~= entries@);
    files
}

// ---- laws of the listing ------------------------------------------------------

/// Filtering keeps every copy of what passes.
proof fn copies_kept(s: Seq<Listed>, pred: spec_fn(Listed) -> bool, f: Listed)
    requires
        pred(f),
    ensures
        s.filter(pred).to_multiset().count(f) == s.to_multiset().count(f),
    decreases s.len(),
{
    broadcast use vstd::seq_lib::group_to_multiset_ensures;

    reveal(Seq::filter);
    if s.len() > 0 {
        let rest = s.drop_last();
        copies_kept(rest, pred, f);
        assert(s =~= rest.push(s.last()));
    }
}

/// The listing holds what was found, and nothing else: every file as often as it was
/// found.
pub proof fn a_listing_is_complete(files: Seq<Listed>, found: Seq<Listed>)
    requires
        sorted_from(files, found),
    ensures
        files.to_multiset() == found.to_multiset(),
        files.len() == found.len(),
{
    assert forall|f: Listed| files.to_multiset().count(f) == found.to_multiset().count(f) by {
        let pred = of_rank(f.modified, f.display_name);
        assert(files.filter(pred) == found.filter(pred));
        copies_kept(files, pred, f);
        copies_kept(found, pred, f);
    }
    assert(files.to_multiset() =~= found.to_multiset());
}

/// Two sorted listings with the same files of each rank are the same.
proof fn ranks_determine(a: Seq<Listed>, b: Seq<Listed>)
    requires
        oldest_first(a),
        oldest_first(b),
        a.len() == b.len(),
        forall|modified: i128, name: Seq<char>| #[trigger]
            a.filter(of_rank(modified, name)) == b.filter(of_rank(modified, name)),
    ensures
        a == b,
    decreases a.len(),
{
    if a.len() == 0 {
        assert(a =~= b);
    } else {
        let (x, y) = (a.last(), b.last());
        let p = of_rank(x.modified, x.display_name);
        let q = of_rank(y.modified, y.display_name);
        reveal(Seq::filter);
        assert(a.filter(p).last() == x);
        assert(b.filter(q).last() == y);
        // The last of one is not after the last of the other, and the other way round.
        assert(not_after(x, y)) by {
            assert(a.filter(p) == b.filter(p));
            filtered_from(b, p, b.filter(p).len() - 1);
            let k = choose|k: int| 0 <= k < b.len() && b[k] == x;
            assert(not_after(b[k], b[b.len() - 1]));
        }
        assert(not_after(y, x)) by {
            assert(a.filter(q) == b.filter(q));
            filtered_from(a, q, a.filter(q).len() - 1);
            let k = choose|k: int| 0 <= k < a.len() && a[k] == y;
            assert(not_after(a[k], a[a.len() - 1]));
        }
        text_le_total(x.display_name, y.display_name);
        assert(p == q);
        assert(a.filter(p) == b.filter(p));
        assert(x == y);
        let (c, d) = (a.drop_last(), b.drop_last());
        assert forall|modified: i128, name: Seq<char>| #[trigger]
            c.filter(of_rank(modified, name)) == d.filter(of_rank(modified, name)) by {
            let r = of_rank(modified, name);
            assert(a.filter(r) == b.filter(r));
            if r(x) {
                assert(c.filter(r) =~= a.filter(r).drop_last());
                assert(d.filter(r) =~= b.filter(r).drop_last());
            }
        }
        assert forall|i: int, j: int| 0 <= i <= j < c.len() implies not_after(c[i], c[j]) by {
            assert(not_after(a[i], a[j]));
        }
        assert forall|i: int, j: int| 0 <= i <= j < d.len() implies not_after(d[i], d[j]) by {
            assert(not_after(b[i], b[j]));
        }
        ranks_determine(c, d);
        assert(a =~= c.push(x));
        assert(b =~= d.push(y));
    }
}

/// The order is stable across scans: walks that find the same files list them in
/// the same order, however differently they come upon them. Only files of one age
/// and name depend on the walk.
pub proof fn the_order_is_stable_across_scans(
    a: Seq<Listed>,
    b: Seq<Listed>,
    found_a: Seq<Listed>,
    found_b: Seq<Listed>,
)
    requires
        sorted_from(a, found_a),
        sorted_from(b, found_b),
        found_a.len() == found_b.len(),
        forall|modified: i128, name: Seq<char>| #[trigger]
            found_a.filter(of_rank(modified, name)) == found_b.filter(of_rank(modified, name)),
    ensures
        a == b,
{
    assert forall|modified: i128, name: Seq<char>| #[trigger]
        a.filter(of_rank(modified, name)) == b.filter(of_rank(modified, name)) by {
        assert(a.filter(of_rank(modified, name)) == found_a.filter(of_rank(modified, name)));
        assert(b.filter(of_rank(modified, name)) == found_b.filter(of_rank(modified, name)));
    }
    ranks_determine(a, b);
}

// ---- sizes --------------------------------------------------------------------

/// A number of bytes in some unit, to three significant figures: how many units of
/// the last decimal, and how many decimals.
pub open spec fn figures(bytes: nat, scale: nat) -> (nat, nat) {
    let n = nearest_double(bytes, scale);
    if n.in_units(2) < 1000 {
        (n.in_units(2), 2)
    } else if n.in_units(1) < 1000 {
        (n.in_units(1), 1)
    } else {
        (n.in_units(0), 0)
    }
}

/// Whether a number of bytes fills a unit: in the next smaller one it would come to
/// a thousand, once it is rounded.
pub open spec fn fills(bytes: nat, scale: nat) -> bool {
    nearest_double(bytes, scale / 1000).in_units(0) >= 1000
}

/// The largest unit that a number of bytes fills, and its name.
pub open spec fn unit_of(bytes: nat) -> Option<(nat, Seq<char>)> {
    if fills(bytes, 1_000_000_000_000) {
        Some((1_000_000_000_000, "TB"@))
    } else if fills(bytes, 1_000_000_000) {
        Some((1_000_000_000, "GB"@))
    } else if fills(bytes, 1_000_000) {
        Some((1_000_000, "MB"@))
    } else if bytes >= 1000 {
        Some((1000, "kB"@))
    } else {
        None
    }
}

/// A byte count in the largest decimal unit that it fills. Beyond fifty-three
/// bits, the count itself is rounded first.
pub open spec fn size_text(bytes: u64) -> Seq<char> {
    let value = nearest_double(bytes as nat, 1).in_units(0);
    match unit_of(value) {
        Some((scale, unit)) => {
            let (n, places) = figures(value, scale);
            units_text(n, places).push(' ') + unit
        },
        None => digits(bytes as nat) + " B"@,
    }
}

fn scaled_string(value: u128, scale: u128, unit: &str) -> (r: String)
    requires
        value <= crate::fixed::FARTHEST,
        1000 <= scale <= 1_000_000_000_000,
    ensures
        ({
            let (n, places) = figures(value as nat, scale as nat);
            r@ == units_text(n, places).push(' ') + unit@
        }),
{
    let mut r: String = String::new();
    // Three significant figures: 9.87 GB, but 987 MB.
    let places: usize = if !reaches(value, scale, 2, 1000) {
        2
    } else if !reaches(value, scale, 1, 1000) {
        1
    } else {
        0
    };
    push_decimal(&mut r, value, scale, places);
    r.push(' ');
    r.append(unit);
    assert(r@ =~= decimal_text(value as nat, scale as nat, places as nat).push(' ') + unit@);
    r
}

/// Format a byte count for display, e.g. `1.4 GB`.
///
/// Decimal units, matching what Windows Explorer and recorders report, so the
/// number here agrees with the number the user sees elsewhere.
pub fn format_size(bytes: u64) -> (r: String)
    ensures
        r@ == size_text(bytes),
{
    let value: u128 = as_double(bytes);
    if reaches(value, 1_000_000_000, 0, 1000) {
        scaled_string(value, 1_000_000_000_000, "TB")
    } else if reaches(value, 1_000_000, 0, 1000) {
        scaled_string(value, 1_000_000_000, "GB")
    } else if reaches(value, 1000, 0, 1000) {
        scaled_string(value, 1_000_000, "MB")
    } else if value >= 1000 {
        scaled_string(value, 1000, "kB")
    } else {
        let mut r: String = String::new();
        push_digits(&mut r, bytes as u128);
        r.append(" B");
        assert(r@ =~= digits(bytes as nat) + " B"@);
        r
    }
}

/// What a rounded number says of the number itself, and the other way round.
proof fn about_rounding(x: nat, d: nat, n: nat)
    requires
        d > 0,
        n > 0,
    ensures
        half_even(x, d) >= n ==> 2 * x >= (2 * n - 1) * d,
        2 * x > (2 * n - 1) * d ==> half_even(x, d) >= n,
        2 * x < (2 * n - 1) * d ==> half_even(x, d) < n,
{
    let h = half_even(x, d);
    half_even_near(x, d);
    if h >= n {
        assert(h * d >= n * d) by (nonlinear_arith)
            requires
                h >= n,
                d > 0,
        ;
    } else {
        assert(h * d <= n * d - d) by (nonlinear_arith)
            requires
                h <= n - 1,
                d > 0,
        ;
    }
    assert((2 * n - 1) * d == 2 * (n * d) - d) by (nonlinear_arith);
}

/// Bytes of fewer than fifty-three bits are counted as they are.
proof fn counted_exactly(bytes: nat)
    requires
        0 < bytes,
        2 * bytes < MANTISSA_END,
    ensures
        nearest_double(bytes, 1).in_units(0) == bytes,
{
    let n = nearest_double(bytes, 1);
    nearest_is_near(bytes, 1);
    let x = n.mantissa * n.up;
    let d = n.down;
    let all = bytes * d;
    let m = MANTISSA_END as int;
    assert(x * 1 == x && x * pow10(0) == x) by {
        assert(pow10(0) == 1);
    }
    assert(2 * all < m * d) by (nonlinear_arith)
        requires
            all == bytes * d,
            2 * bytes < m,
            d > 0,
    ;
    assert((2 * bytes - 1) * d == 2 * all - d) by (nonlinear_arith)
        requires
            all == bytes * d,
    ;
    assert((2 * (bytes + 1) - 1) * d == 2 * all + d) by (nonlinear_arith)
        requires
            all == bytes * d,
    ;
    about_rounding(x, d, bytes);
    about_rounding(x, d, bytes + 1);
}

/// What fills a unit is all but as much as one.
#[verifier::spinoff_prover]
proof fn filling(bytes: nat, scale: nat)
    requires
        scale >= 1000,
        scale % 1000 == 0,
        bytes > 0,
        fills(bytes, scale),
    ensures
        10_000 * bytes >= 9994 * scale,
{
    let small = scale / 1000;
    let n = nearest_double(bytes, small);
    nearest_is_near(bytes, small);
    let x = n.mantissa * n.up;
    let d = n.down;
    assert(x * pow10(0) == x) by {
        assert(pow10(0) == 1);
    }
    about_rounding(x, d, 1000);
    let y = x * small;
    let t = small * d;
    let v = bytes * d;
    assert(2 * y >= 1999 * t) by (nonlinear_arith)
        requires
            y == x * small,
            t == small * d,
            2 * x >= 1999 * d,
            small > 0,
    ;
    assert(t > 0) by (nonlinear_arith)
        requires
            t == small * d,
            small > 0,
            d > 0,
    ;
    assert(y * 9_007_199_254_740_992 <= v * 9_007_199_254_740_993);
    if 10_000 * bytes < 9994 * scale {
        assert(10_000 * v <= 9_994_000 * t) by (nonlinear_arith)
            requires
                v == bytes * d,
                t == small * d,
                10_000 * bytes < 9994 * (1000 * small),
                d > 0,
        ;
    }
}

/// What is all but one rounds to one, to two decimals.
proof fn shown_as_one(bytes: nat, scale: nat)
    requires
        scale > 0,
        bytes > 0,
        10_000 * bytes >= 9994 * scale,
    ensures
        nearest_double(bytes, scale).in_units(2) >= 100,
{
    let n = nearest_double(bytes, scale);
    nearest_is_near(bytes, scale);
    let x = n.mantissa * n.up;
    let d = n.down;
    reveal_with_fuel(pow10, 3);
    assert(pow10(2) == 100);
    let y = x * scale;
    let t = scale * d;
    let v = bytes * d;
    assert(10_000 * v >= 9994 * t) by (nonlinear_arith)
        requires
            v == bytes * d,
            t == scale * d,
            10_000 * bytes >= 9994 * scale,
    ;
    assert(t > 0) by (nonlinear_arith)
        requires
            t == scale * d,
            scale > 0,
            d > 0,
    ;
    assert(200 * y > 199 * t);
    assert(200 * x > 199 * d) by (nonlinear_arith)
        requires
            200 * y > 199 * t,
            y == x * scale,
            t == scale * d,
            scale > 0,
    ;
    about_rounding(x * 100, d, 100);
}

/// A decimal less leaves at least three figures.
proof fn figures_kept(bytes: nat, scale: nat)
    requires
        bytes > 0,
        scale > 0,
    ensures
        ({
            let n = nearest_double(bytes, scale);
            &&& n.in_units(2) >= 1000 ==> n.in_units(1) >= 100
            &&& n.in_units(1) >= 1000 ==> n.in_units(0) >= 100
        }),
{
    let n = nearest_double(bytes, scale);
    nearest_is_near(bytes, scale);
    let x = n.mantissa * n.up;
    reveal_with_fuel(pow10, 3);
    assert(pow10(0) == 1 && pow10(1) == 10 && pow10(2) == 100);
    assert(n.in_units(2) == half_even(x * 100, n.down));
    assert(n.in_units(1) == half_even(x * 10, n.down));
    assert(n.in_units(0) == half_even(x, n.down)) by {
        assert(x * 1 == x);
    }
    let d = n.down;
    about_rounding(x * 100, d, 1000);
    about_rounding(x * 10, d, 100);
    about_rounding(x * 10, d, 1000);
    about_rounding(x, d, 100);
    assert(d > 0);
    assert((2 * 1000 - 1) * d == 1999 * d && (2 * 100 - 1) * d == 199 * d);
    if n.in_units(2) >= 1000 {
        assert(200 * x >= 1999 * d);
        assert(20 * x > 199 * d);
        assert(n.in_units(1) >= 100);
    }
    if n.in_units(1) >= 1000 {
        assert(20 * x >= 1999 * d);
        assert(2 * x > 199 * d);
        assert(n.in_units(0) >= 100);
    }
}

/// A size is shown with three significant figures: from the first that has a unit,
/// up to where the largest unit is full.
pub proof fn a_size_has_three_figures(bytes: u64)
    requires
        1000 <= bytes < 999_500_000_000_000,
    ensures
        unit_of(bytes as nat) matches Some((scale, unit)) && ({
            let (n, places) = figures(bytes as nat, scale);
            &&& 100 <= n <= 999
            &&& places <= 2
            &&& size_text(bytes) == units_text(n, places).push(' ') + unit
        }),
{
    let b = bytes as nat;
    counted_exactly(b);
    let (scale, unit) = unit_of(b)->0;
    if scale > 1000 {
        filling(b, scale);
    }
    shown_as_one(b, scale);
    figures_kept(b, scale);
    if scale == 1_000_000_000_000 {
        let n = nearest_double(b, scale);
        nearest_is_near(b, scale);
        let x = n.mantissa * n.up;
        let d = n.down;
        assert(x * pow10(0) == x) by {
            assert(pow10(0) == 1);
        }
        let v = b * d;
        assert(v <= 999_499_999_999_999 * d) by (nonlinear_arith)
            requires
                v == b * d,
                b <= 999_499_999_999_999,
        ;
        assert(v * (MANTISSA_END + 1) <= 999_499_999_999_999 * d * (MANTISSA_END + 1));
        assert(2 * x < 1999 * d);
        about_rounding(x, d, 1000);
    }
}

// ---- dates --------------------------------------------------------------------

/// A local date and time of day.
#[derive(Debug, Clone, Copy, PartialEq, Eq, Structural)]
pub struct CivilTime {
    pub year: i32,
    pub month: u32,
    pub day: u32,
    pub hour: u32,
    pub minute: u32,
}

pub open spec fn is_leap(year: i32) -> bool {
    year as int % 4 == 0 && (year as int % 100 != 0 || year as int % 400 == 0)
}

pub open spec fn days_in(year: i32, month: u32) -> u32 {
    if month == 2 {
        if is_leap(year) {
            29
        } else {
            28
        }
    } else if month == 4 || month == 6 || month == 9 || month == 11 {
        30
    } else {
        31
    }
}

/// The days of the year that come before the month.
pub open spec fn days_before(year: i32, month: u32) -> int
    decreases month,
{
    if month <= 1 {
        0
    } else {
        days_before(year, (month - 1) as u32) + days_in(year, (month - 1) as u32)
    }
}

/// The leap years from year 1 up to the year, itself left out.
pub open spec fn leap_years_before(year: int) -> int {
    (year - 1) / 4 - (year - 1) / 100 + (year - 1) / 400
}

/// The years that a date can have.
pub const FIRST_YEAR: i32 = -262_143;

pub const LAST_YEAR: i32 = 262_142;

pub open spec fn month_name(month: u32) -> Seq<char> {
    if month == 1 {
        "Jan"@
    } else if month == 2 {
        "Feb"@
    } else if month == 3 {
        "Mar"@
    } else if month == 4 {
        "Apr"@
    } else if month == 5 {
        "May"@
    } else if month == 6 {
        "Jun"@
    } else if month == 7 {
        "Jul"@
    } else if month == 8 {
        "Aug"@
    } else if month == 9 {
        "Sep"@
    } else if month == 10 {
        "Oct"@
    } else if month == 11 {
        "Nov"@
    } else {
        "Dec"@
    }
}

/// At least four digits; signed outside the years that have four.
pub open spec fn year_text(year: i32) -> Seq<char> {
    if year < 0 {
        seq!['-'] + padded((-year) as nat, 4)
    } else if year > 9999 {
        seq!['+'] + padded(year as nat, 4)
    } else {
        padded(year as nat, 4)
    }
}

impl CivilTime {
    /// The date is in the calendar, and the time in the day.
    pub open spec fn valid(self) -> bool {
        &&& FIRST_YEAR <= self.year <= LAST_YEAR
        &&& 1 <= self.month <= 12
        &&& 1 <= self.day <= days_in(self.year, self.month)
        &&& self.hour < 24
        &&& self.minute < 60
    }

    /// The seconds that a clock counts from the start of 1970 until it shows this.
    pub open spec fn seconds(self) -> int {
        let days = 365 * (self.year - 1970) + leap_years_before(self.year as int)
            - leap_years_before(1970) + days_before(self.year, self.month) + self.day - 1;
        86_400 * days + 3600 * self.hour + 60 * self.minute
    }

    /// What a clock somewhere in the world shows at an instant, counted in seconds
    /// since 1970 in UTC: it is less than a day from UTC, and shows whole minutes.
    pub open spec fn shown_at(self, instant: int) -> bool {
        &&& self.valid()
        &&& -86_400 - 60 < self.seconds() - instant < 86_400
    }

    /// `HH:MM`
    pub open spec fn time_text(self) -> Seq<char> {
        padded(self.hour as nat, 2).push(':') + padded(self.minute as nat, 2)
    }

    /// `DD Mon`
    pub open spec fn day_text(self) -> Seq<char> {
        padded(self.day as nat, 2).push(' ') + month_name(self.month)
    }

    pub fn is_valid(&self) -> (r: bool)
        ensures
            r == self.valid(),
    {
        if self.year < FIRST_YEAR || self.year > LAST_YEAR || self.month < 1 || self.month > 12
            || self.day < 1 || self.hour >= 24 || self.minute >= 60 {
            return false;
        }
        let days: u32 = if self.month == 2 {
            let y: u32 = if self.year < 0 {
                (-self.year) as u32
            } else {
                self.year as u32
            };
            assert(self.year as int % 4 == 0 <==> y % 4 == 0);
            assert(self.year as int % 100 == 0 <==> y % 100 == 0);
            assert(self.year as int % 400 == 0 <==> y % 400 == 0);
            if y % 4 == 0 && (y % 100 != 0 || y % 400 == 0) {
                29
            } else {
                28
            }
        } else if self.month == 4 || self.month == 6 || self.month == 9 || self.month == 11 {
            30
        } else {
            31
        };
        self.day <= days
    }
}

/// Calls `chrono::NaiveDateTime::format` on the date and time, made by
/// `chrono::NaiveDate::from_ymd_opt` and `and_hms_opt`, which know every valid
/// one. What each of the three patterns writes is taken from chrono's source.
#[verifier::external_body]
fn formatted(t: &CivilTime, pattern: &str) -> (r: String)
    requires
        t.valid(),
        pattern@ == "Today %H:%M"@ || pattern@ == "%d %b %H:%M"@ || pattern@ == "%d %b %Y"@,
    ensures
        pattern@ == "Today %H:%M"@ ==> r@ == "Today "@ + t.time_text(),
        pattern@ == "%d %b %H:%M"@ ==> r@ == t.day_text().push(' ') + t.time_text(),
        pattern@ == "%d %b %Y"@ ==> r@ == t.day_text().push(' ') + year_text(t.year),
{
    let date = chrono::NaiveDate::from_ymd_opt(t.year, t.month, t.day).unwrap();
    date.and_hms_opt(t.hour, t.minute, 0).unwrap().format(pattern).to_string()
}

/// How a modification time is shown: the date is dropped when it is today and the
/// year when it is this year.
pub open spec fn modified_text(t: CivilTime, now: CivilTime) -> Seq<char> {
    if t.year == now.year && t.month == now.month && t.day == now.day {
        "Today "@ + t.time_text()
    } else if t.year == now.year {
        t.day_text().push(' ') + t.time_text()
    } else {
        t.day_text().push(' ') + year_text(t.year)
    }
}

/// A modification time as it is shown on the day of `now`.
pub fn format_relative(time: &CivilTime, now: &CivilTime) -> (r: String)
    requires
        time.valid(),
    ensures
        r@ == modified_text(*time, *now),
{
    if time.year == now.year && time.month == now.month && time.day == now.day {
        formatted(time, "Today %H:%M")
    } else if time.year == now.year {
        formatted(time, "%d %b %H:%M")
    } else {
        formatted(time, "%d %b %Y")
    }
}

/// The seconds of the calendar, counted from 1970 in UTC. A day is left out at each
/// end, so that every local clock is in it too.
pub const FIRST_SECOND: i64 = -8_334_601_142_400;

pub const LAST_SECOND: i64 = 8_210_266_790_399;

/// The whole seconds in an instant, which is counted in nanoseconds.
pub open spec fn whole_seconds(instant: i128) -> int {
    instant as int / 1_000_000_000
}

/// An instant is in the calendar, whatever the clock.
pub open spec fn on_calendar(instant: i128) -> bool {
    FIRST_SECOND <= whole_seconds(instant) <= LAST_SECOND
}

pub fn is_on_calendar(instant: i128) -> (r: bool)
    ensures
        r == on_calendar(instant),
{
    instant >= FIRST_SECOND as i128 * 1_000_000_000 && instant < (LAST_SECOND as i128 + 1)
        * 1_000_000_000
}

/// Calls `chrono::DateTime::from_timestamp` and `with_timezone` for `chrono::Local`.
/// The first knows every second of the calendar. The second shifts it by what the
/// machine's time zone is from UTC, always less than a day: chrono panics on a
/// machine whose zone is further off. Which zone it is, and so which shift, is the
/// machine's affair and is left open here.
#[verifier::external_body]
fn local_time(secs: i64) -> (r: CivilTime)
    requires
        FIRST_SECOND <= secs <= LAST_SECOND,
    ensures
        r.shown_at(secs as int),
{
    let utc = chrono::DateTime::from_timestamp(secs, 0).unwrap();
    let t = utc.with_timezone(&chrono::Local);
    CivilTime {
        year: chrono::Datelike::year(&t),
        month: chrono::Datelike::month(&t),
        day: chrono::Datelike::day(&t),
        hour: chrono::Timelike::hour(&t),
        minute: chrono::Timelike::minute(&t),
    }
}

/// Calls `chrono::Local::now`: what the machine's clock shows. Nothing is claimed of
/// it.
#[verifier::external_body]
fn local_now() -> (r: CivilTime) {
    let t = chrono::Local::now();
    CivilTime {
        year: chrono::Datelike::year(&t),
        month: chrono::Datelike::month(&t),
        day: chrono::Datelike::day(&t),
        hour: chrono::Timelike::hour(&t),
        minute: chrono::Timelike::minute(&t),
    }
}

/// A text shows an instant on a clock of which `time` was read at that instant, and
/// `now` when it was written.
pub open spec fn shows(text: Seq<char>, instant: i128, time: CivilTime, now: CivilTime) -> bool {
    &&& time.shown_at(whole_seconds(instant))
    &&& text == modified_text(time, now)
}

/// Format a modification time for display, relative to today.
///
/// Recordings are usually recent, so the date is dropped when it is today and
/// the year when it is this year. The time is in nanoseconds since 1970.
pub fn format_modified(modified: i128) -> (r: String)
    requires
        on_calendar(modified),
    ensures
        exists|time: CivilTime, now: CivilTime| #[trigger] shows(r@, modified, time, now),
{
    let secs: i64 = if modified >= 0 {
        (modified as u128 / 1_000_000_000) as i64
    } else {
        -1 - ((-1 - modified) as u128 / 1_000_000_000) as i64
    };
    assert(secs == whole_seconds(modified));
    let time: CivilTime = local_time(secs);
    let now: CivilTime = local_now();
    let r: String = format_relative(&time, &now);
    assert(shows(r@, modified, time, now));
    r
}

// ---- changes ------------------------------------------------------------------

/// Whether what the watcher reports calls for a rescan. Any event at all does:
/// diffing individual events is more fragile than simply re-reading a directory
/// listing. `None` is a watcher's error.
pub fn calls_for_rescan(events: Option<usize>) -> (r: bool)
    ensures
        r == (events matches Some(n) && n > 0),
{
    match events {
        Some(n) => n > 0,
        None => false,
    }
}

/// A scan trigger that coalesces rapid requests.
///
/// The watcher can fire while a scan is already running; this makes sure only
/// the most recent request produces output. What it promises over many requests is
/// [`the_newest_request_is_never_lost`](crate::queue::the_newest_request_is_never_lost).
#[derive(Debug)]
pub struct ScanQueue {
    pending: Option<String>,
}

impl ScanQueue {
    /// The folder to scan next, if there is one.
    pub closed spec fn waiting(&self) -> Option<Seq<char>> {
        match self.pending {
            Some(root) => Some(root@),
            None => None,
        }
    }

    pub fn new() -> (r: Self)
        ensures
            r.waiting() is None,
    {
        ScanQueue { pending: None }
    }

    /// Ask for a scan. It takes the place of any that still waits.
    pub fn request(&mut self, root: String)
        ensures
            final(self).waiting() == stepped(old(self).waiting(), Step::Asked(root@)).0,
            final(self).waiting() == Some(root@),
    {
        self.pending = Some(root);
    }

    /// What to scan now. The request is then served, and nothing waits until the
    /// next one.
    pub fn next(&mut self) -> (r: Option<String>)
        ensures
            ({
                let (left, taken) = stepped(old(self).waiting(), Step::Taken);
                &&& final(self).waiting() == left
                &&& match r {
                    Some(root) => taken == Some(root@),
                    None => taken is None,
                }
            }),
            final(self).waiting() is None,
    {
        self.pending.take()
    }
}

// ---- laws ---------------------------------------------------------------------

/// An entry is listed exactly when it is a file with the name of a video and can be
/// read: neither its size nor its age, path or folder decide. It is listed with what
/// the filesystem tells of it.
pub proof fn an_entry_is_listed_for_what_it_is(e: WalkEntry)
    ensures
        entry_listed(Some(e)) is Some <==> e.is_file && e.metadata is Some && (e.name matches Some(
            name,
        ) && is_video_path(name@)),
        entry_listed(Some(e)) matches Some(f) ==> {
            &&& f.path == e.path@
            &&& f.display_name == e.name->0@
            &&& f.size == e.metadata->0.size
            &&& e.metadata->0.modified matches Some(t) ==> f.modified == t
            &&& e.metadata->0.modified is None ==> f.modified == 0
            &&& e.sub_path is None ==> f.sub_path.len() == 0
            &&& e.sub_path matches Some(p) ==> {
                &&& f.sub_path.len() == p@.len()
                &&& forall|i: int|
                    0 <= i < p@.len() ==> #[trigger] f.sub_path[i] == (if p@[i] == '\\' {
                        '/'
                    } else {
                        p@[i]
                    })
            }
        },
        entry_listed(None) is None,
{
}

/// A walk is listed entry by entry: one that counts for nothing takes none away.
pub proof fn a_walk_is_listed_entry_by_entry(
    a: Seq<Option<WalkEntry>>,
    b: Seq<Option<WalkEntry>>,
    e: Option<WalkEntry>,
)
    ensures
        listed(a + b) == listed(a) + listed(b),
        listed(seq![e]) == match entry_listed(e) {
            Some(f) => seq![f],
            None => Seq::empty(),
        },
    decreases b.len(),
{
    assert(seq![e].drop_last() =~= Seq::<Option<WalkEntry>>::empty());
    assert(seq![e].last() == e);
    assert(listed(seq![e].drop_last()) =~= Seq::<Listed>::empty());
    assert(listed(seq![e]) =~= match entry_listed(e) {
        Some(f) => seq![f],
        None => Seq::empty(),
    });
    if b.len() == 0 {
        assert(a + b =~= a);
        assert(listed(a) + listed(b) =~= listed(a));
    } else {
        a_walk_is_listed_entry_by_entry(a, b.drop_last(), e);
        assert((a + b).drop_last() =~= a + b.drop_last());
        assert((a + b).last() == b.last());
        assert(listed(a + b) =~= listed(a) + listed(b));
    }
}

/// The list runs from the oldest to the newest, and by name where two are of one age.
pub proof fn the_list_runs_from_the_oldest(files: Seq<Listed>, found: Seq<Listed>, i: int, j: int)
    requires
        sorted_from(files, found),
        0 <= i < j < files.len(),
    ensures
        files[i].modified <= files[j].modified,
        files[i].modified == files[j].modified ==> text_le(
            files[i].display_name,
            files[j].display_name,
        ),
{
    assert(not_after(files[i], files[j]));
}

/// The extensions, letter by letter, none of them in capitals.
proof fn extensions_are_small()
    ensures
        lowered("mkv"@) == "mkv"@,
        lowered("mp4"@) == "mp4"@,
        lowered("mov"@) == "mov"@,
        lowered("webm"@) == "webm"@,
        lowered("m4v"@) == "m4v"@,
        lowered("avi"@) == "avi"@,
        lowered("ts"@) == "ts"@,
        lowered("m2ts"@) == "m2ts"@,
        lowered("mts"@) == "mts"@,
        lowered("mpg"@) == "mpg"@,
        lowered("mpeg"@) == "mpeg"@,
        lowered("wmv"@) == "wmv"@,
        lowered("flv"@) == "flv"@,
        lowered("ogv"@) == "ogv"@,
{
    reveal_strlit("mkv");
    reveal_strlit("mp4");
    reveal_strlit("mov");
    reveal_strlit("webm");
    reveal_strlit("m4v");
    reveal_strlit("avi");
    reveal_strlit("ts");
    reveal_strlit("m2ts");
    reveal_strlit("mts");
    reveal_strlit("mpg");
    reveal_strlit("mpeg");
    reveal_strlit("wmv");
    reveal_strlit("flv");
    reveal_strlit("ogv");
    assert(lowered("mkv"@) =~= "mkv"@);
    assert(lowered("mp4"@) =~= "mp4"@);
    assert(lowered("mov"@) =~= "mov"@);
    assert(lowered("webm"@) =~= "webm"@);
    assert(lowered("m4v"@) =~= "m4v"@);
    assert(lowered("avi"@) =~= "avi"@);
    assert(lowered("ts"@) =~= "ts"@);
    assert(lowered("m2ts"@) =~= "m2ts"@);
    assert(lowered("mts"@) =~= "mts"@);
    assert(lowered("mpg"@) =~= "mpg"@);
    assert(lowered("mpeg"@) =~= "mpeg"@);
    assert(lowered("wmv"@) =~= "wmv"@);
    assert(lowered("flv"@) =~= "flv"@);
    assert(lowered("ogv"@) =~= "ogv"@);
}

/// A path leads to the last thing it names, in whatever folder that lies.
pub proof fn a_path_names_its_last_part(folder: Seq<char>, name: Seq<char>)
    requires
        name.len() > 0,
        !name.contains('/'),
        name != "."@,
        name != ".."@,
    ensures
        file_name(name) == Some(name),
        file_name(folder.push('/') + name) == Some(name),
        file_name(name.push('/')) == Some(name),
{
    pieces_of_one(name, '/');
    assert(seq![name].last() == name);
    last_piece(folder, '/', name);
    let parts = pieces(folder.push('/') + name, '/', 0);
    assert(parts.last() == name);
    pieces_of_parts(name, '/', Seq::empty());
    assert(name.push('/') + Seq::<char>::empty() =~= name.push('/'));
    pieces_of_one(Seq::empty(), '/');
    let ended = pieces(name.push('/'), '/', 0);
    assert(ended =~= seq![name, Seq::empty()]);
    assert(ended.drop_last() =~= seq![name]);
    assert(last_named(ended) == last_named(seq![name]));
}

/// What follows the last separator is the last part.
proof fn last_piece(a: Seq<char>, c: char, b: Seq<char>)
    requires
        !b.contains(c),
    ensures
        pieces(a.push(c) + b, c, 0).len() > 0,
        pieces(a.push(c) + b, c, 0).last() == b,
    decreases a.len(),
{
    first_at_finds(a, c, 0);
    let i = first_at(a, c, 0);
    if i < a.len() {
        let head = a.take(i);
        let rest = a.skip(i + 1);
        assert(!head.contains(c)) by {
            assert forall|j: int| 0 <= j < head.len() implies head[j] != c by {
                assert(head[j] == a[j]);
            }
        }
        assert(a.push(c) + b =~= head.push(c) + (rest.push(c) + b));
        pieces_of_parts(head, c, rest.push(c) + b);
        last_piece(rest, c, b);
        let others = pieces(rest.push(c) + b, c, 0);
        assert((seq![head] + others).last() == others.last());
    } else {
        assert(!a.contains(c)) by {
            assert forall|j: int| 0 <= j < a.len() implies a[j] != c by {}
        }
        pieces_of_parts(a, c, b);
        pieces_of_one(b, c);
        assert((seq![a] + seq![b]).last() == b);
    }
}

/// A video is told by its extension, in capitals or not, in whatever folder it lies:
/// one of these, and no other.
pub proof fn a_video_is_told_by_its_extension(
    folder: Seq<char>,
    stem: Seq<char>,
    ext: Seq<char>,
)
    requires
        stem.len() > 0,
        !stem.contains('/'),
        !ext.contains('/'),
        !ext.contains('.'),
        ext.len() > 0,
    ensures
        ({
            let e = lowered(ext);
            let is_one = e == "mkv"@ || e == "mp4"@ || e == "mov"@ || e == "webm"@ || e == "m4v"@
                || e == "avi"@ || e == "ts"@ || e == "m2ts"@ || e == "mts"@ || e == "mpg"@ || e
                == "mpeg"@ || e == "wmv"@ || e == "flv"@ || e == "ogv"@;
            &&& is_video_path(stem.push('.') + ext) == is_one
            &&& is_video_path(folder.push('/') + (stem.push('.') + ext)) == is_one
        }),
{
    let name = stem.push('.') + ext;
    assert(!name.contains('/')) by {
        assert forall|j: int| 0 <= j < name.len() implies name[j] != '/' by {
            if j < stem.len() {
                assert(stem.contains(stem[j]));
                assert(name[j] == stem[j]);
            } else if j > stem.len() {
                assert(ext.contains(ext[j - stem.len() - 1]));
                assert(name[j] == ext[j - stem.len() - 1]);
            }
        }
    }
    reveal_strlit(".");
    reveal_strlit("..");
    assert("."@.len() == 1 && ".."@.len() == 2);
    assert(name.len() > 2 || name.len() == 2);
    a_path_names_its_last_part(folder, name);
    assert forall|j: int| stem.len() < j < name.len() implies name[j] != '.' by {
        assert(ext.contains(ext[j - stem.len() - 1]));
        assert(name[j] == ext[j - stem.len() - 1]);
    }
    last_before_is(name, '.', name.len() as int, stem.len() as int);
    assert(name.skip(stem.len() as int + 1) =~= ext);
    extensions_are_small();
    let all = VIDEO_EXTENSIONS@;
    assert(all.len() == 14);
    assert(all[0]@ == "mkv"@ && all[1]@ == "mp4"@ && all[2]@ == "mov"@ && all[3]@ == "webm"@);
    assert(all[4]@ == "m4v"@ && all[5]@ == "avi"@ && all[6]@ == "ts"@ && all[7]@ == "m2ts"@);
    assert(all[8]@ == "mts"@ && all[9]@ == "mpg"@ && all[10]@ == "mpeg"@ && all[11]@ == "wmv"@);
    assert(all[12]@ == "flv"@ && all[13]@ == "ogv"@);
}

/// A name without a dot, or with none but the one it begins with, is no video's.
pub proof fn a_name_without_an_extension_is_no_video(name: Seq<char>)
    requires
        name.len() > 0,
        !name.contains('/'),
        forall|j: int| 0 < j < name.len() ==> #[trigger] name[j] != '.',
    ensures
        !is_video_path(name),
{
    last_before_finds(name, '.', name.len() as int);
    pieces_of_one(name, '/');
    assert(seq![name].last() == name);
    assert(seq![name].drop_last() =~= Seq::<Seq<char>>::empty());
    let i = last_before(name, '.', name.len() as int);
    assert(i <= 0) by {
        if i > 0 {
            assert(i < name.len());
            assert(name[i] == '.');
        }
    }
    reveal_with_fuel(last_named, 2);
    assert(file_name(name) matches Some(n) ==> n == name);
}

proof fn last_before_is(s: Seq<char>, c: char, to: int, at: int)
    requires
        0 <= at < to <= s.len(),
        s[at] == c,
        forall|j: int| at < j < to ==> s[j] != c,
    ensures
        last_before(s, c, to) == at,
    decreases to - at,
{
    if at < to - 1 {
        last_before_is(s, c, to - 1, at);
    }
}

/// Small sizes are counted in bytes, and the others in units of a thousand, a million
/// and so on, to the nearest that the three figures tell.
pub proof fn a_size_is_shown_to_the_nearest(bytes: u64)
    requires
        bytes < 999_500_000_000_000,
    ensures
        bytes < 1000 ==> size_text(bytes) == digits(bytes as nat) + " B"@,
        bytes >= 1000 ==> (unit_of(bytes as nat) matches Some((scale, unit)) && {
            let (n, places) = figures(bytes as nat, scale);
            &&& scale == 1000 && unit == "kB"@ || scale == 1_000_000 && unit == "MB"@ || scale
                == 1_000_000_000 && unit == "GB"@ || scale == 1_000_000_000_000 && unit == "TB"@
            &&& size_text(bytes) == units_text(n, places).push(' ') + unit
            &&& -501 * scale <= 1000 * (n * scale - bytes * pow10(places)) <= 501 * scale
        }),
{
    let b = bytes as nat;
    if 0 < b {
        counted_exactly(b);
    } else {
        nothing_counts_as_nothing(1);
    }
    if b < 1000 {
        small_is_no_unit(b, 1_000_000_000_000);
        small_is_no_unit(b, 1_000_000_000);
        small_is_no_unit(b, 1_000_000);
    } else {
        a_size_has_three_figures(bytes);
        let (scale, unit) = unit_of(b)->0;
        let (n, places) = figures(b, scale);
        let d = nearest_double(b, scale);
        nearest_is_near(b, scale);
        let p = pow10(places);
        reveal_with_fuel(pow10, 3);
        assert(p == 1 || p == 10 || p == 100);
        let x = d.mantissa * d.up;
        half_even_near(x * p, d.down);
        rounding_is_near(n as int, scale as int, b as int, p as int, x as int, d.down as int);
    }
}

proof fn nothing_counts_as_nothing(den: nat)
    ensures
        nearest_double(0, den).in_units(0) == 0,
{
    let d = nearest_double(0, den);
    assert(d.mantissa == 0 && d.down == 1);
    assert(0 * d.up * pow10(0) == 0) by (nonlinear_arith);
    assert(half_even(0, 1) == 0);
}

/// Fewer than a thousand bytes fill no unit.
proof fn small_is_no_unit(bytes: nat, scale: nat)
    requires
        bytes < 1000,
        scale >= 1_000_000,
        scale % 1000 == 0,
    ensures
        !fills(bytes, scale),
{
    if bytes == 0 {
        nothing_counts_as_nothing(scale / 1000);
    } else if fills(bytes, scale) {
        filling(bytes, scale);
    }
}

/// How far a rounded quotient may be from the quotient.
proof fn rounding_is_near(n: int, scale: int, b: int, p: int, x: int, d: int)
    requires
        0 <= n <= 999,
        1000 <= scale <= 1_000_000_000_000,
        0 < b,
        1 <= p <= 100,
        d > 0,
        x >= 0,
        2 * (x * p) - d <= 2 * (n * d) <= 2 * (x * p) + d,
        x * scale * MANTISSA_END <= b * d * (MANTISSA_END + 1),
        x * scale * MANTISSA_END >= b * d * (MANTISSA_END - 1),
    ensures
        -501 * scale <= 1000 * (n * scale - b * p) <= 501 * scale,
{
    let k = MANTISSA_END as int;
    let y = (x * p) * scale;
    let t = n * scale;
    let q = b * p;
    assert(2 * (t * d) <= 2 * y + scale * d && 2 * (t * d) >= 2 * y - scale * d) by (nonlinear_arith)
        requires
            2 * (x * p) - d <= 2 * (n * d) <= 2 * (x * p) + d,
            y == (x * p) * scale,
            t == n * scale,
            scale > 0,
    ;
    assert(y * k <= (q * d) * (k + 1) && y * k >= (q * d) * (k - 1)) by (nonlinear_arith)
        requires
            x * scale * k <= b * d * (k + 1),
            x * scale * k >= b * d * (k - 1),
            y == (x * p) * scale,
            q == b * p,
            p >= 1,
    ;
    let w = q * d;
    let td = t * d;
    let sd = scale * d;
    assert(td <= 999 * sd) by (nonlinear_arith)
        requires
            td == t * d,
            t == n * scale,
            n <= 999,
            scale > 0,
            d > 0,
            sd == scale * d,
    ;
    assert(sd > 0) by (nonlinear_arith)
        requires
            sd == scale * d,
            scale > 0,
            d > 0,
    ;
    assert(w >= 0) by (nonlinear_arith)
        requires
            w == q * d,
            q == b * p,
            b > 0,
            p >= 1,
            d > 0,
    ;
    assert(k == 9_007_199_254_740_992);
    assert(y * 9_007_199_254_740_992 <= w * 9_007_199_254_740_993);
    assert(y * 9_007_199_254_740_992 >= w * 9_007_199_254_740_991);
    assert(w <= 1001 * sd);
    assert(1000 * (td - w) <= 501 * sd && 1000 * (td - w) >= -501 * sd);
    assert((t - q) * d == td - w) by (nonlinear_arith)
        requires
            td == t * d,
            w == q * d,
    ;
    assert(1000 * (t - q) <= 501 * scale) by (nonlinear_arith)
        requires
            1000 * ((t - q) * d) <= 501 * (scale * d),
            d > 0,
    ;
    assert(1000 * (t - q) >= -501 * scale) by (nonlinear_arith)
        requires
            1000 * ((t - q) * d) >= -501 * (scale * d),
            d > 0,
    ;
}

/// A date says no more than is needed: the time alone today, the day and the time this
/// year, and the day and the year otherwise. Whatever the date.
pub proof fn a_date_says_what_is_needed(t: CivilTime, now: CivilTime)
    ensures
        ({
            let clock = padded(t.hour as nat, 2).push(':') + padded(t.minute as nat, 2);
            let day = padded(t.day as nat, 2).push(' ') + month_name(t.month);
            let year = if 0 <= t.year <= 9999 {
                padded(t.year as nat, 4)
            } else if t.year < 0 {
                seq!['-'] + padded((-t.year) as nat, 4)
            } else {
                seq!['+'] + digits(t.year as nat)
            };
            let today = (t.year, t.month, t.day) == (now.year, now.month, now.day);
            &&& today ==> modified_text(t, now) == "Today "@ + clock
            &&& !today && t.year == now.year ==> modified_text(t, now) == day.push(' ') + clock
            &&& t.year != now.year ==> modified_text(t, now) == day.push(' ') + year
        }),
{
    if t.year > 9999 {
        five_digits(t.year as nat);
        assert(padded(t.year as nat, 4) =~= digits(t.year as nat));
    }
}

proof fn five_digits(n: nat)
    requires
        n > 9999,
    ensures
        digits(n).len() >= 5,
{
    reveal_with_fuel(digits, 5);
    digits_read_back(n / 10_000);
    assert(digits(n / 10_000).len() >= 1);
    assert(n / 10 / 10 / 10 / 10 == n / 10_000);
}

/// The months, by the name each has.
pub proof fn the_months_have_their_names(month: u32)
    requires
        1 <= month <= 12,
    ensures
        seq![
            "Jan"@,
            "Feb"@,
            "Mar"@,
            "Apr"@,
            "May"@,
            "Jun"@,
            "Jul"@,
            "Aug"@,
            "Sep"@,
            "Oct"@,
            "Nov"@,
            "Dec"@,
        ][month - 1] == month_name(month),
{
}

/// A clock runs on: a minute later it counts a minute more, across the ends of hours,
/// days, months and years.
pub proof fn a_clock_runs_on(t: CivilTime)
    requires
        t.valid(),
        t.year < LAST_YEAR,
    ensures
        t.minute < 59 ==> (CivilTime { minute: (t.minute + 1) as u32, ..t }).seconds()
            == t.seconds() + 60,
        t.minute == 59 && t.hour < 23 ==> (CivilTime {
            hour: (t.hour + 1) as u32,
            minute: 0,
            ..t
        }).seconds() == t.seconds() + 60,
        t.minute == 59 && t.hour == 23 && t.day < days_in(t.year, t.month) ==> (CivilTime {
            day: (t.day + 1) as u32,
            hour: 0,
            minute: 0,
            ..t
        }).seconds() == t.seconds() + 60,
        t.minute == 59 && t.hour == 23 && t.day == days_in(t.year, t.month) && t.month < 12 ==> (
        CivilTime { month: (t.month + 1) as u32, day: 1, hour: 0, minute: 0, ..t }).seconds()
            == t.seconds() + 60,
        t.minute == 59 && t.hour == 23 && t.day == 31 && t.month == 12 ==> (CivilTime {
            year: (t.year + 1) as i32,
            month: 1,
            day: 1,
            hour: 0,
            minute: 0,
        }).seconds() == t.seconds() + 60,
        (CivilTime { year: 1970, month: 1, day: 1, hour: 0, minute: 0 }).seconds() == 0,
{
    reveal_with_fuel(days_before, 13);
    let y = t.year as int;
    assert(is_leap(t.year) ==> (y / 4 - y / 100 + y / 400) == ((y - 1) / 4 - (y - 1) / 100 + (y - 1)
        / 400) + 1);
    assert(!is_leap(t.year) ==> (y / 4 - y / 100 + y / 400) == ((y - 1) / 4 - (y - 1) / 100 + (y - 1)
        / 400));
}

/// An instant is counted in the seconds that it has completed.
pub proof fn seconds_are_counted_when_complete(instant: i128)
    ensures
        whole_seconds(instant) * 1_000_000_000 <= instant < (whole_seconds(instant) + 1)
            * 1_000_000_000,
{
}

/// A date is one of the calendar: the months have their days, and February one more in a
/// leap year, which is every fourth but for three centuries in four.
pub proof fn what_a_date_is(t: CivilTime)
    ensures
        t.valid() <==> {
            let y = t.year as int;
            let february: int = if y % 4 == 0 && (y % 100 != 0 || y % 400 == 0) {
                29
            } else {
                28
            };
            let days = seq![31, february, 31, 30, 31, 30, 31, 31, 30, 31, 30, 31int];
            &&& -262_143 <= t.year <= 262_142
            &&& 1 <= t.month <= 12
            &&& 1 <= t.day <= days[t.month - 1]
            &&& t.hour < 24
            &&& t.minute < 60
        },
{
}

/// The calendar holds every instant of its years, but for a day at each end.
pub proof fn the_calendar_has_two_ends(instant: i128)
    ensures
        on_calendar(instant) <==> -8_334_601_142_400 * 1_000_000_000 <= instant && instant
            < 8_210_266_790_400 * 1_000_000_000,
        (CivilTime { year: -262_143i32 as i32, month: 1, day: 2, hour: 0, minute: 0 }).seconds()
            == -8_334_601_142_400,
        (CivilTime { year: 262_142, month: 12, day: 31, hour: 0, minute: 0 }).seconds()
            == 8_210_266_790_400,
        WATCH_DEBOUNCE_MS == 750,
{
    reveal_with_fuel(days_before, 13);
}

/// A clock shows an instant when it is less than a day from UTC, and the instant is in
/// the minute it shows.
pub proof fn a_clock_is_less_than_a_day_from_utc(t: CivilTime, instant: int)
    ensures
        t.shown_at(instant) <==> t.valid() && -86_460 < t.seconds() - instant < 86_400,
        t.valid() && t.seconds() <= instant < t.seconds() + 60 ==> t.shown_at(instant),
{
}

/// An end separator and a dot standing for the folder itself change nothing of what a
/// path names, and a path that goes back up names nothing.
pub proof fn what_a_path_does_not_name(path: Seq<char>)
    ensures
        file_name(path.push('/')) == file_name(path),
        file_name(path.push('/').push('.')) == file_name(path),
        file_name(path.push('/').push('.').push('.')) is None,
        file_name(seq!['.']) is None,
        file_name(seq!['.', '.']) is None,
        file_name(Seq::empty()) is None,
{
    reveal_strlit(".");
    reveal_strlit("..");
    let none = Seq::<char>::empty();
    let here = seq!['.'];
    let up = seq!['.', '.'];
    assert("."@ =~= here);
    assert(".."@ =~= up);
    pieces_join(path, '/', none);
    pieces_join(path, '/', here);
    pieces_join(path, '/', up);
    assert(path.push('/') + none =~= path.push('/'));
    assert(path.push('/') + here =~= path.push('/').push('.'));
    assert(path.push('/') + up =~= path.push('/').push('.').push('.'));
    pieces_of_one(none, '/');
    pieces_of_one(here, '/');
    pieces_of_one(up, '/');
    let parts = pieces(path, '/', 0);
    assert((parts + seq![none]).drop_last() =~= parts);
    assert((parts + seq![here]).drop_last() =~= parts);
    assert((parts + seq![none]).last() == none);
    assert((parts + seq![here]).last() == here);
    assert((parts + seq![up]).last() == up);
    let nothing = Seq::<Seq<char>>::empty();
    assert(last_named(nothing) is None);
    assert(seq![none].drop_last() =~= nothing);
    assert(seq![here].drop_last() =~= nothing);
    assert(seq![none].last() == none && seq![here].last() == here && seq![up].last() == up);
}

/// The parts of two texts joined by a separator are the parts of both.
proof fn pieces_join(a: Seq<char>, c: char, b: Seq<char>)
    ensures
        pieces(a.push(c) + b, c, 0) == pieces(a, c, 0) + pieces(b, c, 0),
    decreases a.len(),
{
    first_at_finds(a, c, 0);
    let i = first_at(a, c, 0);
    if i < a.len() {
        let head = a.take(i);
        let rest = a.skip(i + 1);
        assert(!head.contains(c)) by {
            assert forall|j: int| 0 <= j < head.len() implies head[j] != c by {
                assert(head[j] == a[j]);
            }
        }
        assert(a.push(c) + b =~= head.push(c) + (rest.push(c) + b));
        assert(a =~= head.push(c) + rest);
        pieces_of_parts(head, c, rest.push(c) + b);
        pieces_of_parts(head, c, rest);
        pieces_join(rest, c, b);
        assert(seq![head] + (pieces(rest, c, 0) + pieces(b, c, 0)) =~= (seq![head] + pieces(
            rest,
            c,
            0,
        )) + pieces(b, c, 0));
    } else {
        assert(!a.contains(c)) by {
            assert forall|j: int| 0 <= j < a.len() implies a[j] != c by {}
        }
        pieces_of_parts(a, c, b);
        pieces_of_one(a, c);
    }
}

/// What a size comes to in whole terabytes where three figures do not hold it.
#[verifier::spinoff_prover]
#[verifier::rlimit(30)]
pub proof fn a_huge_size_is_in_whole_terabytes(bytes: u64) -> (n: nat)
    requires
        bytes >= 999_500_000_000_000,
    ensures
        n >= 999,
        size_text(bytes) == digits(n).push(' ') + "TB"@,
        -501_000_000_000 <= n * 1_000_000_000_000 - bytes <= 501_000_000_000,
{
    let b = bytes as nat;
    let value = nearest_double(b, 1).in_units(0);
    let d = nearest_double(value, 1_000_000_000_000);
    reveal_with_fuel(pow10, 3);
    assert(pow10(0) == 1 && pow10(1) == 10 && pow10(2) == 100);
    assert(b * pow10(0) == b);
    in_units_near(b, 1, 0, b as int);
    assert(b - 2100 <= value <= b + 2100);
    assert(value * pow10(0) == value);
    assert(value * pow10(1) == value * 10);
    assert(value * pow10(2) == value * 100);
    in_units_near(value, 1_000_000_000, 0, value as int);
    assert(fills(value, 1_000_000_000_000));
    in_units_near(value, 1_000_000_000_000, 2, (value * 100) as int);
    assert(d.in_units(2) >= 1000);
    in_units_near(value, 1_000_000_000_000, 1, (value * 10) as int);
    assert(d.in_units(1) >= 1000);
    in_units_near(value, 1_000_000_000_000, 0, value as int);
    d.in_units(0)
}

/// How far a quotient in units may be from the quotient.
proof fn in_units_near(num: nat, den: nat, places: nat, t: int)
    requires
        num > 0,
        den > 0,
        t == num * pow10(places),
    ensures
        ({
            let q = nearest_double(num, den).in_units(places);
            &&& 2 * (q * den * 9_007_199_254_740_992) <= 2 * (t * 9_007_199_254_740_993) + den
                * 9_007_199_254_740_992
            &&& 2 * (q * den * 9_007_199_254_740_992) >= 2 * (t * 9_007_199_254_740_991) - den
                * 9_007_199_254_740_992
        }),
{
    let n = nearest_double(num, den);
    nearest_is_near(num, den);
    let x = (n.mantissa * n.up) as int;
    let d = n.down as int;
    let p = pow10(places) as int;
    let q = n.in_units(places) as int;
    let e = MANTISSA_END as int;
    let m = num as int;
    let s = den as int;
    half_even_near((x * p) as nat, n.down);
    quotient_near(m, s, x, d, p, q, e);
}

proof fn quotient_near(m: int, s: int, x: int, d: int, p: int, q: int, e: int)
    requires
        d > 0,
        s > 0,
        e > 0,
        p >= 0,
        x * s * e <= m * d * (e + 1),
        x * s * e >= m * d * (e - 1),
        2 * (x * p) - d <= 2 * (q * d) <= 2 * (x * p) + d,
    ensures
        2 * (q * s * e) <= 2 * (m * p * (e + 1)) + s * e,
        2 * (q * s * e) >= 2 * (m * p * (e - 1)) - s * e,
{
    let se = s * e;
    assert(se > 0) by (nonlinear_arith)
        requires
            s > 0,
            e > 0,
            se == s * e,
    ;
    let top = 2 * (m * p * (e + 1)) + se;
    let low = 2 * (m * p * (e - 1)) - se;
    let mid = 2 * (q * s * e);
    assert(mid * d == 2 * (q * d) * se) by (nonlinear_arith)
        requires
            mid == 2 * (q * s * e),
            se == s * e,
    ;
    assert(2 * (q * d) * se <= (2 * (x * p) + d) * se) by (nonlinear_arith)
        requires
            2 * (q * d) <= 2 * (x * p) + d,
            se > 0,
    ;
    assert(2 * (q * d) * se >= (2 * (x * p) - d) * se) by (nonlinear_arith)
        requires
            2 * (q * d) >= 2 * (x * p) - d,
            se > 0,
    ;
    let xs = x * s * e;
    assert((2 * (x * p) + d) * se == 2 * (p * xs) + d * se) by (nonlinear_arith)
        requires
            xs == x * s * e,
            se == s * e,
    ;
    assert((2 * (x * p) - d) * se == 2 * (p * xs) - d * se) by (nonlinear_arith)
        requires
            xs == x * s * e,
            se == s * e,
    ;
    let above = m * d * (e + 1);
    let below = m * d * (e - 1);
    assert(p * xs <= p * above) by (nonlinear_arith)
        requires
            p >= 0,
            xs <= above,
    ;
    assert(p * xs >= p * below) by (nonlinear_arith)
        requires
            p >= 0,
            xs >= below,
    ;
    assert(2 * (p * above) + d * se == top * d) by (nonlinear_arith)
        requires
            above == m * d * (e + 1),
            top == 2 * (m * p * (e + 1)) + se,
    ;
    assert(2 * (p * below) - d * se == low * d) by (nonlinear_arith)
        requires
            below == m * d * (e - 1),
            low == 2 * (m * p * (e - 1)) - se,
    ;
    assert(mid <= top) by (nonlinear_arith)
        requires
            mid * d <= top * d,
            d > 0,
    ;
    assert(mid >= low) by (nonlinear_arith)
        requires
            mid * d >= low * d,
            d > 0,
    ;
}

} // verus!
