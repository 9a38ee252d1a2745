use clipcut::library::{
    calls_for_rescan, format_modified, format_relative, format_size, is_on_calendar, is_video, scan,
    CivilTime, Metadata, ScanQueue,
    VideoFile, WalkEntry,
};
use clipcut::session::total_size;

/// What a walk finds at `rel`, last changed at that second.
fn touch(rel: &str, secs_since_epoch: i128) -> Option<WalkEntry> {
    let (sub, name) = match rel.rsplit_once('/') {
        Some((sub, name)) => (sub, name),
        None => ("", rel),
    };
    Some(WalkEntry {
        is_file: true,
        path: format!("/videos/{rel}"),
        name: Some(name.to_string()),
        sub_path: Some(sub.to_string()),
        metadata: Some(Metadata {
            modified: Some(secs_since_epoch * 1_000_000_000),
            size: 1,
        }),
    })
}

fn names(files: &[VideoFile]) -> Vec<String> {
    files.iter().map(|f| f.display_name.clone()).collect()
}

#[test]
fn recognises_video_extensions_case_insensitively() {
    assert!(is_video("a.mkv"));
    assert!(is_video("a.MP4"));
    assert!(is_video("a.Mkv"));
    assert!(!is_video("a.txt"));
    assert!(!is_video("a.srt"), "sidecars must not be listed");
    assert!(!is_video("noextension"));
}

#[test]
fn sorts_oldest_first() {
    let found = vec![
        touch("newest.mkv", 3_000),
        touch("oldest.mkv", 1_000),
        touch("middle.mp4", 2_000),
    ];
    assert_eq!(
        names(&scan(true, &found)),
        vec!["oldest.mkv", "middle.mp4", "newest.mkv"]
    );
}

#[test]
fn equal_timestamps_break_ties_by_name_for_a_stable_order() {
    let found = vec![
        touch("b.mkv", 1_000),
        touch("a.mkv", 1_000),
        touch("c.mkv", 1_000),
    ];
    assert_eq!(names(&scan(true, &found)), vec!["a.mkv", "b.mkv", "c.mkv"]);
}

#[test]
fn recurses_and_records_the_relative_folder() {
    let found = vec![
        touch("root.mkv", 1_000),
        touch("session one/nested.mkv", 2_000),
        touch("session one/deeper/deep.mkv", 3_000),
    ];
    let files = scan(true, &found);
    assert_eq!(names(&files), vec!["root.mkv", "nested.mkv", "deep.mkv"]);
    assert_eq!(files[0].sub_path, "", "root files have no sub-path");
    assert_eq!(files[1].sub_path, "session one");
    assert_eq!(
        files[2].sub_path, "session one/deeper",
        "sub-paths use forward slashes regardless of platform"
    );
}

#[test]
fn ignores_non_video_files() {
    let found = vec![
        touch("keep.mkv", 1_000),
        touch("notes.txt", 1_000),
        touch("subs.srt", 1_000),
        touch("thumb.jpg", 1_000),
    ];
    assert_eq!(names(&scan(true, &found)), vec!["keep.mkv"]);
}

#[test]
fn missing_folder_yields_an_empty_list_rather_than_panicking() {
    assert!(scan(false, &Vec::new()).is_empty());
}

#[test]
fn a_file_path_is_not_a_valid_root() {
    assert!(scan(false, &vec![touch("a.mkv", 1_000)]).is_empty());
}

#[test]
fn sizes_are_formatted_with_three_significant_figures() {
    assert_eq!(format_size(0), "0 B");
    assert_eq!(format_size(512), "512 B");
    assert_eq!(format_size(1_500), "1.50 kB");
    assert_eq!(format_size(15_000_000), "15.0 MB");
    assert_eq!(format_size(987_000_000), "987 MB");
    assert_eq!(format_size(9_870_000_000), "9.87 GB");
    assert_eq!(format_size(2_500_000_000_000), "2.50 TB");
}

#[test]
fn total_size_sums_the_scan() {
    let found = vec![touch("a.mkv", 1_000), touch("b.mkv", 2_000)];
    assert_eq!(
        total_size(&scan(true, &found)),
        Some(2),
        "one byte written per fixture file"
    );
}

#[test]
fn records_size_and_modification_time() {
    let files = scan(true, &vec![touch("a.mkv", 12_345)]);
    assert_eq!(files[0].size, 1);
    assert_eq!(files[0].modified, 12_345_000_000_000);
}

#[test]
fn what_cannot_be_read_is_skipped() {
    let mut folder = touch("folder.mkv", 1).unwrap();
    folder.is_file = false;
    let mut nameless = touch("a.mkv", 1).unwrap();
    nameless.name = None;
    let mut secret = touch("b.mkv", 1).unwrap();
    secret.metadata = None;
    let mut ageless = touch("c.mkv", 1).unwrap();
    ageless.metadata = Some(Metadata { modified: None, size: 9 });
    ageless.sub_path = None;
    let found = vec![None, Some(folder), Some(nameless), Some(secret), Some(ageless)];
    let files = scan(true, &found);
    assert_eq!(names(&files), vec!["c.mkv"]);
    assert_eq!(files[0].modified, 0, "the start of 1970 stands in");
    assert_eq!(files[0].sub_path, "");
    assert_eq!(files[0].path, "/videos/c.mkv");
}

#[test]
fn backslashes_become_slashes() {
    let mut e = touch("a.mkv", 1).unwrap();
    e.sub_path = Some("one\\two".to_string());
    assert_eq!(scan(true, &vec![Some(e)])[0].sub_path, "one/two");
}

#[test]
fn files_of_one_age_and_name_stay_as_found() {
    let found = vec![
        touch("x/a.mkv", 5),
        touch("z.mkv", 4),
        touch("b/a.mkv", 5),
        touch("m/a.mkv", 5),
    ];
    let paths: Vec<String> = scan(true, &found).iter().map(|f| f.path.clone()).collect();
    assert_eq!(
        paths,
        vec!["/videos/z.mkv", "/videos/x/a.mkv", "/videos/b/a.mkv", "/videos/m/a.mkv"]
    );
}

#[test]
fn the_order_of_the_walk_does_not_matter() {
    let a = vec![touch("a.mkv", 2), touch("B.mkv", 2), touch("c.mkv", 1), touch("ab.mkv", 2)];
    let b: Vec<Option<WalkEntry>> = a.iter().rev().cloned().collect();
    assert_eq!(scan(true, &a), scan(true, &b));
    assert_eq!(names(&scan(true, &a)), vec!["c.mkv", "B.mkv", "a.mkv", "ab.mkv"]);
}

#[test]
fn names_without_an_extension_are_no_videos() {
    for name in ["mkv", ".mkv", "a.", "a.mkv.part", "..", "", "a.mkv/b", "dir/.mkv"] {
        assert!(!is_video(name), "{name}");
    }
    for name in ["dir.d/a.mkv", "a.b.webm", "..mkv", "x/a.ts/", "./a.ogv/."] {
        assert!(is_video(name), "{name}");
    }
}

#[test]
fn every_extension_is_known() {
    for ext in [
        "mkv", "mp4", "mov", "webm", "m4v", "avi", "ts", "m2ts", "mts", "mpg", "mpeg", "wmv", "flv",
        "ogv",
    ] {
        assert!(is_video(&format!("clip.{ext}")), "{ext}");
    }
}

#[test]
fn sizes_at_the_edges() {
    assert_eq!(format_size(999), "999 B");
    assert_eq!(format_size(1_000), "1.00 kB");
    assert_eq!(format_size(9_994), "9.99 kB");
    assert_eq!(format_size(9_995), "9.99 kB", "a hair below the half");
    assert_eq!(format_size(9_996), "10.0 kB", "the figures are those of what is shown");
    assert_eq!(format_size(9_999), "10.0 kB");
    assert_eq!(format_size(99_950), "100 kB");
    assert_eq!(format_size(100_500), "100 kB", "halves go to the even digit");
    assert_eq!(format_size(999_499), "999 kB");
    assert_eq!(format_size(999_500), "1.00 MB", "what rounds to a thousand fills the next unit");
    assert_eq!(format_size(999_999), "1.00 MB");
    assert_eq!(format_size(999_999_999), "1.00 GB");
    assert_eq!(format_size(999_499_999_999_999), "999 TB");
    assert_eq!(format_size(999_500_000_000_000), "1000 TB", "there is no larger unit");
    assert_eq!(format_size(18_446_744_073_709_551_615), "18446744 TB");
}

#[test]
fn sizes_are_shown_as_quotients_of_floats_are() {
    let mut bytes: u64 = 1;
    while bytes < u64::MAX / 3 {
        let value = bytes as f64;
        let all = [("TB", 1e12), ("GB", 1e9), ("MB", 1e6), ("kB", 1e3)];
        let filled = |scale: f64| format!("{:.0}", value / (scale / 1e3)).parse::<f64>().unwrap();
        let want = match all.iter().find(|(_, scale)| filled(*scale) >= 1e3) {
            Some((unit, scale)) => {
                let n = value / scale;
                let places = (0..3).rev().find(|p| {
                    format!("{n:.0$}", *p as usize).len() <= 4 - usize::from(*p == 0)
                });
                format!("{n:.0$} {unit}", places.unwrap_or(0) as usize)
            }
            None => format!("{bytes} B"),
        };
        assert_eq!(format_size(bytes), want, "{bytes}");
        bytes = bytes * 2 + bytes / 3 + 1;
    }
}

fn at(year: i32, month: u32, day: u32, hour: u32, minute: u32) -> CivilTime {
    CivilTime { year, month, day, hour, minute }
}

#[test]
fn dates_say_no_more_than_is_needed() {
    let now = at(2026, 8, 14, 9, 5);
    assert_eq!(format_relative(&at(2026, 8, 14, 7, 3), &now), "Today 07:03");
    assert_eq!(format_relative(&at(2026, 8, 13, 23, 59), &now), "13 Aug 23:59");
    assert_eq!(format_relative(&at(2026, 1, 2, 0, 0), &now), "02 Jan 00:00");
    assert_eq!(format_relative(&at(2025, 8, 14, 7, 3), &now), "14 Aug 2025");
    assert_eq!(format_relative(&at(2024, 2, 29, 7, 3), &now), "29 Feb 2024");
}

#[test]
fn every_month_has_a_name() {
    let now = at(2000, 1, 1, 0, 0);
    let all = [
        "Jan", "Feb", "Mar", "Apr", "May", "Jun", "Jul", "Aug", "Sep", "Oct", "Nov", "Dec",
    ];
    for (i, name) in all.iter().enumerate() {
        let t = at(1999, i as u32 + 1, 9, 1, 1);
        assert_eq!(format_relative(&t, &now), format!("09 {name} 1999"));
    }
}

#[test]
fn a_modification_time_is_shown_on_the_local_clock() {
    let s: i128 = 1_000_000_000;
    let now = std::time::SystemTime::now().duration_since(std::time::UNIX_EPOCH).unwrap();
    let today = format_modified(now.as_nanos() as i128);
    assert!(today.starts_with("Today "), "{today}");
    assert_eq!(today.len(), "Today 07:03".len());

    // Noon in UTC, so at most the next day on any clock in use.
    let then = format_modified(992_606_400 * s);
    assert!(then == "15 Jun 2001" || then == "16 Jun 2001", "{then}");
    // A second is counted from its start, before 1970 too.
    let before = format_modified(-86_400 * s - 1);
    assert!(before == "30 Dec 1969" || before == "31 Dec 1969", "{before}");
    let leap = format_modified(951_825_600 * s);
    assert!(leap == "29 Feb 2000" || leap == "01 Mar 2000", "{leap}");
}

#[test]
fn the_calendar_has_two_ends() {
    let s: i128 = 1_000_000_000;
    for inside in [0, -8_334_601_142_400 * s, 8_210_266_790_400 * s - 1] {
        assert!(is_on_calendar(inside), "{inside}");
    }
    for outside in [-8_334_601_142_400 * s - 1, 8_210_266_790_400 * s, i128::MIN, i128::MAX] {
        assert!(!is_on_calendar(outside), "{outside}");
    }
    assert!(format_modified(-8_334_601_142_400 * s).ends_with(" Jan -262143"));
    assert!(format_modified(8_210_266_790_400 * s - 1).ends_with(" Dec +262142"));
}

#[test]
fn years_of_any_length() {
    let now = at(2026, 8, 14, 9, 5);
    assert_eq!(format_relative(&at(7, 3, 1, 0, 0), &now), "01 Mar 0007");
    assert_eq!(format_relative(&at(12_345, 3, 1, 0, 0), &now), "01 Mar +12345");
    assert_eq!(format_relative(&at(-5, 3, 1, 0, 0), &now), "01 Mar -0005");
    assert_eq!(format_relative(&at(262_142, 12, 31, 23, 59), &now), "31 Dec +262142");
    assert_eq!(format_relative(&at(-262_143, 1, 1, 0, 0), &now), "01 Jan -262143");
}

#[test]
fn only_real_dates_are_valid() {
    assert!(at(2024, 2, 29, 23, 59).is_valid());
    assert!(at(2000, 2, 29, 0, 0).is_valid());
    assert!(at(-4, 2, 29, 0, 0).is_valid());
    assert!(!at(2023, 2, 29, 0, 0).is_valid());
    assert!(!at(1900, 2, 29, 0, 0).is_valid());
    assert!(!at(2023, 4, 31, 0, 0).is_valid());
    assert!(!at(2023, 0, 1, 0, 0).is_valid());
    assert!(!at(2023, 13, 1, 0, 0).is_valid());
    assert!(!at(2023, 1, 0, 0, 0).is_valid());
    assert!(!at(2023, 1, 1, 24, 0).is_valid());
    assert!(!at(2023, 1, 1, 0, 60).is_valid());
    assert!(!at(262_143, 1, 1, 0, 0).is_valid());
    assert!(!at(-262_144, 1, 1, 0, 0).is_valid());
}

#[test]
fn any_event_calls_for_a_rescan() {
    assert!(calls_for_rescan(Some(1)));
    assert!(calls_for_rescan(Some(40)));
    assert!(!calls_for_rescan(Some(0)));
    assert!(!calls_for_rescan(None));
}

#[test]
fn rapid_requests_are_coalesced() {
    let mut queue = ScanQueue::new();
    assert_eq!(queue.next(), None);
    for n in 0..20 {
        queue.request(format!("/videos/{n}"));
    }
    assert_eq!(queue.next().as_deref(), Some("/videos/19"));
    assert_eq!(queue.next(), None, "one request is served once");
    queue.request("/videos".to_string());
    assert_eq!(queue.next().as_deref(), Some("/videos"));
}

#[test]
fn the_newest_scan_is_served_last() {
    let mut queue = ScanQueue::new();
    let mut served: Vec<String> = Vec::new();
    for n in 0..100 {
        queue.request(n.to_string());
        if n % 7 == 3 || n % 11 == 5 {
            served.extend(queue.next());
        }
    }
    served.extend(queue.next());
    let order: Vec<u32> = served.iter().map(|n| n.parse().unwrap()).collect();
    assert!(order.windows(2).all(|w| w[0] < w[1]), "{order:?}");
    assert_eq!(order.last(), Some(&99));
}
