use photors::metadata::{read_exif_text, resolve_date_from_bytes, ExifRead};
use photors::organize::{
    candidate_file_name, plan_destination, plan_preview, resolve_date, resolve_date_pub,
    unique_dest, FsOp, OrganizeOptions, OrganizeResult, Organizer, Plan, SourceFile, Step,
};
use photors::date::MediaDate;

fn parts(d: &MediaDate) -> (String, String, String, String) {
    (d.year.clone(), d.month.clone(), d.day.clone(), d.time.clone())
}

fn s(x: &str) -> String {
    x.to_string()
}

fn options(dry_run: bool, copy: bool) -> OrganizeOptions {
    OrganizeOptions {
        src: s("inbox"),
        dest: s("sorted"),
        recursive: true,
        allowed_exts: vec![s("jpg"), s("mp4")],
        dry_run,
        copy,
    }
}

#[test]
fn date_from_file_name_drops_two_extensions() {
    let d = resolve_date("inbox/PXL_20240209_174735042.TS.mp4", None).unwrap();
    assert_eq!(parts(&d), (s("2024"), s("02"), s("09"), s("174735042")));
}

#[test]
fn exif_date_comes_first() {
    let d = resolve_date("inbox/PXL_20240209_1.jpg", Some(s("2023:01:02 03:04:05"))).unwrap();
    assert_eq!(parts(&d), (s("2023"), s("01"), s("02"), s("030405")));
}

#[test]
fn unreadable_exif_date_falls_back_to_file_name() {
    let d = resolve_date_pub("inbox/IMG_20220704_0930.jpg", Some(s("not a date"))).unwrap();
    assert_eq!(parts(&d), (s("2022"), s("07"), s("04"), s("0930")));
    assert!(resolve_date("inbox/holiday.jpg", Some(s("0000:00:00 00:00:00"))).is_none());
    assert!(resolve_date("inbox/holiday.jpg", None).is_none());
}

#[test]
fn destination_with_a_date() {
    let date = resolve_date("in/PXL_20240209_1.JPG", None);
    let d = plan_destination("sorted", "in/PXL_20240209_1.JPG", date);
    assert_eq!(d.subdir, "sorted/2024/02");
    assert_eq!(d.stem, "2024.02.09_1");
    assert_eq!(d.ext, "jpg");
}

#[test]
fn destination_without_a_date() {
    let d = plan_destination("sorted/", "in/holiday.Mp4", None);
    assert_eq!(d.subdir, "sorted/unknown");
    assert_eq!(d.stem, "holiday");
    assert_eq!(d.ext, "mp4");
    let d = plan_destination("sorted", "in/README", None);
    assert_eq!(d.stem, "README");
    assert_eq!(d.ext, "");
    let d = plan_destination("sorted", "..", None);
    assert_eq!(d.stem, "unknown");
}

#[test]
fn candidate_names() {
    assert_eq!(candidate_file_name("a", "jpg", 1), "a.jpg");
    assert_eq!(candidate_file_name("a", "jpg", 2), "a_2.jpg");
    assert_eq!(candidate_file_name("a", "", 1), "a");
    assert_eq!(candidate_file_name("a", "", 13), "a_13");
}

#[test]
fn unique_destination_skips_taken_paths() {
    let taken = vec![s("d/a.jpg"), s("d/a_2.jpg")];
    let r = unique_dest("d", "a", "jpg", |p: &str| taken.iter().any(|t| t == p));
    assert_eq!(r.as_deref(), Some("d/a_3.jpg"));
    let r = unique_dest("d", "a", "jpg", |_p: &str| false);
    assert_eq!(r.as_deref(), Some("d/a.jpg"));
    let r = unique_dest("d/", "a", "", |p: &str| p == "d/a");
    assert_eq!(r.as_deref(), Some("d/a_2"));
}

fn source(path: &str, hash: Option<&str>) -> SourceFile {
    SourceFile { path: s(path), hash: hash.map(s), date: resolve_date(path, None) }
}

#[test]
fn preview_is_the_dry_run() {
    let files = vec![
        source("in/VID_20230101T235959.mov", Some("h1")),
        source("in/IMG.JPG", Some("h2")),
        source("in/copy_of_IMG.JPG", Some("h2")),
        source("in/old.jpg", Some("h3")),
        source("in/IMG.jpg", None),
    ];
    let existing = vec![(s("h3"), s("out/2020/01/old.jpg"))];
    let taken = vec![s("sorted/unknown/IMG.jpg")];
    let moves = plan_preview(options(false, false), existing, &files, |p: &str| {
        taken.iter().any(|t| t == p)
    })
    .unwrap();
    let pairs: Vec<(&str, &str)> = moves.iter().map(|m| (m.src.as_str(), m.dest.as_str())).collect();
    assert_eq!(
        pairs,
        vec![
            ("in/VID_20230101T235959.mov", "sorted/2023/01/2023.01.01_235959.mov"),
            ("in/IMG.JPG", "sorted/unknown/IMG_2.jpg"),
            ("in/IMG.jpg", "sorted/unknown/IMG_2.jpg"),
        ]
    );
}

#[test]
fn planning_one_file() {
    let mut o = Organizer::new(options(false, false));
    o.remember_existing(s("h1"), s("sorted/x.jpg"));
    let date = resolve_date("in/PXL_20240209_1.jpg", None);
    let plan = o.plan_file("in/PXL_20240209_1.jpg", Some(s("h2")), date, |p: &str| {
        p == "sorted/2024/02/2024.02.09_1.jpg"
    });
    assert_eq!(
        plan,
        Plan::Move { subdir: s("sorted/2024/02"), dest: s("sorted/2024/02/2024.02.09_1_2.jpg") }
    );
    assert_eq!(
        o.plan_file("in/b.jpg", Some(s("h1")), None, |_p: &str| false),
        Plan::Skip(s("sorted/x.jpg"))
    );
}

#[test]
fn exif_of_other_bytes() {
    match read_exif_text(b"not an image") {
        ExifRead::Failed(m) => assert_eq!(m, "Unknown image format"),
        other => panic!("expected a failure, got {other:?}"),
    }
    let d = resolve_date_from_bytes("in/IMG_20220704_0930.jpg", b"not an image").unwrap();
    assert_eq!(parts(&d), (s("2022"), s("07"), s("04"), s("0930")));
    assert!(resolve_date_from_bytes("in/holiday.jpg", b"").is_none());
}

#[test]
fn sources_with_seen_content_are_skipped() {
    let mut o = Organizer::new(options(false, false));
    o.remember_existing(s("h1"), s("sorted/2024/02/x.jpg"));
    assert_eq!(o.check_source("inbox/a.jpg", Some(s("h1"))).as_deref(), Some("sorted/2024/02/x.jpg"));
    assert_eq!(o.result, OrganizeResult { moved: 0, skipped: 1, errors: 0 });
    // New content waits to be recorded until the file is moved ...
    assert_eq!(o.check_source("inbox/b.jpg", Some(s("h2"))), None);
    assert_eq!(o.find_seen(&s("h2")), None);
    o.start_transfer();
    o.transfer_step(FsOp::CreateDir, true);
    o.transfer_step(FsOp::Rename, true);
    assert_eq!(o.find_seen(&s("h2")).as_deref(), Some("inbox/b.jpg"));
    // ... so a later source with the same content is skipped.
    assert_eq!(o.check_source("inbox/c.jpg", Some(s("h2"))).as_deref(), Some("inbox/b.jpg"));
    // A source that could not be hashed goes ahead and is never recorded.
    assert_eq!(o.check_source("inbox/d.jpg", None), None);
    o.transfer_step(FsOp::Rename, true);
    assert_eq!(o.result.skipped, 2);
    assert_eq!(o.seen.len(), 2);
}

#[test]
fn a_failed_move_records_nothing() {
    let mut o = Organizer::new(options(false, true));
    assert_eq!(o.check_source("inbox/a.jpg", Some(s("h"))), None);
    o.start_transfer();
    assert_eq!(o.transfer_step(FsOp::CreateDir, false), Step::Failed);
    // The same content in a later file is not skipped.
    assert_eq!(o.check_source("inbox/b.jpg", Some(s("h"))), None);
    assert_eq!(o.transfer_step(FsOp::CreateDir, true), Step::Do(FsOp::Copy));
    assert_eq!(o.transfer_step(FsOp::Copy, true), Step::Moved);
    assert_eq!(o.find_seen(&s("h")).as_deref(), Some("inbox/b.jpg"));
    assert_eq!(o.result, OrganizeResult { moved: 1, skipped: 0, errors: 1 });
}

#[test]
fn dry_run_records_at_once() {
    let mut o = Organizer::new(options(true, false));
    o.check_source("inbox/a.jpg", Some(s("h")));
    assert_eq!(o.start_transfer(), Step::Moved);
    assert_eq!(o.check_source("inbox/b.jpg", Some(s("h"))).as_deref(), Some("inbox/a.jpg"));
}

#[test]
fn later_record_wins() {
    let mut o = Organizer::new(options(false, false));
    o.remember_existing(s("h"), s("first"));
    o.remember_existing(s("h"), s("second"));
    assert_eq!(o.find_seen(&s("h")).as_deref(), Some("second"));
    assert_eq!(o.find_seen(&s("other")), None);
}

#[test]
fn dry_run_counts_at_once() {
    let mut o = Organizer::new(options(true, false));
    assert_eq!(o.start_transfer(), Step::Moved);
    assert_eq!(o.result, OrganizeResult { moved: 1, skipped: 0, errors: 0 });
}

#[test]
fn move_falls_back_to_copy_and_remove() {
    let mut o = Organizer::new(options(false, false));
    assert_eq!(o.start_transfer(), Step::Do(FsOp::CreateDir));
    assert_eq!(o.transfer_step(FsOp::CreateDir, true), Step::Do(FsOp::Rename));
    assert_eq!(o.transfer_step(FsOp::Rename, false), Step::Do(FsOp::Copy));
    assert_eq!(o.transfer_step(FsOp::Copy, true), Step::Do(FsOp::RemoveSource));
    assert_eq!(o.transfer_step(FsOp::RemoveSource, true), Step::Moved);
    assert_eq!(o.result, OrganizeResult { moved: 1, skipped: 0, errors: 0 });
    assert_eq!(o.transfer_step(FsOp::Rename, true), Step::Moved);
    assert_eq!(o.transfer_step(FsOp::RemoveSource, false), Step::Failed);
    assert_eq!(o.result, OrganizeResult { moved: 2, skipped: 0, errors: 1 });
}

#[test]
fn copy_mode_never_touches_the_source() {
    let mut o = Organizer::new(options(false, true));
    assert_eq!(o.transfer_step(FsOp::CreateDir, true), Step::Do(FsOp::Copy));
    assert_eq!(o.transfer_step(FsOp::Copy, true), Step::Moved);
    assert_eq!(o.transfer_step(FsOp::Copy, false), Step::Failed);
    assert_eq!(o.transfer_step(FsOp::CreateDir, false), Step::Failed);
    assert_eq!(o.result, OrganizeResult { moved: 1, skipped: 0, errors: 2 });
}

#[test]
fn second_run_moves_nothing() {
    let files = vec![source("in/a.jpg", Some("h1")), source("in/b.jpg", Some("h2"))];
    let existing = vec![(s("h1"), s("sorted/unknown/a.jpg")), (s("h2"), s("sorted/unknown/b.jpg"))];
    let moves = plan_preview(options(false, false), existing, &files, |_p: &str| false).unwrap();
    assert!(moves.is_empty());
}
