use file_organizer::folders::PathFolders;
use file_organizer::folders::ScanFile;
use file_organizer::folders::classify_files;
use file_organizer::paths::file_name_of;
use file_organizer::paths::join;
use file_organizer::plan::CreateOutcome;
use file_organizer::plan::MoveOutcome;
use file_organizer::plan::MoveStep;
use file_organizer::plan::build_plan;
use file_organizer::plan::move_report;
use file_organizer::plan::proceed_after_create;

fn png_bytes() -> Vec<u8> {
    vec![0x89, 0x50, 0x4E, 0x47, 0x0D, 0x0A, 0x1A, 0x0A, 0x00, 0x00]
}

fn scan(path: &str, bytes: Option<Vec<u8>>) -> ScanFile {
    ScanFile { path: path.to_string(), bytes }
}

fn empty_folders() -> PathFolders {
    PathFolders {
        video: Vec::new(),
        image: Vec::new(),
        audio: Vec::new(),
        document: Vec::new(),
        compressed: Vec::new(),
        book: Vec::new(),
        font: Vec::new(),
        pdf: Vec::new(),
        other: Vec::new(),
    }
}

#[test]
fn classification_buckets_partition_readable_files() {
    let files = vec![
        scan("root/a.png", Some(png_bytes())),
        scan("root/b.bin", Some(b"nothing recognizable".to_vec())),
        scan("root/c.dat", None),
        scan("root/d.pdf", Some(b"%PDF-1.4".to_vec())),
    ];
    let folders = classify_files(&files);
    assert_eq!(folders.image, vec!["root/a.png".to_string()]);
    assert_eq!(folders.other, vec!["root/b.bin".to_string()]);
    assert_eq!(folders.pdf, vec!["root/d.pdf".to_string()]);
    let total = folders.video.len() + folders.image.len() + folders.audio.len()
        + folders.document.len() + folders.compressed.len() + folders.book.len()
        + folders.font.len() + folders.pdf.len() + folders.other.len();
    assert_eq!(total, 3);
}

#[test]
fn unreadable_file_is_in_no_bucket() {
    let files = vec![scan("root/c.dat", None)];
    let folders = classify_files(&files);
    let total = folders.video.len() + folders.image.len() + folders.audio.len()
        + folders.document.len() + folders.compressed.len() + folders.book.len()
        + folders.font.len() + folders.pdf.len() + folders.other.len();
    assert_eq!(total, 0);
}

#[test]
fn buckets_keep_encounter_order() {
    let files = vec![
        scan("root/z.png", Some(png_bytes())),
        scan("root/a.png", Some(png_bytes())),
    ];
    let folders = classify_files(&files);
    assert_eq!(folders.image, vec!["root/z.png".to_string(), "root/a.png".to_string()]);
}

#[test]
fn iteration_order_is_fixed() {
    let it = empty_folders().into_iteratable();
    let names: Vec<String> = it.iter().map(|p| p.0.clone()).collect();
    let expected = vec![
        "video".to_string(),
        "image".to_string(),
        "other".to_string(),
        "pdf".to_string(),
        "font".to_string(),
        "book".to_string(),
        "compressed".to_string(),
        "document".to_string(),
        "audio".to_string(),
    ];
    assert_eq!(names, expected);
}

#[test]
fn base_name_of_nested_path() {
    assert_eq!(file_name_of("root/sub/x.txt"), "x.txt");
}

#[test]
fn base_name_of_bare_name() {
    assert_eq!(file_name_of("plain"), "plain");
}

#[test]
fn join_inserts_one_separator() {
    assert_eq!(join("root", "video"), "root/video");
}

#[test]
fn plan_realizes_each_category_under_the_root() {
    let mut folders = empty_folders();
    folders.video.push("root/a.avi".to_string());
    folders.pdf.push("root/d.pdf".to_string());
    let plan = build_plan("root", folders);
    assert_eq!(plan.len(), 9);
    assert_eq!(plan[0].name, "video");
    assert_eq!(plan[0].dir, "root/video");
    assert_eq!(plan[0].moves.len(), 1);
    assert_eq!(plan[0].moves[0].from, "root/a.avi");
    assert_eq!(plan[0].moves[0].to, "root/video/a.avi");
    assert_eq!(plan[3].name, "pdf");
    assert_eq!(plan[3].moves[0].to, "root/pdf/d.pdf");
    assert_eq!(plan[1].moves.len(), 0);
}

#[test]
fn existing_directory_does_not_abort_the_category() {
    assert!(proceed_after_create(CreateOutcome::Created));
    assert!(proceed_after_create(CreateOutcome::AlreadyExists));
    assert!(!proceed_after_create(CreateOutcome::Failed));
}

#[test]
fn one_failed_move_leaves_its_siblings_moved() {
    let moves = vec![
        MoveStep { from: "root/f1".to_string(), to: "root/video/f1".to_string() },
        MoveStep { from: "root/f2".to_string(), to: "root/video/f2".to_string() },
        MoveStep { from: "root/f3".to_string(), to: "root/video/f3".to_string() },
    ];
    let results = vec![MoveOutcome::Moved, MoveOutcome::MoveFailed, MoveOutcome::Moved];
    let report = move_report(&moves, &results);
    assert_eq!(report.moved, vec!["root/f1".to_string(), "root/f3".to_string()]);
    assert_eq!(report.failed, vec!["root/f2".to_string()]);
}

#[test]
fn only_scanned_regular_files_are_ever_classified() {
    let folders = classify_files(&Vec::new());
    let it = folders.into_iteratable();
    for (_, bucket) in &it {
        assert_eq!(bucket.len(), 0);
    }
}

#[test]
fn second_scan_of_a_tidied_root_plans_no_moves() {
    // After a full run the root holds only the category directories, so
    // the next scan hands the classifier no regular files at all.
    let folders = classify_files(&Vec::new());
    let plan = build_plan("root", folders);
    assert_eq!(plan.len(), 9);
    for category in &plan {
        assert_eq!(category.moves.len(), 0);
    }
}
