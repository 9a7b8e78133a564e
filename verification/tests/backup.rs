use arches::backup::{
    bucket_format, choose_backup, is_bucket_file, is_evicted_placeholder, select_bucket_entries,
    Backup, BucketFile, BucketFormat, BucketKind, Candidate, DirEntry,
};

const NEWER_DEVICE: &str = "11111111-2222-4333-8444-555555555555";

fn file(name: &str, len: u64) -> DirEntry {
    DirEntry { name: name.to_string(), is_file: true, mtime: 1_749_549_600_000, len }
}

fn backup() -> Backup {
    Backup { dir: format!("/arc/Backup/{NEWER_DEVICE}"), device_id: NEWER_DEVICE.to_string() }
}

fn names(files: Vec<BucketFile>) -> Vec<String> {
    files
        .into_iter()
        .map(|file| file.path.rsplit('/').next().unwrap().to_string())
        .collect()
}

fn candidate(session: Option<i128>, device: &str) -> Candidate {
    Candidate {
        session,
        backup: Backup {
            dir: format!("/arc/Backup/{device}"),
            device_id: device.to_string(),
        },
    }
}

#[test]
fn the_newest_session_is_chosen() {
    let candidates = [
        candidate(Some(10), "old"),
        candidate(Some(30), "new"),
        candidate(None, "unfinished"),
        candidate(Some(20), "middle"),
    ];
    assert_eq!(choose_backup(&candidates), Some(1));
    assert_eq!(choose_backup(&[]), None);
    // A dir with no session dates loses to any that has one.
    assert_eq!(choose_backup(&[candidate(None, "a"), candidate(Some(0), "b")]), Some(1));
}

#[test]
fn equal_sessions_go_to_the_smaller_device_id() {
    let candidates = [candidate(Some(5), "b"), candidate(Some(5), "a"), candidate(Some(5), "c")];
    assert_eq!(choose_backup(&candidates), Some(1));
    let undated = [candidate(None, "z"), candidate(None, "y")];
    assert_eq!(choose_backup(&undated), Some(1));
}

#[test]
fn bucket_names_are_visible_json_files() {
    assert!(is_bucket_file("2025-06.json"));
    assert!(is_bucket_file("2025-W24.json.gz"));
    assert!(!is_bucket_file(".2025-06.json.icloud"));
    assert!(!is_bucket_file(".hidden.json"));
    assert!(!is_bucket_file("notes.txt"));
    assert!(is_evicted_placeholder(".2025-06.json.icloud"));
    assert!(!is_evicted_placeholder("2025-06.json.icloud"));
}

#[test]
fn a_bucket_is_read_by_its_extension() {
    assert_eq!(bucket_format("2025-W24.json.gz"), Some(BucketFormat::Gzip));
    assert_eq!(bucket_format("2025-06.json"), Some(BucketFormat::Json));
    assert_eq!(bucket_format("metadata.txt"), None);
    assert_eq!(BucketKind::Samples.dir_name(), "samples");
    assert_eq!(BucketKind::Places.dir_name(), "places");
    assert_eq!(BucketKind::Items.dir_name(), "items");
}

#[test]
fn bucket_listings_cover_json_and_gz() {
    let backup = backup();
    let places = vec![file("A.json", 812)];
    let items = vec![file("2025-06.json", 4096)];
    let samples = vec![file("2025-W25.json", 2048), file("2025-W24.json.gz", 1024)];

    assert_eq!(names(backup.place_files(&places)), ["A.json"]);
    assert_eq!(names(backup.item_files(&items)), ["2025-06.json"]);
    assert_eq!(names(backup.sample_files(&samples)), ["2025-W24.json.gz", "2025-W25.json"]);
    assert!(backup.place_files(&places)[0].len > 0);

    let sample_files = backup.sample_files(&samples);
    assert_eq!(
        sample_files[0].path,
        format!("/arc/Backup/{NEWER_DEVICE}/samples/2025-W24.json.gz")
    );
    assert_eq!(sample_files[0].kind, BucketKind::Samples);
    assert_eq!(sample_files[0].len, 1024);
}

#[test]
fn icloud_placeholders_and_hidden_files_are_skipped() {
    let samples = vec![
        file("2025-W24.json", 2),
        file(".2025-W25.json.gz.icloud", 0),
        file(".DS_Store", 0),
        file("notes.txt", 0),
    ];
    let files = backup().sample_files(&samples);
    assert_eq!(files.len(), 1);
    assert!(files[0].path.ends_with("2025-W24.json"));
}

#[test]
fn a_directory_named_like_a_bucket_is_not_a_bucket() {
    let mut folder = file("2025-W26.json", 0);
    folder.is_file = false;
    let listing = vec![folder, file("2025-W27.json", 1)];
    let selected = select_bucket_entries(&listing);
    assert_eq!(selected.len(), 1);
    assert_eq!(selected[0].name, "2025-W27.json");
    // A backup without a directory for a kind lists nothing.
    assert!(backup().place_files(&Vec::new()).is_empty());
}
