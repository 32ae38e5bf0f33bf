use raid_rs::checksum_fs::{ChecksumFs, Node};

#[test]
fn writes_and_reads_file_with_checksum() {
    let mut fs = ChecksumFs::new();
    fs.mkdir_all("/data").unwrap();

    let payload = b"hello, checksum";
    let meta = fs.write_file("/data/file.txt", payload).unwrap();

    assert_eq!(meta.size, payload.len() as u64);
    assert!(fs.verify("/data/file.txt").unwrap());

    let stored = fs.read_file("/data/file.txt").unwrap();
    assert_eq!(stored, payload);
}

#[test]
fn checksum_is_a_digest_not_the_content() {
    let mut fs = ChecksumFs::new();
    let payload = [7u8; 32];
    let meta = fs.write_file("/blob", &payload).unwrap();
    assert_ne!(meta.checksum, payload);

    let other = fs.write_file("/blob2", b"something else").unwrap();
    assert_ne!(meta.checksum, other.checksum);
}

#[test]
fn detects_corruption_on_verification() {
    let mut fs = ChecksumFs::new();
    fs.write_file("file.bin", b"abcdef").unwrap();

    for entry in fs.root.entries.iter_mut() {
        if entry.0 == "file.bin" {
            if let Node::File(file) = &mut entry.1 {
                file.data[0] = 0u8;
            }
        }
    }

    assert!(!fs.verify("file.bin").unwrap());
}

#[test]
fn lists_directory_entries_with_metadata() {
    let mut fs = ChecksumFs::new();
    fs.mkdir_all("/nested/dir").unwrap();
    fs.write_file("/nested/dir/note.md", b"notes").unwrap();
    fs.write_file("/nested/dir/data.bin", b"123").unwrap();

    let entries = fs.list_dir("/nested/dir").unwrap();

    assert_eq!(entries.len(), 2);
    let mut names: Vec<_> = entries.iter().map(|e| e.name.as_str()).collect();
    names.sort();
    assert_eq!(names, vec!["data.bin", "note.md"]);

    let note = entries.iter().find(|e| e.name == "note.md").unwrap();
    assert!(!note.is_dir);
    assert_eq!(note.metadata.as_ref().unwrap().size, 5);
}

#[test]
fn reports_metadata_for_root_and_files() {
    let mut fs = ChecksumFs::new();
    fs.mkdir_all("/logs").unwrap();
    let payload = b"line";
    let meta = fs.write_file("/logs/output.txt", payload).unwrap();

    let root_meta = fs.metadata("").unwrap();
    assert!(root_meta.is_dir);
    assert_eq!(root_meta.metadata, None);

    let file_meta = fs.metadata("/logs/output.txt").unwrap();
    assert!(!file_meta.is_dir);
    assert_eq!(file_meta.metadata.unwrap(), meta);
}

#[test]
fn reports_metadata_for_directories() {
    let mut fs = ChecksumFs::new();
    fs.mkdir_all("/logs/archive").unwrap();

    let dir_meta = fs.metadata("/logs");

    let meta = dir_meta.expect("metadata should exist");
    assert_eq!(meta.name, "logs");
    assert!(meta.is_dir);
    assert!(meta.metadata.is_none());
}

#[test]
fn errors_when_paths_point_to_directories() {
    let mut fs = ChecksumFs::new();
    fs.mkdir_all("/configs/env")
        .expect("mkdir_all should create nested directories");
    fs.write_file("/configs/env/app", b"APP=1")
        .expect("write_file should store file");

    let read_err = fs.read_file("/configs/env");
    assert!(read_err.unwrap_err().message().contains("is a directory"));

    let verify_err = fs.verify("/configs/env");
    assert!(verify_err.unwrap_err().message().contains("is a directory"));
}

#[test]
fn rejects_paths_with_parent_components() {
    let mut fs = ChecksumFs::new();
    let result = fs.write_file("../escape", b"nope");
    assert!(result
        .unwrap_err()
        .message()
        .contains("parent directory references are not supported"));
}

#[test]
fn errors_when_listing_missing_directory() {
    let fs = ChecksumFs::new();

    let err = fs.list_dir("/missing");

    assert!(err.unwrap_err().message().contains("missing directory missing"));
}

#[test]
fn mkdir_all_rejects_when_path_conflicts_with_file() {
    let mut fs = ChecksumFs::new();
    fs.write_file("/conflict", b"file").unwrap();

    let err = fs.mkdir_all("/conflict/dir");

    assert!(err.unwrap_err().message().contains("is a file"));
}

#[test]
fn read_fails_when_file_missing() {
    let fs = ChecksumFs::new();

    let err = fs.read_file("/nope.bin");

    assert!(err.unwrap_err().message().contains("nope.bin not found"));
}

#[test]
fn write_rejects_empty_paths() {
    let err = ChecksumFs::new().write_file("", b"data");

    assert!(err.unwrap_err().message().contains("path is empty"));
}

#[test]
fn read_fails_when_parent_directory_missing() {
    let fs = ChecksumFs::new();

    let err = fs.read_file("/missing/path.txt");

    assert!(err.unwrap_err().message().contains("missing directory missing"));
}

#[test]
fn list_dir_fails_when_path_points_to_file() {
    let mut fs = ChecksumFs::new();
    fs.write_file("/data.bin", b"123").unwrap();

    let err = fs.list_dir("/data.bin");

    assert!(err.unwrap_err().message().contains("data.bin is a file"));
}

#[test]
fn lists_directory_entries_including_directories() {
    let mut fs = ChecksumFs::new();
    fs.mkdir_all("/data/bin").unwrap();
    fs.write_file("/data/info.txt", b"info").unwrap();

    let mut entries = fs.list_dir("/data").unwrap();
    entries.sort_by(|a, b| a.name.cmp(&b.name));

    assert_eq!(entries.len(), 2);

    let dir_entry = entries.iter().find(|e| e.name == "bin").unwrap();
    assert!(dir_entry.is_dir);
    assert!(dir_entry.metadata.is_none());

    let file_entry = entries.iter().find(|e| e.name == "info.txt").unwrap();
    assert!(!file_entry.is_dir);
    assert_eq!(file_entry.metadata.as_ref().unwrap().size, 4);
}
