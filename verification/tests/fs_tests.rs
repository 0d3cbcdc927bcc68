use sillos::fs::tempfs::TmpFs;
use sillos::fs::{Entry, FileSystem, FsError};

// Each test works on a file system of its own.
fn new_fs() -> TmpFs {
    TmpFs::new()
}

#[test]
fn test_touch_creates_root_file() {
    let mut fs = new_fs();
    assert!(fs.touch("/test_touch_root.txt").is_ok(), "touch on root failed unexpectedly");
    match fs.read("/test_touch_root.txt") {
        Ok(data) => assert!(data.is_empty(), "new file was not empty"),
        Err(_) => panic!("could not read freshly touched file"),
    }
}

#[test]
fn test_touch_missing_parent_fails() {
    let mut fs = new_fs();
    match fs.touch("/test_touch_missing_parent/file.txt") {
        Err(FsError::NotFound) => {}
        Err(_) => panic!("wrong error kind for missing parent"),
        Ok(_) => panic!("touch succeeded with missing parent"),
    }
}

#[test]
fn test_touch_on_directory_fails() {
    let mut fs = new_fs();
    assert!(fs.mkdir("/test_touch_on_dir").is_ok(), "setup mkdir failed");
    assert!(
        matches!(fs.touch("/test_touch_on_dir"), Err(FsError::IsADirectory)),
        "touch on a directory did not fail as IsADirectory"
    );
}

#[test]
fn test_mkdir_creates_dir() {
    let mut fs = new_fs();
    assert!(fs.mkdir("/test_mkdir_new").is_ok(), "mkdir failed unexpectedly");
    match fs.list_entries("/") {
        Ok(entries) => {
            let found = entries
                .iter()
                .any(|e| matches!(e, Entry::Dir(name) if name == "test_mkdir_new"));
            assert!(found, "new directory not visible in parent listing");
        }
        Err(_) => panic!("could not list root"),
    }
}

#[test]
fn test_mkdir_duplicate_fails() {
    let mut fs = new_fs();
    assert!(fs.mkdir("/test_mkdir_dup").is_ok(), "setup mkdir failed");
    assert!(
        matches!(fs.mkdir("/test_mkdir_dup"), Err(FsError::AlreadyExists)),
        "duplicate mkdir did not fail as AlreadyExists"
    );
}

#[test]
fn test_mkdir_missing_parent_fails() {
    let mut fs = new_fs();
    assert!(
        matches!(fs.mkdir("/test_mkdir_missing_parent/child"), Err(FsError::NotFound)),
        "mkdir with missing parent did not fail as NotFound"
    );
}

#[test]
fn test_ls_lists_files_and_dirs() {
    let mut fs = new_fs();
    let setup_failed = fs.mkdir("/test_ls_dir").is_err()
        || fs.touch("/test_ls_dir/a.txt").is_err()
        || fs.touch("/test_ls_dir/b.txt").is_err()
        || fs.mkdir("/test_ls_dir/sub").is_err();
    assert!(!setup_failed, "setup for ls test failed");
    match fs.list("/test_ls_dir") {
        Ok(mut names) => {
            names.sort();
            assert!(names == ["a.txt", "b.txt", "sub/"], "ls did not return expected entries");
        }
        Err(_) => panic!("ls on valid directory failed"),
    }
}

#[test]
fn test_ls_missing_dir_fails() {
    let fs = new_fs();
    assert!(
        matches!(fs.list("/test_ls_does_not_exist"), Err(FsError::NotFound)),
        "ls on missing directory did not fail as NotFound"
    );
}

#[test]
fn test_write_read_roundtrip() {
    let mut fs = new_fs();
    let data = b"hello from sillos";
    assert!(fs.write("/test_write_read.txt", data).is_ok(), "write failed unexpectedly");
    match fs.read("/test_write_read.txt") {
        Ok(bytes) => assert!(bytes == data, "read data did not match written data"),
        Err(_) => panic!("read failed after successful write"),
    }
}

#[test]
fn test_write_on_directory_fails() {
    let mut fs = new_fs();
    assert!(fs.mkdir("/test_write_on_dir").is_ok(), "setup mkdir failed");
    assert!(
        matches!(fs.write("/test_write_on_dir", b"nope"), Err(FsError::IsADirectory)),
        "write on a directory did not fail as IsADirectory"
    );
}

#[test]
fn test_remove_file() {
    let mut fs = new_fs();
    assert!(fs.write("/test_remove.txt", b"bye").is_ok(), "setup write failed");
    assert!(fs.remove("/test_remove.txt").is_ok(), "remove failed unexpectedly");
    assert!(
        matches!(fs.read("/test_remove.txt"), Err(FsError::NotFound)),
        "file still readable after remove"
    );
}

#[test]
fn test_remove_missing_file_fails() {
    let mut fs = new_fs();
    assert!(
        matches!(fs.remove("/test_remove_missing.txt"), Err(FsError::NotFound)),
        "removing a missing file did not fail as NotFound"
    );
}

#[test]
fn test_read_missing_file_fails() {
    let fs = new_fs();
    assert!(
        matches!(fs.read("/test_read_missing.txt"), Err(FsError::NotFound)),
        "reading a missing file did not fail as NotFound"
    );
}
