use file_system_manipulation::file_system::dir::Dir;
use file_system_manipulation::file_system::file::{
    classify, timestamp_to_u64, CustomError, File, FileType,
};
use file_system_manipulation::file_system::FileSystem;

fn make_file(name: &str, content: &[u8], time: u64, text: bool) -> File {
    let mut f = File::default();
    f.set_name(name.to_string());
    f.set_content(content.to_vec());
    f.set_creation_time(time);
    f.set_type_(if text { FileType::Text } else { FileType::Binary });
    f
}

#[test]
fn create_file_then_get_round_trip() {
    let mut root = Dir::new_from_dir("root", 1);
    let template = make_file("template.txt", b"hello", 100, true);
    assert!(root.new_file("root/a.txt", &template).is_ok());
    let found = root.get_file("root/a.txt").expect("file should be found");
    assert_eq!(found.get_name(), "root/a.txt");
    assert_eq!(found.get_content().as_slice(), b"hello");
    assert_eq!(found.get_creation_time(), 100);
    assert_eq!(*found.get_filetype(), FileType::Text);
}

#[test]
fn create_file_again_fails() {
    let mut root = Dir::new_from_dir("root", 1);
    let template = make_file("t", b"x", 5, false);
    assert!(root.new_file("root/a", &template).is_ok());
    let again = root.new_file("root/a", &template);
    assert!(matches!(again, Err(CustomError::DirOrFileAlreadyExists)));
}

#[test]
fn mk_dir_then_found_by_later_operations() {
    let mut root = Dir::new_from_dir("root", 1);
    assert!(root.mk_dir("root/docs", 2).is_ok());
    // the new directory resolves as a parent for a file created below it
    let template = make_file("t", b"abc", 3, true);
    assert!(root.new_file("root/docs/a.txt", &template).is_ok());
    let found = root.get_file("root/docs/a.txt").expect("nested file found");
    assert_eq!(found.get_name(), "root/docs/a.txt");
}

#[test]
fn mk_dir_again_fails() {
    let mut root = Dir::new_from_dir("root", 1);
    assert!(root.mk_dir("root/docs", 2).is_ok());
    let again = root.mk_dir("root/docs", 7);
    assert!(matches!(again, Err(CustomError::DirOrFileAlreadyExists)));
}

#[test]
fn rm_dir_nonempty_fails_then_succeeds_when_emptied() {
    let mut root = Dir::new_from_dir("root", 1);
    assert!(root.mk_dir("root/docs", 2).is_ok());
    assert!(root.mk_dir("root/docs/sub", 3).is_ok());
    let refused = root.rm_dir("root/docs");
    assert!(matches!(refused, Err(CustomError::FileOrDirNameNotFound)));
    assert!(root.rm_dir("root/docs/sub").is_ok());
    assert!(root.rm_dir("root/docs").is_ok());
}

#[test]
fn rm_dir_of_missing_name_fails() {
    let mut root = Dir::new_from_dir("root", 1);
    assert!(root.mk_dir("root/docs", 2).is_ok());
    let r = root.rm_dir("root/other");
    assert!(matches!(r, Err(CustomError::FileOrDirNameNotFound)));
}

#[test]
fn rm_file_on_empty_directory_fails() {
    // at the file-system level an empty root refuses outright
    let mut fs = FileSystem::new();
    let r = fs.rm_file("root/a.txt");
    assert!(matches!(r, Err(CustomError::FileOrDirNameNotFound)));
    // a childless directory that owns the parent path reports FileNotFound
    let mut root = Dir::new_from_dir("root", 1);
    let r2 = root.rm_file("root/a.txt");
    assert!(matches!(r2, Err(CustomError::FileNotFound)));
}

#[test]
fn rm_file_removes_and_misses() {
    let mut root = Dir::new_from_dir("root", 1);
    let template = make_file("t", b"x", 5, true);
    assert!(root.new_file("root/a.txt", &template).is_ok());
    let miss = root.rm_file("root/b.txt");
    assert!(matches!(miss, Err(CustomError::FileOrDirNameNotFound)));
    assert!(root.rm_file("root/a.txt").is_ok());
    assert!(root.get_file("root/a.txt").is_none());
}

#[test]
fn file_system_facade_delegates() {
    let mut root = Dir::new_from_dir("root", 1);
    root.mk_dir("root/docs", 2).unwrap();
    let mut fs = FileSystem::from_dir(root);
    let template = make_file("t", b"data", 9, false);
    assert!(fs.new_file("root/docs/a.bin", template).is_ok());
    let found = fs.get_file("root/docs/a.bin").expect("found through facade");
    assert_eq!(found.get_creation_time(), 9);
    assert_eq!(*found.get_filetype(), FileType::Binary);
    assert!(fs.rm_file("root/docs/a.bin").is_ok());
    assert!(fs.get_file("root/docs/a.bin").is_none());
    assert!(fs.rm_dir("root/docs").is_ok());
}

#[test]
fn empty_root_is_replaced_by_mk_dir() {
    let mut fs = FileSystem::new();
    assert!(fs.mk_dir("top").is_ok());
    assert_eq!(fs.get_root().get_name(), "top");
    assert!(fs.get_root().is_empty());
}

#[test]
fn get_file_on_empty_file_system_is_none() {
    let mut fs = FileSystem::new();
    assert!(fs.get_file("root/a.txt").is_none());
}

#[test]
fn get_file_hands_out_a_mutable_handle() {
    let mut root = Dir::new_from_dir("root", 1);
    let template = make_file("t", b"old", 5, true);
    root.new_file("root/a.txt", &template).unwrap();
    {
        let handle = root.get_file("root/a.txt").expect("file found");
        handle.set_content(b"new".to_vec());
        handle.set_creation_time(6);
    }
    let seen = root.get_file("root/a.txt").expect("file still there");
    assert_eq!(seen.get_content().as_slice(), b"new");
    assert_eq!(seen.get_creation_time(), 6);
}

#[test]
fn deep_resolution_reaches_the_right_directory() {
    let mut root = Dir::new_from_dir("r", 1);
    root.mk_dir("r/a", 2).unwrap();
    root.mk_dir("r/a/b", 3).unwrap();
    root.mk_dir("r/a/b/c", 4).unwrap();
    let template = make_file("t", b"deep", 5, true);
    assert!(root.new_file("r/a/b/c/f.txt", &template).is_ok());
    let found = root.get_file("r/a/b/c/f.txt").expect("deep file found");
    assert_eq!(found.get_content().as_slice(), b"deep");
}

#[test]
fn classification_follows_the_extension() {
    assert_eq!(classify("dir/notes.txt"), FileType::Text);
    assert_eq!(classify("dir/readme.md"), FileType::Text);
    assert_eq!(classify("a/b/site.html"), FileType::Text);
    assert_eq!(classify("conf.yml"), FileType::Text);
    assert_eq!(classify("image.png"), FileType::Binary);
    assert_eq!(classify("archive.tar.gz"), FileType::Binary);
    assert_eq!(classify("noextension"), FileType::Binary);
    assert_eq!(classify("dir/.gitignore"), FileType::Binary);
    assert_eq!(classify("trailing."), FileType::Binary);
    assert_eq!(classify(""), FileType::Binary);
    assert_eq!(FileType::default(), FileType::Text);
}

#[test]
fn template_kind_is_copied_not_recomputed() {
    // the copy keeps the template's classification even though the new
    // name's extension would classify differently
    let mut root = Dir::new_from_dir("root", 1);
    let template = make_file("t.bin", b"x", 5, false);
    assert!(root.new_file("root/a.txt", &template).is_ok());
    let found = root.get_file("root/a.txt").unwrap();
    assert_eq!(*found.get_filetype(), FileType::Binary);
}

#[test]
fn file_setters_and_getters() {
    let mut f = File::default();
    assert_eq!(f.get_name(), "");
    assert_eq!(f.get_content().len(), 0);
    assert_eq!(f.get_creation_time(), 0);
    assert_eq!(*f.get_filetype(), FileType::Text);
    f.set_name("x/y.bin".to_string());
    f.set_content(vec![1, 2, 3]);
    f.set_creation_time(77);
    f.set_type_(FileType::Binary);
    assert_eq!(f.get_name(), "x/y.bin");
    assert_eq!(f.get_content().as_slice(), &[1, 2, 3]);
    assert_eq!(f.get_creation_time(), 77);
    assert_eq!(*f.get_filetype(), FileType::Binary);
}

#[test]
fn new_from_file_copies_everything_but_the_name() {
    let template = make_file("old/name.txt", b"body", 42, true);
    let copy = File::new_from_file("new/name.bin", &template);
    assert_eq!(copy.get_name(), "new/name.bin");
    assert_eq!(copy.get_content().as_slice(), b"body");
    assert_eq!(copy.get_creation_time(), 42);
    assert_eq!(*copy.get_filetype(), FileType::Text);
}

#[test]
fn timestamp_counts_seconds_since_the_epoch() {
    let five = std::time::UNIX_EPOCH + std::time::Duration::from_secs(5);
    assert_eq!(timestamp_to_u64(five).unwrap(), 5);
    let before = std::time::UNIX_EPOCH - std::time::Duration::from_secs(1);
    assert!(timestamp_to_u64(before).is_err());
}
