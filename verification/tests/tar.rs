use toast::cache::{combine, CryptoHash};
use toast::strmap::StringMap;
use toast::failure::Failure;
use toast::tar::{
    admission, ancestors, can_add_path, combine_contents, directory_hash, entry_hash, file_hash,
    file_mode, is_executable_mode, path_excluded, strip_root_rcr, symlink_hash, EntryKind,
};

#[test]
fn strip_root() {
    assert_eq!(strip_root_rcr("/scratch/foo.txt"), "scratch/foo.txt");
    assert_eq!(strip_root_rcr("/"), "");
}

#[test]
fn exclusion_by_components() {
    let excluded = vec!["scratch/target".to_owned()];
    assert!(path_excluded(&excluded, "scratch/target"));
    assert!(path_excluded(&excluded, "scratch/target/debug/x"));
    assert!(!path_excluded(&excluded, "scratch/targets"));
    assert!(!path_excluded(&excluded, "scratch"));
    assert!(!path_excluded(&vec![], "scratch"));
}

#[test]
fn paths_added_once() {
    let mut visited = StringMap::new();
    visited.insert(String::new(), ());
    let excluded = vec!["scratch/skip".to_owned()];
    assert!(can_add_path(&mut visited, &excluded, "scratch/a"));
    assert!(!can_add_path(&mut visited, &excluded, "scratch/a"));
    assert!(!can_add_path(&mut visited, &excluded, "scratch/skip/b"));
    assert!(!can_add_path(&mut visited, &excluded, ""));
    assert!(visited.contains_key("scratch/skip/b"));
}

#[test]
fn ancestor_directories() {
    assert_eq!(ancestors("scratch/a/b.txt"), vec!["scratch/a", "scratch", ""]);
    assert_eq!(ancestors("top"), vec![""]);
    assert_eq!(ancestors(""), Vec::<String>::new());
}

#[test]
fn executable_bits() {
    assert!(is_executable_mode(0o755));
    assert!(is_executable_mode(0o601));
    assert!(!is_executable_mode(0o644));
    assert_eq!(file_mode(true), 0o777);
    assert_eq!(file_mode(false), 0o666);
}

#[test]
fn entry_hashes() {
    let h = file_hash("scratch/a", "abc", true);
    assert_eq!(h, combine(&combine(&"scratch/a".crypto_hash(), "abc"), "+x"));
    assert_ne!(h, file_hash("scratch/a", "abc", false));
    assert_eq!(symlink_hash("scratch/l", "target"), combine("scratch/l", "target"));
    assert_eq!(directory_hash("scratch"), "scratch".crypto_hash());
}

#[test]
fn contents_hash_ignores_order() {
    let a = vec!["b".to_owned(), "a".to_owned(), "c".to_owned()];
    let b = vec!["c".to_owned(), "b".to_owned(), "a".to_owned()];
    let h = combine_contents(a);
    assert_eq!(h, combine_contents(b));
    let expected = combine(&combine(&combine("", "a"), "b"), "c");
    assert_eq!(h, expected);
    assert_eq!(combine_contents(vec![]), "");
}

#[test]
fn admission_of_paths() {
    let mut visited = StringMap::new();
    visited.insert(String::new(), ());
    visited.insert("scratch".to_owned(), ());
    let excluded = vec!["scratch/skip".to_owned()];
    assert_eq!(
        admission(&mut visited, &excluded, "scratch/a/b/c.txt"),
        Some(vec!["scratch/a/b".to_owned(), "scratch/a".to_owned()])
    );
    assert_eq!(admission(&mut visited, &excluded, "scratch/a/b/c.txt"), None);
    assert_eq!(admission(&mut visited, &excluded, "scratch/a/d.txt"), Some(vec![]));
    assert_eq!(admission(&mut visited, &excluded, "scratch/skip/x"), None);
    assert_eq!(
        admission(&mut visited, &excluded, "scratch/skip2/x"),
        Some(vec!["scratch/skip2".to_owned()])
    );
    assert!(visited.contains_key("scratch/skip/x"));
}

#[test]
fn entry_hash_by_kind() {
    assert_eq!(
        entry_hash("scratch/a", "src/a", &EntryKind::File("abc".to_owned(), false)),
        Ok(file_hash("scratch/a", "abc", false))
    );
    assert_eq!(
        entry_hash("scratch/l", "src/l", &EntryKind::Symlink("t".to_owned())),
        Ok(symlink_hash("scratch/l", "t"))
    );
    assert_eq!(
        entry_hash("scratch", "src", &EntryKind::Directory),
        Ok(directory_hash("scratch"))
    );
    match entry_hash("scratch/p", "src/pipe", &EntryKind::Other) {
        Err(Failure::User(m, None)) => {
            assert!(m.contains("src/pipe"));
            assert!(m.ends_with(" is not a file, directory, or symbolic link."));
        }
        other => panic!("unexpected result: {:?}", other),
    }
}
