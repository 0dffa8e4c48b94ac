use pi_sync::drive_cli::identity_query;
use pi_sync::identity::unique_id;
use pi_sync::paths::{join_range, split_segments, starts_at_root, starts_with_segments};
use pi_sync::pi_err::SyncerErrors;
use pi_sync::upload_handler::{remote_path_of, FileOperations, SyncableFile};

fn at(path: &str) -> SyncableFile {
    SyncableFile::with_roots(path.to_string(), "/root".to_string(), "Mirror".to_string())
}

#[test]
fn the_identifier_is_the_base64_of_the_remote_path() {
    assert_eq!(unique_id("RpiCamera/alan.txt"), "UnBpQ2FtZXJhL2FsYW4udHh0");
    assert_eq!(unique_id(""), "");
    assert_eq!(unique_id("a"), "YQ==");
    assert_eq!(at("/root").get_unique_id(), Ok(base64::encode("Mirror/")));
}

#[test]
fn paths_with_the_same_segments_share_remote_path_and_identifier() {
    let plain = at("/root/a/b/c.txt");
    let noisy = at("/root//a/b///c.txt/");
    assert_eq!(plain.cloud_path(), Ok("Mirror/a/b/c.txt".to_string()));
    assert_eq!(noisy.cloud_path(), plain.cloud_path());
    assert_eq!(noisy.get_unique_id(), plain.get_unique_id());
}

#[test]
fn paths_with_other_segments_differ_in_remote_path_and_identifier() {
    let one = at("/root/a/b");
    let other = at("/root/a/bb");
    let deeper = at("/root/a/b/b");
    assert_ne!(one.cloud_path(), other.cloud_path());
    assert_ne!(one.get_unique_id(), other.get_unique_id());
    assert_ne!(one.cloud_path(), deeper.cloud_path());
    assert_ne!(one.get_unique_id(), deeper.get_unique_id());
}

#[test]
fn a_file_at_the_root_is_held_by_the_root() {
    assert_eq!(at("/root/file.txt").parent_cloud_path(), Ok("Mirror/".to_string()));
    assert_eq!(at("/root/file.txt").parent_cloud_path(), at("/root").cloud_path());
    assert_eq!(at("/root/file.txt").parent_path(), Ok("/root".to_string()));
}

#[test]
fn a_file_further_down_is_held_by_the_directories_above_it() {
    assert_eq!(at("/root/a/b/c.txt").parent_cloud_path(), Ok("Mirror/a/b".to_string()));
    assert_eq!(at("/root/a/b/c.txt").parent_path(), Ok("/root/a/b".to_string()));
    assert_eq!(at("/root/a/b/c.txt").parent_cloud_path(), at("/root/a/b").cloud_path());
}

#[test]
fn the_root_and_what_lies_outside_have_no_remote_parent() {
    assert_eq!(at("/root").parent_cloud_path(), Err(SyncerErrors::InvalidPathError));
    assert_eq!(at("/elsewhere/a").parent_cloud_path(), Err(SyncerErrors::NotUnderRoot));
    assert_eq!(at("/root").parent_path(), Err(SyncerErrors::InvalidPathError));
    assert_eq!(at("//root/").parent_path(), Err(SyncerErrors::InvalidPathError));
    assert_eq!(at("/roo").parent_path(), Ok("/".to_string()));
    assert_eq!(at("/elsewhere/a").parent_path(), Ok("/elsewhere".to_string()));
    assert_eq!(at("/").parent_path(), Err(SyncerErrors::InvalidPathError));
    assert_eq!(at("").parent_path(), Err(SyncerErrors::InvalidPathError));
    assert_eq!(at("a").parent_path(), Ok("".to_string()));
    assert_eq!(at("a/b").parent_path(), Ok("a".to_string()));
}

#[test]
fn the_name_is_the_last_segment() {
    assert_eq!(at("/root/a/b.txt").get_filename(), Some("b.txt".to_string()));
    assert_eq!(at("/root/a/").get_filename(), Some("a".to_string()));
    assert_eq!(at("/").get_filename(), None);
    assert_eq!(at("/root/a/b.txt").local_root(), "/root");
    assert_eq!(at("/root/a/b.txt").drive_root(), "Mirror");
    assert_eq!(
        at("/root/a/b.txt").segments_below_root(),
        Ok(vec!["a".to_string(), "b.txt".to_string()])
    );
    assert_eq!(at("/other").segments_below_root(), Err(SyncerErrors::NotUnderRoot));
}

#[test]
fn a_path_is_read_as_the_pieces_between_its_separators() {
    let segs = |p: &str| split_segments(p);
    assert_eq!(segs("/tmp/pi_sync/images"), vec!["tmp", "pi_sync", "images"]);
    assert_eq!(segs("a//b/"), vec!["a", "b"]);
    assert_eq!(segs("///"), Vec::<String>::new());
    assert_eq!(segs(""), Vec::<String>::new());
    assert_eq!(segs("x"), vec!["x"]);
    assert!(starts_at_root("/a"));
    assert!(!starts_at_root("a/"));
    assert!(!starts_at_root(""));
    let all = segs("/a/b/c");
    assert_eq!(join_range(&all, 0, 3), "a/b/c");
    assert_eq!(join_range(&all, 1, 2), "b");
    assert_eq!(join_range(&all, 2, 2), "");
    assert_eq!(split_segments(&join_range(&all, 0, 3)), all);
    assert!(starts_with_segments(&all, &segs("/a/b")));
    assert!(starts_with_segments(&all, &segs("")));
    assert!(!starts_with_segments(&all, &segs("/a/c")));
    assert!(!starts_with_segments(&all, &segs("/a/b/c/d")));
    assert_eq!(remote_path_of("L", &all, 0), "L/");
    assert_eq!(remote_path_of("L", &all, 2), "L/a/b");
}

#[test]
fn the_query_names_the_key_the_identifier_and_leaves_out_the_trash() {
    assert_eq!(
        identity_query("QUJD"),
        "appProperties has  { key='pi_sync_id' and value='QUJD' } and trashed = false"
    );
}

#[test]
fn every_error_has_its_text() {
    assert_eq!(SyncerErrors::InvalidPathError.message(), "Cannot process this path");
    assert_eq!(SyncerErrors::NotUnderRoot.message(), "Path is outside the sync root");
    assert_ne!(SyncerErrors::NotUnderRoot, SyncerErrors::InvalidPathError);
    assert_eq!(
        SyncerErrors::SyncerNoneError.message(),
        "Missing a value/response/input somwehere"
    );
    assert_eq!(SyncerErrors::NoAppSecret.message(), "Missing Auth Secret/Creds");
    assert_eq!(SyncerErrors::ProviderError.message(), "Issue with call to Storgare Provider");
}

#[test]
fn a_single_dot_is_no_segment() {
    assert_eq!(split_segments("/tmp/pi_sync/./images/a.txt"), vec!["tmp", "pi_sync", "images", "a.txt"]);
    assert_eq!(split_segments("./a/./b/."), vec!["a", "b"]);
    assert_eq!(split_segments("."), Vec::<String>::new());
    assert_eq!(split_segments("a/../.b/c./..."), vec!["a", "..", ".b", "c.", "..."]);
    let dotted = SyncableFile::new("/tmp/pi_sync/./images/a.txt".to_string());
    assert_eq!(dotted.cloud_path(), Ok("RpiCamera/a.txt".to_string()));
    assert_eq!(
        dotted.get_unique_id(),
        SyncableFile::new("/tmp/pi_sync/images/a.txt".to_string()).get_unique_id()
    );
    assert_eq!(at("/root/a/./b.txt").cloud_path(), Ok("Mirror/a/b.txt".to_string()));
    assert_eq!(at("/root/a/.").get_filename(), Some("a".to_string()));
    assert_eq!(at("/root/.").parent_path(), Err(SyncerErrors::InvalidPathError));
    assert_eq!(at("/root/./a").parent_path(), Ok("/root".to_string()));
}

#[test]
fn the_root_has_an_identifier_of_its_own() {
    let root = at("/root").get_unique_id().unwrap();
    assert!(!root.is_empty());
    assert_ne!(Ok(root.clone()), at("/root/a").get_unique_id());
    assert_eq!(Ok(root), at("/root/.").get_unique_id());
}
