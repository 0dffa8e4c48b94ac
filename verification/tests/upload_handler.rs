use pi_sync::pi_err::SyncerErrors;
use pi_sync::upload_handler::{
    FileOperations, SyncableFile, DRIVE_ROOT_FOLDER, LOCAL_ROOT_FOLDER,
};
use std::path::Path;

fn syncable_file(p: String) -> SyncableFile {
    SyncableFile::new(p)
}

#[test]
fn test_upload_get_unique_id_file() {
    let local_file = format!("{}{}", LOCAL_ROOT_FOLDER, "/alan.txt");
    let s = syncable_file(local_file);
    let cp = s.cloud_path().unwrap();
    let cp_string = cp.as_str();

    assert_eq!(
        format!("{}/{}", DRIVE_ROOT_FOLDER, "alan.txt"),
        cp_string,
        "Cloud path not correctly computed"
    );
    assert_eq!(
        base64::encode(format!("{}/{}", DRIVE_ROOT_FOLDER, "alan.txt")),
        s.get_unique_id().unwrap(),
        "Base64 Calc of Syncable File does not match a manual encode of same path"
    );
}

#[test]
fn test_upload_get_unique_id_dir() {
    let local_dir_parent = format!("{}{}", LOCAL_ROOT_FOLDER, "/alan");
    let parent_dir = syncable_file(local_dir_parent.clone());
    assert_eq!(local_dir_parent, parent_dir.local_path());
    let puid = parent_dir.get_unique_id().unwrap();

    let local_file = format!("{}{}", LOCAL_ROOT_FOLDER, "/alan/alan.txt");
    let child_file = syncable_file(local_file);

    let pp_from_child_path = child_file.parent_path().unwrap();
    let parent_path_as_string = pp_from_child_path.as_str();
    assert_eq!(
        "/tmp/pi_sync/images/alan", parent_path_as_string,
        "Parent Path Calc is wrong"
    );

    let tmp_syncable = SyncableFile::new(parent_path_as_string.to_owned());
    let tuid = tmp_syncable.get_unique_id().unwrap();
    assert_eq!(puid, tuid);
}

#[test]
fn test_upload_remote_path() {
    let local_dir = format!("{}{}", LOCAL_ROOT_FOLDER, "/alan");
    let s = syncable_file(local_dir);
    let rp = Path::new(DRIVE_ROOT_FOLDER).join("alan");
    let cp = s.cloud_path();
    assert_eq!(rp, Path::new(&cp.unwrap()));
    assert_eq!(rp.to_str().unwrap(), s.cloud_path().unwrap());
}

#[test]
fn test_upload_local_path() {
    let local_dir = format!("{}{}", LOCAL_ROOT_FOLDER, "/alan");
    let s = syncable_file(local_dir.clone());
    let lp = s.local_path();
    assert_eq!(local_dir, lp);
}

#[test]
fn test_upload_parent_path() {
    let root_file = format!("{}{}", LOCAL_ROOT_FOLDER, "/alan.txt");
    let root_s = syncable_file(root_file);

    assert_eq!(
        Path::new(LOCAL_ROOT_FOLDER),
        Path::new(&root_s.parent_path().unwrap()),
        "Parent path is not correct"
    );
    assert_eq!(LOCAL_ROOT_FOLDER, root_s.parent_path().unwrap());

    let child = format!("{}{}", LOCAL_ROOT_FOLDER, "/a/a.txt");
    let c = syncable_file(child);

    assert_eq!(
        Path::new(LOCAL_ROOT_FOLDER).join("a"),
        Path::new(&c.parent_path().unwrap()),
        "Parent path is not correct for /a/a.txt"
    );

    let child1 = format!("{}{}", LOCAL_ROOT_FOLDER, "/b/b");
    let c1 = syncable_file(child1);

    assert_eq!(
        Path::new(LOCAL_ROOT_FOLDER).join("b"),
        Path::new(&c1.parent_path().unwrap()),
        "Parent path is not correct for /b/b"
    );

    let child2 = format!("{}{}", LOCAL_ROOT_FOLDER, "/c/c/test.txt");
    let c2 = syncable_file(child2);
    assert_eq!(
        Path::new(LOCAL_ROOT_FOLDER).join("c/c"),
        Path::new(&c2.parent_path().unwrap()),
        "Parent path is not correct for /c/c/test.txt"
    );
    assert_eq!("/tmp/pi_sync/images/c/c", c2.parent_path().unwrap());

    let child3 = format!("{}{}", LOCAL_ROOT_FOLDER, "/d");
    let c3 = syncable_file(child3);
    assert_eq!(
        Path::new(LOCAL_ROOT_FOLDER),
        Path::new(&c3.parent_path().unwrap()),
        "Parent path is not correct for /d"
    );
}

#[test]
fn cloud_path_rejects_a_path_outside_the_root() {
    let s = syncable_file("/var/log/syslog".to_owned());
    assert_eq!(s.cloud_path(), Err(SyncerErrors::NotUnderRoot));
    assert_eq!(s.get_unique_id(), Err(SyncerErrors::NotUnderRoot));
    let sibling = syncable_file("/tmp/pi_sync/images2/a.txt".to_owned());
    assert_eq!(sibling.cloud_path(), Err(SyncerErrors::NotUnderRoot));
    let relative = syncable_file("tmp/pi_sync/images/a.txt".to_owned());
    assert_eq!(relative.cloud_path(), Err(SyncerErrors::NotUnderRoot));
}

#[test]
fn the_sync_root_has_no_parent() {
    let root = syncable_file(LOCAL_ROOT_FOLDER.to_string());
    assert_eq!(root.parent_path(), Err(SyncerErrors::InvalidPathError));
    assert_eq!(root.parent_cloud_path(), Err(SyncerErrors::InvalidPathError));
}
