use pi_sync::drive_cli::{
    ChangeEvent, CloudClient, Drive3Client, Handled, RemoteDirectory, PI_DRIVE_SYNC_PROPS_KEY,
};
use pi_sync::identity::unique_id;
use pi_sync::pi_err::{PiSyncResult, SyncerErrors};
use pi_sync::walk::{Answer, Question};
use pi_sync::upload_handler::{FileOperations, SyncableFile};
use std::cell::{Cell, RefCell};
use std::collections::HashMap;

#[derive(Debug, Clone, PartialEq)]
enum Call {
    Find(String),
    Create(String, Option<String>, String),
    Upload(String, Option<String>, String),
}

/// A store in memory that notes what it is asked.
struct Recorder {
    objects: RefCell<HashMap<String, Vec<String>>>,
    calls: RefCell<Vec<Call>>,
    made: Cell<u32>,
    fail_find: bool,
    fail_create: bool,
    fail_upload: bool,
}

impl Recorder {
    fn empty() -> Recorder {
        Recorder {
            objects: RefCell::new(HashMap::new()),
            calls: RefCell::new(Vec::new()),
            made: Cell::new(0),
            fail_find: false,
            fail_create: false,
            fail_upload: false,
        }
    }

    fn with(paths: &[(&str, &str)]) -> Recorder {
        let r = Recorder::empty();
        for (path, id) in paths {
            r.objects.borrow_mut().entry(unique_id(path)).or_default().push(id.to_string());
        }
        r
    }

    fn fresh(&self, kind: &str) -> String {
        self.made.set(self.made.get() + 1);
        format!("{}-{}", kind, self.made.get())
    }

    fn creates(&self) -> Vec<Call> {
        self.calls.borrow().iter().filter(|c| matches!(c, Call::Create(..))).cloned().collect()
    }

    fn finds(&self) -> Vec<Call> {
        self.calls.borrow().iter().filter(|c| matches!(c, Call::Find(..))).cloned().collect()
    }

    fn uploads(&self) -> Vec<Call> {
        self.calls.borrow().iter().filter(|c| matches!(c, Call::Upload(..))).cloned().collect()
    }
}

impl RemoteDirectory for Recorder {
    fn find_by_identity(&self, unique_id: &str) -> PiSyncResult<Vec<String>> {
        self.calls.borrow_mut().push(Call::Find(unique_id.to_string()));
        if self.fail_find {
            return Err(SyncerErrors::ProviderError);
        }
        Ok(self.objects.borrow().get(unique_id).cloned().unwrap_or_default())
    }

    fn create_directory(
        &self,
        name: &str,
        parent: Option<&str>,
        unique_id: &str,
    ) -> PiSyncResult<String> {
        self.calls.borrow_mut().push(Call::Create(
            name.to_string(),
            parent.map(|p| p.to_string()),
            unique_id.to_string(),
        ));
        if self.fail_create {
            return Err(SyncerErrors::ProviderError);
        }
        let id = self.fresh("dir");
        self.objects.borrow_mut().entry(unique_id.to_string()).or_default().push(id.clone());
        Ok(id)
    }

    fn upload_file(
        &self,
        local_path: &str,
        parent: Option<&str>,
        unique_id: &str,
    ) -> PiSyncResult<String> {
        self.calls.borrow_mut().push(Call::Upload(
            local_path.to_string(),
            parent.map(|p| p.to_string()),
            unique_id.to_string(),
        ));
        if self.fail_upload {
            return Err(SyncerErrors::ProviderError);
        }
        Ok(self.fresh("file"))
    }
}

fn backup_client(store: Recorder) -> Drive3Client<Recorder> {
    Drive3Client::with_roots(Ok(store), vec![], "/data".to_string(), "Backup".to_string())
}

#[test]
fn test_drive_cli_create_dir() {
    let mut dc = Drive3Client::new(Ok(Recorder::empty()), vec![]);
    let d = "/tmp/pi_sync/images/new_dir";
    let r = dc.create_dir(d, None);
    println!("Id of new Dir {:?}", r);
    assert_eq!(r.is_ok(), true);
    assert_eq!(r, Ok(Some("dir-1".to_string())));
    let store = dc.get_hub().unwrap();
    assert_eq!(
        store.calls.borrow().clone(),
        vec![Call::Create("new_dir".to_string(), None, unique_id("RpiCamera/new_dir"))]
    );
}

#[test]
fn test_drive_cli_upload_file() {
    let store = Recorder::with(&[("RpiCamera/", "root-id")]);
    let mut dc = Drive3Client::new(Ok(store), vec![]);
    let r = dc.upload_file("/tmp/pi_sync/images/alan.txt");
    assert_eq!(r, Ok(Some("file-1".to_string())));
    let store = dc.get_hub().unwrap();
    assert_eq!(
        store.calls.borrow().clone(),
        vec![
            Call::Find(unique_id("RpiCamera/")),
            Call::Upload(
                "/tmp/pi_sync/images/alan.txt".to_string(),
                Some("root-id".to_string()),
                unique_id("RpiCamera/alan.txt")
            ),
        ]
    );
}

#[test]
fn test_drive_cli_id() {
    let store = Recorder::with(&[("RpiCamera/", "root-id")]);
    let mut dc = Drive3Client::new(Ok(store), vec![]);
    let d = "/tmp/pi_sync/images/new_dir";

    let parent = SyncableFile::new(d.to_owned()).parent_path().unwrap();
    let drive_id_for_parent = dc.id(parent.as_str());

    println!(" parent gdrive id = {:?}", drive_id_for_parent);
    assert_eq!(drive_id_for_parent, Ok(Some("root-id".to_string())));
    assert_eq!(dc.id(d), Ok(None));
}

#[test]
fn test_create_path() {
    let store = Recorder::with(&[("RpiCamera/", "root-id")]);
    let mut dc = Drive3Client::with_roots(
        Ok(store),
        vec![],
        "/var/www/RpiCamera".to_string(),
        "RpiCamera".to_string(),
    );
    let s = dc.create_path(&dc.file("/var/www/RpiCamera/1/2/3/4/im1.jpg"));
    assert_eq!(true, s.is_ok());
    assert_eq!(s, Ok("dir-4".to_string()));
    let store = dc.get_hub().unwrap();
    assert_eq!(
        store.creates(),
        vec![
            Call::Create("1".into(), Some("root-id".into()), unique_id("RpiCamera/1")),
            Call::Create("2".into(), Some("dir-1".into()), unique_id("RpiCamera/1/2")),
            Call::Create("3".into(), Some("dir-2".into()), unique_id("RpiCamera/1/2/3")),
            Call::Create("4".into(), Some("dir-3".into()), unique_id("RpiCamera/1/2/3/4")),
        ]
    );
}

#[test]
fn creating_a_file_two_levels_down_creates_both_directories_then_uploads() {
    let mut dc = backup_client(Recorder::with(&[("Backup/", "root-id")]));
    let r = dc.upload_file("/data/2024/01/img.jpg");
    assert_eq!(r, Ok(Some("file-3".to_string())));
    let store = dc.get_hub().unwrap();
    assert_eq!(
        store.finds(),
        vec![
            Call::Find(unique_id("Backup/")),
            Call::Find(unique_id("Backup/2024")),
            Call::Find(unique_id("Backup/2024/01")),
        ]
    );
    assert_eq!(
        store.creates(),
        vec![
            Call::Create("2024".into(), Some("root-id".into()), unique_id("Backup/2024")),
            Call::Create("01".into(), Some("dir-1".into()), unique_id("Backup/2024/01")),
        ]
    );
    assert_eq!(
        store.uploads(),
        vec![Call::Upload(
            "/data/2024/01/img.jpg".into(),
            Some("dir-2".into()),
            unique_id("Backup/2024/01/img.jpg")
        )]
    );
    assert_eq!(store.calls.borrow().last(), store.uploads().last());
}

#[test]
fn replaying_the_event_creates_nothing_and_uploads_once() {
    let mut dc = backup_client(Recorder::with(&[("Backup/", "root-id")]));
    assert!(dc.upload_file("/data/2024/01/img.jpg").is_ok());
    let before = dc.get_hub().unwrap().calls.borrow().len();
    let r = dc.upload_file("/data/2024/01/img.jpg");
    assert!(r.is_ok());
    let store = dc.get_hub().unwrap();
    let later: Vec<Call> = store.calls.borrow()[before..].to_vec();
    assert_eq!(
        later,
        vec![Call::Upload(
            "/data/2024/01/img.jpg".into(),
            Some("dir-2".into()),
            unique_id("Backup/2024/01/img.jpg")
        )]
    );
}

#[test]
fn a_second_walk_creates_no_directory_twice() {
    let mut dc = backup_client(Recorder::with(&[("Backup/", "root-id")]));
    let file = dc.file("/data/a/b/c/d.txt");
    let first = dc.create_path(&file);
    assert_eq!(first, Ok("dir-3".to_string()));
    assert_eq!(dc.get_hub().unwrap().creates().len(), 3);
    let second = dc.create_path(&file);
    assert_eq!(second, first);
    assert_eq!(dc.get_hub().unwrap().creates().len(), 3);
    assert_eq!(dc.get_hub().unwrap().finds().len(), 4);
}

#[test]
fn directories_found_remotely_are_not_created() {
    let store = Recorder::with(&[
        ("Backup/", "root-id"),
        ("Backup/2024", "y"),
        ("Backup/2024/01", "m"),
    ]);
    let mut dc = backup_client(store);
    assert_eq!(dc.create_path(&dc.file("/data/2024/01/img.jpg")), Ok("m".to_string()));
    assert!(dc.get_hub().unwrap().creates().is_empty());
    assert_eq!(dc.get_hub().unwrap().finds().len(), 3);
    assert_eq!(dc.create_path(&dc.file("/data/2024/01/other.jpg")), Ok("m".to_string()));
    assert_eq!(dc.get_hub().unwrap().finds().len(), 3);
}

#[test]
fn a_file_at_the_root_goes_below_the_root() {
    let mut dc = backup_client(Recorder::with(&[("Backup/", "root-id")]));
    assert_eq!(dc.create_path(&dc.file("/data/img.jpg")), Ok("root-id".to_string()));
    assert!(dc.get_hub().unwrap().creates().is_empty());
}

#[test]
fn the_walk_refuses_the_root_and_what_lies_outside() {
    let mut dc = backup_client(Recorder::empty());
    assert_eq!(dc.create_path(&dc.file("/data")), Err(SyncerErrors::InvalidPathError));
    assert_eq!(dc.create_path(&dc.file("/other/a.txt")), Err(SyncerErrors::NotUnderRoot));
    assert_eq!(dc.upload_file("/other/a.txt"), Err(SyncerErrors::NotUnderRoot));
    assert_eq!(dc.id("/other/a.txt"), Err(SyncerErrors::NotUnderRoot));
    assert_eq!(dc.create_dir("/other/a", None), Err(SyncerErrors::NotUnderRoot));
    assert_eq!(dc.upload_file("/data"), Err(SyncerErrors::InvalidPathError));
    assert!(dc.get_hub().unwrap().calls.borrow().is_empty());
}

#[test]
fn a_missing_root_stops_the_walk() {
    let mut dc = backup_client(Recorder::empty());
    assert_eq!(dc.create_path(&dc.file("/data/a/b.txt")), Err(SyncerErrors::SyncerNoneError));
    let store = dc.get_hub().unwrap();
    assert_eq!(store.calls.borrow().clone(), vec![Call::Find(unique_id("Backup/"))]);
}

#[test]
fn an_error_of_the_store_stops_the_walk_and_keeps_what_was_resolved() {
    let mut store = Recorder::with(&[("Backup/", "root-id")]);
    store.fail_create = true;
    let mut dc = backup_client(store);
    assert_eq!(dc.upload_file("/data/a/b.txt"), Err(SyncerErrors::ProviderError));
    assert_eq!(dc.get_hub().unwrap().creates().len(), 1);
    assert!(dc.get_hub().unwrap().uploads().is_empty());
    let finds = dc.get_hub().unwrap().finds().len();
    assert_eq!(dc.upload_file("/data/a/b.txt"), Err(SyncerErrors::ProviderError));
    assert_eq!(
        dc.get_hub().unwrap().finds()[finds..].to_vec(),
        vec![Call::Find(unique_id("Backup/a"))]
    );

    let mut failing = Recorder::empty();
    failing.fail_find = true;
    let mut dc = backup_client(failing);
    assert_eq!(dc.create_path(&dc.file("/data/a/b.txt")), Err(SyncerErrors::ProviderError));
    assert_eq!(dc.id("/data/a"), Err(SyncerErrors::ProviderError));

    let mut no_upload = Recorder::with(&[("Backup/", "root-id")]);
    no_upload.fail_upload = true;
    let mut dc = backup_client(no_upload);
    assert_eq!(dc.upload_file("/data/b.txt"), Err(SyncerErrors::ProviderError));
}

#[test]
fn a_client_without_provider_answers_with_its_own_error() {
    let mut dc: Drive3Client<Recorder> =
        Drive3Client::new(Err(SyncerErrors::ProviderError), vec!["^a"]);
    assert_eq!(dc.get_hub().err(), Some(SyncerErrors::NoAppSecret));
    assert_eq!(dc.id("/tmp/pi_sync/images/a"), Err(SyncerErrors::NoAppSecret));
    assert_eq!(dc.create_dir("/tmp/pi_sync/images/a", None), Err(SyncerErrors::NoAppSecret));
    assert_eq!(dc.upload_file("/tmp/pi_sync/images/a.txt"), Err(SyncerErrors::NoAppSecret));
    assert!(!dc.passes_filter("/tmp/pi_sync/images/zzz"));
    assert!(dc.passes_filter("/tmp/pi_sync/images/abc"));
}

#[test]
fn the_last_of_several_objects_is_taken_and_noted() {
    let store = Recorder::with(&[("Backup/", "old"), ("Backup/", "new"), ("Backup/a", "only")]);
    let mut dc = backup_client(store);
    assert_eq!(dc.id("/data"), Ok(Some("new".to_string())));
    assert_eq!(dc.id("/data/a"), Ok(Some("only".to_string())));
    assert_eq!(dc.take_warnings(), vec![unique_id("Backup/")]);
    assert!(dc.take_warnings().is_empty());
    assert_eq!(dc.create_path(&dc.file("/data/x.txt")), Ok("new".to_string()));
    assert_eq!(dc.take_warnings(), vec![unique_id("Backup/")]);
}

#[test]
fn create_dir_hands_the_new_id_to_the_cache() {
    let mut dc = backup_client(Recorder::with(&[("Backup/", "root-id")]));
    assert_eq!(dc.create_dir("/data/a", Some("root-id")), Ok(Some("dir-1".to_string())));
    assert_eq!(
        dc.get_hub().unwrap().creates(),
        vec![Call::Create("a".into(), Some("root-id".into()), unique_id("Backup/a"))]
    );
    assert_eq!(dc.create_path(&dc.file("/data/a/b.txt")), Ok("dir-1".to_string()));
    assert_eq!(dc.get_hub().unwrap().finds(), vec![Call::Find(unique_id("Backup/"))]);
    assert_eq!(dc.create_dir("/data", None), Ok(Some("dir-2".to_string())));
    assert_eq!(
        dc.get_hub().unwrap().creates()[1],
        Call::Create("Backup".into(), None, unique_id("Backup/"))
    );
}

#[test]
fn the_properties_tag_an_object_with_its_identifier() {
    let dc = backup_client(Recorder::empty());
    assert_eq!(PI_DRIVE_SYNC_PROPS_KEY, "pi_sync_id");
    assert_eq!(
        dc.app_props_map("abc"),
        Some(vec![("pi_sync_id".to_string(), "abc".to_string())])
    );
}

#[test]
fn names_pass_when_one_rule_is_found_in_them() {
    let dc = Drive3Client::new(Ok(Recorder::empty()), vec!["^a", "^b"]);
    assert!(dc.passes_filter("/tmp/pi_sync/images/abc"));
    assert!(dc.passes_filter("/tmp/pi_sync/images/x/bcd"));
    assert!(!dc.passes_filter("/tmp/pi_sync/images/cde"));
    assert!(!dc.passes_filter("/tmp/pi_sync/images/abc/cde"));
    let open = Drive3Client::new(Ok(Recorder::empty()), vec![]);
    assert!(open.passes_filter("/tmp/pi_sync/images/cde"));
    assert!(open.passes_filter("/"));
    let broken = Drive3Client::new(Ok(Recorder::empty()), vec!["(", "jpg$"]);
    assert!(broken.passes_filter("/x/im1.jpg"));
    assert!(!broken.passes_filter("/x/im1.png"));
    let only_broken = Drive3Client::new(Ok(Recorder::empty()), vec!["("]);
    assert!(!only_broken.passes_filter("/x/("));
}

#[test]
fn events_are_dropped_filtered_skipped_or_uploaded() {
    let store = Recorder::with(&[("Backup/", "root-id")]);
    let mut dc = Drive3Client::with_roots(
        Ok(store),
        vec!["jpg$"],
        "/data".to_string(),
        "Backup".to_string(),
    );
    let event = |path: Option<&str>, is_file: bool| ChangeEvent {
        path: path.map(|p| p.to_string()),
        is_file,
    };
    assert_eq!(dc.handle(&event(None, true)), Handled::Dropped);
    assert_eq!(dc.handle(&event(Some("/data/a/notes.txt"), true)), Handled::FilteredOut);
    assert_eq!(dc.handle(&event(Some("/data/a.jpg"), false)), Handled::SkippedDirectory);
    assert!(dc.get_hub().unwrap().calls.borrow().is_empty());
    assert_eq!(
        dc.handle(&event(Some("/elsewhere/a.jpg"), true)),
        Handled::Failed(SyncerErrors::NotUnderRoot)
    );
    assert_eq!(
        dc.handle(&event(Some("/data/./"), true)),
        Handled::FilteredOut
    );
    assert!(dc.get_hub().unwrap().calls.borrow().is_empty());
    assert_eq!(
        dc.handle(&event(Some("/data/a/im.jpg"), true)),
        Handled::Uploaded(Some("file-2".to_string()))
    );
    assert_eq!(dc.get_hub().unwrap().creates().len(), 1);
    assert_eq!(dc.get_hub().unwrap().uploads().len(), 1);
}

#[test]
fn the_root_is_looked_for_and_created_where_it_is_missing() {
    let mut dc = backup_client(Recorder::empty());
    assert_eq!(dc.ensure_root(), Ok(Some("dir-1".to_string())));
    assert_eq!(
        dc.get_hub().unwrap().calls.borrow().clone(),
        vec![
            Call::Find(unique_id("Backup/")),
            Call::Create("Backup".into(), None, unique_id("Backup/")),
        ]
    );
    assert_eq!(dc.create_path(&dc.file("/data/a.txt")), Ok("dir-1".to_string()));
    assert_eq!(dc.get_hub().unwrap().calls.borrow().len(), 2);

    let mut there = backup_client(Recorder::with(&[("Backup/", "root-id")]));
    assert_eq!(there.ensure_root(), Ok(Some("root-id".to_string())));
    assert!(there.get_hub().unwrap().creates().is_empty());

    let mut failing = Recorder::empty();
    failing.fail_find = true;
    let mut down = backup_client(failing);
    assert_eq!(down.ensure_root(), Err(SyncerErrors::ProviderError));
    assert!(down.get_hub().unwrap().creates().is_empty());
}

#[test]
fn the_provider_is_told_what_marks_a_directory() {
    assert_eq!(pi_sync::drive_cli::FOLDER_MIME_TYPE, "application/vnd.google-apps.folder");
    assert_eq!(pi_sync::drive_cli::UPLOAD_MIME_TYPE, "application/octet-stream");
    assert_eq!(
        pi_sync::drive_cli::app_props("xyz"),
        vec![("pi_sync_id".to_string(), "xyz".to_string())]
    );
}

#[test]
fn a_client_keeps_the_rules_it_is_given_with_or_without_provider() {
    let with: Drive3Client<Recorder> = Drive3Client::new(Ok(Recorder::empty()), vec!["jpg$"]);
    let without: Drive3Client<Recorder> =
        Drive3Client::new(Err(SyncerErrors::NoAppSecret), vec!["jpg$"]);
    for dc in [&with, &without] {
        assert!(dc.passes_filter("/tmp/pi_sync/images/a.jpg"));
        assert!(!dc.passes_filter("/tmp/pi_sync/images/a.png"));
    }
}

#[test]
fn a_refused_directory_leaves_the_cache_as_it_was() {
    let mut store = Recorder::with(&[("Backup/", "root-id")]);
    store.fail_create = true;
    let mut dc = backup_client(store);
    assert_eq!(dc.create_dir("/data/a", Some("root-id")), Err(SyncerErrors::ProviderError));
    assert_eq!(dc.id("/data/a"), Ok(None));
    let finds = dc.get_hub().unwrap().finds().len();
    assert_eq!(dc.create_path(&dc.file("/data/a/b.txt")), Err(SyncerErrors::ProviderError));
    assert_eq!(
        dc.get_hub().unwrap().finds()[finds..].to_vec(),
        vec![Call::Find(unique_id("Backup/")), Call::Find(unique_id("Backup/a"))]
    );
}

#[test]
fn every_ancestor_of_a_walk_is_cached_afterwards() {
    let mut dc = backup_client(Recorder::with(&[("Backup/", "root-id"), ("Backup/a", "a-id")]));
    assert_eq!(dc.create_path(&dc.file("/data/a/b/c/d.txt")), Ok("dir-2".to_string()));
    let asked = dc.get_hub().unwrap().calls.borrow().len();
    assert_eq!(dc.create_path(&dc.file("/data/a/x.txt")), Ok("a-id".to_string()));
    assert_eq!(dc.create_path(&dc.file("/data/a/b/y.txt")), Ok("dir-1".to_string()));
    assert_eq!(dc.create_path(&dc.file("/data/z.txt")), Ok("root-id".to_string()));
    assert_eq!(dc.get_hub().unwrap().calls.borrow().len(), asked);
}

#[test]
fn what_is_handed_to_the_cache_is_kept_for_the_time_that_is_named() {
    let mut dc = backup_client(Recorder::empty());
    let keep = |secs: u64| Question::Store {
        unique_id: "u".to_string(),
        remote_id: "x".to_string(),
        ttl_secs: secs,
    };
    let ask = || Question::Cached { unique_id: "u".to_string() };
    let start = std::time::Instant::now();
    assert!(matches!(dc.perform(&keep(1)), Answer::Stored));
    assert!(matches!(dc.perform(&ask()), Answer::Cached(Some(id)) if id == "x"));
    while start.elapsed() < std::time::Duration::from_millis(1300) {
        std::hint::spin_loop();
    }
    assert!(matches!(dc.perform(&ask()), Answer::Cached(None)));
    assert!(matches!(dc.perform(&keep(86400)), Answer::Stored));
    assert!(matches!(dc.perform(&ask()), Answer::Cached(Some(id)) if id == "x"));
}
