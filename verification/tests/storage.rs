// The commit protocol driven over an in-memory disk: the test plays the part
// of the application, performing each file operation that a save asks for.
use ananda_control::model::{defaults, Database};
use ananda_control::storage::{
    corrupt_message, loaded, ownership_ok, recover, Journal, Recovery, Save, SaveStep,
};
use std::collections::HashMap;

const ROOT: &str = "config.txt";
const ACTIVE: &str = "ananda-control/active.txt";
const DATABASE: &str = "database.json";
const JOURNAL: &str = "transaction.json";

const MUSIC: &str = "Preamp: -5.5 dB\nFilter 1: ON PK Fc 100 Hz Gain 5 dB Q 1\n";
const MOVIES: &str = "Preamp: -6.5 dB\nFilter 1: ON PK Fc 100 Hz Gain 7 dB Q 1\n";
const FPS: &str = "Preamp: -4 dB\nFilter 1: ON PK Fc 2500 Hz Gain 3 dB Q 1.5\n";
const VOICE: &str = "Preamp: -3 dB\nFilter 1: ON HPQ Fc 90 Hz Q 0.707\n";

struct Disk {
    files: HashMap<String, String>,
    locked: Vec<String>,
    db: Database,
    journal: Option<Journal>,
}

impl Disk {
    fn write(&mut self, path: &str, text: &str) -> Result<(), String> {
        if self.locked.iter().any(|l| l == path) {
            return Err("The process cannot access the file because it is being used by another process.".into());
        }
        self.files.insert(path.into(), text.into());
        Ok(())
    }

    fn read(&self, path: &str) -> Option<String> {
        self.files.get(path).cloned()
    }

    fn save(&mut self, next: Database, apply: bool) -> Result<(), String> {
        let (mut save, mut step) = Save::begin(&self.db, next, apply);
        loop {
            step = match step {
                SaveStep::CheckOwnership => {
                    let root = self.read(ROOT);
                    let active = self.read(ACTIVE);
                    save.owned(&root, &active)
                }
                SaveStep::WriteJournal => {
                    let r = self.write(JOURNAL, "journal");
                    if r.is_ok() {
                        self.journal = Some(Journal {
                            next: save.next.clone(),
                            old_active: save.current.expected_active.clone(),
                        });
                    }
                    save.reported(r)
                }
                SaveStep::WriteActive(text) => {
                    let r = self.write(ACTIVE, &text);
                    save.reported(r)
                }
                SaveStep::WriteDatabase => {
                    let r = self.write(DATABASE, "database");
                    save.reported(r)
                }
                SaveStep::Finish { commit, remove_journal, result } => {
                    if commit {
                        self.db = save.next.clone();
                    }
                    if remove_journal {
                        self.files.remove(JOURNAL);
                        self.journal = None;
                    }
                    return result;
                }
            };
        }
    }
}

fn integrated() -> Disk {
    let mut db = defaults(MUSIC, MOVIES, FPS, VOICE).unwrap();
    db.integration.installed = true;
    db.integration.config_dir = "config".into();
    db.integration.expected_root = "Include: ananda-control/active.txt\n".into();
    db.integration.expected_active = "old".into();
    let mut disk = Disk { files: HashMap::new(), locked: vec![], db, journal: None };
    disk.files.insert(ROOT.into(), "Include: ananda-control/active.txt\n".into());
    disk.files.insert(ACTIVE.into(), "old".into());
    disk.files.insert(DATABASE.into(), "database".into());
    disk
}

#[test]
fn rapid_switches_end_at_last_committed() {
    let mut s = integrated();
    for n in 0..50 {
        let mut next = s.db.clone();
        next.integration.expected_active = n.to_string();
        s.save(next, true).unwrap();
    }
    assert_eq!(s.read(ACTIVE).unwrap(), "49");
}

#[test]
fn external_changes_block_writes() {
    let mut s = integrated();
    s.write(ROOT, "external").unwrap();
    let again = s.db.clone();
    assert!(s.save(again, true).is_err());
    assert_eq!(s.db.integration.expected_active, "old");
}

#[test]
fn interrupted_commit_recovers() {
    let s = integrated();
    let mut next = s.db.clone();
    next.active_profile = "movies".into();
    next.integration.expected_active = "new".into();
    let journal = Journal { next, old_active: "old".into() };
    let mut s = s;
    s.write(ACTIVE, "new").unwrap();
    let actual = s.read(ACTIVE).unwrap_or_default();
    let reopened = match recover(Some(journal), &actual) {
        Recovery::Adopt(db) => db,
        _ => panic!("the interrupted commit should be completed"),
    };
    assert_eq!(reopened.active_profile, "movies");
}

#[test]
fn corrupt_database_preserved() {
    let e = "expected value at line 1 column 1".to_string();
    let r = loaded(Err(e.clone()));
    assert!(r.is_err());
    let startup_error = Some(corrupt_message(&r.unwrap_err(), "database-corrupt-1.json"));
    let db = defaults(MUSIC, MOVIES, FPS, VOICE).unwrap();
    assert!(startup_error.is_some());
    assert!(!db.integration.installed);
    assert_eq!(
        startup_error.unwrap(),
        "Saved data could not be loaded: expected value at line 1 column 1. Preserved at database-corrupt-1.json. Integration has not been changed."
    );
}

#[test]
fn missing_device_does_not_prevent_config_commit() {
    let mut s = integrated();
    let mut next = s.db.clone();
    next.integration.expected_active = "offline selection".into();
    s.save(next, true).unwrap();
    assert_eq!(s.db.integration.expected_active, "offline selection");
}

#[test]
fn locked_destination_preserves_previous() {
    let mut s = integrated();
    s.locked.push(ACTIVE.into());
    let mut next = s.db.clone();
    next.integration.expected_active = "new".into();
    assert!(s.save(next, true).is_err());
    assert_eq!(s.read(ACTIVE).unwrap(), "old");
    assert_eq!(s.db.integration.expected_active, "old");
}

#[test]
fn failed_database_write_rolls_back_apo() {
    let mut s = integrated();
    s.locked.push(DATABASE.into());
    let mut next = s.db.clone();
    next.integration.expected_active = "new".into();
    let e = s.save(next, true).unwrap_err();
    assert!(e.starts_with("Could not save selection: "));
    assert!(e.ends_with(". Recovery journal retained if rollback was unsuccessful."));
    assert_eq!(s.read(ACTIVE).unwrap(), "old");
    assert!(s.journal.is_none());
    assert_eq!(s.db.integration.expected_active, "old");
}

#[test]
fn locked_active_file_removes_journal_and_reports() {
    let mut s = integrated();
    s.locked.push(ACTIVE.into());
    let mut next = s.db.clone();
    next.integration.expected_active = "new".into();
    let e = s.save(next, true).unwrap_err();
    assert!(e.starts_with("Could not apply EQ: "));
    assert!(s.read(JOURNAL).is_none());
}

#[test]
fn invalid_database_is_refused_before_any_write() {
    let mut s = integrated();
    let mut next = s.db.clone();
    next.active_profile = "missing".into();
    assert_eq!(s.save(next, true).unwrap_err(), "Missing stock, active, or last-enabled profile");
    assert_eq!(s.read(ACTIVE).unwrap(), "old");
}

#[test]
fn plain_save_skips_apo() {
    let mut s = integrated();
    s.write(ROOT, "external").unwrap();
    let mut next = s.db.clone();
    next.settings.notifications = false;
    s.save(next, false).unwrap();
    assert!(!s.db.settings.notifications);
}

#[test]
fn recovery_decisions() {
    let s = integrated();
    let j = || Journal { next: s.db.clone(), old_active: "older".into() };
    assert!(matches!(recover(Some(j()), &"older".to_string()), Recovery::Discard));
    match recover(Some(j()), &"other".to_string()) {
        Recovery::Keep(m) => assert_eq!(m, "An interrupted update conflicts with the current APO file. Review diagnostics before repairing."),
        _ => panic!(),
    }
    match recover(None, &String::new()) {
        Recovery::Keep(m) => assert_eq!(m, "An unreadable transaction journal was preserved. Review configuration before repair."),
        _ => panic!(),
    }
}

#[test]
fn ownership_needs_both_files() {
    let s = integrated();
    let i = &s.db.integration;
    assert!(ownership_ok(i, &s.read(ROOT), &s.read(ACTIVE)));
    assert!(!ownership_ok(i, &None, &s.read(ACTIVE)));
    assert!(!ownership_ok(i, &s.read(ROOT), &Some("changed".into())));
}
