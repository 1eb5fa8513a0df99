//! The commit protocol of the store.
//!
//! A save either writes the database file alone, or, when the change must
//! reach Equalizer APO, runs a small transaction: confirm that the owned APO
//! files are still ours, write a recovery journal, write the active APO
//! file, write the database, and drop the journal. The caller performs each
//! file operation that a [`Save`] asks for and reports how it went; the
//! decisions are made here.

use vstd::prelude::*;
use crate::model::{
    database_error, database_valid, opt_view, result_view, text, validate_database, Database,
    DatabaseView, Integration, IntegrationView,
};

verus! {

/// What an interrupted transaction leaves behind: the database it was about
/// to store and the active APO text that was in place before it.
pub struct Journal {
    pub next: Database,
    pub old_active: String,
}

pub struct JournalView {
    pub next: DatabaseView,
    pub old_active: Seq<char>,
}

impl View for Journal {
    type V = JournalView;

    open spec fn view(&self) -> JournalView {
        JournalView { next: self.next@, old_active: self.old_active@ }
    }
}

/// Whether the APO files hold exactly what this application last wrote:
/// integration is installed, and the root `config.txt` and the active file
/// read back as expected (`None` for a file that could not be read).
pub open spec fn owned(i: IntegrationView, root: Option<Seq<char>>, active: Option<Seq<char>>) -> bool {
    &&& i.installed
    &&& root == Some(i.expected_root)
    &&& active == Some(i.expected_active)
}

pub fn ownership_ok(i: &Integration, root: &Option<String>, active: &Option<String>) -> (r: bool)
    ensures
        r == owned(i@, opt_view(*root), opt_view(*active)),
{
    if !i.installed {
        return false;
    }
    let root_ok = match root {
        Some(t) => *t == i.expected_root,
        None => false,
    };
    let active_ok = match active {
        Some(t) => *t == i.expected_active,
        None => false,
    };
    root_ok && active_ok
}

// ---------------------------------------------------------------------------
// Saving
// ---------------------------------------------------------------------------
#[derive(Clone, Copy, Debug, PartialEq, Eq, Structural)]
pub enum Stage {
    /// Writing the database file, without touching APO.
    Plain,
    /// Waiting for the contents of the owned APO files.
    Owner,
    /// Writing the recovery journal.
    Journal,
    /// Writing the new active APO file.
    Active,
    /// Writing the database file after the active file.
    Commit,
    /// Putting the previous active file back after the database write failed.
    Undo,
    Finished,
}

/// The next file operation, or the end of the save.
pub enum SaveStep {
    /// Read `config.txt` and the active file and report them with `owned`.
    CheckOwnership,
    /// Write the journal `{ next, old_active }`.
    WriteJournal,
    /// Write this text to the active APO file.
    WriteActive(String),
    /// Write `next` to the database file.
    WriteDatabase,
    /// The save is over. With `commit`, `next` becomes the stored database;
    /// with `remove_journal`, the journal is removed (a failure to remove it
    /// is ignored).
    Finish { commit: bool, remove_journal: bool, result: Result<(), String> },
}

pub enum StepView {
    CheckOwnership,
    WriteJournal,
    WriteActive(Seq<char>),
    WriteDatabase,
    Finish { commit: bool, remove_journal: bool, result: Result<(), Seq<char>> },
}

impl View for SaveStep {
    type V = StepView;

    open spec fn view(&self) -> StepView {
        match self {
            SaveStep::CheckOwnership => StepView::CheckOwnership,
            SaveStep::WriteJournal => StepView::WriteJournal,
            SaveStep::WriteActive(t) => StepView::WriteActive(t@),
            SaveStep::WriteDatabase => StepView::WriteDatabase,
            SaveStep::Finish { commit, remove_journal, result } => StepView::Finish {
                commit: *commit,
                remove_journal: *remove_journal,
                result: result_view(*result),
            },
        }
    }
}

/// A save in progress.
pub struct Save {
    /// The integration of the database stored when the save began.
    pub current: Integration,
    /// The database being saved.
    pub next: Database,
    pub stage: Stage,
    /// Why the database write failed, while the active file is put back.
    pub failure: String,
}

pub open spec fn msg_changed() -> Seq<char> {
    "APO configuration changed outside Ananda Control. Open Diagnostics to review and repair."@
}

pub open spec fn msg_apply(e: Seq<char>) -> Seq<char> {
    "Could not apply EQ: "@ + e
}

pub open spec fn msg_selection(e: Seq<char>) -> Seq<char> {
    "Could not save selection: "@ + e
        + ". Recovery journal retained if rollback was unsuccessful."@
}

pub open spec fn finish(commit: bool, remove_journal: bool, result: Result<(), Seq<char>>) -> StepView {
    StepView::Finish { commit, remove_journal, result }
}

/// The first step of saving `next` over a store whose database has
/// integration `current`, with or without applying it to APO.
pub open spec fn start(next: DatabaseView, apply: bool) -> (Stage, StepView) {
    match database_error(next) {
        Some(m) => (Stage::Finished, finish(false, false, Err(m))),
        None => if apply && next.integration.installed {
            (Stage::Owner, StepView::CheckOwnership)
        } else {
            (Stage::Plain, StepView::WriteDatabase)
        },
    }
}

/// The step after the owned APO files were read.
pub open spec fn after_owner(current: IntegrationView, root: Option<Seq<char>>, active: Option<Seq<char>>) -> (Stage, StepView) {
    if owned(current, root, active) {
        (Stage::Journal, StepView::WriteJournal)
    } else {
        (Stage::Finished, finish(false, false, Err(msg_changed())))
    }
}

/// The step after a file operation of `stage` reported `r`; `failure` is
/// the database error being rolled back in `Undo`.
pub open spec fn after_report(
    stage: Stage,
    r: Result<(), Seq<char>>,
    next: DatabaseView,
    current: IntegrationView,
    failure: Seq<char>,
) -> (Stage, StepView, Seq<char>) {
    match (stage, r) {
        (Stage::Plain, Ok(())) => (Stage::Finished, finish(true, false, Ok(())), failure),
        (Stage::Plain, Err(e)) => (Stage::Finished, finish(false, false, Err(e)), failure),
        (Stage::Journal, Ok(())) => (
            Stage::Active,
            StepView::WriteActive(next.integration.expected_active),
            failure,
        ),
        (Stage::Journal, Err(e)) => (Stage::Finished, finish(false, false, Err(e)), failure),
        (Stage::Active, Ok(())) => (Stage::Commit, StepView::WriteDatabase, failure),
        (Stage::Active, Err(e)) => (Stage::Finished, finish(false, true, Err(msg_apply(e))), failure),
        (Stage::Commit, Ok(())) => (Stage::Finished, finish(true, true, Ok(())), failure),
        (Stage::Commit, Err(e)) => (Stage::Undo, StepView::WriteActive(current.expected_active), e),
        (Stage::Undo, Ok(())) => (
            Stage::Finished,
            finish(false, true, Err(msg_selection(failure))),
            failure,
        ),
        (Stage::Undo, Err(_)) => (
            Stage::Finished,
            finish(false, false, Err(msg_selection(failure))),
            failure,
        ),
        _ => (stage, StepView::WriteDatabase, failure),
    }
}

/// Stages that wait for the report of a file operation.
pub open spec fn reporting(s: Stage) -> bool {
    s == Stage::Plain || s == Stage::Journal || s == Stage::Active || s == Stage::Commit || s
        == Stage::Undo
}

/// How many more reports a save can take before it is finished.
pub open spec fn remaining(s: Stage) -> nat {
    match s {
        Stage::Owner => 5,
        Stage::Journal => 4,
        Stage::Active => 3,
        Stage::Commit => 2,
        Stage::Undo => 1,
        Stage::Plain => 1,
        Stage::Finished => 0,
    }
}

impl Save {
    /// What is being saved is a valid database.
    pub open spec fn wf(&self) -> bool {
        self.stage != Stage::Finished ==> database_valid(self.next@)
    }

    /// Starts saving `next` over `current`. An invalid database is refused at
    /// once with its message; otherwise a change that applies to installed
    /// integration starts with the ownership check, any other with the
    /// database write.
    pub fn begin(current: &Database, next: Database, apply: bool) -> (r: (Save, SaveStep))
        ensures
            r.0.wf(),
            r.0.next@ == next@,
            r.0.current@ == current.integration@,
            (r.0.stage, r.1@) == start(next@, apply),
    {
        let check = validate_database(&next);
        let current = current.integration.copied();
        match check {
            Err(m) => {
                let s = Save { current, next, stage: Stage::Finished, failure: String::new() };
                (s, SaveStep::Finish { commit: false, remove_journal: false, result: Err(m) })
            },
            Ok(()) => {
                if apply && next.integration.installed {
                    let s = Save { current, next, stage: Stage::Owner, failure: String::new() };
                    (s, SaveStep::CheckOwnership)
                } else {
                    let s = Save { current, next, stage: Stage::Plain, failure: String::new() };
                    (s, SaveStep::WriteDatabase)
                }
            },
        }
    }

    /// Takes the contents of the root and active APO files (`None` where a
    /// file could not be read) after `CheckOwnership`.
    pub fn owned(&mut self, root: &Option<String>, active: &Option<String>) -> (r: SaveStep)
        requires
            old(self).stage == Stage::Owner,
            old(self).wf(),
        ensures
            final(self).wf(),
            final(self).next@ == old(self).next@,
            final(self).current@ == old(self).current@,
            final(self).failure@ == old(self).failure@,
            (final(self).stage, r@) == after_owner(old(self).current@, opt_view(*root), opt_view(*active)),
    {
        if ownership_ok(&self.current, root, active) {
            self.stage = Stage::Journal;
            SaveStep::WriteJournal
        } else {
            self.stage = Stage::Finished;
            SaveStep::Finish {
                commit: false,
                remove_journal: false,
                result: Err(text("APO configuration changed outside Ananda Control. Open Diagnostics to review and repair.")),
            }
        }
    }

    /// Takes how the file operation asked for last went.
    pub fn reported(&mut self, r: Result<(), String>) -> (s: SaveStep)
        requires
            reporting(old(self).stage),
            old(self).wf(),
        ensures
            final(self).wf(),
            final(self).next@ == old(self).next@,
            final(self).current@ == old(self).current@,
            (final(self).stage, s@, final(self).failure@) == after_report(
                old(self).stage,
                result_view(r),
                old(self).next@,
                old(self).current@,
                old(self).failure@,
            ),
    {
        match (self.stage, r) {
            (Stage::Plain, Ok(())) => {
                self.stage = Stage::Finished;
                SaveStep::Finish { commit: true, remove_journal: false, result: Ok(()) }
            },
            (Stage::Plain, Err(e)) => {
                self.stage = Stage::Finished;
                SaveStep::Finish { commit: false, remove_journal: false, result: Err(e) }
            },
            (Stage::Journal, Ok(())) => {
                self.stage = Stage::Active;
                SaveStep::WriteActive(self.next.integration.expected_active.clone())
            },
            (Stage::Journal, Err(e)) => {
                self.stage = Stage::Finished;
                SaveStep::Finish { commit: false, remove_journal: false, result: Err(e) }
            },
            (Stage::Active, Ok(())) => {
                self.stage = Stage::Commit;
                SaveStep::WriteDatabase
            },
            (Stage::Active, Err(e)) => {
                self.stage = Stage::Finished;
                let mut m = text("Could not apply EQ: ");
                m.append(e.as_str());
                SaveStep::Finish { commit: false, remove_journal: true, result: Err(m) }
            },
            (Stage::Commit, Ok(())) => {
                self.stage = Stage::Finished;
                SaveStep::Finish { commit: true, remove_journal: true, result: Ok(()) }
            },
            (Stage::Commit, Err(e)) => {
                self.stage = Stage::Undo;
                self.failure = e;
                SaveStep::WriteActive(self.current.expected_active.clone())
            },
            (_, undone) => {
                self.stage = Stage::Finished;
                let mut m = text("Could not save selection: ");
                m.append(self.failure.as_str());
                m.append(". Recovery journal retained if rollback was unsuccessful.");
                SaveStep::Finish {
                    commit: false,
                    remove_journal: undone.is_ok(),
                    result: Err(m),
                }
            },
        }
    }
}

/// A save replaces the stored database exactly when it succeeds: every step
/// that ends a save commits if and only if its result is `Ok`, whatever the
/// file operations reported.
pub proof fn commit_iff_success(
    next: DatabaseView,
    apply: bool,
    current: IntegrationView,
    root: Option<Seq<char>>,
    active: Option<Seq<char>>,
    stage: Stage,
    r: Result<(), Seq<char>>,
    failure: Seq<char>,
)
    requires
        reporting(stage),
    ensures
        start(next, apply).1 matches StepView::Finish { commit, result, .. } ==> (commit <==> result is Ok),
        after_owner(current, root, active).1 matches StepView::Finish { commit, result, .. } ==> (commit
            <==> result is Ok),
        after_report(stage, r, next, current, failure).1 matches StepView::Finish { commit, result, .. }
            ==> (commit <==> result is Ok),
{
}

/// Only a valid database is ever committed: a save of an invalid database
/// finishes at once, without committing and with the validation message.
pub proof fn invalid_never_committed(next: DatabaseView, apply: bool)
    requires
        database_error(next) is Some,
    ensures
        start(next, apply) == (Stage::Finished, finish(false, false, Err(database_error(next)->0))),
{
}

/// APO is written only after the ownership check passed and the journal
/// was written: the only report that leads to writing the new active text
/// is a successful journal write, and the only way into the journal stage
/// is a passed ownership check.
pub proof fn journal_before_active(
    stage: Stage,
    r: Result<(), Seq<char>>,
    next: DatabaseView,
    current: IntegrationView,
    failure: Seq<char>,
    root: Option<Seq<char>>,
    active: Option<Seq<char>>,
)
    requires
        reporting(stage),
    ensures
        after_report(stage, r, next, current, failure).0 == Stage::Active ==> stage == Stage::Journal
            && r is Ok,
        after_report(stage, r, next, current, failure).0 != Stage::Journal,
        after_owner(current, root, active).0 == Stage::Journal ==> owned(current, root, active),
{
}

/// Every save ends: each report moves it to a stage with fewer reports left,
/// so no save takes more than five reports after its first step.
pub proof fn save_terminates(
    stage: Stage,
    r: Result<(), Seq<char>>,
    next: DatabaseView,
    current: IntegrationView,
    failure: Seq<char>,
    root: Option<Seq<char>>,
    active: Option<Seq<char>>,
    apply: bool,
)
    requires
        reporting(stage),
    ensures
        remaining(after_report(stage, r, next, current, failure).0) < remaining(stage),
        remaining(after_owner(current, root, active).0) < remaining(Stage::Owner),
        remaining(start(next, apply).0) <= 5,
{
}

/// A change made outside the application blocks the transaction before
/// anything is written: the save ends with the conflict message and commits
/// nothing.
pub proof fn external_change_blocks(current: IntegrationView, root: Option<Seq<char>>, active: Option<Seq<char>>)
    requires
        !owned(current, root, active),
    ensures
        after_owner(current, root, active) == (Stage::Finished, finish(false, false, Err(msg_changed()))),
{
}

/// A failed database write after the new APO text was written puts the
/// previous APO text back before the save ends; the save fails either way,
/// and the journal is kept when the rollback failed.
pub proof fn failed_commit_restores(next: DatabaseView, current: IntegrationView, e: Seq<char>, failure: Seq<char>, undo: Result<(), Seq<char>>)
    ensures
        after_report(Stage::Commit, Err(e), next, current, failure) == (
            Stage::Undo,
            StepView::WriteActive(current.expected_active),
            e,
        ),
        after_report(Stage::Undo, undo, next, current, e).1 == finish(
            false,
            undo is Ok,
            Err(msg_selection(e)),
        ),
{
}

/// The stored database stays valid: a save commits only a valid database.
pub proof fn commit_only_valid(s: Save, r: Result<(), Seq<char>>)
    requires
        s.wf(),
        reporting(s.stage),
    ensures
        after_report(s.stage, r, s.next@, s.current@, s.failure@).1 matches StepView::Finish {
            commit,
            ..
        } ==> (commit ==> database_valid(s.next@)),
{
}

// ---------------------------------------------------------------------------
// Opening
// ---------------------------------------------------------------------------
/// The stored database as read from its file: a file that could not be
/// read or parsed gives its error, and a parsed database must also be valid.
pub fn loaded(parsed: Result<Database, String>) -> (r: Result<Database, String>)
    ensures
        match parsed {
            Err(e) => r is Err && r->Err_0@ == e@,
            Ok(db) => match database_error(db@) {
                Some(m) => r is Err && r->Err_0@ == m,
                None => r is Ok && r->Ok_0@ == db@,
            },
        },
{
    match parsed {
        Err(e) => Err(e),
        Ok(db) => match validate_database(&db) {
            Err(m) => Err(m),
            Ok(()) => Ok(db),
        },
    }
}

pub open spec fn msg_corrupt(e: Seq<char>, backup: Seq<char>) -> Seq<char> {
    "Saved data could not be loaded: "@ + e + ". Preserved at "@ + backup
        + ". Integration has not been changed."@
}

/// The startup message for a database file that could not be loaded and was
/// copied to `backup`.
pub fn corrupt_message(e: &str, backup: &str) -> (r: String)
    ensures
        r@ == msg_corrupt(e@, backup@),
{
    let mut m = text("Saved data could not be loaded: ");
    m.append(e);
    m.append(". Preserved at ");
    m.append(backup);
    m.append(". Integration has not been changed.");
    m
}

/// What to do with a transaction journal found at startup.
pub enum Recovery {
    /// The transaction reached APO: store its database, then remove the
    /// journal.
    Adopt(Database),
    /// The transaction never reached APO: remove the journal.
    Discard,
    /// Keep the journal and report this at startup.
    Keep(String),
}

pub enum RecoveryView {
    Adopt(DatabaseView),
    Discard,
    Keep(Seq<char>),
}

impl View for Recovery {
    type V = RecoveryView;

    open spec fn view(&self) -> RecoveryView {
        match self {
            Recovery::Adopt(db) => RecoveryView::Adopt(db@),
            Recovery::Discard => RecoveryView::Discard,
            Recovery::Keep(m) => RecoveryView::Keep(m@),
        }
    }
}

pub open spec fn msg_unreadable_journal() -> Seq<char> {
    "An unreadable transaction journal was preserved. Review configuration before repair."@
}

pub open spec fn msg_conflict() -> Seq<char> {
    "An interrupted update conflicts with the current APO file. Review diagnostics before repairing."@
}

/// The decision for a journal (`None` when it could not be read or parsed)
/// given the text now in the active APO file (empty when unreadable).
pub open spec fn recovery_of(j: Option<JournalView>, actual: Seq<char>) -> RecoveryView {
    match j {
        Some(j) => if database_error(j.next) is Some {
            RecoveryView::Keep(msg_unreadable_journal())
        } else if actual == j.next.integration.expected_active {
            RecoveryView::Adopt(j.next)
        } else if actual == j.old_active {
            RecoveryView::Discard
        } else {
            RecoveryView::Keep(msg_conflict())
        },
        None => RecoveryView::Keep(msg_unreadable_journal()),
    }
}

pub open spec fn journal_view(j: Option<Journal>) -> Option<JournalView> {
    match j {
        Some(j) => Some(j@),
        None => None,
    }
}

pub fn recover(journal: Option<Journal>, actual: &String) -> (r: Recovery)
    ensures
        r@ == recovery_of(journal_view(journal), actual@),
{
    match journal {
        None => Recovery::Keep(text("An unreadable transaction journal was preserved. Review configuration before repair.")),
        Some(j) => {
            if validate_database(&j.next).is_err() {
                Recovery::Keep(text("An unreadable transaction journal was preserved. Review configuration before repair."))
            } else if *actual == j.next.integration.expected_active {
                Recovery::Adopt(j.next)
            } else if *actual == j.old_active {
                Recovery::Discard
            } else {
                Recovery::Keep(text("An interrupted update conflicts with the current APO file. Review diagnostics before repairing."))
            }
        },
    }
}

/// Recovery never brings in an invalid database, and it completes an
/// interrupted commit exactly when APO already holds its active text.
pub proof fn recovery_adopts_valid(j: JournalView, actual: Seq<char>)
    ensures
        recovery_of(Some(j), actual) matches RecoveryView::Adopt(db) ==> database_valid(db) && db == j.next,
        database_valid(j.next) && actual == j.next.integration.expected_active ==> recovery_of(
            Some(j),
            actual,
        ) == RecoveryView::Adopt(j.next),
{
}

} // verus!
