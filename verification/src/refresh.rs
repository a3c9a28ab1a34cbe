//! Bringing the backups of tracked files up to date: the decisions taken for
//! each entry, as a step function driven by what the file system reports, and
//! the changes the outcomes make to the tracking list.
use vstd::prelude::*;
use crate::entry::{
    opt_text,
    FieldView, with_field, lemma_field_of_with_field,
    EntryView, StoredEntry, text_of, with_text, entries_view, location_key, backup_location_key,
    hash_key, backup_hash_key, text_field, set_text_field, key_location, key_backup_location,
    key_hash, key_backup_hash,
};
use crate::location::str_eq;

verus! {

/// How the refresh of one tracked entry ended.
#[derive(Debug, Clone, PartialEq, Eq)]
pub enum UpdateOutcome {
    /// The entry has no location string.
    InvalidEntry,
    /// The file at this location exists, but its entry has no backup
    /// location string.
    MissingBackupLocation(String),
    /// The tracked file at this location no longer exists; the entry goes.
    SourceMissing(String),
    /// The tracked file at this location could not be hashed.
    HashFailed(String),
    /// The backup already has the file's hash.
    UpToDate,
    /// The directory of this backup could not be created, for this reason.
    DirCreateFailed(String, String),
    /// The file could not be copied to this backup, for this reason.
    CopyFailed(String, String),
    /// The backup was rewritten; the file's hash is now this one.
    Refreshed(String),
}

pub enum OutcomeView {
    InvalidEntry,
    MissingBackupLocation(Seq<char>),
    SourceMissing(Seq<char>),
    HashFailed(Seq<char>),
    UpToDate,
    DirCreateFailed(Seq<char>, Seq<char>),
    CopyFailed(Seq<char>, Seq<char>),
    Refreshed(Seq<char>),
}

impl View for UpdateOutcome {
    type V = OutcomeView;

    open spec fn view(&self) -> OutcomeView {
        match self {
            UpdateOutcome::InvalidEntry => OutcomeView::InvalidEntry,
            UpdateOutcome::MissingBackupLocation(s) => OutcomeView::MissingBackupLocation(s@),
            UpdateOutcome::SourceMissing(s) => OutcomeView::SourceMissing(s@),
            UpdateOutcome::HashFailed(s) => OutcomeView::HashFailed(s@),
            UpdateOutcome::UpToDate => OutcomeView::UpToDate,
            UpdateOutcome::DirCreateFailed(b, e) => OutcomeView::DirCreateFailed(b@, e@),
            UpdateOutcome::CopyFailed(b, e) => OutcomeView::CopyFailed(b@, e@),
            UpdateOutcome::Refreshed(h) => OutcomeView::Refreshed(h@),
        }
    }
}

/// Where the refresh of one entry stands, with the file's location, its
/// backup's location and, once known, the file's hash. Each step but the
/// last names what the caller does next.
#[derive(Debug, Clone, PartialEq, Eq)]
pub enum RefreshStep {
    /// Find out whether the file exists as a regular file.
    CheckSource(String, String),
    /// Find out whether the file of an entry without a backup location
    /// exists as a regular file.
    CheckUnbacked(String),
    /// Hash the file.
    HashSource(String, String),
    /// Hash the backup.
    HashBackup(String, String, String),
    /// Create the directory that holds the backup, where the backup has one.
    PrepareDir(String, String, String),
    /// Copy the file over its backup.
    CopyToBackup(String, String, String),
    /// Nothing more to do.
    Done(UpdateOutcome),
}

pub enum StepView {
    CheckSource(Seq<char>, Seq<char>),
    CheckUnbacked(Seq<char>),
    HashSource(Seq<char>, Seq<char>),
    HashBackup(Seq<char>, Seq<char>, Seq<char>),
    PrepareDir(Seq<char>, Seq<char>, Seq<char>),
    CopyToBackup(Seq<char>, Seq<char>, Seq<char>),
    Done(OutcomeView),
}

impl View for RefreshStep {
    type V = StepView;

    open spec fn view(&self) -> StepView {
        match self {
            RefreshStep::CheckSource(s, b) => StepView::CheckSource(s@, b@),
            RefreshStep::CheckUnbacked(s) => StepView::CheckUnbacked(s@),
            RefreshStep::HashSource(s, b) => StepView::HashSource(s@, b@),
            RefreshStep::HashBackup(s, b, h) => StepView::HashBackup(s@, b@, h@),
            RefreshStep::PrepareDir(s, b, h) => StepView::PrepareDir(s@, b@, h@),
            RefreshStep::CopyToBackup(s, b, h) => StepView::CopyToBackup(s@, b@, h@),
            RefreshStep::Done(o) => StepView::Done(o@),
        }
    }
}

/// What the caller found out when it did what a step named.
#[derive(Debug, Clone, PartialEq, Eq)]
pub enum RefreshEvent {
    /// Whether the file exists as a regular file.
    SourceChecked(bool),
    /// The file's hash, if it could be computed.
    SourceHashed(Option<String>),
    /// The backup's hash, if it could be computed.
    BackupHashed(Option<String>),
    /// The backup's directory exists (or the backup has none).
    DirReady,
    /// The backup's directory could not be created, for this reason.
    DirFailed(String),
    /// The file was copied over its backup.
    Copied,
    /// The copy failed, for this reason.
    CopyFailed(String),
}

pub enum EventView {
    SourceChecked(bool),
    SourceHashed(Option<Seq<char>>),
    BackupHashed(Option<Seq<char>>),
    DirReady,
    DirFailed(Seq<char>),
    Copied,
    CopyFailed(Seq<char>),
}

impl View for RefreshEvent {
    type V = EventView;

    open spec fn view(&self) -> EventView {
        match self {
            RefreshEvent::SourceChecked(b) => EventView::SourceChecked(*b),
            RefreshEvent::SourceHashed(h) => EventView::SourceHashed(opt_text(*h)),
            RefreshEvent::BackupHashed(h) => EventView::BackupHashed(opt_text(*h)),
            RefreshEvent::DirReady => EventView::DirReady,
            RefreshEvent::DirFailed(e) => EventView::DirFailed(e@),
            RefreshEvent::Copied => EventView::Copied,
            RefreshEvent::CopyFailed(e) => EventView::CopyFailed(e@),
        }
    }
}

/// The first step for an entry: it needs a location string; with a backup
/// location string too, the file is checked for a refresh, without one only
/// for its existence.
pub open spec fn refresh_first(e: EntryView) -> StepView {
    match text_of(e, location_key()) {
        None => StepView::Done(OutcomeView::InvalidEntry),
        Some(s) => match text_of(e, backup_location_key()) {
            None => StepView::CheckUnbacked(s),
            Some(b) => StepView::CheckSource(s, b),
        },
    }
}

/// Whether an event answers what a step asked for.
pub open spec fn answers(s: StepView, e: EventView) -> bool {
    match s {
        StepView::CheckSource(..) => e is SourceChecked,
        StepView::CheckUnbacked(..) => e is SourceChecked,
        StepView::HashSource(..) => e is SourceHashed,
        StepView::HashBackup(..) => e is BackupHashed,
        StepView::PrepareDir(..) => e is DirReady || e is DirFailed,
        StepView::CopyToBackup(..) => e is Copied || e is CopyFailed,
        StepView::Done(_) => false,
    }
}

/// The step that follows a step once its event is known.
pub open spec fn refresh_transition(s: StepView, e: EventView) -> StepView {
    match (s, e) {
        (StepView::CheckSource(src, b), EventView::SourceChecked(present)) => if present {
            StepView::HashSource(src, b)
        } else {
            StepView::Done(OutcomeView::SourceMissing(src))
        },
        (StepView::CheckUnbacked(src), EventView::SourceChecked(present)) => if present {
            StepView::Done(OutcomeView::MissingBackupLocation(src))
        } else {
            StepView::Done(OutcomeView::SourceMissing(src))
        },
        (StepView::HashSource(src, b), EventView::SourceHashed(h)) => match h {
            Some(h) => StepView::HashBackup(src, b, h),
            None => StepView::Done(OutcomeView::HashFailed(src)),
        },
        (StepView::HashBackup(src, b, h), EventView::BackupHashed(bh)) => if bh == Some(h) {
            StepView::Done(OutcomeView::UpToDate)
        } else {
            StepView::PrepareDir(src, b, h)
        },
        (StepView::PrepareDir(src, b, h), EventView::DirReady) => StepView::CopyToBackup(src, b, h),
        (StepView::PrepareDir(_, b, _), EventView::DirFailed(err)) => StepView::Done(
            OutcomeView::DirCreateFailed(b, err),
        ),
        (StepView::CopyToBackup(_, _, h), EventView::Copied) => StepView::Done(
            OutcomeView::Refreshed(h),
        ),
        (StepView::CopyToBackup(_, b, _), EventView::CopyFailed(err)) => StepView::Done(
            OutcomeView::CopyFailed(b, err),
        ),
        _ => s,
    }
}

/// The first step of refreshing the backup of a tracked entry.
pub fn refresh_start(e: &StoredEntry) -> (r: RefreshStep)
    ensures
        r@ == refresh_first(e@),
{
    match text_field(e, key_location()) {
        None => RefreshStep::Done(UpdateOutcome::InvalidEntry),
        Some(s) => match text_field(e, key_backup_location()) {
            None => RefreshStep::CheckUnbacked(s),
            Some(b) => RefreshStep::CheckSource(s, b),
        },
    }
}

/// The step that follows `step` once the caller reports `event`.
pub fn refresh_next(step: RefreshStep, event: RefreshEvent) -> (r: RefreshStep)
    requires
        answers(step@, event@),
    ensures
        r@ == refresh_transition(step@, event@),
{
    match (step, event) {
        (RefreshStep::CheckSource(s, b), RefreshEvent::SourceChecked(present)) => {
            if present {
                RefreshStep::HashSource(s, b)
            } else {
                RefreshStep::Done(UpdateOutcome::SourceMissing(s))
            }
        },
        (RefreshStep::CheckUnbacked(s), RefreshEvent::SourceChecked(present)) => {
            if present {
                RefreshStep::Done(UpdateOutcome::MissingBackupLocation(s))
            } else {
                RefreshStep::Done(UpdateOutcome::SourceMissing(s))
            }
        },
        (RefreshStep::HashSource(s, b), RefreshEvent::SourceHashed(h)) => match h {
            Some(h) => RefreshStep::HashBackup(s, b, h),
            None => RefreshStep::Done(UpdateOutcome::HashFailed(s)),
        },
        (RefreshStep::HashBackup(s, b, h), RefreshEvent::BackupHashed(bh)) => {
            let same = match &bh {
                Some(bh) => str_eq(bh.as_str(), h.as_str()),
                None => false,
            };
            if same {
                RefreshStep::Done(UpdateOutcome::UpToDate)
            } else {
                RefreshStep::PrepareDir(s, b, h)
            }
        },
        (RefreshStep::PrepareDir(s, b, h), RefreshEvent::DirReady) => RefreshStep::CopyToBackup(
            s,
            b,
            h,
        ),
        (RefreshStep::PrepareDir(_, b, _), RefreshEvent::DirFailed(err)) => RefreshStep::Done(
            UpdateOutcome::DirCreateFailed(b, err),
        ),
        (RefreshStep::CopyToBackup(_, _, h), RefreshEvent::Copied) => RefreshStep::Done(
            UpdateOutcome::Refreshed(h),
        ),
        (RefreshStep::CopyToBackup(_, b, _), RefreshEvent::CopyFailed(err)) => RefreshStep::Done(
            UpdateOutcome::CopyFailed(b, err),
        ),
        (step, _) => step,
    }
}

/// An entry after its outcome: a refreshed entry records the new hash as the
/// hash of the file and of its backup.
pub open spec fn refreshed_entry(e: EntryView, o: OutcomeView) -> EntryView {
    match o {
        OutcomeView::Refreshed(h) => with_text(with_text(e, hash_key(), h), backup_hash_key(), h),
        _ => e,
    }
}

pub open spec fn outcomes_view(os: Seq<UpdateOutcome>) -> Seq<OutcomeView> {
    os.map_values(|o: UpdateOutcome| o@)
}

/// The tracking list after the outcomes, one per entry in order: entries whose
/// file is gone are dropped, refreshed entries take their new hash.
pub open spec fn after_refresh(es: Seq<EntryView>, os: Seq<OutcomeView>) -> Seq<EntryView>
    decreases es.len(),
{
    if es.len() == 0 || os.len() == 0 {
        Seq::empty()
    } else if os.last() is SourceMissing {
        after_refresh(es.drop_last(), os.drop_last())
    } else {
        after_refresh(es.drop_last(), os.drop_last()).push(refreshed_entry(es.last(), os.last()))
    }
}

/// Whether the outcomes change the tracking list.
pub open spec fn changes_list(os: Seq<OutcomeView>) -> bool {
    exists|i: int| 0 <= i < os.len() && (os[i] is SourceMissing || os[i] is Refreshed)
}

/// Applies the outcomes of a refresh, one per entry in order, to the tracking
/// list, and tells whether anything changed.
pub fn apply_update_outcomes(tracked_files: Vec<StoredEntry>, outcomes: &Vec<UpdateOutcome>) -> (r: (
    Vec<StoredEntry>,
    bool,
))
    requires
        outcomes@.len() == tracked_files@.len(),
    ensures
        entries_view(r.0@) == after_refresh(entries_view(tracked_files@), outcomes_view(outcomes@)),
        r.1 == changes_list(outcomes_view(outcomes@)),
{
    let ghost es = entries_view(tracked_files@);
    let ghost os = outcomes_view(outcomes@);
    let ghost total = tracked_files@.len();
    let mut result: Vec<StoredEntry> = Vec::new();
    let mut changed = false;
    let mut rest = tracked_files;
    let mut i: usize = 0;
    while rest.len() > 0
        invariant
            total == es.len(),
            total == os.len(),
            os == outcomes_view(outcomes@),
            total == outcomes@.len(),
            i + rest@.len() == total,
            entries_view(result@) == after_refresh(es.take(i as int), os.take(i as int)),
            forall|j: int| 0 <= j < rest@.len() ==> rest@[j]@ == es[i + j],
            changed == exists|j: int|
                0 <= j < i && (os[j] is SourceMissing || os[j] is Refreshed),
        decreases rest@.len(),
    {
        let mut e = rest.remove(0);
        assert(es.take(i + 1).drop_last() =~= es.take(i as int));
        assert(os.take(i + 1).drop_last() =~= os.take(i as int));
        assert(os[i as int] == outcomes@[i as int]@);
        let ghost before = entries_view(result@);
        match &outcomes[i] {
            UpdateOutcome::SourceMissing(_) => {
                changed = true;
            },
            UpdateOutcome::Refreshed(h) => {
                set_text_field(&mut e, key_hash(), h.clone());
                set_text_field(&mut e, key_backup_hash(), h.clone());
                result.push(e);
                assert(entries_view(result@) =~= before.push(refreshed_entry(es[i as int], os[i as int])));
                changed = true;
            },
            _ => {
                result.push(e);
                assert(entries_view(result@) =~= before.push(refreshed_entry(es[i as int], os[i as int])));
            },
        }
        assert(i < outcomes.len());
        i = i + 1;
    }
    assert(es.take(i as int) =~= es);
    assert(os.take(i as int) =~= os);
    (result, changed)
}

pub open spec fn missing_count(os: Seq<OutcomeView>) -> nat
    decreases os.len(),
{
    if os.len() == 0 {
        0
    } else {
        missing_count(os.drop_last()) + if os.last() is SourceMissing {
            1nat
        } else {
            0nat
        }
    }
}

/// A refresh pass keeps every entry whose file still exists and drops the
/// others: the list shrinks by exactly the number of files found missing.
pub proof fn law_refresh_drops_only_missing(es: Seq<EntryView>, os: Seq<OutcomeView>)
    requires
        es.len() == os.len(),
    ensures
        after_refresh(es, os).len() + missing_count(os) == es.len(),
    decreases es.len(),
{
    if es.len() > 0 {
        law_refresh_drops_only_missing(es.drop_last(), os.drop_last());
    }
}

/// A refresh pass in which no file is missing and no backup is rewritten
/// leaves the tracking list as it was, and reports no change.
pub proof fn law_refresh_without_change(es: Seq<EntryView>, os: Seq<OutcomeView>)
    requires
        es.len() == os.len(),
        !changes_list(os),
    ensures
        after_refresh(es, os) == es,
    decreases es.len(),
{
    if es.len() > 0 {
        assert(!changes_list(os.drop_last())) by {
            if changes_list(os.drop_last()) {
                let i = choose|i: int|
                    0 <= i < os.drop_last().len() && (os.drop_last()[i] is SourceMissing
                        || os.drop_last()[i] is Refreshed);
                assert(os[i] == os.drop_last()[i]);
            }
        }
        law_refresh_without_change(es.drop_last(), os.drop_last());
        assert(!(os[os.len() - 1] is SourceMissing || os[os.len() - 1] is Refreshed));
        assert(es.drop_last().push(es.last()) =~= es);
    }
}

/// After its backup is rewritten, an entry records the new hash both as the
/// file's hash and as the backup's hash.
pub proof fn law_refreshed_hashes(e: EntryView, h: Seq<char>)
    requires
        e is Object,
    ensures
        text_of(refreshed_entry(e, OutcomeView::Refreshed(h)), hash_key()) == Some(h),
        text_of(refreshed_entry(e, OutcomeView::Refreshed(h)), backup_hash_key()) == Some(h),
{
    let fs = e->Object_0;
    let once = with_field(fs, hash_key(), FieldView::Text(h));
    lemma_field_of_with_field(fs, hash_key(), FieldView::Text(h), hash_key());
    lemma_field_of_with_field(once, backup_hash_key(), FieldView::Text(h), hash_key());
    lemma_field_of_with_field(once, backup_hash_key(), FieldView::Text(h), backup_hash_key());
}

/// The position of a step on the way to `Done`.
pub open spec fn steps_left(s: StepView) -> nat {
    match s {
        StepView::CheckSource(..) => 5,
        StepView::CheckUnbacked(..) => 1,
        StepView::HashSource(..) => 4,
        StepView::HashBackup(..) => 3,
        StepView::PrepareDir(..) => 2,
        StepView::CopyToBackup(..) => 1,
        StepView::Done(_) => 0,
    }
}

/// An entry with a location whose file is gone is dropped by the refresh,
/// whether or not it records a backup location.
pub proof fn law_missing_file_dropped(e: EntryView, src: Seq<char>)
    requires
        text_of(e, location_key()) == Some(src),
    ensures
        refresh_first(e) is CheckSource || refresh_first(e) is CheckUnbacked,
        refresh_transition(refresh_first(e), EventView::SourceChecked(false)) == StepView::Done(
            OutcomeView::SourceMissing(src),
        ),
        after_refresh(seq![e], seq![OutcomeView::SourceMissing(src)]).len() == 0,
{
    let es = seq![e];
    let os = seq![OutcomeView::SourceMissing(src)];
    assert(os.last() is SourceMissing);
    assert(es.drop_last().len() == 0);
    assert(after_refresh(es.drop_last(), os.drop_last()).len() == 0);
}

/// Every answered step moves closer to `Done`: a refresh ends after at most
/// five reports from the caller.
pub proof fn law_refresh_progresses(s: StepView, e: EventView)
    requires
        answers(s, e),
    ensures
        steps_left(refresh_transition(s, e)) < steps_left(s),
{
}

/// A backup is rewritten only after the file was hashed, its backup's hash
/// differed, its directory was ready and the copy succeeded; a backup whose
/// hash matches the file's is left alone.
pub proof fn law_refresh_copies_only_stale(src: Seq<char>, b: Seq<char>, h: Seq<char>, bh: Option<Seq<char>>)
    ensures
        bh == Some(h) ==> refresh_transition(
            StepView::HashBackup(src, b, h),
            EventView::BackupHashed(bh),
        ) == StepView::Done(OutcomeView::UpToDate),
        bh != Some(h) ==> refresh_transition(
            StepView::HashBackup(src, b, h),
            EventView::BackupHashed(bh),
        ) == StepView::PrepareDir(src, b, h),
{
}

/// Ends an update pass: applies the refresh outcomes to the tracking list,
/// and tells whether the list must be written back: exactly when the scan for
/// new files added some, or an entry was dropped or took a new hash.
pub fn finish_update(
    tracked_files: Vec<StoredEntry>,
    outcomes: &Vec<UpdateOutcome>,
    found_new_files: bool,
) -> (r: (Vec<StoredEntry>, bool))
    requires
        outcomes@.len() == tracked_files@.len(),
    ensures
        entries_view(r.0@) == after_refresh(entries_view(tracked_files@), outcomes_view(outcomes@)),
        r.1 == (found_new_files || changes_list(outcomes_view(outcomes@))),
{
    let (entries, changed) = apply_update_outcomes(tracked_files, outcomes);
    (entries, found_new_files || changed)
}

/// An update pass that finds no new file and every backup up to date leaves
/// the list as it was and writes nothing.
pub proof fn law_quiet_update(es: Seq<EntryView>, os: Seq<OutcomeView>)
    requires
        es.len() == os.len(),
        forall|i: int| 0 <= i < os.len() ==> (#[trigger] os[i]) is UpToDate,
    ensures
        !changes_list(os),
        after_refresh(es, os) == es,
{
    law_refresh_without_change(es, os);
}

} // verus!
