//! Reconciling a store with a portable log.
//!
//! The log holds one record for each issue: the issue with its labels, its
//! comments and the edges that leave it. An export writes the records of
//! the dirty issues whose content has changed since they were last
//! written; an import takes the records of a log into a store and reports
//! the issues on which the store and the log have gone separate ways.

use vstd::prelude::*;
use vstd::string::*;
use crate::hash::{content_hash, sha256, sha256_hex};
use crate::index::{
    first_index, has_issue, is_first_index, lemma_first_index_exists, lemma_first_index_unique,
};
use crate::memory::{remove_source, MemoryStorage};
use crate::storage::now_micros;
use crate::store::{
    counter_past, dirty_ids, empty_store, file_hash_key, hashed, ref_conflict, reference_refused,
    unique_ids, unique_refs, without_source, StoreView,
};
use crate::text::{has_text, hex_lower, str_eq};
use crate::types::{EventType, Issue, IssueView};
use crate::validation::validation_error;

verus! {

/// What an export does with a dirty issue.
#[derive(Debug, Clone, Copy, PartialEq, Eq, Structural)]
pub enum ExportAction {
    /// The content is what was last written: nothing is written.
    Skip,
    /// The record is written.
    Write,
}

/// What an export does with an issue whose content has the hash `current`
/// and was last written with the hash `exported`.
pub open spec fn export_action(current: Seq<char>, exported: Option<Seq<char>>) -> ExportAction {
    if exported == Some(current) {
        ExportAction::Skip
    } else {
        ExportAction::Write
    }
}

/// Decides what an export does with a dirty issue.
pub fn export_decision(current: &str, exported: Option<&str>) -> (a: ExportAction)
    ensures
        a == export_action(
            current@,
            match exported {
                Some(e) => Some(e@),
                None => None,
            },
        ),
{
    match exported {
        Some(e) => {
            if str_eq(e, current) {
                ExportAction::Skip
            } else {
                ExportAction::Write
            }
        },
        None => ExportAction::Write,
    }
}

/// What an import does with a record.
#[derive(Debug, Clone, Copy, PartialEq, Eq, Structural)]
pub enum ImportAction {
    /// The store has no such issue: the record is taken in.
    Create,
    /// The store holds what was last exported: the record replaces it.
    Update,
    /// The store holds the content of the record, or the record is what
    /// was last exported and the store has moved on: the store stays.
    Keep,
    /// The store and the record both differ from what was last exported,
    /// and from each other: the store stays and the conflict is reported.
    Conflict,
}

/// What an import does with a record whose content has the hash
/// `incoming`, where the issue in the store, if there is one, has the hash
/// `current` and was last exported with the hash `exported`.
pub open spec fn import_action(
    incoming: Seq<char>,
    current: Option<Seq<char>>,
    exported: Option<Seq<char>>,
) -> ImportAction {
    if current is None {
        ImportAction::Create
    } else if current == Some(incoming) {
        ImportAction::Keep
    } else if exported == current {
        ImportAction::Update
    } else if exported == Some(incoming) {
        ImportAction::Keep
    } else {
        ImportAction::Conflict
    }
}

/// A conflict is reported exactly when the store holds the issue and the
/// three hashes differ from one another, a missing export hash differing
/// from both.
pub proof fn lemma_conflict_iff_diverged(
    incoming: Seq<char>,
    current: Option<Seq<char>>,
    exported: Option<Seq<char>>,
)
    ensures
        import_action(incoming, current, exported) == ImportAction::Conflict <==> (current is Some
            && current != Some(incoming) && exported != current && exported != Some(incoming)),
{
}

fn same_text(a: Option<&str>, b: &str) -> (same: bool)
    ensures
        same == match a {
            Some(t) => t@ == b@,
            None => false,
        },
{
    match a {
        Some(t) => str_eq(t, b),
        None => false,
    }
}

/// Decides what an import does with a record.
pub fn import_decision(incoming: &str, current: Option<&str>, exported: Option<&str>) -> (a:
    ImportAction)
    ensures
        a == import_action(
            incoming@,
            match current {
                Some(c) => Some(c@),
                None => None,
            },
            match exported {
                Some(e) => Some(e@),
                None => None,
            },
        ),
{
    match current {
        None => ImportAction::Create,
        Some(c) => {
            if str_eq(c, incoming) {
                ImportAction::Keep
            } else if same_text(exported, c) {
                ImportAction::Update
            } else if same_text(exported, incoming) {
                ImportAction::Keep
            } else {
                ImportAction::Conflict
            }
        },
    }
}

/// A log with the record of an issue put in: in place of the record with
/// the same id, or at the end where there is none.
pub open spec fn put(log: Seq<IssueView>, record: IssueView) -> Seq<IssueView> {
    if has_issue(log, record.id) {
        log.update(first_index(log, record.id), record)
    } else {
        log.push(record)
    }
}

/// What an export has done so far: the export hashes, the log, and the ids
/// of the records written.
pub struct ExportState {
    pub hashes: Map<Seq<char>, Seq<char>>,
    pub log: Seq<IssueView>,
    pub written: Seq<Seq<char>>,
}

/// The state of an export after one more dirty issue. A mark for an issue
/// that is gone writes nothing.
pub open spec fn export_step(issues: Seq<IssueView>, st: ExportState, id: Seq<char>) -> ExportState {
    if !has_issue(issues, id) {
        st
    } else {
        let record = issues[first_index(issues, id)];
        let exported = if st.hashes.contains_key(id) {
            Some(st.hashes[id])
        } else {
            None
        };
        match export_action(content_hash(record), exported) {
            ExportAction::Skip => st,
            ExportAction::Write => ExportState {
                hashes: st.hashes.insert(id, content_hash(record)),
                log: put(st.log, record),
                written: st.written.push(id),
            },
        }
    }
}

/// The state of an export after the first `k` dirty issues.
pub open spec fn export_upto(
    issues: Seq<IssueView>,
    dirty: Seq<Seq<char>>,
    start: ExportState,
    k: int,
) -> ExportState
    decreases k,
{
    if k <= 0 {
        start
    } else {
        export_step(issues, export_upto(issues, dirty, start, k - 1), dirty[k - 1])
    }
}

/// The outcome of an export of a store into a log.
pub open spec fn exported(s: StoreView, log: Seq<IssueView>) -> ExportState {
    export_upto(
        s.issues,
        dirty_ids(s.dirty),
        ExportState { hashes: s.export_hashes, log: log, written: Seq::empty() },
        s.dirty.len() as int,
    )
}

/// The store after an export: no issue is dirty, and the export hashes are
/// those of the records written.
pub open spec fn after_export(s: StoreView, log: Seq<IssueView>) -> StoreView {
    StoreView { dirty: Seq::empty(), export_hashes: exported(s, log).hashes, ..s }
}

/// What an import has done so far: the store, the ids of the issues
/// created, updated and kept, the conflicts as pairs of the issue in the
/// store and the record, and the records refused as pairs of an id and
/// what is wrong with the record.
pub struct ImportState {
    pub store: StoreView,
    pub created: Seq<Seq<char>>,
    pub updated: Seq<Seq<char>>,
    pub kept: Seq<Seq<char>>,
    pub conflicts: Seq<(IssueView, IssueView)>,
    pub rejected: Seq<(Seq<char>, Seq<char>)>,
}

/// What an import does with a record, going by the store.
pub open spec fn record_action(s: StoreView, record: IssueView) -> ImportAction {
    import_action(
        content_hash(record),
        if s.has(record.id) {
            Some(content_hash(s.issue(record.id)))
        } else {
            None
        },
        if s.export_hashes.contains_key(record.id) {
            Some(s.export_hashes[record.id])
        } else {
            None
        },
    )
}

/// The store with the export hash of a record noted.
pub open spec fn with_export_hash(s: StoreView, record: IssueView) -> StoreView {
    StoreView { export_hashes: s.export_hashes.insert(record.id, content_hash(record)), ..s }
}

/// The state of an import after one more record.
///
/// A record whose fields are not acceptable is refused and leaves the
/// store as it is, and so is a record whose external reference another
/// issue of the store carries. A record that is taken in, new or in place of the issue
/// in the store, comes with its labels, comments and edges and with the
/// hash of its content; the counter of comment ids is moved past the ids
/// of its comments, its export hash is noted, and the change is recorded
/// as an event. The issue is not marked dirty: the log holds it already.
pub open spec fn import_step(st: ImportState, record: IssueView, actor: Seq<char>, now: i64) -> ImportState {
    let s = st.store;
    if validation_error(record) is Some {
        ImportState { rejected: st.rejected.push((record.id, validation_error(record)->0)), ..st }
    } else if ref_conflict(s.issues, record) {
        ImportState {
            rejected: st.rejected.push((record.id, reference_refused(record.external_ref->0))),
            ..st
        }
    } else {
        import_step_valid(st, record, actor, now)
    }
}

/// The state of an import after one more record whose fields are
/// acceptable. A record that is created takes the place of the loose edges
/// that the store held for its id, as a record that updates an issue takes
/// the place of that issue's edges.
pub open spec fn import_step_valid(
    st: ImportState,
    record: IssueView,
    actor: Seq<char>,
    now: i64,
) -> ImportState {
    let s = st.store;
    match record_action(s, record) {
        ImportAction::Create => ImportState {
            store: with_export_hash(
                StoreView {
                    issues: s.issues.push(hashed(record)),
                    loose: without_source(s.loose, record.id, s.loose.len() as int),
                    next_comment_id: counter_past(s.next_comment_id, record.comments),
                    ..s
                },
                record,
            ).with_event(record.id, EventType::Created, actor, None, None, None, now),
            created: st.created.push(record.id),
            ..st
        },
        ImportAction::Update => ImportState {
            store: with_export_hash(
                StoreView {
                    next_comment_id: counter_past(s.next_comment_id, record.comments),
                    ..s.with_issue(s.position(record.id), hashed(record))
                },
                record,
            ).with_event(record.id, EventType::Updated, actor, None, None, None, now),
            updated: st.updated.push(record.id),
            ..st
        },
        ImportAction::Keep => ImportState { kept: st.kept.push(record.id), ..st },
        ImportAction::Conflict => ImportState {
            conflicts: st.conflicts.push((s.issue(record.id), record)),
            ..st
        },
    }
}

/// The state of an import after the first `k` records of a log.
pub open spec fn import_upto(
    start: ImportState,
    log: Seq<IssueView>,
    actor: Seq<char>,
    now: i64,
    k: int,
) -> ImportState
    decreases k,
{
    if k <= 0 {
        start
    } else {
        import_step(import_upto(start, log, actor, now, k - 1), log[k - 1], actor, now)
    }
}

/// The outcome of an import of a log into a store.
pub open spec fn imported(s: StoreView, log: Seq<IssueView>, actor: Seq<char>, now: i64) -> ImportState {
    import_upto(
        ImportState {
            store: s,
            created: Seq::empty(),
            updated: Seq::empty(),
            kept: Seq::empty(),
            conflicts: Seq::empty(),
            rejected: Seq::empty(),
        },
        log,
        actor,
        now,
        log.len() as int,
    )
}

/// An issue on which the store and the log have gone separate ways.
#[derive(Debug, Clone, PartialEq, Eq)]
pub struct ImportConflict {
    pub stored: Issue,
    pub incoming: Issue,
}

/// What an import has done.
#[derive(Debug, Clone, PartialEq, Eq)]
pub struct ImportSummary {
    pub created: Vec<String>,
    pub updated: Vec<String>,
    pub kept: Vec<String>,
    pub conflicts: Vec<ImportConflict>,
    /// The records refused, each with its id and what is wrong with it.
    pub rejected: Vec<(String, String)>,
}

/// The view of an import's summary as the state of the import, with the
/// store that the import has left.
pub open spec fn summary_state(store: StoreView, summary: ImportSummary) -> ImportState {
    ImportState {
        store: store,
        created: summary.created.deep_view(),
        updated: summary.updated.deep_view(),
        kept: summary.kept.deep_view(),
        conflicts: conflicts_view(summary.conflicts@),
        rejected: Seq::new(
            summary.rejected@.len(),
            |i: int| (summary.rejected@[i].0@, summary.rejected@[i].1@),
        ),
    }
}

/// The conflicts of a list as pairs of the issue in the store and the
/// record.
pub open spec fn conflicts_view(list: Seq<ImportConflict>) -> Seq<(IssueView, IssueView)> {
    Seq::new(list.len(), |i: int| (list[i].stored@, list[i].incoming@))
}

/// The counter of comment ids once it is moved past the comments of a
/// list.
pub fn counter_after(next: i64, comments: &Vec<crate::types::Comment>) -> (moved: i64)
    ensures
        moved == counter_past(next, comments.deep_view()),
{
    let ghost cv = comments.deep_view();
    let ghost floor: int = next - 1;
    let mut h: i128 = next as i128 - 1;
    let mut c: usize = 0;
    while c < comments.len()
        invariant
            c <= comments.len(),
            cv == comments.deep_view(),
            floor == next - 1,
            h == crate::store::highest_in(cv, floor, c as int),
            -0x8000_0000_0000_0000 - 1 <= h <= 0x7fff_ffff_ffff_ffff,
        decreases comments.len() - c,
    {
        assert(cv[c as int] == comments[c as int]@);
        if comments[c].id as i128 > h {
            h = comments[c].id as i128;
        }
        c = c + 1;
    }
    if h + 1 > 0x7fff_ffff_ffff_ffff {
        i64::MAX
    } else {
        (h + 1) as i64
    }
}

/// The position of the issue that stands for an id in a list.
pub fn position_of(issues: &Vec<Issue>, id: &String) -> (r: Option<usize>)
    ensures
        r is Some <==> has_issue(issues.deep_view(), id@),
        r is Some ==> r->0 == first_index(issues.deep_view(), id@) && is_first_index(
            issues.deep_view(),
            id@,
            r->0 as int,
        ),
{
    let ghost iv = issues.deep_view();
    let mut i: usize = 0;
    while i < issues.len()
        invariant
            i <= issues.len(),
            iv == issues.deep_view(),
            forall|k: int| 0 <= k < i ==> (#[trigger] iv[k]).id != id@,
        decreases issues.len() - i,
    {
        assert(iv[i as int] == issues[i as int]@);
        if issues[i].id == *id {
            proof {
                lemma_first_index_unique(iv, id@, i as int, i as int);
            }
            return Some(i);
        }
        i = i + 1;
    }
    None
}

/// Puts the record of an issue into a log.
pub fn put_record(log: &mut Vec<Issue>, record: Issue)
    ensures
        final(log).deep_view() == put(old(log).deep_view(), record@),
{
    let ghost before = log.deep_view();
    match position_of(log, &record.id) {
        Some(p) => {
            let ghost rv = record@;
            log[p] = record;
            assert(log.deep_view() =~= before.update(p as int, rv));
        },
        None => {
            let ghost rv = record@;
            log.push(record);
            assert(log.deep_view() =~= before.push(rv));
        },
    }
}

impl MemoryStorage {
    /// Exports the dirty issues into a log and returns the ids of the
    /// records written.
    ///
    /// Each dirty issue whose content has not the hash with which it was
    /// last written is written to the log, in place of its earlier record
    /// or at the end, and the hash is noted. In the end no issue is dirty.
    pub fn export(&mut self, log: &mut Vec<Issue>) -> (written: Vec<String>)
        ensures
            final(self)@ == after_export(old(self)@, old(log).deep_view()),
            final(log).deep_view() == exported(old(self)@, old(log).deep_view()).log,
            written.deep_view() == exported(old(self)@, old(log).deep_view()).written,
    {
        let ghost s0 = self@;
        let ghost start = ExportState {
            hashes: s0.export_hashes,
            log: log.deep_view(),
            written: Seq::empty(),
        };
        let mut written: Vec<String> = Vec::new();
        assert(written.deep_view() =~= Seq::<Seq<char>>::empty());
        let mut k: usize = 0;
        while k < self.dirty.len()
            invariant
                k <= self.dirty.len(),
                self@ == (StoreView { export_hashes: self@.export_hashes, ..s0 }),
                export_upto(s0.issues, dirty_ids(s0.dirty), start, k as int) == (ExportState {
                    hashes: self@.export_hashes,
                    log: log.deep_view(),
                    written: written.deep_view(),
                }),
            decreases self.dirty.len() - k,
        {
            let ghost st = export_upto(s0.issues, dirty_ids(s0.dirty), start, k as int);
            assert(s0.dirty[k as int] == self.dirty[k as int]@);
            assert(dirty_ids(s0.dirty)[k as int] == self.dirty[k as int].issue_id@);
            match position_of(&self.issues, &self.dirty[k].issue_id) {
                None => {},
                Some(p) => {
                    assert(s0.issues[p as int] == self.issues[p as int]@);
                    let hash = self.issues[p].compute_content_hash();
                    let last = self.export_hashes.get(self.dirty[k].issue_id.as_str());
                    let action = match &last {
                        Some(e) => export_decision(hash.as_str(), Some(e.as_str())),
                        None => export_decision(hash.as_str(), None),
                    };
                    match action {
                        ExportAction::Skip => {},
                        ExportAction::Write => {
                            let ghost before = written.deep_view();
                            put_record(log, self.issues[p].clone());
                            self.export_hashes.set(self.dirty[k].issue_id.as_str(), hash.as_str());
                            written.push(self.dirty[k].issue_id.clone());
                            assert(written.deep_view() =~= before.push(
                                dirty_ids(s0.dirty)[k as int],
                            ));
                        },
                    }
                },
            }
            k = k + 1;
        }
        self.dirty = Vec::new();
        assert(self.dirty.deep_view() =~= Seq::<crate::types::DirtyMarkView>::empty());
        written
    }

    /// Notes the hash of the whole log, as it is once an export is
    /// written: the SHA-256 digest of its bytes in hexadecimal notation.
    pub fn seal_log(&mut self, log_bytes: &Vec<u8>)
        ensures
            final(self)@ == (StoreView {
                metadata: old(self)@.metadata.insert(
                    file_hash_key(),
                    hex_lower(sha256(log_bytes@)),
                ),
                ..old(self)@
            }),
    {
        let hash = sha256_hex(log_bytes);
        self.set_jsonl_file_hash(hash.as_str());
    }

    /// Whether a log is the one that was last sealed: the hash of its
    /// bytes is the hash that the store has noted. A log that was changed
    /// from outside since then is not to be trusted for an import of the
    /// changes alone.
    pub fn log_is_sealed(&self, log_bytes: &Vec<u8>) -> (sealed: bool)
        ensures
            sealed == (self@.metadata.contains_key(file_hash_key()) && self@.metadata[file_hash_key()]
                == hex_lower(sha256(log_bytes@))),
    {
        match self.get_jsonl_file_hash() {
            Some(noted) => {
                let hash = sha256_hex(log_bytes);
                noted == hash
            },
            None => false,
        }
    }

    /// Imports the records of a log at the time `now`.
    ///
    /// A record of an issue that the store does not hold is taken in. A
    /// record of an issue that the store holds unchanged since the last
    /// export replaces it. Where the store already holds the content of
    /// the record, or has moved on from a record that is what was last
    /// exported, the store stays. Where the store and the record both
    /// differ from what was last exported, and from each other, the store
    /// stays and the conflict is reported with both versions.
    pub fn import_at(&mut self, log: &Vec<Issue>, actor: &str, now: i64) -> (summary: ImportSummary)
        ensures
            summary_state(final(self)@, summary) == imported(old(self)@, log.deep_view(), actor@, now),
    {
        let ghost s0 = self@;
        let ghost lv = log.deep_view();
        let ghost start = ImportState {
            store: s0,
            created: Seq::empty(),
            updated: Seq::empty(),
            kept: Seq::empty(),
            conflicts: Seq::empty(),
            rejected: Seq::empty(),
        };
        let mut summary = ImportSummary {
            created: Vec::new(),
            updated: Vec::new(),
            kept: Vec::new(),
            conflicts: Vec::new(),
            rejected: Vec::new(),
        };
        proof {
            let st = summary_state(self@, summary);
            assert(st.created =~= Seq::<Seq<char>>::empty());
            assert(st.updated =~= Seq::<Seq<char>>::empty());
            assert(st.kept =~= Seq::<Seq<char>>::empty());
            assert(st.conflicts =~= Seq::<(IssueView, IssueView)>::empty());
            assert(st.rejected =~= Seq::<(Seq<char>, Seq<char>)>::empty());
        }
        let mut k: usize = 0;
        while k < log.len()
            invariant
                k <= log.len(),
                lv == log.deep_view(),
                import_upto(start, lv, actor@, now, k as int) == summary_state(self@, summary),
            decreases log.len() - k,
        {
            assert(lv[k as int] == log[k as int]@);
            self.import_record(&log[k], actor, now, &mut summary);
            k = k + 1;
        }
        summary
    }

    /// Imports the records of a log now.
    pub fn import(&mut self, log: &Vec<Issue>, actor: &str) -> (summary: ImportSummary)
        ensures
            exists|now: i64|
                summary_state(final(self)@, summary) == #[trigger] imported(
                    old(self)@,
                    log.deep_view(),
                    actor@,
                    now,
                ),
    {
        let now = now_micros();
        self.import_at(log, actor, now)
    }

    /// Imports one record.
    fn import_record(&mut self, record: &Issue, actor: &str, now: i64, summary: &mut ImportSummary)
        ensures
            summary_state(final(self)@, *final(summary)) == import_step(
                summary_state(old(self)@, *old(summary)),
                record@,
                actor@,
                now,
            ),
    {
        match record.validate() {
            Err(message) => {
                let ghost list = summary_state(self@, *summary).rejected;
                summary.rejected.push((record.id.clone(), message));
                assert(summary_state(self@, *summary).rejected =~= list.push(
                    (record@.id, validation_error(record@)->0),
                ));
                return ;
            },
            Ok(_) => {},
        }
        match self.reference_conflict(record) {
            Some(r) => {
                let ghost list = summary_state(self@, *summary).rejected;
                let mut message: String = "external reference is taken: ".to_owned();
                message.append(r.as_str());
                summary.rejected.push((record.id.clone(), message));
                assert(summary_state(self@, *summary).rejected =~= list.push(
                    (record@.id, reference_refused(record@.external_ref->0)),
                ));
                return ;
            },
            None => {},
        }
        let ghost s = self@;
        let incoming = record.compute_content_hash();
        let found = position_of(&self.issues, &record.id);
        let exported = self.export_hashes.get(record.id.as_str());
        let current: Option<String> = match found {
            Some(p) => {
                assert(s.issues[p as int] == self.issues[p as int]@);
                Some(self.issues[p].compute_content_hash())
            },
            None => None,
        };
        let action = match (&current, &exported) {
            (Some(c), Some(e)) => import_decision(
                incoming.as_str(),
                Some(c.as_str()),
                Some(e.as_str()),
            ),
            (Some(c), None) => import_decision(incoming.as_str(), Some(c.as_str()), None),
            (None, Some(e)) => import_decision(incoming.as_str(), None, Some(e.as_str())),
            (None, None) => import_decision(incoming.as_str(), None, None),
        };
        assert(action == crate::sync::record_action(s, record@));
        match action {
            ImportAction::Create => {
                let ghost before = self.issues.deep_view();
                let ghost ids = summary.created.deep_view();
                let mut taken = record.clone();
                taken.content_hash = Some(incoming.clone());
                assert(taken@ == hashed(record@));
                self.issues.push(taken);
                assert(self.issues.deep_view() =~= before.push(hashed(record@)));
                self.loose = remove_source(&self.loose, &record.id);
                self.next_comment_id = counter_after(self.next_comment_id, &record.comments);
                self.export_hashes.set(record.id.as_str(), incoming.as_str());
                self.record_event(
                    record.id.as_str(),
                    EventType::Created,
                    actor,
                    None,
                    None,
                    None,
                    now,
                );
                summary.created.push(record.id.clone());
                assert(summary.created.deep_view() =~= ids.push(record@.id));
            },
            ImportAction::Update => {
                let p = found.unwrap();
                let ghost before = self.issues.deep_view();
                let ghost ids = summary.updated.deep_view();
                let mut taken = record.clone();
                taken.content_hash = Some(incoming.clone());
                assert(taken@ == hashed(record@));
                self.issues[p] = taken;
                assert(self.issues.deep_view() =~= before.update(p as int, hashed(record@)));
                self.next_comment_id = counter_after(self.next_comment_id, &record.comments);
                self.export_hashes.set(record.id.as_str(), incoming.as_str());
                self.record_event(
                    record.id.as_str(),
                    EventType::Updated,
                    actor,
                    None,
                    None,
                    None,
                    now,
                );
                summary.updated.push(record.id.clone());
                assert(summary.updated.deep_view() =~= ids.push(record@.id));
            },
            ImportAction::Keep => {
                let ghost ids = summary.kept.deep_view();
                summary.kept.push(record.id.clone());
                assert(summary.kept.deep_view() =~= ids.push(record@.id));
            },
            ImportAction::Conflict => {
                let p = found.unwrap();
                let ghost list = conflicts_view(summary.conflicts@);
                let conflict = ImportConflict {
                    stored: self.issues[p].clone(),
                    incoming: record.clone(),
                };
                summary.conflicts.push(conflict);
                assert(conflicts_view(summary.conflicts@) =~= list.push(
                    (s.issue(record@.id), record@),
                ));
            },
        }
    }
}


/// A second export, with no change to the store in between, writes
/// nothing: the log and the store stay as the first export left them, and
/// no issue is dirty after either.
pub proof fn lemma_export_twice(s: StoreView, log: Seq<IssueView>)
    ensures
        after_export(s, log).dirty.len() == 0,
        exported(after_export(s, log), exported(s, log).log).written.len() == 0,
        exported(after_export(s, log), exported(s, log).log).log == exported(s, log).log,
        after_export(after_export(s, log), exported(s, log).log) == after_export(s, log),
        after_export(after_export(s, log), exported(s, log).log).dirty.len() == 0,
{
}

/// What holds of an export into an empty log from a store that has not
/// exported before: each record is the issue of the store with its id, no
/// id has two records, and the export hashes are those of the records.
spec fn export_inv(issues: Seq<IssueView>, st: ExportState) -> bool {
    &&& forall|j: int|
        0 <= j < st.log.len() ==> is_first_index(
            issues,
            (#[trigger] st.log[j]).id,
            first_index(issues, st.log[j].id),
        ) && st.log[j] == issues[first_index(issues, st.log[j].id)]
    &&& unique_ids(st.log)
    &&& forall|id: Seq<char>| #[trigger] st.hashes.contains_key(id) <==> has_issue(st.log, id)
    &&& forall|id: Seq<char>| #[trigger]
        st.hashes.contains_key(id) ==> st.hashes[id] == content_hash(
            issues[first_index(issues, id)],
        )
}

proof fn lemma_export_fresh(issues: Seq<IssueView>, dirty: Seq<Seq<char>>, k: int)
    requires
        0 <= k <= dirty.len(),
    ensures
        export_inv(
            issues,
            export_upto(
                issues,
                dirty,
                ExportState { hashes: Map::empty(), log: Seq::empty(), written: Seq::empty() },
                k,
            ),
        ),
        forall|t: int|
            0 <= t < k && has_issue(issues, #[trigger] dirty[t]) ==> has_issue(
                export_upto(
                    issues,
                    dirty,
                    ExportState { hashes: Map::empty(), log: Seq::empty(), written: Seq::empty() },
                    k,
                ).log,
                dirty[t],
            ),
    decreases k,
{
    let start = ExportState { hashes: Map::empty(), log: Seq::empty(), written: Seq::empty() };
    if k > 0 {
        lemma_export_fresh(issues, dirty, k - 1);
        let st = export_upto(issues, dirty, start, k - 1);
        let next = export_upto(issues, dirty, start, k);
        let id = dirty[k - 1];
        if has_issue(issues, id) {
            let w = choose|w: int| 0 <= w < issues.len() && #[trigger] issues[w].id == id;
            lemma_first_index_exists(issues, id, w);
            let record = issues[first_index(issues, id)];
            if st.hashes.contains_key(id) {
                assert(next == st);
            } else {
                assert(!has_issue(st.log, id));
                assert(next.log == st.log.push(record));
                assert forall|j: int| 0 <= j < next.log.len() implies is_first_index(
                    issues,
                    (#[trigger] next.log[j]).id,
                    first_index(issues, next.log[j].id),
                ) && next.log[j] == issues[first_index(issues, next.log[j].id)] by {
                    if j < st.log.len() {
                        assert(next.log[j] == st.log[j]);
                    }
                }
                assert forall|i: int, j: int| 0 <= i < j < next.log.len() implies (
                #[trigger] next.log[i]).id != (#[trigger] next.log[j]).id by {
                    assert(next.log[i] == st.log[i]);
                    if j < st.log.len() {
                        assert(next.log[j] == st.log[j]);
                    } else {
                        if st.log[i].id == id {
                            assert(has_issue(st.log, id));
                        }
                    }
                }
                assert forall|x: Seq<char>| #[trigger]
                    next.hashes.contains_key(x) <==> has_issue(next.log, x) by {
                    if has_issue(next.log, x) {
                        let j = choose|j: int| 0 <= j < next.log.len() && #[trigger] next.log[j].id == x;
                        if j < st.log.len() {
                            assert(st.log[j].id == x);
                            assert(has_issue(st.log, x));
                        }
                    }
                    if next.hashes.contains_key(x) {
                        if x == id {
                            assert(next.log[st.log.len() as int].id == x);
                        } else {
                            assert(st.hashes.contains_key(x));
                            let j = choose|j: int| 0 <= j < st.log.len() && #[trigger] st.log[j].id == x;
                            assert(next.log[j].id == x);
                        }
                    }
                }
            }
            assert forall|t: int| 0 <= t < k && has_issue(issues, #[trigger] dirty[t]) implies has_issue(
                next.log,
                dirty[t],
            ) by {
                if t < k - 1 {
                    assert(has_issue(st.log, dirty[t]));
                    let j = choose|j: int| 0 <= j < st.log.len() && #[trigger] st.log[j].id == dirty[t];
                    if !st.hashes.contains_key(id) {
                        assert(next.log[j] == st.log[j]);
                    }
                    assert(next.log[j].id == dirty[t]);
                } else {
                    if st.hashes.contains_key(id) {
                        assert(has_issue(st.log, id));
                    } else {
                        assert(next.log[st.log.len() as int].id == id);
                    }
                }
            }
        } else {
            assert(next == st);
        }
    }
}

proof fn lemma_import_fresh(log: Seq<IssueView>, actor: Seq<char>, now: i64, k: int)
    requires
        unique_ids(log),
        unique_refs(log),
        forall|j: int| 0 <= j < log.len() ==> validation_error(#[trigger] log[j]) is None,
        0 <= k <= log.len(),
    ensures
        import_upto(
            ImportState {
                store: empty_store(),
                created: Seq::empty(),
                updated: Seq::empty(),
                kept: Seq::empty(),
                conflicts: Seq::empty(),
                rejected: Seq::empty(),
            },
            log,
            actor,
            now,
            k,
        ).store.issues == Seq::new(k as nat, |j: int| hashed(log[j])),
    decreases k,
{
    let start = ImportState {
        store: empty_store(),
        created: Seq::empty(),
        updated: Seq::empty(),
        kept: Seq::empty(),
        conflicts: Seq::empty(),
        rejected: Seq::empty(),
    };
    if k > 0 {
        lemma_import_fresh(log, actor, now, k - 1);
        let st = import_upto(start, log, actor, now, k - 1);
        let record = log[k - 1];
        assert(!st.store.has(record.id)) by {
            if has_issue(st.store.issues, record.id) {
                let j = choose|j: int|
                    0 <= j < st.store.issues.len() && #[trigger] st.store.issues[j].id == record.id;
                assert(st.store.issues[j] == hashed(log[j]));
                assert(log[j].id != log[k - 1].id);
            }
        }
        assert(validation_error(record) is None);
        assert(!ref_conflict(st.store.issues, record)) by {
            if ref_conflict(st.store.issues, record) {
                let q = choose|q: int|
                    0 <= q < st.store.issues.len() && (#[trigger] st.store.issues[q]).external_ref
                        == Some(record.external_ref->0) && st.store.issues[q].id != record.id;
                assert(st.store.issues[q] == hashed(log[q]));
                assert(log[k - 1].external_ref != log[q].external_ref);
            }
        }
        assert(record_action(st.store, record) == ImportAction::Create);
        let next = import_upto(start, log, actor, now, k);
        assert(next.store.issues =~= Seq::new(k as nat, |j: int| hashed(log[j])));
    } else {
        assert(import_upto(start, log, actor, now, k).store.issues =~= Seq::new(
            k as nat,
            |j: int| hashed(log[j]),
        ));
    }
}

/// An export followed by an import into an empty store brings every issue
/// back as it was: with its id, its fields, its times, its labels, its
/// comments and its edges, and with the hash of its content.
///
/// This holds of a store that has not exported before, in which every
/// issue is dirty and acceptable and no two issues have the same id or the
/// same external reference.
pub proof fn lemma_round_trip(s: StoreView, actor: Seq<char>, now: i64, i: int) -> (j: int)
    requires
        unique_ids(s.issues),
        unique_refs(s.issues),
        forall|p: int| 0 <= p < s.issues.len() ==> validation_error(#[trigger] s.issues[p]) is None,
        s.export_hashes == Map::<Seq<char>, Seq<char>>::empty(),
        forall|p: int|
            0 <= p < s.issues.len() ==> has_text(dirty_ids(s.dirty), (#[trigger] s.issues[p]).id),
        0 <= i < s.issues.len(),
    ensures
        0 <= j < imported(empty_store(), exported(s, Seq::empty()).log, actor, now).store.issues.len(),
        imported(empty_store(), exported(s, Seq::empty()).log, actor, now).store.issues[j] == hashed(
            s.issues[i],
        ),
{
    let outcome = exported(s, Seq::empty());
    let log = outcome.log;
    let marked = dirty_ids(s.dirty);
    lemma_export_fresh(s.issues, marked, marked.len() as int);
    assert forall|q: int| 0 <= q < log.len() implies validation_error(#[trigger] log[q]) is None by {
        assert(log[q] == s.issues[first_index(s.issues, log[q].id)]);
    }
    assert forall|p: int, q: int|
        0 <= p < log.len() && 0 <= q < log.len() && p != q && (#[trigger] log[p]).external_ref
            is Some implies log[p].external_ref != (#[trigger] log[q]).external_ref by {
        let sp = first_index(s.issues, log[p].id);
        let sq = first_index(s.issues, log[q].id);
        assert(log[p] == s.issues[sp]);
        assert(log[q] == s.issues[sq]);
        if p < q {
            assert(log[p].id != log[q].id);
        } else {
            assert(log[q].id != log[p].id);
        }
        assert(sp != sq);
    }
    lemma_import_fresh(log, actor, now, log.len() as int);
    let id = s.issues[i].id;
    assert(has_text(marked, id));
    let t = choose|t: int| 0 <= t < marked.len() && #[trigger] marked[t] == id;
    assert(has_issue(s.issues, marked[t]));
    assert(has_issue(log, marked[t]));
    let j = choose|j: int| 0 <= j < log.len() && #[trigger] log[j].id == id;
    assert(is_first_index(s.issues, id, i)) by {
        assert forall|q: int| 0 <= q < i implies #[trigger] s.issues[q].id != id by {}
    }
    lemma_first_index_unique(s.issues, id, i, i);
    assert(log[j] == s.issues[i]);
    j
}

} // verus!
