//! The tables of a store in memory: dirty marks, export hashes,
//! configuration, the store's own records and the counters of children.

use vstd::prelude::*;
use vstd::string::*;
use crate::memory::{counters_view, MemoryStorage};
use crate::storage::StoreError;
use crate::store::{dirty_ids, last_child, without_marks, StoreView};
use crate::text::{contains_text, decimal_string};
use crate::types::{DirtyMark, DirtyMarkView};

verus! {

impl MemoryStorage {
    /// The ids of the dirty issues, in the order in which they were first
    /// marked.
    pub fn get_dirty_issues(&self) -> (r: Vec<String>)
        ensures
            r.deep_view() == dirty_ids(self@.dirty),
    {
        let ghost dv = self.dirty.deep_view();
        let mut r: Vec<String> = Vec::new();
        let mut k: usize = 0;
        while k < self.dirty.len()
            invariant
                k <= self.dirty.len(),
                dv == self.dirty.deep_view(),
                r.len() == k,
                forall|i: int| 0 <= i < k ==> #[trigger] r[i]@ == dv[i].issue_id,
            decreases self.dirty.len() - k,
        {
            assert(dv[k as int] == self.dirty[k as int]@);
            r.push(self.dirty[k].issue_id.clone());
            k = k + 1;
        }
        assert(r.deep_view() =~= dirty_ids(dv));
        r
    }

    /// The hash of the content of an issue as it is now; the empty text
    /// where the store has no such issue.
    pub fn get_dirty_issue_hash(&self, issue_id: &str) -> (r: String)
        ensures
            r@ == if self@.has(issue_id@) {
                crate::hash::content_hash(self@.issue(issue_id@))
            } else {
                Seq::empty()
            },
    {
        match self.find(issue_id) {
            Some(p) => {
                assert(self.issues.deep_view()[p as int] == self.issues[p as int]@);
                self.issues[p].compute_content_hash()
            },
            None => String::new(),
        }
    }

    /// Takes all dirty marks away.
    pub fn clear_dirty_issues(&mut self)
        ensures
            final(self)@ == (StoreView { dirty: Seq::empty(), ..old(self)@ }),
    {
        self.dirty = Vec::new();
        assert(self.dirty.deep_view() =~= Seq::<DirtyMarkView>::empty());
    }

    /// Takes the dirty marks of the given issues away.
    pub fn clear_dirty_issues_by_id(&mut self, issue_ids: &Vec<String>)
        ensures
            final(self)@ == (StoreView {
                dirty: without_marks(
                    old(self)@.dirty,
                    issue_ids.deep_view(),
                    old(self)@.dirty.len() as int,
                ),
                ..old(self)@
            }),
    {
        let ghost dv = self.dirty.deep_view();
        let ghost gone = issue_ids.deep_view();
        let mut kept: Vec<DirtyMark> = Vec::new();
        let mut k: usize = 0;
        assert(kept.deep_view() =~= without_marks(dv, gone, 0));
        while k < self.dirty.len()
            invariant
                k <= self.dirty.len(),
                dv == self.dirty.deep_view(),
                gone == issue_ids.deep_view(),
                kept.deep_view() == without_marks(dv, gone, k as int),
            decreases self.dirty.len() - k,
        {
            let ghost before = kept.deep_view();
            assert(dv[k as int] == self.dirty[k as int]@);
            if !contains_text(issue_ids, &self.dirty[k].issue_id) {
                kept.push(self.dirty[k].clone());
                assert(kept.deep_view() =~= before.push(dv[k as int]));
            }
            k = k + 1;
        }
        self.dirty = kept;
    }

    /// The hash of the content of an issue as it was last exported.
    pub fn get_export_hash(&self, issue_id: &str) -> (r: Option<String>)
        ensures
            r is Some <==> self@.export_hashes.contains_key(issue_id@),
            r is Some ==> r->0@ == self@.export_hashes[issue_id@],
    {
        self.export_hashes.get(issue_id)
    }

    /// Notes the hash of the content of an issue as it is exported.
    pub fn set_export_hash(&mut self, issue_id: &str, content_hash: &str)
        ensures
            final(self)@ == (StoreView {
                export_hashes: old(self)@.export_hashes.insert(issue_id@, content_hash@),
                ..old(self)@
            }),
    {
        self.export_hashes.set(issue_id, content_hash);
    }

    /// Forgets what was exported.
    pub fn clear_all_export_hashes(&mut self)
        ensures
            final(self)@ == (StoreView { export_hashes: Map::empty(), ..old(self)@ }),
    {
        self.export_hashes.clear();
    }

    /// The value of a key of the store's own records.
    pub fn get_metadata(&self, key: &str) -> (r: Option<String>)
        ensures
            r is Some <==> self@.metadata.contains_key(key@),
            r is Some ==> r->0@ == self@.metadata[key@],
    {
        self.metadata.get(key)
    }

    /// Sets a key of the store's own records.
    pub fn set_metadata(&mut self, key: &str, value: &str)
        ensures
            final(self)@ == (StoreView {
                metadata: old(self)@.metadata.insert(key@, value@),
                ..old(self)@
            }),
    {
        self.metadata.set(key, value);
    }

    /// Takes a key out of the store's own records.
    pub fn delete_metadata(&mut self, key: &str)
        ensures
            final(self)@ == (StoreView {
                metadata: old(self)@.metadata.remove(key@),
                ..old(self)@
            }),
    {
        self.metadata.remove(key);
    }

    /// The hash of the whole log as it was last written.
    pub fn get_jsonl_file_hash(&self) -> (r: Option<String>)
        ensures
            r is Some <==> self@.metadata.contains_key(crate::store::file_hash_key()),
            r is Some ==> r->0@ == self@.metadata[crate::store::file_hash_key()],
    {
        self.get_metadata("jsonl_file_hash")
    }

    /// Notes the hash of the whole log.
    pub fn set_jsonl_file_hash(&mut self, file_hash: &str)
        ensures
            final(self)@ == (StoreView {
                metadata: old(self)@.metadata.insert(crate::store::file_hash_key(), file_hash@),
                ..old(self)@
            }),
    {
        self.set_metadata("jsonl_file_hash", file_hash);
    }

    /// The value of a key of the configuration.
    pub fn get_config(&self, key: &str) -> (r: Option<String>)
        ensures
            r is Some <==> self@.config.contains_key(key@),
            r is Some ==> r->0@ == self@.config[key@],
    {
        self.config.get(key)
    }

    /// Sets a key of the configuration.
    pub fn set_config(&mut self, key: &str, value: &str)
        ensures
            final(self)@ == (StoreView { config: old(self)@.config.insert(key@, value@), ..old(self)@ }),
    {
        self.config.set(key, value);
    }

    /// Takes a key out of the configuration.
    pub fn delete_config(&mut self, key: &str)
        ensures
            final(self)@ == (StoreView { config: old(self)@.config.remove(key@), ..old(self)@ }),
    {
        self.config.remove(key);
    }

    /// The whole configuration: each key once, with its value.
    pub fn get_all_config(&self) -> (list: Vec<(String, String)>)
        ensures
            forall|i: int|
                0 <= i < list.len() ==> self@.config.contains_key((#[trigger] list[i]).0@)
                    && self@.config[list[i].0@] == list[i].1@,
            forall|k: Seq<char>|
                self@.config.contains_key(k) ==> exists|i: int|
                    0 <= i < list.len() && (#[trigger] list[i]).0@ == k,
            forall|i: int, j: int|
                0 <= i < j < list.len() ==> (#[trigger] list[i]).0@ != (#[trigger] list[j]).0@,
    {
        self.config.to_pairs()
    }

    /// The number of the last child of a parent; zero where it has none.
    fn last_child_of(&self, parent: &String) -> (n: i32)
        ensures
            n == last_child(self@.counters, parent@, self@.counters.len() as int),
    {
        let ghost cv = counters_view(self.counters@);
        let mut k: usize = self.counters.len();
        while k > 0
            invariant
                k <= self.counters.len(),
                cv == counters_view(self.counters@),
                last_child(cv, parent@, cv.len() as int) == last_child(cv, parent@, k as int),
            decreases k,
        {
            assert(cv[k - 1] == (self.counters[k - 1].0@, self.counters[k - 1].1));
            if self.counters[k - 1].0 == *parent {
                return self.counters[k - 1].1;
            }
            k = k - 1;
        }
        0
    }

    /// Gives out the id of the next child of a parent: the id of the
    /// parent, a dot, and the number after the one last given. The first
    /// child has the number 1. Fails, and changes nothing, where the
    /// numbers have run out.
    pub fn get_next_child_id(&mut self, parent_id: &str) -> (r: Result<String, StoreError>)
        ensures
            match r {
                Ok(id) => {
                    let last = last_child(
                        old(self)@.counters,
                        parent_id@,
                        old(self)@.counters.len() as int,
                    );
                    &&& last < i32::MAX
                    &&& id@ == crate::store::child_id(parent_id@, (last + 1) as i32)
                    &&& final(self)@ == (StoreView {
                        counters: old(self)@.counters.push((parent_id@, (last + 1) as i32)),
                        ..old(self)@
                    })
                },
                Err(e) => final(self)@ == old(self)@ && last_child(
                    old(self)@.counters,
                    parent_id@,
                    old(self)@.counters.len() as int,
                ) == i32::MAX && e@ is Store,
            },
    {
        let parent: String = parent_id.to_owned();
        let last = self.last_child_of(&parent);
        if last == i32::MAX {
            return Err(StoreError::Store("no child numbers left".to_owned()));
        }
        let next: i32 = last + 1;
        let ghost before = counters_view(self.counters@);
        let mut id: String = parent_id.to_owned();
        proof {
            reveal_strlit(".");
        }
        id.append(".");
        let number = decimal_string(next as i64);
        id.append(number.as_str());
        self.counters.push((parent, next));
        assert(counters_view(self.counters@) =~= before.push((parent_id@, next)));
        Ok(id)
    }
}

} // verus!
