//! The bookkeeping of a folder sync: batches of scanned files, the progress
//! reported after each batch is written, and the files that a finished scan
//! marks as missing.

use vstd::prelude::*;
use crate::events::{SyncProgress, SyncResult};
use crate::text::str_eq;
use crate::thumbnail_queue::strings_view;

verus! {

/// Number of scanned files written to the catalog at a time.
pub const SYNC_BATCH_SIZE: usize = 500;

/// Running counts of a folder sync.
pub struct SyncTally {
    /// Files written so far.
    pub total: usize,
    /// Files scanned into the batch that is not written yet.
    pub batch_len: usize,
    /// Ids of the files that were not in the catalog before, in scan order.
    pub new_file_ids: Vec<String>,
}

impl SyncTally {
    /// Nothing scanned yet.
    pub fn new() -> (t: SyncTally)
        ensures
            t.total == 0,
            t.batch_len == 0,
            t.new_file_ids@.len() == 0,
    {
        SyncTally { total: 0, batch_len: 0, new_file_ids: Vec::new() }
    }

    /// Adds a scanned file to the batch; `true` when the batch is full and
    /// must be written now.
    pub fn record(&mut self, id: &String, is_new: bool) -> (flush: bool)
        requires
            old(self).batch_len < SYNC_BATCH_SIZE,
        ensures
            final(self).total == old(self).total,
            final(self).batch_len == old(self).batch_len + 1,
            strings_view(final(self).new_file_ids@) == if is_new {
                strings_view(old(self).new_file_ids@).push(id@)
            } else {
                strings_view(old(self).new_file_ids@)
            },
            flush == (final(self).batch_len >= SYNC_BATCH_SIZE),
    {
        if is_new {
            let ghost before = self.new_file_ids@;
            self.new_file_ids.push(id.clone());
            proof {
                assert(strings_view(self.new_file_ids@) =~= strings_view(before).push(id@));
            }
        }
        self.batch_len = self.batch_len + 1;
        self.batch_len >= SYNC_BATCH_SIZE
    }

    /// The batch has been written: its files join the total, and the progress
    /// to report counts every file written so far.
    pub fn flushed(&mut self, folder_name: &String) -> (p: SyncProgress)
        requires
            old(self).total + old(self).batch_len <= usize::MAX,
        ensures
            final(self).total == old(self).total + old(self).batch_len,
            final(self).batch_len == 0,
            final(self).new_file_ids@ == old(self).new_file_ids@,
            p.total_found == final(self).total,
            p.inserted == final(self).total,
            p.folder_name@ == folder_name@,
    {
        self.total = self.total + self.batch_len;
        self.batch_len = 0;
        SyncProgress { total_found: self.total, inserted: self.total, folder_name: folder_name.clone() }
    }

    /// The outcome of the sync: the files written and the new files' ids.
    pub fn finish(self) -> (r: SyncResult)
        ensures
            r.total_count == self.total,
            r.new_file_ids@ == self.new_file_ids@,
    {
        SyncResult { total_count: self.total, new_file_ids: self.new_file_ids }
    }
}

/// A catalogued file of the synced folder: its path, its id, and whether it
/// is already marked missing.
pub struct IndexedFile {
    pub path: String,
    pub id: String,
    pub is_orphaned: bool,
}

/// The value of an indexed file.
pub open spec fn indexed_view(f: IndexedFile) -> (Seq<char>, Seq<char>, bool) {
    (f.path@, f.id@, f.is_orphaned)
}

/// Ids of the files that were indexed but not seen on disk, and are not
/// already marked missing, in the order given.
pub open spec fn missing_ids(indexed: Seq<(Seq<char>, Seq<char>, bool)>, seen: Seq<Seq<char>>) -> Seq<
    Seq<char>,
>
    decreases indexed.len(),
{
    if indexed.len() == 0 {
        Seq::empty()
    } else {
        let f = indexed.last();
        let rest = missing_ids(indexed.drop_last(), seen);
        if !seen.contains(f.0) && !f.2 {
            rest.push(f.1)
        } else {
            rest
        }
    }
}

/// Whether `s` is one of `v`.
pub fn contains_string(v: &Vec<String>, s: &String) -> (r: bool)
    ensures
        r == strings_view(v@).contains(s@),
{
    let mut k: usize = 0;
    while k < v.len()
        invariant
            k <= v@.len(),
            forall|i: int| 0 <= i < k ==> v@[i]@ != s@,
        decreases v@.len() - k,
    {
        if str_eq(v[k].as_str(), s.as_str()) {
            assert(strings_view(v@)[k as int] == s@);
            return true;
        }
        k = k + 1;
    }
    proof {
        if strings_view(v@).contains(s@) {
            let i = choose|i: int| 0 <= i < strings_view(v@).len() && strings_view(v@)[i] == s@;
            assert(v@[i]@ == s@);
        }
    }
    false
}

/// The files a finished scan marks missing: indexed, not seen on disk, and
/// not already missing. When the folder itself is unreachable (an unmounted
/// drive) nothing is marked, so a transient unmount never empties a folder.
pub fn files_to_orphan(indexed: &Vec<IndexedFile>, seen: &Vec<String>, root_reachable: bool) -> (r: Vec<
    String,
>)
    ensures
        strings_view(r@) == if root_reachable {
            missing_ids(indexed@.map_values(|f: IndexedFile| indexed_view(f)), strings_view(seen@))
        } else {
            Seq::empty()
        },
{
    let mut r: Vec<String> = Vec::new();
    if !root_reachable {
        proof {
            assert(strings_view(r@) =~= Seq::<Seq<char>>::empty());
        }
        return r;
    }
    let ghost iv = indexed@.map_values(|f: IndexedFile| indexed_view(f));
    let ghost sv = strings_view(seen@);
    let mut k: usize = 0;
    while k < indexed.len()
        invariant
            k <= indexed@.len(),
            iv == indexed@.map_values(|f: IndexedFile| indexed_view(f)),
            sv == strings_view(seen@),
            strings_view(r@) == missing_ids(iv.take(k as int), sv),
        decreases indexed@.len() - k,
    {
        let f = &indexed[k];
        let was_seen = contains_string(seen, &f.path);
        proof {
            assert(iv.take(k + 1).drop_last() =~= iv.take(k as int));
            assert(iv.take(k + 1).last() == indexed_view(indexed@[k as int]));
        }
        if !was_seen && !f.is_orphaned {
            let ghost before = r@;
            r.push(f.id.clone());
            proof {
                assert(strings_view(r@) =~= strings_view(before).push(f.id@));
            }
        }
        k = k + 1;
    }
    proof {
        assert(iv.take(indexed@.len() as int) =~= iv);
    }
    r
}


/// A scan marks missing exactly the indexed files that it did not see and
/// that were not already missing: their ids, in the order the files are
/// listed. Every such file's id is in the result, and every id in the result
/// belongs to such a file.
pub proof fn lemma_missing_ids_are_the_unseen_files(
    indexed: Seq<(Seq<char>, Seq<char>, bool)>,
    seen: Seq<Seq<char>>,
)
    ensures
        missing_ids(indexed, seen) == indexed.filter(
            |f: (Seq<char>, Seq<char>, bool)| !seen.contains(f.0) && !f.2,
        ).map_values(|f: (Seq<char>, Seq<char>, bool)| f.1),
        forall|i: int|
            0 <= i < indexed.len() && !seen.contains(#[trigger] indexed[i].0) && !indexed[i].2
                ==> missing_ids(indexed, seen).contains(indexed[i].1),
        forall|x: Seq<char>|
            #[trigger] missing_ids(indexed, seen).contains(x) ==> exists|i: int|
                0 <= i < indexed.len() && indexed[i].1 == x && !seen.contains(#[trigger] indexed[i].0)
                    && !indexed[i].2,
    decreases indexed.len(),
{
    reveal(Seq::filter);
    if indexed.len() > 0 {
        let d = indexed.drop_last();
        let f = indexed.last();
        lemma_missing_ids_are_the_unseen_files(d, seen);
        let r = missing_ids(indexed, seen);
        let r0 = missing_ids(d, seen);
        let fl = indexed.filter(|f: (Seq<char>, Seq<char>, bool)| !seen.contains(f.0) && !f.2);
        let fl0 = d.filter(|f: (Seq<char>, Seq<char>, bool)| !seen.contains(f.0) && !f.2);
        if !seen.contains(f.0) && !f.2 {
            assert(fl == fl0.push(f));
            assert(fl.map_values(|f: (Seq<char>, Seq<char>, bool)| f.1) =~= fl0.map_values(
                |f: (Seq<char>, Seq<char>, bool)| f.1,
            ).push(f.1));
        } else {
            assert(fl == fl0);
        }
        assert forall|i: int|
            0 <= i < indexed.len() && !seen.contains(#[trigger] indexed[i].0) && !indexed[i].2
                implies r.contains(indexed[i].1) by {
            if i < d.len() {
                assert(d[i] == indexed[i]);
                assert(r0.contains(d[i].1));
                let k = choose|k: int| 0 <= k < r0.len() && r0[k] == d[i].1;
                assert(r[k] == r0[k]);
            } else {
                assert(r[r.len() - 1] == f.1);
            }
        }
        assert forall|x: Seq<char>| #[trigger] r.contains(x) implies exists|i: int|
            0 <= i < indexed.len() && indexed[i].1 == x && !seen.contains(#[trigger] indexed[i].0)
                && !indexed[i].2 by {
            let k = choose|k: int| 0 <= k < r.len() && r[k] == x;
            if k < r0.len() {
                assert(r[k] == r0[k]);
                assert(r0.contains(x));
                let i = choose|i: int|
                    0 <= i < d.len() && d[i].1 == x && !seen.contains(#[trigger] d[i].0) && !d[i].2;
                assert(indexed[i] == d[i]);
            } else {
                assert(indexed[indexed.len() - 1] == f);
            }
        }
    }
}

} // verus!
