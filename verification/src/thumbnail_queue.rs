//! The thumbnail work queue: jobs ordered by ascending priority, deduplicated
//! against both the queue and the jobs in flight, with a "bring this view to
//! the front" promotion.

use vstd::prelude::*;
use std::collections::VecDeque;

verus! {

/// A queued thumbnail job.
#[derive(Debug)]
pub struct QueuedJob {
    pub file_id: String,
    pub file_path: String,
    pub priority: i32,
    pub retry: u32,
}

/// The mathematical value of a job.
pub struct JobView {
    pub id: Seq<char>,
    pub path: Seq<char>,
    pub priority: i32,
    pub retry: u32,
}

impl View for QueuedJob {
    type V = JobView;

    open spec fn view(&self) -> JobView {
        JobView {
            id: self.file_id@,
            path: self.file_path@,
            priority: self.priority,
            retry: self.retry,
        }
    }
}

/// Sequence of job values.
pub open spec fn jobs_view(q: Seq<QueuedJob>) -> Seq<JobView> {
    q.map_values(|j: QueuedJob| j@)
}

/// Sequence of string values.
pub open spec fn strings_view(v: Seq<String>) -> Seq<Seq<char>> {
    v.map_values(|s: String| s@)
}

/// Number of elements of `s` whose key is at most `k`.
pub open spec fn count_le<T>(s: Seq<T>, key: spec_fn(T) -> int, k: int) -> nat
    decreases s.len(),
{
    if s.len() == 0 {
        0
    } else {
        count_le(s.drop_last(), key, k) + if key(s.last()) <= k {
            1nat
        } else {
            0nat
        }
    }
}

/// `s` with `x` inserted after every element whose key is at most `key(x)`.
pub open spec fn insert_by_key<T>(s: Seq<T>, key: spec_fn(T) -> int, x: T) -> Seq<T> {
    let p = count_le(s, key, key(x)) as int;
    s.take(p).push(x) + s.skip(p)
}

/// Stable sort of `s` by `key` (elements with equal keys keep their order).
pub open spec fn stable_sort<T>(s: Seq<T>, key: spec_fn(T) -> int) -> Seq<T>
    decreases s.len(),
{
    if s.len() == 0 {
        s
    } else {
        insert_by_key(stable_sort(s.drop_last(), key), key, s.last())
    }
}

/// Keys of `s` never decrease.
pub open spec fn sorted_by<T>(s: Seq<T>, key: spec_fn(T) -> int) -> bool {
    forall|a: int, b: int| 0 <= a < b < s.len() ==> key(s[a]) <= key(s[b])
}

/// Priority of a job, as the sort key.
pub open spec fn prio_key() -> spec_fn(JobView) -> int {
    |j: JobView| j.priority as int
}

/// In a sorted sequence, the elements with key at most `k` form the prefix of
/// length `p` when `p` separates them from the rest.
proof fn lemma_count_le_prefix<T>(s: Seq<T>, key: spec_fn(T) -> int, k: int, p: int)
    requires
        sorted_by(s, key),
        0 <= p <= s.len(),
        forall|a: int| 0 <= a < p ==> key(s[a]) <= k,
        forall|a: int| p <= a < s.len() ==> key(s[a]) > k,
    ensures
        count_le(s, key, k) == p,
    decreases s.len(),
{
    if s.len() > 0 {
        let t = s.drop_last();
        if p == s.len() {
            lemma_count_le_prefix(t, key, k, p - 1);
        } else {
            lemma_count_le_prefix(t, key, k, p);
        }
    }
}

proof fn lemma_count_le_bound<T>(s: Seq<T>, key: spec_fn(T) -> int, k: int)
    ensures
        count_le(s, key, k) <= s.len(),
    decreases s.len(),
{
    if s.len() > 0 {
        lemma_count_le_bound(s.drop_last(), key, k);
    }
}

/// Inserting into a sorted sequence keeps it sorted.
proof fn lemma_insert_sorted<T>(s: Seq<T>, key: spec_fn(T) -> int, x: T, p: int)
    requires
        sorted_by(s, key),
        0 <= p <= s.len(),
        forall|a: int| 0 <= a < p ==> key(s[a]) <= key(x),
        forall|a: int| p <= a < s.len() ==> key(s[a]) > key(x),
    ensures
        insert_by_key(s, key, x) == s.take(p).push(x) + s.skip(p),
        sorted_by(insert_by_key(s, key, x), key),
        insert_by_key(s, key, x).len() == s.len() + 1,
{
    lemma_count_le_prefix(s, key, key(x), p);
    let r = s.take(p).push(x) + s.skip(p);
    assert forall|a: int, b: int| 0 <= a < b < r.len() implies key(r[a]) <= key(r[b]) by {
        if b < p {
            assert(r[a] == s[a] && r[b] == s[b]);
        } else if b == p {
            assert(r[b] == x);
        } else if a < p {
            assert(r[a] == s[a] && r[b] == s[b - 1]);
        } else if a == p {
            assert(r[b] == s[b - 1]);
        } else {
            assert(r[a] == s[a - 1] && r[b] == s[b - 1]);
        }
    }
}

/// The stable sort by priority is sorted and has the same length.
proof fn lemma_stable_sort_sorted<T>(s: Seq<T>, key: spec_fn(T) -> int)
    ensures
        sorted_by(stable_sort(s, key), key),
        stable_sort(s, key).len() == s.len(),
    decreases s.len(),
{
    if s.len() > 0 {
        let t = stable_sort(s.drop_last(), key);
        lemma_stable_sort_sorted(s.drop_last(), key);
        let x = s.last();
        lemma_separator_exists(t, key, key(x));
        let q = choose|q: int| #[trigger] separates(t, key, key(x), q);
        lemma_insert_sorted(t, key, x, q);
    }
}

/// `q` splits `s` into the elements with key at most `k` and the rest.
pub open spec fn separates<T>(s: Seq<T>, key: spec_fn(T) -> int, k: int, q: int) -> bool {
    0 <= q <= s.len() && (forall|a: int| 0 <= a < q ==> key(s[a]) <= k) && (forall|a: int|
        q <= a < s.len() ==> key(s[a]) > k)
}

proof fn lemma_separator_exists<T>(s: Seq<T>, key: spec_fn(T) -> int, k: int)
    requires
        sorted_by(s, key),
    ensures
        exists|q: int| #[trigger] separates(s, key, k, q),
    decreases s.len(),
{
    if s.len() == 0 {
        assert(separates(s, key, k, 0));
    } else {
        let t = s.drop_last();
        lemma_separator_exists(t, key, k);
        let q = choose|q: int| #[trigger] separates(t, key, k, q);
        if key(s.last()) <= k {
            assert(q == t.len()) by {
                if q < t.len() {
                    assert(key(t[q]) > k);
                    assert(s[q] == t[q]);
                    assert(key(s[q]) <= key(s[s.len() - 1]));
                }
            }
            assert(forall|a: int| 0 <= a < s.len() ==> key(s[a]) <= k);
            assert(separates(s, key, k, s.len() as int));
        } else {
            assert forall|a: int| 0 <= a < q implies key(s[a]) <= k by {
                assert(s[a] == t[a]);
            }
            assert forall|a: int| q <= a < s.len() implies key(s[a]) > k by {
                if a < t.len() {
                    assert(s[a] == t[a]);
                }
            }
            assert(separates(s, key, k, q));
        }
    }
}

/// Index of the last occurrence of `id` in `ids`, if any.
pub open spec fn last_index(ids: Seq<Seq<char>>, id: Seq<char>) -> int
    decreases ids.len(),
{
    if ids.len() == 0 {
        -1
    } else if ids.last() == id {
        ids.len() - 1
    } else {
        last_index(ids.drop_last(), id)
    }
}

/// The jobs of `q` whose id is (`keep`) or is not (`!keep`) in `ids`, in order.
pub open spec fn select_jobs(q: Seq<JobView>, ids: Seq<Seq<char>>, keep: bool) -> Seq<JobView>
    decreases q.len(),
{
    if q.len() == 0 {
        q
    } else {
        let r = select_jobs(q.drop_last(), ids, keep);
        if ids.contains(q.last().id) == keep {
            r.push(q.last())
        } else {
            r
        }
    }
}

/// Smallest priority of a nonempty job list.
pub open spec fn min_priority(q: Seq<JobView>) -> int
    decreases q.len(),
{
    if q.len() <= 1 {
        if q.len() == 0 {
            0
        } else {
            q[0].priority as int
        }
    } else {
        let m = min_priority(q.drop_last());
        if q.last().priority < m {
            q.last().priority as int
        } else {
            m
        }
    }
}

/// The queue after promoting the jobs whose ids appear in `ids`: they are
/// ordered by their (last) position in `ids`, given consecutive priorities
/// ending just below the smallest remaining priority (saturating at the
/// smallest `i32`), and the whole queue is then stably re-sorted by priority.
pub open spec fn promoted_queue(q: Seq<JobView>, ids: Seq<Seq<char>>) -> Seq<JobView> {
    let pulled = select_jobs(q, ids, true);
    if pulled.len() == 0 {
        q
    } else {
        let rest = select_jobs(q, ids, false);
        let ordered = stable_sort(pulled, ix_key(ids));
        let cur_min = if rest.len() == 0 {
            0
        } else {
            min_priority(rest)
        };
        let base = if cur_min - ordered.len() < i32::MIN {
            i32::MIN as int
        } else {
            cur_min - ordered.len()
        };
        let promoted = Seq::new(
            ordered.len(),
            |k: int| JobView { priority: (base + k) as i32, ..ordered[k] },
        );
        stable_sort(rest + promoted, prio_key())
    }
}


/// Sort key of a job: the last position of its id in `ids`.
pub open spec fn ix_key(ids: Seq<Seq<char>>) -> spec_fn(JobView) -> int {
    |j: JobView| last_index(ids, j.id)
}

proof fn lemma_last_index_range(ids: Seq<Seq<char>>, id: Seq<char>)
    ensures
        -1 <= last_index(ids, id) < ids.len(),
        (last_index(ids, id) >= 0) == ids.contains(id),
    decreases ids.len(),
{
    if ids.len() > 0 {
        lemma_last_index_range(ids.drop_last(), id);
        if ids.last() != id {
            if ids.contains(id) {
                let a = choose|a: int| 0 <= a < ids.len() && ids[a] == id;
                assert(ids.drop_last()[a] == id);
            }
            if ids.drop_last().contains(id) {
                let a = choose|a: int| 0 <= a < ids.drop_last().len() && ids.drop_last()[a] == id;
                assert(ids[a] == id);
            }
        } else {
            assert(ids[ids.len() - 1] == id);
        }
    }
}

fn last_index_pos(ids: &[String], id: &String) -> (r: i128)
    ensures
        r as int == last_index(strings_view(ids@), id@),
        r >= 0 <==> strings_view(ids@).contains(id@),
{
    let ghost idv = strings_view(ids@);
    proof {
        lemma_last_index_range(idv, id@);
    }
    let mut k: usize = ids.len();
    proof {
        assert(idv.take(ids@.len() as int) =~= idv);
    }
    while k > 0
        invariant
            k <= ids@.len(),
            idv == strings_view(ids@),
            last_index(idv, id@) == last_index(idv.take(k as int), id@),
        decreases k,
    {
        proof {
            assert(idv.take(k as int).drop_last() =~= idv.take(k - 1));
        }
        if ids[k - 1] == *id {
            return (k - 1) as i128;
        }
        k = k - 1;
    }
    proof {
        assert(idv.take(0) =~= Seq::<Seq<char>>::empty());
    }
    -1
}

/// Sorting a job list stably keeps its length and its multiset of jobs.
proof fn lemma_stable_sort_perm<T>(s: Seq<T>, key: spec_fn(T) -> int)
    ensures
        stable_sort(s, key).to_multiset() == s.to_multiset(),
        stable_sort(s, key).len() == s.len(),
    decreases s.len(),
{
    broadcast use vstd::seq_lib::group_to_multiset_ensures;
    if s.len() > 0 {
        let t = stable_sort(s.drop_last(), key);
        lemma_stable_sort_perm(s.drop_last(), key);
        let p = count_le(t, key, key(s.last())) as int;
        lemma_count_le_bound(t, key, key(s.last()));
        assert(insert_by_key(t, key, s.last()) =~= t.insert(p, s.last()));
        vstd::seq_lib::to_multiset_insert(t, p, s.last());
        assert(s.drop_last().push(s.last()) =~= s);
    }
}

/// Ids of a stably sorted job list: same set, still free of duplicates.
proof fn lemma_sort_ids(s: Seq<JobView>, key: spec_fn(JobView) -> int)
    ensures
        forall|id: Seq<char>| #[trigger] has_id(stable_sort(s, key), id) <==> has_id(s, id),
        ids_distinct(s) ==> ids_distinct(stable_sort(s, key)),
    decreases s.len(),
{
    if s.len() > 0 {
        let d = s.drop_last();
        let t = stable_sort(d, key);
        lemma_sort_ids(d, key);
        lemma_stable_sort_perm(d, key);
        let x = s.last();
        let p = count_le(t, key, key(x)) as int;
        lemma_count_le_bound(t, key, key(x));
        let r = stable_sort(s, key);
        assert(r =~= t.insert(p, x));
        assert forall|id: Seq<char>| has_id(r, id) <==> has_id(s, id) by {
            if has_id(r, id) {
                let a = choose|a: int| 0 <= a < r.len() && r[a].id == id;
                if a < p {
                    assert(t[a].id == id);
                    assert(has_id(t, id));
                } else if a > p {
                    assert(t[a - 1].id == id);
                    assert(has_id(t, id));
                } else {
                    assert(s[s.len() - 1].id == id);
                }
                if id != x.id {
                    assert(has_id(d, id));
                    let b = choose|b: int| 0 <= b < d.len() && d[b].id == id;
                    assert(s[b].id == id);
                }
            }
            if has_id(s, id) {
                let a = choose|a: int| 0 <= a < s.len() && s[a].id == id;
                if a == s.len() - 1 {
                    assert(r[p].id == id);
                } else {
                    assert(d[a].id == id);
                    assert(has_id(d, id));
                    assert(has_id(t, id));
                    let b = choose|b: int| 0 <= b < t.len() && t[b].id == id;
                    if b < p {
                        assert(r[b].id == id);
                    } else {
                        assert(r[b + 1].id == id);
                    }
                }
            }
        }
        if ids_distinct(s) {
            assert(ids_distinct(d)) by {
                assert forall|a: int, b: int| 0 <= a < b < d.len() implies d[a].id != d[b].id by {
                    assert(d[a] == s[a] && d[b] == s[b]);
                }
            }
            assert(!has_id(t, x.id)) by {
                if has_id(t, x.id) {
                    assert(has_id(d, x.id));
                    let b = choose|b: int| 0 <= b < d.len() && d[b].id == x.id;
                    assert(s[b].id == s[s.len() - 1].id);
                }
            }
            assert forall|a: int, b: int| 0 <= a < b < r.len() implies r[a].id != r[b].id by {
                if a < p && b < p {
                    assert(r[a] == t[a] && r[b] == t[b]);
                } else if a < p && b == p {
                    assert(r[a] == t[a]);
                    assert(has_id(t, t[a].id));
                } else if a < p {
                    assert(r[a] == t[a] && r[b] == t[b - 1]);
                } else if a == p {
                    assert(r[b] == t[b - 1]);
                    assert(has_id(t, t[b - 1].id));
                } else {
                    assert(r[a] == t[a - 1] && r[b] == t[b - 1]);
                }
            }
        }
    }
}

proof fn lemma_select_len(q: Seq<JobView>, ids: Seq<Seq<char>>)
    ensures
        select_jobs(q, ids, true).len() + select_jobs(q, ids, false).len() == q.len(),
    decreases q.len(),
{
    if q.len() > 0 {
        lemma_select_len(q.drop_last(), ids);
    }
}

/// The selected jobs' ids are those of `q` that are (or are not) listed,
/// still free of duplicates.
proof fn lemma_select_ids(q: Seq<JobView>, ids: Seq<Seq<char>>, keep: bool)
    ensures
        forall|id: Seq<char>|
            #[trigger] has_id(select_jobs(q, ids, keep), id) ==> has_id(q, id) && ids.contains(id)
                == keep,
        ids_distinct(q) ==> ids_distinct(select_jobs(q, ids, keep)),
    decreases q.len(),
{
    if q.len() > 0 {
        let d = q.drop_last();
        lemma_select_ids(d, ids, keep);
        let r0 = select_jobs(d, ids, keep);
        let r = select_jobs(q, ids, keep);
        let x = q.last();
        assert forall|id: Seq<char>| has_id(r, id) implies has_id(q, id) && ids.contains(id)
            == keep by {
            let a = choose|a: int| 0 <= a < r.len() && r[a].id == id;
            if ids.contains(x.id) == keep && a == r.len() - 1 {
                assert(q[q.len() - 1].id == id);
            } else {
                assert(r0[a].id == id);
                assert(has_id(r0, id));
                let b = choose|b: int| 0 <= b < d.len() && d[b].id == id;
                assert(q[b].id == id);
            }
        }
        if ids_distinct(q) {
            assert(ids_distinct(d)) by {
                assert forall|a: int, b: int| 0 <= a < b < d.len() implies d[a].id != d[b].id by {
                    assert(d[a] == q[a] && d[b] == q[b]);
                }
            }
            if ids.contains(x.id) == keep {
                assert(!has_id(r0, x.id)) by {
                    if has_id(r0, x.id) {
                        let b = choose|b: int| 0 <= b < d.len() && d[b].id == x.id;
                        assert(q[b].id == q[q.len() - 1].id);
                    }
                }
                assert forall|a: int, b: int| 0 <= a < b < r.len() implies r[a].id != r[b].id by {
                    if b == r.len() - 1 {
                        assert(r[a] == r0[a]);
                        assert(has_id(r0, r0[a].id));
                    } else {
                        assert(r[a] == r0[a] && r[b] == r0[b]);
                    }
                }
            }
        }
    }
}

/// Ids of the combined queue before re-sorting are free of duplicates.
proof fn lemma_promoted_ids(
    q0: Seq<JobView>,
    idv: Seq<Seq<char>>,
    ov: Seq<JobView>,
    rv: Seq<JobView>,
    cv: Seq<JobView>,
)
    requires
        ids_distinct(q0),
        ov == stable_sort(select_jobs(q0, idv, true), ix_key(idv)),
        rv == select_jobs(q0, idv, false),
        cv.len() == rv.len() + ov.len(),
        forall|a: int| 0 <= a < rv.len() ==> cv[a] == rv[a],
        forall|a: int| 0 <= a < ov.len() ==> cv[rv.len() + a].id == ov[a].id,
    ensures
        ids_distinct(cv),
{
    let pv = select_jobs(q0, idv, true);
    lemma_select_ids(q0, idv, true);
    lemma_select_ids(q0, idv, false);
    lemma_sort_ids(pv, ix_key(idv));
    assert forall|a: int, b: int| 0 <= a < b < cv.len() implies cv[a].id != cv[b].id by {
        let rl = rv.len() as int;
        if b < rl {
            assert(cv[a] == rv[a] && cv[b] == rv[b]);
        } else if a < rl {
            assert(cv[a] == rv[a]);
            assert(cv[b].id == ov[b - rl].id);
            assert(has_id(rv, rv[a].id));
            assert(has_id(ov, ov[b - rl].id));
        } else {
            assert(cv[a].id == ov[a - rl].id && cv[b].id == ov[b - rl].id);
        }
    }
}

fn sort_jobs_by(jobs: Vec<QueuedJob>, keys: Vec<i128>, Ghost(key): Ghost<spec_fn(JobView) -> int>) -> (out: Vec<QueuedJob>)
    requires
        keys@.len() == jobs@.len(),
        forall|a: int| 0 <= a < jobs@.len() ==> keys@[a] as int == key(jobs@[a]@),
    ensures
        jobs_view(out@) == stable_sort(jobs_view(jobs@), key),
{
    let ghost sv = jobs_view(jobs@);
    let mut out: Vec<QueuedJob> = Vec::new();
    let mut out_keys: Vec<i128> = Vec::new();
    let n = jobs.len();
    let mut k: usize = 0;
    proof {
        assert(sv.take(0) =~= Seq::<JobView>::empty());
        assert(jobs_view(out@) =~= Seq::<JobView>::empty());
    }
    while k < n
        invariant
            n == jobs@.len(),
            sv == jobs_view(jobs@),
            keys@.len() == n,
            forall|a: int| 0 <= a < n ==> keys@[a] as int == key(jobs@[a]@),
            k <= n,
            jobs_view(out@) == stable_sort(sv.take(k as int), key),
            out_keys@.len() == out@.len(),
            forall|a: int| 0 <= a < out@.len() ==> out_keys@[a] as int == key(out@[a]@),
        decreases n - k,
    {
        let kx = keys[k];
        let j = &jobs[k];
        let copy = QueuedJob {
            file_id: clone_string(&j.file_id),
            file_path: clone_string(&j.file_path),
            priority: j.priority,
            retry: j.retry,
        };
        let ghost t = jobs_view(out@);
        proof {
            lemma_stable_sort_sorted(sv.take(k as int), key);
        }
        let mut p: usize = 0;
        while p < out.len() && out_keys[p] <= kx
            invariant
                p <= out@.len(),
                out_keys@.len() == out@.len(),
                t == jobs_view(out@),
                forall|a: int| 0 <= a < out@.len() ==> out_keys@[a] as int == key(out@[a]@),
                forall|a: int| 0 <= a < p ==> key(t[a]) <= kx,
            decreases out@.len() - p,
        {
            p = p + 1;
        }
        proof {
            assert(copy@ == sv[k as int]);
            assert forall|a: int| p <= a < t.len() implies key(t[a]) > kx by {
                if p < t.len() {
                    assert(key(t[p as int]) > kx);
                    assert(key(t[p as int]) <= key(t[a]));
                }
            }
            lemma_insert_sorted(t, key, copy@, p as int);
            assert(sv.take(k + 1).drop_last() =~= sv.take(k as int));
            assert(sv.take(k + 1).last() == copy@);
        }
        out.insert(p, copy);
        out_keys.insert(p, kx);
        proof {
            assert(jobs_view(out@) =~= t.take(p as int).push(sv[k as int]) + t.skip(p as int));
            assert forall|a: int| 0 <= a < out@.len() implies out_keys@[a] as int == key(out@[a]@) by {
                if a < p {
                } else if a == p {
                } else {
                }
            }
        }
        k = k + 1;
    }
    proof {
        assert(sv.take(n as int) =~= sv);
    }
    out
}

/// Queue, dedup sets and shutdown flag of the thumbnail worker pool.
pub struct PoolState {
    queue: VecDeque<QueuedJob>,
    in_flight: Vec<String>,
    shutdown: bool,
}

/// Mathematical value of the pool state.
pub struct PoolView {
    pub queue: Seq<JobView>,
    pub in_flight: Seq<Seq<char>>,
    pub shutdown: bool,
}

/// Ids in a job list.
pub open spec fn job_ids(q: Seq<JobView>) -> Seq<Seq<char>> {
    q.map_values(|j: JobView| j.id)
}

/// Some job of `q` has id `id`.
pub open spec fn has_id(q: Seq<JobView>, id: Seq<char>) -> bool {
    exists|a: int| 0 <= a < q.len() && q[a].id == id
}

/// No two jobs of `q` share an id.
pub open spec fn ids_distinct(q: Seq<JobView>) -> bool {
    forall|a: int, b: int| 0 <= a < b < q.len() ==> q[a].id != q[b].id
}

/// No value occurs twice.
pub open spec fn no_dups<T>(s: Seq<T>) -> bool {
    forall|a: int, b: int| 0 <= a < b < s.len() ==> s[a] != s[b]
}

impl View for PoolState {
    type V = PoolView;

    closed spec fn view(&self) -> PoolView {
        PoolView {
            queue: jobs_view(self.queue@),
            in_flight: strings_view(self.in_flight@),
            shutdown: self.shutdown,
        }
    }
}

/// The state invariant: the queue is sorted by priority, no id is queued
/// twice, and the in-flight set holds no duplicates.
pub open spec fn pool_wf(v: PoolView) -> bool {
    &&& sorted_by(v.queue, prio_key())
    &&& ids_distinct(v.queue)
    &&& no_dups(v.in_flight)
}

impl PoolState {
    /// Every pool state is well formed.
    #[verifier::type_invariant]
    spec fn state_wf(self) -> bool {
        pool_wf(self@)
    }
}

fn string_in(v: &Vec<String>, s: &String) -> (b: bool)
    ensures
        b == strings_view(v@).contains(s@),
{
    let mut k: usize = 0;
    while k < v.len()
        invariant
            k <= v@.len(),
            forall|a: int| 0 <= a < k ==> v@[a]@ != s@,
        decreases v@.len() - k,
    {
        if v[k] == *s {
            proof {
                assert(strings_view(v@)[k as int] == s@);
            }
            return true;
        }
        k = k + 1;
    }
    proof {
        if strings_view(v@).contains(s@) {
            let a = choose|a: int| 0 <= a < strings_view(v@).len() && strings_view(v@)[a] == s@;
            assert(v@[a]@ == s@);
        }
    }
    false
}

/// Index of the first string of `v` equal to `s`, if any.
fn position_of(v: &Vec<String>, s: &String) -> (r: Option<usize>)
    ensures
        match r {
            Some(k) => k < v@.len() && v@[k as int]@ == s@,
            None => forall|a: int| 0 <= a < v@.len() ==> v@[a]@ != s@,
        },
{
    let mut k: usize = 0;
    while k < v.len()
        invariant
            k <= v@.len(),
            forall|a: int| 0 <= a < k ==> v@[a]@ != s@,
        decreases v@.len() - k,
    {
        if v[k] == *s {
            return Some(k);
        }
        k = k + 1;
    }
    None
}

fn clone_string(s: &String) -> (r: String)
    ensures
        r@ == s@,
{
    s.clone()
}

impl PoolState {
    /// An empty queue with nothing in flight.
    pub fn new() -> (s: Self)
        ensures
            s@.queue.len() == 0,
            s@.in_flight.len() == 0,
            !s@.shutdown,
            pool_wf(s@),
    {
        let q: VecDeque<QueuedJob> = VecDeque::new();
        let f: Vec<String> = Vec::new();
        proof {
            assert(jobs_view(q@) =~= Seq::empty());
            assert(strings_view(f@) =~= Seq::empty());
        }
        PoolState { queue: q, in_flight: f, shutdown: false }
    }

    fn queue_has(&self, id: &String) -> (b: bool)
        ensures
            b == has_id(self@.queue, id@),
    {
        let mut k: usize = 0;
        while k < self.queue.len()
            invariant
                k <= self.queue@.len(),
                forall|a: int| 0 <= a < k ==> self.queue@[a].file_id@ != id@,
            decreases self.queue@.len() - k,
        {
            if self.queue[k].file_id == *id {
                proof {
                    assert(self@.queue[k as int].id == id@);
                }
                return true;
            }
            k = k + 1;
        }
        proof {
            if has_id(self@.queue, id@) {
                let a = choose|a: int| 0 <= a < self@.queue.len() && self@.queue[a].id == id@;
                assert(self.queue@[a].file_id@ == id@);
            }
        }
        false
    }

    /// Queue a job unless its id is already queued or in flight; it goes after
    /// every job whose priority is at most its own (lower runs first).
    pub fn enqueue(&mut self, file_id: String, file_path: String, priority: i32, retry: u32)
        ensures
            pool_wf(final(self)@),
            final(self)@.in_flight == old(self)@.in_flight,
            final(self)@.shutdown == old(self)@.shutdown,
            final(self)@.queue == if old(self)@.in_flight.contains(file_id@) || has_id(
                old(self)@.queue,
                file_id@,
            ) {
                old(self)@.queue
            } else {
                insert_by_key(
                    old(self)@.queue,
                    prio_key(),
                    JobView { id: file_id@, path: file_path@, priority, retry },
                )
            },
    {
        proof {
            use_type_invariant(&*self);
        }
        if !string_in(&self.in_flight, &file_id) && !self.queue_has(&file_id) {
            let mut p: usize = 0;
            while p < self.queue.len() && self.queue[p].priority <= priority
                invariant
                    pool_wf(old(self)@),
                    self.queue@ == old(self).queue@,
                    self.in_flight@ == old(self).in_flight@,
                    self.shutdown == old(self).shutdown,
                    p <= self.queue@.len(),
                    forall|a: int| 0 <= a < p ==> self.queue@[a].priority <= priority,
                decreases self.queue@.len() - p,
            {
                p = p + 1;
            }
            let ghost old_q = self@.queue;
            let ghost x = JobView { id: file_id@, path: file_path@, priority, retry };
            proof {
                assert forall|a: int| p <= a < old_q.len() implies old_q[a].priority > priority by {
                    if p < old_q.len() {
                        assert(old_q[p as int].priority > priority);
                        assert(prio_key()(old_q[p as int]) <= prio_key()(old_q[a]));
                    }
                }
                assert(forall|a: int| 0 <= a < p ==> prio_key()(old_q[a]) <= prio_key()(x));
                assert(forall|a: int| p <= a < old_q.len() ==> prio_key()(old_q[a]) > prio_key()(x));
                lemma_insert_sorted(old_q, prio_key(), x, p as int);
            }
            let mut q: VecDeque<QueuedJob> = VecDeque::new();
            proof {
                assert(jobs_view(q@) =~= Seq::empty());
            }
            std::mem::swap(&mut q, &mut self.queue);
            q.insert(p, QueuedJob { file_id, file_path, priority, retry });
            proof {
                assert(jobs_view(q@) =~= old_q.take(p as int).push(x) + old_q.skip(p as int));
                let nq = jobs_view(q@);
                assert forall|a: int, b: int| 0 <= a < b < nq.len() implies nq[a].id != nq[b].id by {
                    if a < p && b < p {
                        assert(nq[a] == old_q[a] && nq[b] == old_q[b]);
                    } else if a < p && b == p {
                        assert(nq[a] == old_q[a]);
                        assert(has_id(old_q, old_q[a].id));
                    } else if a < p {
                        assert(nq[a] == old_q[a] && nq[b] == old_q[b - 1]);
                    } else if a == p {
                        assert(nq[b] == old_q[b - 1]);
                        assert(has_id(old_q, old_q[b - 1].id));
                    } else {
                        assert(nq[a] == old_q[a - 1] && nq[b] == old_q[b - 1]);
                    }
                }
            }
            self.queue = q;
        }
        proof {
            use_type_invariant(&*self);
        }
    }

    /// Take the front job (lowest priority value), as (id, path, retry count).
    pub fn dequeue(&mut self) -> (r: Option<(String, String, u32)>)
        ensures
            pool_wf(final(self)@),
            final(self)@.in_flight == old(self)@.in_flight,
            final(self)@.shutdown == old(self)@.shutdown,
            old(self)@.queue.len() == 0 ==> r is None && final(self)@.queue == old(self)@.queue,
            old(self)@.queue.len() > 0 ==> {
                &&& r matches Some((id, path, retry))
                &&& id@ == old(self)@.queue[0].id
                &&& path@ == old(self)@.queue[0].path
                &&& retry == old(self)@.queue[0].retry
                &&& final(self)@.queue == old(self)@.queue.drop_first()
            },
    {
        proof {
            use_type_invariant(&*self);
        }
        let ghost old_q = self@.queue;
        let mut q: VecDeque<QueuedJob> = VecDeque::new();
        proof {
            assert(jobs_view(q@) =~= Seq::empty());
        }
        std::mem::swap(&mut q, &mut self.queue);
        let r = match q.pop_front() {
            Some(job) => Some((job.file_id, job.file_path, job.retry)),
            None => None,
        };
        proof {
            let nq = jobs_view(q@);
            if old_q.len() > 0 {
                assert(nq =~= old_q.drop_first());
                assert forall|a: int, b: int| 0 <= a < b < nq.len() implies nq[a].id != nq[b].id by {
                    assert(nq[a] == old_q[a + 1]);
                    assert(nq[b] == old_q[b + 1]);
                }
            } else {
                assert(nq =~= old_q);
            }
        }
        self.queue = q;
        proof {
            use_type_invariant(&*self);
        }
        r
    }

    /// Drop every queued job.
    pub fn cancel_all(&mut self)
        ensures
            pool_wf(final(self)@),
            final(self)@.queue.len() == 0,
            final(self)@.in_flight == old(self)@.in_flight,
            final(self)@.shutdown == old(self)@.shutdown,
    {
        proof {
            use_type_invariant(&*self);
        }
        let q: VecDeque<QueuedJob> = VecDeque::new();
        proof {
            assert(jobs_view(q@) =~= Seq::empty());
        }
        self.queue = q;
        proof {
            use_type_invariant(&*self);
        }
    }

    /// Mark a job id as being processed.
    pub fn mark_in_flight(&mut self, file_id: String)
        ensures
            pool_wf(final(self)@),
            final(self)@.queue == old(self)@.queue,
            final(self)@.shutdown == old(self)@.shutdown,
            final(self)@.in_flight == if old(self)@.in_flight.contains(file_id@) {
                old(self)@.in_flight
            } else {
                old(self)@.in_flight.push(file_id@)
            },
    {
        proof {
            use_type_invariant(&*self);
        }
        if !string_in(&self.in_flight, &file_id) {
            let ghost old_f = self@.in_flight;
            let mut f: Vec<String> = Vec::new();
            proof {
                assert(strings_view(f@) =~= Seq::empty());
            }
            std::mem::swap(&mut f, &mut self.in_flight);
            f.push(file_id);
            proof {
                assert(strings_view(f@) =~= old_f.push(file_id@));
            }
            self.in_flight = f;
        }
        proof {
            use_type_invariant(&*self);
        }
    }

    /// Forget that a job id is being processed.
    pub fn finish_in_flight(&mut self, file_id: &String)
        ensures
            pool_wf(final(self)@),
            final(self)@.queue == old(self)@.queue,
            final(self)@.shutdown == old(self)@.shutdown,
            !final(self)@.in_flight.contains(file_id@),
            forall|s: Seq<char>|
                s != file_id@ ==> (final(self)@.in_flight.contains(s) <==> old(
                    self,
                )@.in_flight.contains(s)),
    {
        proof {
            use_type_invariant(&*self);
        }
        match position_of(&self.in_flight, file_id) {
            Some(k) => {
                let ghost old_f = self@.in_flight;
                let mut f: Vec<String> = Vec::new();
                proof {
                    assert(strings_view(f@) =~= Seq::empty());
                }
                std::mem::swap(&mut f, &mut self.in_flight);
                f.remove(k);
                proof {
                    let nf = strings_view(f@);
                    assert(nf =~= old_f.remove(k as int));
                    assert(old_f[k as int] == file_id@);
                    assert forall|a: int, b: int| 0 <= a < b < nf.len() implies nf[a] != nf[b] by {
                        let a2 = if a < k { a } else { a + 1 };
                        let b2 = if b < k { b } else { b + 1 };
                        assert(nf[a] == old_f[a2] && nf[b] == old_f[b2]);
                    }
                    assert forall|s: Seq<char>| s != file_id@ implies (nf.contains(s) <==> old_f.contains(s)) by {
                        if old_f.contains(s) {
                            let a = choose|a: int| 0 <= a < old_f.len() && old_f[a] == s;
                            if a < k {
                                assert(nf[a] == s);
                            } else {
                                assert(a != k);
                                assert(nf[a - 1] == s);
                            }
                        }
                        if nf.contains(s) {
                            let a = choose|a: int| 0 <= a < nf.len() && nf[a] == s;
                            if a < k {
                                assert(old_f[a] == s);
                            } else {
                                assert(old_f[a + 1] == s);
                            }
                        }
                    }
                    if nf.contains(file_id@) {
                        let a = choose|a: int| 0 <= a < nf.len() && nf[a] == file_id@;
                        if a < k {
                            assert(old_f[a] == file_id@);
                        } else {
                            assert(old_f[a + 1] == file_id@);
                        }
                    }
                }
                self.in_flight = f;
            },
            None => {
                proof {
                    if self@.in_flight.contains(file_id@) {
                        let a = choose|a: int|
                            0 <= a < self@.in_flight.len() && self@.in_flight[a] == file_id@;
                        assert(self.in_flight@[a]@ == file_id@);
                    }
                }
            },
        }
        proof {
            use_type_invariant(&*self);
        }
    }

    /// Move the given queued ids to the front, in the order of their (last)
    /// position in `ids`: they get consecutive priorities just below the
    /// smallest remaining one, so the most recently opened view always runs
    /// ahead of older backlog. Ids not queued are ignored.
    pub fn prioritize(&mut self, ids: &[String])
        requires
            old(self)@.queue.len() <= i32::MAX,
        ensures
            pool_wf(final(self)@),
            final(self)@.in_flight == old(self)@.in_flight,
            final(self)@.shutdown == old(self)@.shutdown,
            final(self)@.queue == promoted_queue(old(self)@.queue, strings_view(ids@)),
    {
        proof {
            use_type_invariant(&*self);
        }
        let ghost q0 = self@.queue;
        let ghost idv = strings_view(ids@);
        let (pulled, pulled_keys, rest) = split_jobs(&self.queue, ids);
        if pulled.len() == 0 {
            return;
        }
        let ordered = sort_jobs_by(pulled, pulled_keys, Ghost(ix_key(idv)));
        let cur_min = min_prio(&rest);
        proof {
            lemma_select_len(q0, idv);
            lemma_stable_sort_perm(select_jobs(q0, idv, true), ix_key(idv));
            assert(jobs_view(ordered@).len() == ordered@.len());
        }
        let len = ordered.len() as i64;
        let base: i64 = if cur_min - len < i32::MIN as i64 {
            i32::MIN as i64
        } else {
            cur_min - len
        };
        let ghost ov = jobs_view(ordered@);
        let ghost rv = jobs_view(rest@);
        let mut combined = rest;
        append_promoted(&mut combined, &ordered, base);
        let ghost cv = jobs_view(combined@);
        let keys = prio_keys(&combined);
        let sorted = sort_jobs_by(combined, keys, Ghost(prio_key()));
        proof {
            lemma_stable_sort_sorted(cv, prio_key());
            lemma_stable_sort_perm(cv, prio_key());
            lemma_sort_ids(cv, prio_key());
            lemma_promoted_ids(q0, idv, ov, rv, cv);
        }
        let nq = into_deque(sorted);
        self.queue = nq;
        proof {
            use_type_invariant(&*self);
        }
    }
}

/// The jobs of `v`, in order, as a queue.
fn into_deque(v: Vec<QueuedJob>) -> (q: VecDeque<QueuedJob>)
    ensures
        q@ == v@,
{
    let mut q: VecDeque<QueuedJob> = VecDeque::new();
    let mut v = v;
    let ghost w = v@;
    while v.len() > 0
        invariant
            w.len() == q@.len() + v@.len(),
            v@ == w.take(v@.len() as int),
            q@ == w.skip(v@.len() as int),
        decreases v@.len(),
    {
        let ghost n = v@.len();
        let j = v.pop().unwrap();
        proof {
            assert(j == w[n - 1]);
        }
        q.push_front(j);
        proof {
            assert(v@ =~= w.take(n - 1));
            assert(q@ =~= w.skip(n - 1));
        }
    }
    proof {
        assert(q@ =~= w.skip(0));
        assert(w.skip(0) =~= w);
    }
    q
}

/// Split the queue into the jobs whose ids are listed (with their sort keys)
/// and the rest, both in queue order.
fn split_jobs(queue: &VecDeque<QueuedJob>, ids: &[String]) -> (r: (Vec<QueuedJob>, Vec<i128>, Vec<QueuedJob>))
    ensures
        jobs_view(r.0@) == select_jobs(jobs_view(queue@), strings_view(ids@), true),
        jobs_view(r.2@) == select_jobs(jobs_view(queue@), strings_view(ids@), false),
        r.1@.len() == r.0@.len(),
        forall|a: int|
            0 <= a < r.0@.len() ==> r.1@[a] as int == ix_key(strings_view(ids@))(r.0@[a]@),
{
    let ghost q0 = jobs_view(queue@);
    let ghost idv = strings_view(ids@);
    let mut pulled: Vec<QueuedJob> = Vec::new();
    let mut pulled_keys: Vec<i128> = Vec::new();
    let mut rest: Vec<QueuedJob> = Vec::new();
    let n = queue.len();
    let mut k: usize = 0;
    proof {
        assert(q0.take(0) =~= Seq::<JobView>::empty());
        assert(jobs_view(pulled@) =~= Seq::<JobView>::empty());
        assert(jobs_view(rest@) =~= Seq::<JobView>::empty());
    }
    while k < n
        invariant
            q0 == jobs_view(queue@),
            idv == strings_view(ids@),
            n == queue@.len(),
            k <= n,
            jobs_view(pulled@) == select_jobs(q0.take(k as int), idv, true),
            jobs_view(rest@) == select_jobs(q0.take(k as int), idv, false),
            pulled_keys@.len() == pulled@.len(),
            forall|a: int|
                0 <= a < pulled@.len() ==> pulled_keys@[a] as int == ix_key(idv)(pulled@[a]@),
        decreases n - k,
    {
        let job = &queue[k];
        let copy = QueuedJob {
            file_id: clone_string(&job.file_id),
            file_path: clone_string(&job.file_path),
            priority: job.priority,
            retry: job.retry,
        };
        proof {
            assert(q0.take(k + 1).drop_last() =~= q0.take(k as int));
            assert(q0.take(k + 1).last() == copy@);
        }
        let pos = last_index_pos(ids, &copy.file_id);
        if pos >= 0 {
            let ghost pv = jobs_view(pulled@);
            pulled.push(copy);
            pulled_keys.push(pos);
            proof {
                assert(jobs_view(pulled@) =~= pv.push(q0[k as int]));
            }
        } else {
            let ghost rv = jobs_view(rest@);
            rest.push(copy);
            proof {
                assert(jobs_view(rest@) =~= rv.push(q0[k as int]));
            }
        }
        k = k + 1;
    }
    proof {
        assert(q0.take(n as int) =~= q0);
    }
    (pulled, pulled_keys, rest)
}

/// Smallest priority in the list, or 0 when it is empty.
fn min_prio(rest: &Vec<QueuedJob>) -> (m: i64)
    ensures
        m as int == if rest@.len() == 0 {
            0
        } else {
            min_priority(jobs_view(rest@))
        },
        i32::MIN <= m <= i32::MAX,
{
    if rest.len() == 0 {
        return 0;
    }
    let mut cur_min = rest[0].priority as i64;
    let mut r: usize = 1;
    proof {
        assert(jobs_view(rest@).take(1) =~= seq![jobs_view(rest@)[0]]);
    }
    while r < rest.len()
        invariant
            1 <= r <= rest@.len(),
            cur_min as int == min_priority(jobs_view(rest@).take(r as int)),
            i32::MIN <= cur_min <= i32::MAX,
        decreases rest@.len() - r,
    {
        proof {
            assert(jobs_view(rest@).take(r + 1).drop_last() =~= jobs_view(rest@).take(r as int));
        }
        if (rest[r].priority as i64) < cur_min {
            cur_min = rest[r].priority as i64;
        }
        r = r + 1;
    }
    proof {
        assert(jobs_view(rest@).take(rest@.len() as int) =~= jobs_view(rest@));
    }
    cur_min
}

/// Append the jobs of `ordered` with consecutive priorities from `base`.
fn append_promoted(combined: &mut Vec<QueuedJob>, ordered: &Vec<QueuedJob>, base: i64)
    requires
        i32::MIN <= base,
        base + ordered@.len() <= i32::MAX as int + 1,
    ensures
        jobs_view(final(combined)@) == jobs_view(old(combined)@) + Seq::new(
            ordered@.len(),
            |k: int| JobView { priority: (base + k) as i32, ..jobs_view(ordered@)[k] },
        ),
{
    let ghost ov = jobs_view(ordered@);
    let ghost rv = jobs_view(combined@);
    let mut t: usize = 0;
    proof {
        assert(jobs_view(combined@) =~= rv + Seq::new(
            0 as nat,
            |k: int| JobView { priority: (base + k) as i32, ..ov[k] },
        ));
    }
    while t < ordered.len()
        invariant
            ov == jobs_view(ordered@),
            t <= ordered@.len(),
            i32::MIN <= base,
            base + ordered@.len() <= i32::MAX as int + 1,
            jobs_view(combined@) == rv + Seq::new(
                t as nat,
                |k: int| JobView { priority: (base + k) as i32, ..ov[k] },
            ),
        decreases ordered@.len() - t,
    {
        let j = &ordered[t];
        let ghost cv = jobs_view(combined@);
        let pr = (base + t as i64) as i32;
        let nj = QueuedJob {
            file_id: clone_string(&j.file_id),
            file_path: clone_string(&j.file_path),
            priority: pr,
            retry: j.retry,
        };
        proof {
            assert(ov[t as int] == j@);
            assert(nj@ == JobView { priority: (base + t) as i32, ..ov[t as int] });
        }
        combined.push(nj);
        proof {
            assert(jobs_view(combined@) =~= cv.push(nj@));
            assert(jobs_view(combined@) =~= rv + Seq::new(
                (t + 1) as nat,
                |k: int| JobView { priority: (base + k) as i32, ..ov[k] },
            ));
        }
        t = t + 1;
    }
}

/// Priorities of the jobs, as sort keys.
fn prio_keys(v: &Vec<QueuedJob>) -> (keys: Vec<i128>)
    ensures
        keys@.len() == v@.len(),
        forall|a: int| 0 <= a < v@.len() ==> keys@[a] as int == prio_key()(v@[a]@),
{
    let mut keys: Vec<i128> = Vec::new();
    let mut c: usize = 0;
    while c < v.len()
        invariant
            c <= v@.len(),
            keys@.len() == c,
            forall|a: int| 0 <= a < c ==> keys@[a] as int == prio_key()(v@[a]@),
        decreases v@.len() - c,
    {
        keys.push(v[c].priority as i128);
        c = c + 1;
    }
    keys
}

/// The front of a well-formed queue has the smallest priority, so a dequeue
/// always takes the most urgent job.
pub proof fn lemma_front_is_most_urgent(v: PoolView)
    requires
        pool_wf(v),
        v.queue.len() > 0,
    ensures
        forall|a: int| 0 <= a < v.queue.len() ==> v.queue[0].priority <= #[trigger] v.queue[a].priority,
{
    assert forall|a: int| 0 <= a < v.queue.len() implies v.queue[0].priority
        <= #[trigger] v.queue[a].priority by {
        if a > 0 {
            assert(prio_key()(v.queue[0]) <= prio_key()(v.queue[a]));
        }
    }
}

/// Promotion neither loses nor invents work: the promoted queue has the same
/// length and the same job ids as before.
pub proof fn lemma_promotion_keeps_jobs(q: Seq<JobView>, ids: Seq<Seq<char>>)
    ensures
        promoted_queue(q, ids).len() == q.len(),
        forall|id: Seq<char>| #[trigger] has_id(promoted_queue(q, ids), id) <==> has_id(q, id),
{
    let pulled = select_jobs(q, ids, true);
    if pulled.len() > 0 {
        let rest = select_jobs(q, ids, false);
        let ordered = stable_sort(pulled, ix_key(ids));
        let cur_min = if rest.len() == 0 {
            0
        } else {
            min_priority(rest)
        };
        let base = if cur_min - ordered.len() < i32::MIN {
            i32::MIN as int
        } else {
            cur_min - ordered.len()
        };
        let promoted = Seq::new(
            ordered.len(),
            |k: int| JobView { priority: (base + k) as i32, ..ordered[k] },
        );
        let cv = rest + promoted;
        lemma_select_len(q, ids);
        lemma_stable_sort_perm(pulled, ix_key(ids));
        lemma_stable_sort_perm(cv, prio_key());
        lemma_sort_ids(cv, prio_key());
        lemma_sort_ids(pulled, ix_key(ids));
        lemma_select_partition(q, ids);
        lemma_select_ids(q, ids, true);
        lemma_select_ids(q, ids, false);
        assert forall|id: Seq<char>| has_id(cv, id) implies has_id(q, id) by {
            if has_id(cv, id) {
                let a = choose|a: int| 0 <= a < cv.len() && cv[a].id == id;
                if a < rest.len() {
                    assert(cv[a] == rest[a]);
                    assert(has_id(rest, id));
                    assert(has_id(select_jobs(q, ids, false), id));
                } else {
                    assert(cv[a] == promoted[a - rest.len()]);
                    assert(ordered[a - rest.len()].id == id);
                    assert(has_id(ordered, id));
                    assert(has_id(stable_sort(pulled, ix_key(ids)), id));
                    assert(has_id(pulled, id));
                    assert(has_id(select_jobs(q, ids, true), id));
                }
            }
        }
        assert forall|id: Seq<char>| has_id(q, id) implies has_id(cv, id) by {
            if has_id(q, id) {
                assert(has_id(select_jobs(q, ids, true), id) || has_id(select_jobs(q, ids, false), id));
                if has_id(rest, id) {
                    let a = choose|a: int| 0 <= a < rest.len() && rest[a].id == id;
                    assert(cv[a] == rest[a]);
                    assert(cv[a].id == id);
                } else {
                    assert(has_id(pulled, id));
                    assert(has_id(stable_sort(pulled, ix_key(ids)), id));
                    assert(has_id(ordered, id));
                    let a = choose|a: int| 0 <= a < ordered.len() && ordered[a].id == id;
                    assert(cv[rest.len() + a] == promoted[a]);
                    assert(cv[rest.len() + a].id == id);
                }
            }
        }
    }
}

/// Every job id of `q` lands in exactly the selection its listing decides.
proof fn lemma_select_partition(q: Seq<JobView>, ids: Seq<Seq<char>>)
    ensures
        forall|id: Seq<char>|
            #[trigger] has_id(q, id) ==> (has_id(select_jobs(q, ids, true), id) || has_id(
                select_jobs(q, ids, false),
                id,
            )),
    decreases q.len(),
{
    lemma_select_ids(q, ids, true);
    lemma_select_ids(q, ids, false);
    if q.len() > 0 {
        let d = q.drop_last();
        lemma_select_partition(d, ids);
        assert forall|id: Seq<char>| has_id(q, id) implies (has_id(select_jobs(q, ids, true), id)
            || has_id(select_jobs(q, ids, false), id)) by {
            let a = choose|a: int| 0 <= a < q.len() && q[a].id == id;
            let keep = ids.contains(q.last().id);
            let t = select_jobs(q, ids, true);
            let f = select_jobs(q, ids, false);
            if a == q.len() - 1 {
                if keep {
                    assert(t[t.len() - 1].id == id);
                } else {
                    assert(f[f.len() - 1].id == id);
                }
            } else {
                assert(d[a].id == id);
                assert(has_id(d, id));
                let t0 = select_jobs(d, ids, true);
                let f0 = select_jobs(d, ids, false);
                if has_id(t0, id) {
                    let b = choose|b: int| 0 <= b < t0.len() && t0[b].id == id;
                    assert(t[b].id == id);
                } else {
                    assert(has_id(f0, id));
                    let b = choose|b: int| 0 <= b < f0.len() && f0[b].id == id;
                    assert(f[b].id == id);
                }
            }
        }
    }
}


/// A request to the thumbnail coordinator.
#[derive(Debug)]
pub enum ThumbnailMsg {
    Enqueue { file_id: String, file_path: String, priority: i32, retry_count: u32 },
    /// Pull these already-queued ids to the front (in the given order).
    Prioritize { file_ids: Vec<String> },
    CancelAll,
    Shutdown,
}

/// Which decode path produced a thumbnail.
#[derive(Debug, Clone, Copy, PartialEq, Eq)]
pub enum DecodeKind {
    JpegScaled,
    RawPreview,
    RawThumbnail,
    RawFull,
    General,
}

/// Priority of a job queued again after a failure.
pub const RETRY_PRIORITY: i32 = 99;

/// The request that queues a new job (never a retry).
pub fn enqueue_message(file_id: &str, file_path: &str, priority: i32) -> (m: ThumbnailMsg)
    ensures
        m matches ThumbnailMsg::Enqueue { file_id: id, file_path: path, priority: p, retry_count: r }
            && id@ == file_id@ && path@ == file_path@ && p == priority && r == 0,
{
    ThumbnailMsg::Enqueue {
        file_id: file_id.to_owned(),
        file_path: file_path.to_owned(),
        priority,
        retry_count: 0,
    }
}

/// The request that promotes the ids of the current view; none when there is
/// nothing to promote.
pub fn prioritize_message(file_ids: &[String]) -> (m: Option<ThumbnailMsg>)
    ensures
        file_ids@.len() == 0 ==> m is None,
        file_ids@.len() > 0 ==> (m matches Some(ThumbnailMsg::Prioritize { file_ids: ids })
            && strings_view(ids@) == strings_view(file_ids@)),
{
    if file_ids.len() == 0 {
        return None;
    }
    let mut ids: Vec<String> = Vec::new();
    let mut k: usize = 0;
    while k < file_ids.len()
        invariant
            k <= file_ids@.len(),
            ids@.len() == k,
            strings_view(ids@) == strings_view(file_ids@).take(k as int),
        decreases file_ids@.len() - k,
    {
        let c = clone_string(&file_ids[k]);
        ids.push(c);
        proof {
            assert(strings_view(ids@)[k as int] == c@);
            assert(strings_view(ids@) =~= strings_view(file_ids@).take(k + 1));
        }
        k = k + 1;
    }
    proof {
        assert(strings_view(file_ids@).take(file_ids@.len() as int) =~= strings_view(file_ids@));
    }
    Some(ThumbnailMsg::Prioritize { file_ids: ids })
}

/// The delayed re-queue of a failed job: one retry at `RETRY_PRIORITY`, none
/// after that.
pub fn retry_message(file_id: String, file_path: String, retry: u32) -> (m: Option<ThumbnailMsg>)
    ensures
        retry >= 1 ==> m is None,
        retry < 1 ==> (m matches Some(
            ThumbnailMsg::Enqueue { file_id: id, file_path: path, priority: p, retry_count: r },
        ) && id@ == file_id@ && path@ == file_path@ && p == RETRY_PRIORITY && r == retry + 1),
{
    if retry < 1 {
        Some(
            ThumbnailMsg::Enqueue {
                file_id,
                file_path,
                priority: RETRY_PRIORITY,
                retry_count: retry + 1,
            },
        )
    } else {
        None
    }
}

/// What the coordinator does after applying a request.
#[derive(Debug, Clone, Copy, PartialEq, Eq)]
pub enum CoordinatorAction {
    /// A job may have arrived: wake one worker.
    WakeOne,
    /// Nothing new to run.
    Continue,
    /// Shut down: wake every worker and stop reading requests.
    StopAndWakeAll,
}

/// What a worker does next.
#[derive(Debug)]
pub enum WorkerStep {
    /// The pool is shutting down.
    Stop,
    /// Run this job `(file_id, file_path, retry)`, now marked in flight.
    Run(String, String, u32),
    /// Nothing queued: wait for a wake-up.
    Wait,
}

impl PoolState {
    /// Number of queued jobs.
    pub fn queue_len(&self) -> (n: usize)
        ensures
            n == self@.queue.len(),
    {
        proof {
            assert(jobs_view(self.queue@).len() == self.queue@.len());
        }
        self.queue.len()
    }

    /// Applies one request to the state, as the coordinator does.
    pub fn apply(&mut self, msg: ThumbnailMsg) -> (a: CoordinatorAction)
        requires
            msg is Prioritize ==> old(self)@.queue.len() <= i32::MAX,
        ensures
            pool_wf(final(self)@),
            final(self)@.in_flight == old(self)@.in_flight,
            match msg {
                ThumbnailMsg::Enqueue { file_id, file_path, priority, retry_count } => {
                    &&& a == CoordinatorAction::WakeOne
                    &&& final(self)@.shutdown == old(self)@.shutdown
                    &&& final(self)@.queue == if old(self)@.in_flight.contains(file_id@)
                        || has_id(old(self)@.queue, file_id@) {
                        old(self)@.queue
                    } else {
                        insert_by_key(
                            old(self)@.queue,
                            prio_key(),
                            JobView { id: file_id@, path: file_path@, priority, retry: retry_count },
                        )
                    }
                },
                ThumbnailMsg::Prioritize { file_ids } => {
                    &&& a == CoordinatorAction::Continue
                    &&& final(self)@.shutdown == old(self)@.shutdown
                    &&& final(self)@.queue == promoted_queue(old(self)@.queue, strings_view(file_ids@))
                },
                ThumbnailMsg::CancelAll => {
                    &&& a == CoordinatorAction::Continue
                    &&& final(self)@.shutdown == old(self)@.shutdown
                    &&& final(self)@.queue.len() == 0
                },
                ThumbnailMsg::Shutdown => {
                    &&& a == CoordinatorAction::StopAndWakeAll
                    &&& final(self)@.shutdown
                    &&& final(self)@.queue == old(self)@.queue
                },
            },
    {
        match msg {
            ThumbnailMsg::Enqueue { file_id, file_path, priority, retry_count } => {
                self.enqueue(file_id, file_path, priority, retry_count);
                CoordinatorAction::WakeOne
            },
            ThumbnailMsg::Prioritize { file_ids } => {
                self.prioritize(file_ids.as_slice());
                CoordinatorAction::Continue
            },
            ThumbnailMsg::CancelAll => {
                self.cancel_all();
                CoordinatorAction::Continue
            },
            ThumbnailMsg::Shutdown => {
                proof {
                    use_type_invariant(&*self);
                }
                self.shutdown = true;
                proof {
                    use_type_invariant(&*self);
                }
                CoordinatorAction::StopAndWakeAll
            },
        }
    }

    /// A worker's next step: stop on shutdown, otherwise take the front job
    /// and mark it in flight, or wait when the queue is empty.
    pub fn next_step(&mut self) -> (w: WorkerStep)
        ensures
            pool_wf(final(self)@),
            final(self)@.shutdown == old(self)@.shutdown,
            old(self)@.shutdown ==> w is Stop && final(self)@ == old(self)@,
            !old(self)@.shutdown && old(self)@.queue.len() == 0 ==> w is Wait && final(self)@
                == old(self)@,
            !old(self)@.shutdown && old(self)@.queue.len() > 0 ==> {
                let job = old(self)@.queue[0];
                &&& w matches WorkerStep::Run(id, path, retry)
                &&& id@ == job.id && path@ == job.path && retry == job.retry
                &&& final(self)@.queue == old(self)@.queue.drop_first()
                &&& final(self)@.in_flight == if old(self)@.in_flight.contains(job.id) {
                    old(self)@.in_flight
                } else {
                    old(self)@.in_flight.push(job.id)
                }
            },
    {
        proof {
            use_type_invariant(&*self);
        }
        if self.shutdown {
            return WorkerStep::Stop;
        }
        match self.dequeue() {
            Some((id, path, retry)) => {
                self.mark_in_flight(clone_string(&id));
                WorkerStep::Run(id, path, retry)
            },
            None => WorkerStep::Wait,
        }
    }
}


/// Stably sorting an already sorted sequence changes nothing.
proof fn lemma_sort_sorted_is_identity<T>(s: Seq<T>, key: spec_fn(T) -> int)
    requires
        sorted_by(s, key),
    ensures
        stable_sort(s, key) == s,
    decreases s.len(),
{
    if s.len() > 0 {
        let t = s.drop_last();
        assert(sorted_by(t, key));
        lemma_sort_sorted_is_identity(t, key);
        lemma_insert_sorted(t, key, s.last(), t.len() as int);
        assert(t.take(t.len() as int).push(s.last()) + t.skip(t.len() as int) =~= s);
    }
}

/// Sorting `a + b`, where `b` lies wholly below `a` and both are sorted, puts
/// `b` in front of `a`.
proof fn lemma_sort_low_band<T>(a: Seq<T>, b: Seq<T>, key: spec_fn(T) -> int)
    requires
        sorted_by(a, key),
        sorted_by(b, key),
        forall|i: int, j: int| 0 <= i < a.len() && 0 <= j < b.len() ==> key(b[j]) < key(a[i]),
    ensures
        stable_sort(a + b, key) == b + a,
    decreases b.len(),
{
    if b.len() == 0 {
        assert(a + b =~= a);
        assert(b + a =~= a);
        lemma_sort_sorted_is_identity(a, key);
    } else {
        let b0 = b.drop_last();
        let x = b.last();
        assert(sorted_by(b0, key));
        lemma_sort_low_band(a, b0, key);
        assert((a + b).drop_last() =~= a + b0);
        assert((a + b).last() == x);
        let c = b0 + a;
        assert(sorted_by(c, key)) by {
            assert forall|i: int, j: int| 0 <= i < j < c.len() implies key(c[i]) <= key(c[j]) by {
                if j < b0.len() {
                    assert(c[i] == b[i] && c[j] == b[j]);
                } else if i < b0.len() {
                    assert(c[i] == b[i] && c[j] == a[j - b0.len()]);
                } else {
                    assert(c[i] == a[i - b0.len()] && c[j] == a[j - b0.len()]);
                }
            }
        }
        assert forall|i: int| 0 <= i < b0.len() implies key(c[i]) <= key(x) by {
            assert(c[i] == b[i]);
        }
        assert forall|i: int| b0.len() <= i < c.len() implies key(c[i]) > key(x) by {
            assert(c[i] == a[i - b0.len()]);
        }
        lemma_insert_sorted(c, key, x, b0.len() as int);
        assert(c.take(b0.len() as int).push(x) + c.skip(b0.len() as int) =~= b + a);
    }
}

/// Every selected job is a job of `q`.
proof fn lemma_select_within(q: Seq<JobView>, ids: Seq<Seq<char>>, keep: bool)
    ensures
        forall|a: int|
            0 <= a < select_jobs(q, ids, keep).len() ==> exists|b: int|
                0 <= b < q.len() && #[trigger] select_jobs(q, ids, keep)[a] == q[b],
    decreases q.len(),
{
    if q.len() > 0 {
        let d = q.drop_last();
        lemma_select_within(d, ids, keep);
        let r0 = select_jobs(d, ids, keep);
        let r = select_jobs(q, ids, keep);
        assert forall|a: int| 0 <= a < r.len() implies exists|b: int|
            0 <= b < q.len() && #[trigger] r[a] == q[b] by {
            if a < r0.len() {
                assert(r[a] == r0[a]);
                let b = choose|b: int| 0 <= b < d.len() && r0[a] == d[b];
                assert(q[b] == d[b]);
            } else {
                assert(r[a] == q[q.len() - 1]);
            }
        }
    }
}

/// A selection from a queue sorted by priority is sorted by priority.
proof fn lemma_select_sorted(q: Seq<JobView>, ids: Seq<Seq<char>>, keep: bool)
    requires
        sorted_by(q, prio_key()),
    ensures
        sorted_by(select_jobs(q, ids, keep), prio_key()),
    decreases q.len(),
{
    if q.len() > 0 {
        let d = q.drop_last();
        assert(sorted_by(d, prio_key()));
        lemma_select_sorted(d, ids, keep);
        lemma_select_within(d, ids, keep);
        let r0 = select_jobs(d, ids, keep);
        let r = select_jobs(q, ids, keep);
        assert forall|a: int, b: int| 0 <= a < b < r.len() implies prio_key()(r[a]) <= prio_key()(
            r[b],
        ) by {
            if b < r0.len() {
                assert(r[a] == r0[a] && r[b] == r0[b]);
            } else {
                assert(r[a] == r0[a]);
                assert(r[b] == q[q.len() - 1]);
                let c = choose|c: int| 0 <= c < d.len() && #[trigger] r0[a] == d[c];
                assert(d[c] == q[c]);
            }
        }
    }
}

/// The smallest priority is at most every priority of the list, and at least
/// any lower bound of them all.
proof fn lemma_min_priority_bounds(s: Seq<JobView>, lo: int)
    requires
        s.len() > 0,
    ensures
        forall|a: int| 0 <= a < s.len() ==> min_priority(s) <= #[trigger] s[a].priority,
        (forall|a: int| 0 <= a < s.len() ==> lo <= #[trigger] s[a].priority) ==> lo
            <= min_priority(s),
        min_priority(s) <= i32::MAX,
    decreases s.len(),
{
    if s.len() > 1 {
        let d = s.drop_last();
        lemma_min_priority_bounds(d, lo);
        assert forall|a: int| 0 <= a < s.len() implies min_priority(s) <= #[trigger] s[a].priority by {
            if a < d.len() {
                assert(s[a] == d[a]);
            }
        }
        if forall|a: int| 0 <= a < s.len() ==> lo <= #[trigger] s[a].priority {
            assert forall|a: int| 0 <= a < d.len() implies lo <= #[trigger] d[a].priority by {
                assert(s[a] == d[a]);
            }
            assert(lo <= s[s.len() - 1].priority);
        }
    }
}

/// Promotion numbers the promoted jobs from `n` below the smallest remaining
/// priority without reaching below `i32::MIN` (no saturation).
pub open spec fn promotion_fits(q: Seq<JobView>, ids: Seq<Seq<char>>) -> bool {
    let rest = select_jobs(q, ids, false);
    let n = select_jobs(q, ids, true).len();
    (if rest.len() == 0 {
        0
    } else {
        min_priority(rest)
    }) - n >= i32::MIN
}

/// Promotion puts the promoted jobs first, ordered by their (last) position in
/// `ids` and numbered upward from `n` below the smallest priority left
/// behind; every other job keeps its priority and its place relative to the
/// others. When no listed id is queued the queue is unchanged. This holds
/// for a sorted queue whenever the new numbers need not saturate at
/// `i32::MIN`.
pub proof fn lemma_promotion_order(q: Seq<JobView>, ids: Seq<Seq<char>>)
    requires
        sorted_by(q, prio_key()),
        promotion_fits(q, ids),
    ensures
        select_jobs(q, ids, true).len() == 0 ==> promoted_queue(q, ids) == q,
        ({
            let pulled = select_jobs(q, ids, true);
            let rest = select_jobs(q, ids, false);
            let ordered = stable_sort(pulled, ix_key(ids));
            let n = pulled.len() as int;
            let r = promoted_queue(q, ids);
            let cur_min = if rest.len() == 0 {
                0
            } else {
                min_priority(rest)
            };
            n > 0 ==> {
                &&& r.len() == q.len()
                &&& r.skip(n) == rest
                &&& forall|k: int|
                    0 <= k < n ==> #[trigger] r[k] == JobView {
                        priority: (cur_min - n + k) as i32,
                        ..ordered[k]
                    }
                &&& i32::MIN <= cur_min - n
                &&& forall|j: int| 0 <= j < rest.len() ==> cur_min <= #[trigger] rest[j].priority
                &&& forall|a: int, b: int|
                    0 <= a < b < n ==> last_index(ids, ordered[a].id) <= last_index(ids, ordered[b].id)
                &&& forall|k: int| 0 <= k < n ==> ids.contains(#[trigger] ordered[k].id)
            }
        }),
{
    let pulled = select_jobs(q, ids, true);
    let rest = select_jobs(q, ids, false);
    if pulled.len() > 0 {
        let ordered = stable_sort(pulled, ix_key(ids));
        let n = pulled.len() as int;
        let cur_min = if rest.len() == 0 {
            0
        } else {
            min_priority(rest)
        };
        lemma_select_len(q, ids);
        lemma_select_sorted(q, ids, false);
        lemma_select_within(q, ids, false);
        lemma_stable_sort_perm(pulled, ix_key(ids));
        lemma_stable_sort_sorted(pulled, ix_key(ids));
        if rest.len() > 0 {
            lemma_min_priority_bounds(rest, 0);
        }
        assert(cur_min - n >= i32::MIN);
        let base = cur_min - n;
        let promoted = Seq::new(
            ordered.len(),
            |k: int| JobView { priority: (base + k) as i32, ..ordered[k] },
        );
        assert forall|k: int| 0 <= k < n implies #[trigger] promoted[k].priority == base + k by {
            assert(i32::MIN <= base + k <= i32::MAX);
        }
        assert(sorted_by(promoted, prio_key()));
        assert forall|i: int, j: int| 0 <= i < rest.len() && 0 <= j < promoted.len() implies prio_key()(
            promoted[j],
        ) < prio_key()(rest[i]) by {
            assert(cur_min <= rest[i].priority);
        }
        lemma_sort_low_band(rest, promoted, prio_key());
        let r = promoted_queue(q, ids);
        assert(r == promoted + rest);
        assert(r.skip(n) =~= rest);
        assert forall|k: int| 0 <= k < n implies #[trigger] r[k] == JobView {
            priority: (cur_min - n + k) as i32,
            ..ordered[k]
        } by {
            assert(r[k] == promoted[k]);
        }
        assert forall|k: int| 0 <= k < n implies ids.contains(#[trigger] ordered[k].id) by {
            lemma_sort_ids(pulled, ix_key(ids));
            lemma_select_ids(q, ids, true);
            assert(has_id(ordered, ordered[k].id));
            assert(has_id(pulled, ordered[k].id));
        }
        assert forall|a: int, b: int| 0 <= a < b < n implies last_index(ids, ordered[a].id)
            <= last_index(ids, ordered[b].id) by {
            assert(ix_key(ids)(ordered[a]) <= ix_key(ids)(ordered[b]));
        }
    }
}


/// A job queued into a sorted queue lands after every job of equal or smaller
/// priority and before every job of larger priority, so jobs of one priority
/// run first come, first served; the queue stays sorted.
pub proof fn lemma_enqueue_position(q: Seq<JobView>, x: JobView)
    requires
        sorted_by(q, prio_key()),
    ensures
        exists|p: int|
            0 <= p <= q.len() && #[trigger] insert_by_key(q, prio_key(), x) == q.take(p).push(x)
                + q.skip(p) && (forall|a: int| 0 <= a < p ==> q[a].priority <= x.priority) && (
            forall|a: int| p <= a < q.len() ==> q[a].priority > x.priority),
        sorted_by(insert_by_key(q, prio_key(), x), prio_key()),
{
    lemma_separator_exists(q, prio_key(), prio_key()(x));
    let p = choose|p: int| #[trigger] separates(q, prio_key(), prio_key()(x), p);
    lemma_insert_sorted(q, prio_key(), x, p);
    assert forall|a: int| 0 <= a < p implies q[a].priority <= x.priority by {
        assert(prio_key()(q[a]) <= prio_key()(x));
    }
    assert forall|a: int| p <= a < q.len() implies q[a].priority > x.priority by {
        assert(prio_key()(q[a]) > prio_key()(x));
    }
}

} // verus!
