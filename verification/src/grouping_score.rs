//! Pure scoring helpers for comparing a grouper's output against labelled
//! ground truth: flat per-item labels, singleton counts and pair statistics.

use vstd::prelude::*;
use crate::phash::{hamming, hamming_spec};

verus! {

/// Hamming distance above which two frames of one group count as recomposed.
pub const RECOMPOSITION_HAMMING: u32 = 12;

/// Item `i` occurs in group `q`.
pub open spec fn in_group(groups: Seq<Seq<usize>>, q: int, i: usize) -> bool {
    exists|j: int| 0 <= j < groups[q].len() && groups[q][j] == i
}

/// Item `i` occurs in some group.
pub open spec fn is_grouped(groups: Seq<Seq<usize>>, i: usize) -> bool {
    exists|q: int| 0 <= q < groups.len() && #[trigger] in_group(groups, q, i)
}

/// Number of items below `i` that occur in no group.
pub open spec fn ungrouped_before(groups: Seq<Seq<usize>>, i: int) -> nat
    decreases i,
{
    if i <= 0 {
        0
    } else {
        ungrouped_before(groups, i - 1) + if is_grouped(groups, (i - 1) as usize) {
            0nat
        } else {
            1nat
        }
    }
}

/// The flat label of item `i`: the last group holding it, or, for an item in
/// no group, a fresh label numbered after all groups in item order.
pub open spec fn group_label(groups: Seq<Seq<usize>>, i: usize) -> int {
    if is_grouped(groups, i) {
        choose|q: int|
            0 <= q < groups.len() && in_group(groups, q, i) && forall|r: int|
                q < r < groups.len() ==> !#[trigger] in_group(groups, r, i)
    } else {
        (groups.len() + ungrouped_before(groups, i as int)) as int
    }
}

proof fn lemma_ungrouped_before_mono(groups: Seq<Seq<usize>>, a: int, b: int)
    requires
        a <= b,
    ensures
        ungrouped_before(groups, a) <= ungrouped_before(groups, b),
    decreases b - a,
{
    if a < b {
        lemma_ungrouped_before_mono(groups, a, b - 1);
    }
}

proof fn lemma_ungrouped_before_bound(groups: Seq<Seq<usize>>, i: int)
    requires
        i >= 0,
    ensures
        ungrouped_before(groups, i) <= i,
    decreases i,
{
    if i > 0 {
        lemma_ungrouped_before_bound(groups, i - 1);
    }
}

/// Turn grouper output into a flat per-item cluster label; every ungrouped
/// item becomes its own singleton cluster.
pub fn labels_from_groups(groups: &[Vec<usize>], n: usize) -> (labels: Vec<usize>)
    requires
        groups@.len() + n <= usize::MAX,
        forall|q: int, j: int|
            0 <= q < groups@.len() && 0 <= j < groups@[q]@.len() ==> #[trigger] groups@[q]@[j]
                < n,
    ensures
        labels@.len() == n,
        forall|i: int|
            0 <= i < n ==> labels@[i] as int == group_label(
                groups@.map_values(|g: Vec<usize>| g@),
                i as usize,
            ),
{
    let ghost gs = groups@.map_values(|g: Vec<usize>| g@);
    let mut labels: Vec<usize> = Vec::new();
    let mut assigned: Vec<bool> = Vec::new();
    let mut z: usize = 0;
    while z < n
        invariant
            z <= n,
            labels@.len() == z,
            assigned@.len() == z,
            forall|i: int| 0 <= i < z ==> labels@[i] == 0 && !assigned@[i],
        decreases n - z,
    {
        labels.push(0);
        assigned.push(false);
        z = z + 1;
    }
    let mut next: usize = 0;
    let mut q: usize = 0;
    let m = groups.len();
    while q < m
        invariant
            m == groups@.len(),
            gs == groups@.map_values(|g: Vec<usize>| g@),
            q <= m,
            next == q,
            m + n <= usize::MAX,
            labels@.len() == n,
            assigned@.len() == n,
            forall|a: int, j: int|
                0 <= a < groups@.len() && 0 <= j < groups@[a]@.len() ==> #[trigger] groups@[a]@[j]
                    < n,
            forall|i: int|
                0 <= i < n ==> (assigned@[i] <==> exists|r: int|
                    0 <= r < q && #[trigger] in_group(gs, r, i as usize)),
            forall|i: int|
                0 <= i < n && assigned@[i] ==> {
                    &&& 0 <= labels@[i] < q
                    &&& in_group(gs, labels@[i] as int, i as usize)
                    &&& forall|r: int| labels@[i] < r < q ==> !#[trigger] in_group(gs, r, i as usize)
                },
        decreases m - q,
    {
        let g = &groups[q];
        let len = g.len();
        let mut j: usize = 0;
        while j < len
            invariant
                m == groups@.len(),
                gs == groups@.map_values(|g: Vec<usize>| g@),
                q < m,
                g@ == gs[q as int],
                len == g@.len(),
                j <= len,
                next == q,
                labels@.len() == n,
                assigned@.len() == n,
                forall|a: int, jj: int|
                    0 <= a < groups@.len() && 0 <= jj < groups@[a]@.len()
                        ==> #[trigger] groups@[a]@[jj] < n,
                forall|i: int|
                    0 <= i < n ==> (assigned@[i] <==> (exists|r: int|
                        0 <= r < q && #[trigger] in_group(gs, r, i as usize)) || exists|jj: int|
                        0 <= jj < j && g@[jj] == i),
                forall|i: int|
                    0 <= i < n && assigned@[i] ==> {
                        &&& (exists|jj: int| 0 <= jj < j && g@[jj] == i) ==> labels@[i] == q
                        &&& !(exists|jj: int| 0 <= jj < j && g@[jj] == i) ==> {
                            &&& 0 <= labels@[i] < q
                            &&& in_group(gs, labels@[i] as int, i as usize)
                            &&& forall|r: int| labels@[i] < r < q ==> !#[trigger] in_group(gs, r, i as usize)
                        }
                    },
            decreases len - j,
        {
            let i = g[j];
            assert(groups@[q as int]@[j as int] == i);
            labels.set(i, next);
            assigned.set(i, true);
            j = j + 1;
        }
        proof {
            assert forall|i: int| 0 <= i < n implies (assigned@[i] <==> exists|r: int|
                0 <= r < q + 1 && #[trigger] in_group(gs, r, i as usize)) by {
                if exists|jj: int| 0 <= jj < len && g@[jj] == i {
                    assert(in_group(gs, q as int, i as usize));
                }
                if in_group(gs, q as int, i as usize) {
                    let jj = choose|jj: int| 0 <= jj < gs[q as int].len() && gs[q as int][jj] == i as usize;
                    assert(g@[jj] == i);
                }
            }
            assert forall|i: int| 0 <= i < n && assigned@[i] implies {
                &&& 0 <= labels@[i] < q + 1
                &&& in_group(gs, labels@[i] as int, i as usize)
                &&& forall|r: int| labels@[i] < r < q + 1 ==> !#[trigger] in_group(gs, r, i as usize)
            } by {
                if exists|jj: int| 0 <= jj < len && g@[jj] == i {
                    let jj = choose|jj: int| 0 <= jj < len && g@[jj] == i;
                    assert(gs[q as int][jj] == i as usize);
                } else {
                    if in_group(gs, q as int, i as usize) {
                        let jj = choose|jj: int| 0 <= jj < gs[q as int].len() && gs[q as int][jj] == i as usize;
                        assert(g@[jj] == i);
                    }
                }
            }
        }
        next = next + 1;
        q = q + 1;
    }
    let mut i: usize = 0;
    while i < n
        invariant
            m == groups@.len(),
            gs == groups@.map_values(|g: Vec<usize>| g@),
            i <= n,
            labels@.len() == n,
            assigned@.len() == n,
            next == m + ungrouped_before(gs, i as int),
            m + n <= usize::MAX,
            forall|k: int|
                0 <= k < n ==> (assigned@[k] <==> is_grouped(gs, k as usize)),
            forall|k: int|
                0 <= k < i ==> labels@[k] as int == group_label(gs, k as usize),
            forall|k: int|
                0 <= k < n && assigned@[k] ==> labels@[k] as int == group_label(gs, k as usize),
        decreases n - i,
    {
        proof {
            lemma_ungrouped_before_bound(gs, i as int);
        }
        if !assigned[i] {
            labels.set(i, next);
            next = next + 1;
        }
        i = i + 1;
    }
    labels
}

/// Groups that share no item.
pub open spec fn groups_disjoint(groups: Seq<Seq<usize>>) -> bool {
    forall|q: int, r: int, i: usize|
        0 <= q < r < groups.len() && #[trigger] in_group(groups, q, i) ==> !#[trigger] in_group(
            groups,
            r,
            i,
        )
}

/// For disjoint groups: items of one group share a label, items of different
/// groups get different labels, and an ungrouped item's label is shared with no
/// other item.
pub proof fn lemma_labels_partition(groups: Seq<Seq<usize>>, a: usize, b: usize)
    requires
        groups_disjoint(groups),
    ensures
        (exists|q: int| 0 <= q < groups.len() && in_group(groups, q, a) && in_group(groups, q, b))
            ==> group_label(groups, a) == group_label(groups, b),
        is_grouped(groups, a) && is_grouped(groups, b) && group_label(groups, a) == group_label(
            groups,
            b,
        ) ==> exists|q: int| 0 <= q < groups.len() && in_group(groups, q, a) && in_group(groups, q, b),
        a != b && !is_grouped(groups, a) ==> group_label(groups, a) != group_label(groups, b),
{
    if exists|q: int| 0 <= q < groups.len() && in_group(groups, q, a) && in_group(groups, q, b) {
        let q = choose|q: int| 0 <= q < groups.len() && in_group(groups, q, a) && in_group(groups, q, b);
        let qa = group_label(groups, a);
        let qb = group_label(groups, b);
        if qa != q {
            if qa < q {
            } else {
                assert(in_group(groups, q, a) && in_group(groups, qa, a));
            }
        }
        if qb != q {
            if qb < q {
            } else {
                assert(in_group(groups, q, b) && in_group(groups, qb, b));
            }
        }
    }
    if a != b && !is_grouped(groups, a) {
        if is_grouped(groups, b) {
        } else {
            if a < b {
                lemma_ungrouped_before_mono(groups, a as int + 1, b as int);
            } else {
                lemma_ungrouped_before_mono(groups, b as int + 1, a as int);
            }
        }
    }
}

/// Number of occurrences of `v` in `s`.
pub open spec fn count_of(s: Seq<usize>, v: usize) -> nat
    decreases s.len(),
{
    if s.len() == 0 {
        0
    } else {
        count_of(s.drop_last(), v) + if s.last() == v {
            1nat
        } else {
            0nat
        }
    }
}

/// Number of positions `< k` whose label occurs exactly once in `truth`.
pub open spec fn singletons_upto(truth: Seq<usize>, k: int) -> nat
    decreases k,
{
    if k <= 0 {
        0
    } else {
        singletons_upto(truth, k - 1) + if count_of(truth, truth[k - 1]) == 1 {
            1nat
        } else {
            0nat
        }
    }
}

proof fn lemma_singletons_bound(truth: Seq<usize>, k: int)
    requires
        0 <= k,
    ensures
        singletons_upto(truth, k) <= k,
    decreases k,
{
    if k > 0 {
        lemma_singletons_bound(truth, k - 1);
    }
}

fn count_in(truth: &[usize], v: usize) -> (c: usize)
    ensures
        c as nat == count_of(truth@, v),
{
    let mut c: usize = 0;
    let mut k: usize = 0;
    while k < truth.len()
        invariant
            k <= truth@.len(),
            c as nat == count_of(truth@.take(k as int), v),
            c <= k,
        decreases truth@.len() - k,
    {
        proof {
            assert(truth@.take(k + 1).drop_last() =~= truth@.take(k as int));
        }
        if truth[k] == v {
            c = c + 1;
        }
        k = k + 1;
    }
    proof {
        assert(truth@.take(truth@.len() as int) =~= truth@);
    }
    c
}

/// Number of ground-truth groups that hold exactly one item (each such label
/// occurs at exactly one position).
pub fn count_singletons(truth: &[usize]) -> (n: usize)
    ensures
        n as nat == singletons_upto(truth@, truth@.len() as int),
{
    let mut n: usize = 0;
    let mut k: usize = 0;
    while k < truth.len()
        invariant
            k <= truth@.len(),
            n as nat == singletons_upto(truth@, k as int),
        decreases truth@.len() - k,
    {
        proof {
            lemma_singletons_bound(truth@, k as int);
        }
        if count_in(truth, truth[k]) == 1 {
            n = n + 1;
        }
        k = k + 1;
    }
    n
}

/// Number of pairs among the first `k` whose two items share a predicted label.
pub open spec fn together_upto(pairs: Seq<(usize, usize)>, pred: Seq<usize>, k: int) -> nat
    decreases k,
{
    if k <= 0 {
        0
    } else {
        together_upto(pairs, pred, k - 1) + if pred[pairs[k - 1].0 as int] == pred[pairs[k
            - 1].1 as int] {
            1nat
        } else {
            0nat
        }
    }
}

/// How many of `pairs` the predicted labelling puts together; nothing when
/// there is no prediction.
pub fn pairs_together(pairs: &[(usize, usize)], pred: &[usize]) -> (n: usize)
    requires
        pred@.len() > 0 ==> forall|k: int|
            0 <= k < pairs@.len() ==> (#[trigger] pairs@[k]).0 < pred@.len() && pairs@[k].1
                < pred@.len(),
    ensures
        n as nat == if pred@.len() == 0 {
            0
        } else {
            together_upto(pairs@, pred@, pairs@.len() as int)
        },
{
    if pred.len() == 0 {
        return 0;
    }
    let mut n: usize = 0;
    let mut k: usize = 0;
    while k < pairs.len()
        invariant
            pred@.len() > 0,
            forall|k: int|
                0 <= k < pairs@.len() ==> (#[trigger] pairs@[k]).0 < pred@.len() && pairs@[k].1
                    < pred@.len(),
            k <= pairs@.len(),
            n as nat == together_upto(pairs@, pred@, k as int),
            n <= k,
        decreases pairs@.len() - k,
    {
        let (a, b) = pairs[k];
        if pred[a] == pred[b] {
            n = n + 1;
        }
        k = k + 1;
    }
    n
}

/// A frame's ground-truth label and perceptual hash.
#[derive(Debug, Clone, Copy, PartialEq, Eq, Structural)]
pub struct LabeledHash {
    pub label: usize,
    pub hash: u64,
}

/// Frames `i` and `j` belong to one group yet are far apart visually.
pub open spec fn is_recomposition(items: Seq<LabeledHash>, i: int, j: int) -> bool {
    items[i].label == items[j].label && hamming_spec(items[i].hash, items[j].hash)
        > RECOMPOSITION_HAMMING
}

/// Lexicographic order on index pairs.
pub open spec fn pair_lt(a: (usize, usize), b: (usize, usize)) -> bool {
    a.0 < b.0 || (a.0 == b.0 && a.1 < b.1)
}

/// Every same-group pair `(i, j)` with `i < j` that is visually far apart,
/// listed in lexicographic order.
pub fn recomposition_pairs(items: &[LabeledHash]) -> (out: Vec<(usize, usize)>)
    ensures
        forall|k: int|
            0 <= k < out@.len() ==> (#[trigger] out@[k]).0 < out@[k].1 < items@.len()
                && is_recomposition(items@, out@[k].0 as int, out@[k].1 as int),
        forall|i: int, j: int|
            0 <= i < j < items@.len() && is_recomposition(items@, i, j) ==> out@.contains(
                (i as usize, j as usize),
            ),
        forall|a: int, b: int| 0 <= a < b < out@.len() ==> pair_lt(out@[a], out@[b]),
{
    let n = items.len();
    let mut out: Vec<(usize, usize)> = Vec::new();
    let mut i: usize = 0;
    while i < n
        invariant
            n == items@.len(),
            i <= n,
            forall|k: int|
                0 <= k < out@.len() ==> (#[trigger] out@[k]).0 < out@[k].1 < items@.len()
                    && out@[k].0 < i && is_recomposition(items@, out@[k].0 as int, out@[k].1 as int),
            forall|a: int, b: int|
                0 <= a < i && a < b < items@.len() && is_recomposition(items@, a, b)
                    ==> out@.contains((a as usize, b as usize)),
            forall|a: int, b: int| 0 <= a < b < out@.len() ==> pair_lt(out@[a], out@[b]),
        decreases n - i,
    {
        let mut j: usize = i + 1;
        let ghost start = out@.len();
        while j < n
            invariant
                n == items@.len(),
                i < n,
                i + 1 <= j <= n,
                start <= out@.len(),
                forall|k: int|
                    0 <= k < out@.len() ==> (#[trigger] out@[k]).0 < out@[k].1 < items@.len()
                        && out@[k].0 <= i && is_recomposition(items@, out@[k].0 as int, out@[k].1 as int),
                forall|k: int| start <= k < out@.len() ==> (#[trigger] out@[k]).0 == i && out@[k].1 < j,
                forall|k: int| 0 <= k < start ==> (#[trigger] out@[k]).0 < i,
                forall|a: int, b: int|
                    0 <= a < i && a < b < items@.len() && is_recomposition(items@, a, b)
                        ==> out@.contains((a as usize, b as usize)),
                forall|b: int|
                    i < b < j && is_recomposition(items@, i as int, b) ==> out@.contains(
                        (i as usize, b as usize),
                    ),
                forall|a: int, b: int| 0 <= a < b < out@.len() ==> pair_lt(out@[a], out@[b]),
            decreases n - j,
        {
            if items[i].label == items[j].label && hamming(items[i].hash, items[j].hash)
                > RECOMPOSITION_HAMMING {
                let ghost old_out = out@;
                out.push((i, j));
                proof {
                    assert forall|a: int, b: int|
                        0 <= a < i && a < b < items@.len() && is_recomposition(items@, a, b)
                            implies out@.contains((a as usize, b as usize)) by {
                        let k = choose|k: int| 0 <= k < old_out.len() && old_out[k] == (a as usize, b as usize);
                        assert(out@[k] == old_out[k]);
                    }
                    assert forall|b: int|
                        i < b < j + 1 && is_recomposition(items@, i as int, b) implies out@.contains(
                            (i as usize, b as usize),
                        ) by {
                        if b < j {
                            let k = choose|k: int| 0 <= k < old_out.len() && old_out[k] == (i as usize, b as usize);
                            assert(out@[k] == old_out[k]);
                        } else {
                            assert(out@[old_out.len() as int] == (i, j));
                        }
                    }
                }
            }
            j = j + 1;
        }
        i = i + 1;
    }
    out
}


/// Two frames count as a recomposition exactly when they carry the same
/// label and their hashes differ in more than 12 bits; frames that are
/// identical in their hash never do.
pub proof fn lemma_recomposition_threshold(items: Seq<LabeledHash>, i: int, j: int)
    ensures
        is_recomposition(items, i, j) <==> (items[i].label == items[j].label && hamming_spec(
            items[i].hash,
            items[j].hash,
        ) >= 13),
        items[i].hash == items[j].hash ==> !is_recomposition(items, i, j),
{
    crate::phash::lemma_hamming_is_a_distance(items[i].hash, items[j].hash);
}

} // verus!
