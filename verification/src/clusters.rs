//! Turning per-face cluster labels into groups: one group per label, the
//! largest first, and the unclustered faces apart.

use vstd::prelude::*;

verus! {

/// Indices of the faces labelled `l`, in increasing order.
pub open spec fn members_of(labels: Seq<i32>, l: i32) -> Seq<usize>
    decreases labels.len(),
{
    if labels.len() == 0 {
        Seq::empty()
    } else {
        let r = members_of(labels.drop_last(), l);
        if labels.last() == l {
            r.push((labels.len() - 1) as usize)
        } else {
            r
        }
    }
}

/// Indices of the faces left unclustered (a negative label), in increasing
/// order.
pub open spec fn noise_of(labels: Seq<i32>) -> Seq<usize>
    decreases labels.len(),
{
    if labels.len() == 0 {
        Seq::empty()
    } else {
        let r = noise_of(labels.drop_last());
        if labels.last() < 0 {
            r.push((labels.len() - 1) as usize)
        } else {
            r
        }
    }
}

/// Whether some face carries label `l`.
pub open spec fn has_label(labels: Seq<i32>, l: i32) -> bool {
    exists|i: int| 0 <= i < labels.len() && labels[i] == l
}

/// Group `a` comes before group `b`: it is larger, or as large with a
/// smaller label.
pub open spec fn group_before(len_a: nat, label_a: i32, len_b: nat, label_b: i32) -> bool {
    len_a > len_b || (len_a == len_b && label_a < label_b)
}

/// The groups of a labelling: `labels[k]` is the label of `groups[k]`.
pub struct LabelGroups {
    pub groups: Vec<Vec<usize>>,
    pub labels: Vec<i32>,
    pub noise: Vec<usize>,
}

/// What the groups of `labels` are: one group per non-negative label that
/// occurs, holding exactly that label's faces in order, the groups ordered
/// largest first and, among equal sizes, by label; the noise holds the faces
/// with a negative label, in order.
pub open spec fn groups_of(labels: Seq<i32>, r: LabelGroups) -> bool {
    &&& r.labels@.len() == r.groups@.len()
    &&& forall|k: int|
        0 <= k < r.groups@.len() ==> r.labels@[k] >= 0 && (#[trigger] r.groups@[k])@ == members_of(
            labels,
            r.labels@[k],
        )
    &&& forall|l: i32| l >= 0 ==> (has_label(labels, l) <==> r.labels@.contains(l))
    &&& forall|j: int, k: int|
        0 <= j < k < r.groups@.len() ==> group_before(
            r.groups@[j]@.len(),
            #[trigger] r.labels@[j],
            r.groups@[k]@.len(),
            #[trigger] r.labels@[k],
        )
    &&& r.noise@ == noise_of(labels)
}

fn members(labels: &[i32], l: i32) -> (r: Vec<usize>)
    ensures
        r@ == members_of(labels@, l),
{
    let mut r: Vec<usize> = Vec::new();
    let mut i: usize = 0;
    while i < labels.len()
        invariant
            i <= labels@.len(),
            r@ == members_of(labels@.take(i as int), l),
        decreases labels@.len() - i,
    {
        proof {
            assert(labels@.take(i + 1).drop_last() =~= labels@.take(i as int));
        }
        if labels[i] == l {
            r.push(i);
        }
        i = i + 1;
    }
    proof {
        assert(labels@.take(labels@.len() as int) =~= labels@);
    }
    r
}

fn noise(labels: &[i32]) -> (r: Vec<usize>)
    ensures
        r@ == noise_of(labels@),
{
    let mut r: Vec<usize> = Vec::new();
    let mut i: usize = 0;
    while i < labels.len()
        invariant
            i <= labels@.len(),
            r@ == noise_of(labels@.take(i as int)),
        decreases labels@.len() - i,
    {
        proof {
            assert(labels@.take(i + 1).drop_last() =~= labels@.take(i as int));
        }
        if labels[i] < 0 {
            r.push(i);
        }
        i = i + 1;
    }
    proof {
        assert(labels@.take(labels@.len() as int) =~= labels@);
    }
    r
}

/// The non-negative labels that occur, each once, in increasing order.
fn distinct_labels(labels: &[i32]) -> (ls: Vec<i32>)
    ensures
        forall|j: int, k: int| 0 <= j < k < ls@.len() ==> ls@[j] < ls@[k],
        forall|k: int| 0 <= k < ls@.len() ==> ls@[k] >= 0,
        forall|l: i32| l >= 0 ==> (has_label(labels@, l) <==> ls@.contains(l)),
{
    let mut ls: Vec<i32> = Vec::new();
    let mut i: usize = 0;
    while i < labels.len()
        invariant
            i <= labels@.len(),
            forall|j: int, k: int| 0 <= j < k < ls@.len() ==> ls@[j] < ls@[k],
            forall|k: int| 0 <= k < ls@.len() ==> ls@[k] >= 0,
            forall|l: i32|
                l >= 0 ==> ((exists|a: int| 0 <= a < i && labels@[a] == l) <==> ls@.contains(l)),
        decreases labels@.len() - i,
    {
        let l = labels[i];
        if l >= 0 {
            let mut p: usize = 0;
            while p < ls.len() && ls[p] < l
                invariant
                    p <= ls@.len(),
                    forall|k: int| 0 <= k < p ==> ls@[k] < l,
                decreases ls@.len() - p,
            {
                p = p + 1;
            }
            if p == ls.len() || ls[p] != l {
                let ghost before = ls@;
                ls.insert(p, l);
                proof {
                    assert forall|j: int, k: int| 0 <= j < k < ls@.len() implies ls@[j] < ls@[k] by {
                        if k < p {
                        } else if k == p {
                            assert(ls@[j] == before[j]);
                        } else if j == p {
                            assert(ls@[k] == before[k - 1]);
                            assert(before[p as int] > l) by {
                                assert(p < before.len());
                            }
                            if k - 1 > p {
                                assert(before[p as int] < before[k - 1]);
                            }
                        } else if j < p {
                            assert(ls@[j] == before[j] && ls@[k] == before[k - 1]);
                        } else {
                            assert(ls@[j] == before[j - 1] && ls@[k] == before[k - 1]);
                        }
                    }
                    assert forall|m: i32| m >= 0 implies ((exists|a: int|
                        0 <= a < i + 1 && labels@[a] == m) <==> ls@.contains(m)) by {
                        if ls@.contains(m) {
                            let q = choose|q: int| 0 <= q < ls@.len() && ls@[q] == m;
                            if q < p {
                                assert(before.contains(m)) by {
                                    assert(before[q] == m);
                                }
                            } else if q > p {
                                assert(before.contains(m)) by {
                                    assert(before[q - 1] == m);
                                }
                            } else {
                                assert(labels@[i as int] == m);
                            }
                        }
                        if exists|a: int| 0 <= a < i + 1 && labels@[a] == m {
                            if m == l {
                                assert(ls@[p as int] == l);
                            } else {
                                let a = choose|a: int| 0 <= a < i + 1 && labels@[a] == m;
                                assert(a < i);
                                assert(before.contains(m));
                                let q = choose|q: int| 0 <= q < before.len() && before[q] == m;
                                if q < p {
                                    assert(ls@[q] == m);
                                } else {
                                    assert(ls@[q + 1] == m);
                                }
                            }
                        }
                    }
                }
            } else {
                proof {
                    assert forall|m: i32| m >= 0 implies ((exists|a: int|
                        0 <= a < i + 1 && labels@[a] == m) <==> ls@.contains(m)) by {
                        if exists|a: int| 0 <= a < i + 1 && labels@[a] == m {
                            if m == l {
                                assert(ls@[p as int] == l);
                            } else {
                                let a = choose|a: int| 0 <= a < i + 1 && labels@[a] == m;
                                assert(a < i);
                            }
                        }
                    }
                }
            }
        } else {
            proof {
                assert forall|m: i32| m >= 0 implies ((exists|a: int|
                    0 <= a < i + 1 && labels@[a] == m) <==> ls@.contains(m)) by {
                    if exists|a: int| 0 <= a < i + 1 && labels@[a] == m {
                        let a = choose|a: int| 0 <= a < i + 1 && labels@[a] == m;
                        assert(a < i);
                    }
                }
            }
        }
        i = i + 1;
    }
    proof {
        assert forall|m: i32| m >= 0 implies (has_label(labels@, m) <==> ls@.contains(m)) by {
            if has_label(labels@, m) {
                let a = choose|a: int| 0 <= a < labels@.len() && labels@[a] == m;
                assert(exists|b: int| 0 <= b < i && labels@[b] == m);
            }
        }
    }
    ls
}

/// Groups faces by their cluster label: one group per non-negative label,
/// largest first (ties by label), and the faces with a negative label as
/// noise.
pub fn group_labels(labels: &[i32]) -> (r: LabelGroups)
    ensures
        groups_of(labels@, r),
{
    let ls = distinct_labels(labels);
    let mut groups: Vec<Vec<usize>> = Vec::new();
    let mut glabels: Vec<i32> = Vec::new();
    let mut k: usize = 0;
    while k < ls.len()
        invariant
            k <= ls@.len(),
            forall|j: int, m: int| 0 <= j < m < ls@.len() ==> ls@[j] < ls@[m],
            forall|m: int| 0 <= m < ls@.len() ==> ls@[m] >= 0,
            glabels@.len() == groups@.len(),
            glabels@.len() == k,
            forall|q: int| 0 <= q < glabels@.len() ==> #[trigger] glabels@[q] >= 0,
            forall|q: int|
                0 <= q < groups@.len() ==> (#[trigger] groups@[q])@ == members_of(labels@, glabels@[q]),
            forall|l: i32| glabels@.contains(l) <==> ls@.take(k as int).contains(l),
            forall|q: int| 0 <= q < glabels@.len() ==> k == ls@.len() || glabels@[q] < ls@[k as int],
            forall|j: int, m: int|
                0 <= j < m < groups@.len() ==> group_before(
                    groups@[j]@.len(),
                    #[trigger] glabels@[j],
                    groups@[m]@.len(),
                    #[trigger] glabels@[m],
                ),
        decreases ls@.len() - k,
    {
        let l = ls[k];
        let g = members(labels, l);
        let n = g.len();
        let mut p: usize = 0;
        while p < groups.len() && groups[p].len() >= n
            invariant
                p <= groups@.len(),
                forall|q: int| 0 <= q < p ==> groups@[q]@.len() >= n,
            decreases groups@.len() - p,
        {
            p = p + 1;
        }
        let ghost gb = groups@;
        let ghost lb = glabels@;
        proof {
            assert forall|q: int| 0 <= q < lb.len() implies lb[q] < l by {
                assert(lb[q] < ls@[k as int]);
            }
        }
        groups.insert(p, g);
        glabels.insert(p, l);
        proof {
            assert(groups@[p as int] == g);
            assert(glabels@[p as int] == l);
            assert forall|q: int| 0 <= q < groups@.len() implies (#[trigger] groups@[q])@ == members_of(
                labels@,
                glabels@[q],
            ) by {
                if q < p {
                    assert(groups@[q] == gb[q] && glabels@[q] == lb[q]);
                } else if q > p {
                    assert(groups@[q] == gb[q - 1] && glabels@[q] == lb[q - 1]);
                }
            }
            assert forall|q: int| 0 <= q < glabels@.len() implies #[trigger] glabels@[q] >= 0 by {
                if q < p {
                    assert(glabels@[q] == lb[q]);
                } else if q > p {
                    assert(glabels@[q] == lb[q - 1]);
                }
            }
            assert(ls@.take(k + 1) =~= ls@.take(k as int).push(l));
            assert forall|m: i32| glabels@.contains(m) <==> ls@.take(k + 1).contains(m) by {
                let t0 = ls@.take(k as int);
                let t1 = ls@.take(k + 1);
                if glabels@.contains(m) {
                    let q = choose|q: int| 0 <= q < glabels@.len() && glabels@[q] == m;
                    if q == p {
                        assert(t1[k as int] == m);
                    } else {
                        if q < p {
                            assert(lb[q] == m);
                        } else {
                            assert(lb[q - 1] == m);
                        }
                        assert(lb.contains(m));
                        assert(t0.contains(m));
                        let w = choose|w: int| 0 <= w < t0.len() && t0[w] == m;
                        assert(t1[w] == m);
                    }
                }
                if ls@.take(k + 1).contains(m) {
                    if m == l {
                        assert(glabels@[p as int] == l);
                    } else {
                        assert(ls@.take(k as int).contains(m)) by {
                            let t = ls@.take(k + 1);
                            let q = choose|q: int| 0 <= q < t.len() && t[q] == m;
                            assert(q < k);
                            assert(ls@.take(k as int)[q] == m);
                        }
                        assert(lb.contains(m));
                        let q = choose|q: int| 0 <= q < lb.len() && lb[q] == m;
                        if q < p {
                            assert(glabels@[q] == m);
                        } else {
                            assert(glabels@[q + 1] == m);
                        }
                    }
                }
            }
            assert forall|q: int| 0 <= q < glabels@.len() implies k + 1 == ls@.len()
                || glabels@[q] < ls@[k + 1] by {
                if k + 1 < ls@.len() {
                    assert(ls@[k as int] < ls@[k + 1]);
                    if q < p {
                        assert(glabels@[q] == lb[q]);
                    } else if q > p {
                        assert(glabels@[q] == lb[q - 1]);
                    }
                }
            }
            assert forall|j: int, m: int| 0 <= j < m < groups@.len() implies group_before(
                groups@[j]@.len(),
                #[trigger] glabels@[j],
                groups@[m]@.len(),
                #[trigger] glabels@[m],
            ) by {
                if m < p {
                    assert(groups@[j] == gb[j] && groups@[m] == gb[m]);
                    assert(glabels@[j] == lb[j] && glabels@[m] == lb[m]);
                } else if m == p {
                    assert(groups@[j] == gb[j] && glabels@[j] == lb[j]);
                } else if j == p {
                    assert(groups@[m] == gb[m - 1] && glabels@[m] == lb[m - 1]);
                    assert(!(gb[p as int]@.len() >= n)) by {
                        assert(p < gb.len());
                    }
                    if m - 1 > p {
                        assert(group_before(gb[p as int]@.len(), lb[p as int], gb[m - 1]@.len(), lb[m - 1]));
                    }
                } else if j < p {
                    assert(groups@[j] == gb[j] && groups@[m] == gb[m - 1]);
                    assert(glabels@[j] == lb[j] && glabels@[m] == lb[m - 1]);
                } else {
                    assert(groups@[j] == gb[j - 1] && groups@[m] == gb[m - 1]);
                    assert(glabels@[j] == lb[j - 1] && glabels@[m] == lb[m - 1]);
                }
            }
        }
        k = k + 1;
    }
    proof {
        assert(ls@.take(ls@.len() as int) =~= ls@);
        assert forall|m: i32| m >= 0 implies (has_label(labels@, m) <==> glabels@.contains(m)) by {
            assert(glabels@.contains(m) <==> ls@.take(ls@.len() as int).contains(m));
        }
    }
    let nz = noise(labels);
    let r = LabelGroups { groups, labels: glabels, noise: nz };
    proof {
        assert(r.labels@.len() == r.groups@.len());
        assert forall|k: int| 0 <= k < r.groups@.len() implies r.labels@[k] >= 0 && (
        #[trigger] r.groups@[k])@ == members_of(labels@, r.labels@[k]) by {
            assert(r.labels@[k] >= 0);
        }
        assert(forall|l: i32| l >= 0 ==> (has_label(labels@, l) <==> r.labels@.contains(l)));
        assert(forall|j: int, k: int|
            0 <= j < k < r.groups@.len() ==> group_before(
                r.groups@[j]@.len(),
                #[trigger] r.labels@[j],
                r.groups@[k]@.len(),
                #[trigger] r.labels@[k],
            ));
        assert(r.noise@ == noise_of(labels@));
    }
    r
}


proof fn lemma_members_contains(labels: Seq<i32>, l: i32, i: usize)
    requires
        labels.len() <= usize::MAX,
    ensures
        members_of(labels, l).contains(i) <==> (i < labels.len() && labels[i as int] == l),
    decreases labels.len(),
{
    if labels.len() > 0 {
        let d = labels.drop_last();
        let n = (labels.len() - 1) as usize;
        lemma_members_contains(d, l, i);
        let r = members_of(d, l);
        let m = members_of(labels, l);
        if i < d.len() {
            assert(d[i as int] == labels[i as int]);
        }
        if labels.last() == l {
            assert(m == r.push(n));
            if m.contains(i) {
                let q = choose|q: int| 0 <= q < m.len() && m[q] == i;
                if q < r.len() {
                    assert(r[q] == i);
                    assert(r.contains(i));
                } else {
                    assert(i == n);
                }
            }
            if i < labels.len() && labels[i as int] == l {
                if i < d.len() {
                    let q = choose|q: int| 0 <= q < r.len() && r[q] == i;
                    assert(m[q] == i);
                } else {
                    assert(m[r.len() as int] == i);
                }
            }
        } else {
            assert(m == r);
            if i == n {
                assert(labels[i as int] == labels.last());
            }
        }
    }
}

proof fn lemma_noise_contains(labels: Seq<i32>, i: usize)
    requires
        labels.len() <= usize::MAX,
    ensures
        noise_of(labels).contains(i) <==> (i < labels.len() && labels[i as int] < 0),
    decreases labels.len(),
{
    if labels.len() > 0 {
        let d = labels.drop_last();
        let n = (labels.len() - 1) as usize;
        lemma_noise_contains(d, i);
        let r = noise_of(d);
        let m = noise_of(labels);
        if i < d.len() {
            assert(d[i as int] == labels[i as int]);
        }
        if labels.last() < 0 {
            assert(m == r.push(n));
            if m.contains(i) {
                let q = choose|q: int| 0 <= q < m.len() && m[q] == i;
                if q < r.len() {
                    assert(r[q] == i);
                    assert(r.contains(i));
                } else {
                    assert(i == n);
                }
            }
            if i < labels.len() && labels[i as int] < 0 {
                if i < d.len() {
                    let q = choose|q: int| 0 <= q < r.len() && r[q] == i;
                    assert(m[q] == i);
                } else {
                    assert(m[r.len() as int] == i);
                }
            }
        } else {
            assert(m == r);
            if i == n {
                assert(labels[i as int] == labels.last());
            }
        }
    }
}

/// Every face lands in exactly one place: in the one group of its label when
/// the label is not negative, in the noise otherwise.
pub proof fn lemma_each_face_once(labels: Seq<i32>, r: LabelGroups, i: usize)
    requires
        groups_of(labels, r),
        labels.len() <= usize::MAX,
        i < labels.len(),
    ensures
        labels[i as int] >= 0 ==> exists|k: int|
            0 <= k < r.groups@.len() && (#[trigger] r.groups@[k])@.contains(i) && r.labels@[k]
                == labels[i as int],
        forall|j: int, k: int|
            0 <= j < r.groups@.len() && 0 <= k < r.groups@.len() && (#[trigger] r.groups@[j])@.contains(i)
                && (#[trigger] r.groups@[k])@.contains(i) ==> j == k,
        r.noise@.contains(i) <==> labels[i as int] < 0,
        labels[i as int] < 0 ==> forall|k: int|
            0 <= k < r.groups@.len() ==> !(#[trigger] r.groups@[k])@.contains(i),
{
    let l = labels[i as int];
    lemma_noise_contains(labels, i);
    assert forall|k: int| 0 <= k < r.groups@.len() && (#[trigger] r.groups@[k])@.contains(i) implies r.labels@[k]
        == l by {
        lemma_members_contains(labels, r.labels@[k], i);
    }
    if l >= 0 {
        assert(has_label(labels, l));
        assert(r.labels@.contains(l));
        let k = choose|k: int| 0 <= k < r.labels@.len() && r.labels@[k] == l;
        lemma_members_contains(labels, l, i);
        assert(r.groups@[k]@.contains(i));
    }
    assert forall|j: int, k: int|
        0 <= j < r.groups@.len() && 0 <= k < r.groups@.len() && (#[trigger] r.groups@[j])@.contains(i)
            && (#[trigger] r.groups@[k])@.contains(i) implies j == k by {
        assert(r.labels@[j] == l && r.labels@[k] == l);
        if j < k {
            assert(group_before(r.groups@[j]@.len(), r.labels@[j], r.groups@[k]@.len(), r.labels@[k]));
        } else if k < j {
            assert(group_before(r.groups@[k]@.len(), r.labels@[k], r.groups@[j]@.len(), r.labels@[j]));
        }
    }
    if l < 0 {
        assert forall|k: int| 0 <= k < r.groups@.len() implies !(#[trigger] r.groups@[k])@.contains(i) by {
            if r.groups@[k]@.contains(i) {
                lemma_members_contains(labels, r.labels@[k], i);
            }
        }
    }
}

} // verus!
