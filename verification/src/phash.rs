//! Perceptual hashing for content-based stack detection: a 64-bit difference
//! hash per frame and a pure grouping walk over capture order.

use vstd::prelude::*;

verus! {

/// Number of set bits of `x`.
pub open spec fn popcount(x: u64) -> nat
    decreases x,
{
    if x == 0 {
        0
    } else {
        (x % 2) as nat + popcount(x / 2)
    }
}

/// Number of differing bits between two hashes: the perceptual distance.
pub open spec fn hamming_spec(a: u64, b: u64) -> nat {
    popcount(a ^ b)
}

/// A 64-bit word has at most 64 set bits.
pub proof fn lemma_popcount_bound(x: u64)
    ensures
        popcount(x) <= 64,
{
    vstd::arithmetic::power2::lemma2_to64();
    vstd::arithmetic::power2::lemma2_to64_rest();
    lemma_popcount_log(x, 64);
}

proof fn lemma_popcount_log(x: u64, k: nat)
    requires
        k <= 64,
        x as int <= vstd::arithmetic::power2::pow2(k) - 1,
    ensures
        popcount(x) <= k,
    decreases k,
{
    vstd::arithmetic::power2::lemma2_to64();
    if x == 0 {
    } else {
        assert(k > 0) by {
            if k == 0 {
                vstd::arithmetic::power2::lemma_pow2_unfold(0);
            }
        }
        vstd::arithmetic::power2::lemma_pow2_unfold(k);
        lemma_popcount_log(x / 2, (k - 1) as nat);
    }
}

/// Number of differing bits between two hashes.
pub fn hamming(a: u64, b: u64) -> (d: u32)
    ensures
        d as nat == hamming_spec(a, b),
{
    let mut x: u64 = a ^ b;
    let mut count: u32 = 0;
    proof {
        lemma_popcount_bound(a ^ b);
    }
    while x != 0
        invariant
            count as nat + popcount(x) == popcount(a ^ b),
            popcount(a ^ b) <= 64,
        decreases x,
    {
        let low = x & 1;
        assert((x & 1) == x % 2) by (bit_vector);
        assert(x >> 1 == x / 2) by (bit_vector);
        count = count + low as u32;
        x = x >> 1;
    }
    count
}

/// One file's stacking inputs: its perceptual hash and capture time (seconds).
#[derive(Debug, Clone, Copy, PartialEq, Eq, Structural)]
pub struct HashedFile {
    pub hash: u64,
    pub time: i64,
}

/// Capture order: by time, ties broken by input position.
pub open spec fn capture_before(items: Seq<HashedFile>, i: int, j: int) -> bool {
    items[i].time < items[j].time || (items[i].time == items[j].time && i < j)
}

/// `order` lists every index of `items` once, in capture order.
pub open spec fn is_capture_order(items: Seq<HashedFile>, order: Seq<usize>) -> bool {
    &&& order.len() == items.len()
    &&& forall|k: int| 0 <= k < order.len() ==> order[k] < items.len()
    &&& forall|a: int, b: int|
        0 <= a < b < order.len() ==> capture_before(items, order[a] as int, order[b] as int)
}

/// State of the walk: closed groups, the open stack, its representative hash
/// and the time of the previous frame.
pub struct WalkState {
    pub groups: Seq<Seq<usize>>,
    pub current: Seq<usize>,
    pub rep: u64,
    pub prev: i64,
}

/// Whether frame `i` joins the open stack of `st`.
pub open spec fn joins_stack(
    items: Seq<HashedFile>,
    st: WalkState,
    i: usize,
    threshold: u32,
    window: i64,
) -> bool {
    st.current.len() > 0 && hamming_spec(st.rep, items[i as int].hash) <= threshold
        && items[i as int].time - st.prev <= window
}

/// The stack walk over the frames listed in `order`, in that order.
pub open spec fn stack_walk(
    items: Seq<HashedFile>,
    order: Seq<usize>,
    threshold: u32,
    window: i64,
) -> WalkState
    decreases order.len(),
{
    if order.len() == 0 {
        WalkState { groups: Seq::empty(), current: Seq::empty(), rep: 0, prev: 0 }
    } else {
        let st = stack_walk(items, order.drop_last(), threshold, window);
        let i = order.last();
        let f = items[i as int];
        if joins_stack(items, st, i, threshold, window) {
            WalkState { current: st.current.push(i), prev: f.time, ..st }
        } else {
            WalkState {
                groups: if st.current.len() >= 2 {
                    st.groups.push(st.current)
                } else {
                    st.groups
                },
                current: seq![i],
                rep: f.hash,
                prev: f.time,
            }
        }
    }
}

/// The stacks found by walking `order`: every closed group plus the last open
/// one, keeping only groups of at least two frames.
pub open spec fn stacks_of(
    items: Seq<HashedFile>,
    order: Seq<usize>,
    threshold: u32,
    window: i64,
) -> Seq<Seq<usize>> {
    let st = stack_walk(items, order, threshold, window);
    if st.current.len() >= 2 {
        st.groups.push(st.current)
    } else {
        st.groups
    }
}

/// Each frame's capture time minus that of the frame before it in capture
/// order fits in an `i64`.
pub open spec fn capture_gaps_fit(items: Seq<HashedFile>) -> bool {
    forall|order: Seq<usize>|
        #![trigger is_capture_order(items, order)]
        is_capture_order(items, order) ==> forall|k: int|
            0 < k < order.len() ==> items[#[trigger] order[k] as int].time - items[order[k
                - 1] as int].time <= i64::MAX
}

/// Indices of `items` in capture order (by time, ties by position).
fn capture_order(items: &[HashedFile]) -> (order: Vec<usize>)
    ensures
        is_capture_order(items@, order@),
{
    let n = items.len();
    let mut order: Vec<usize> = Vec::new();
    let mut k: usize = 0;
    while k < n
        invariant
            k <= n,
            n == items@.len(),
            order@.len() == k,
            forall|a: int| 0 <= a < order@.len() ==> order@[a] < k,
            forall|a: int, b: int|
                0 <= a < b < order@.len() ==> capture_before(
                    items@,
                    order@[a] as int,
                    order@[b] as int,
                ),
        decreases n - k,
    {
        let t = items[k].time;
        // Position after every frame taken no later than frame k.
        let mut p: usize = order.len();
        while p > 0 && items[order[p - 1]].time > t
            invariant
                p <= order@.len(),
                n == items@.len(),
                k < n,
                t == items@[k as int].time,
                forall|a: int| 0 <= a < order@.len() ==> order@[a] < k,
                forall|a: int| p <= a < order@.len() ==> items@[order@[a] as int].time > t,
            decreases p,
        {
            p = p - 1;
        }
        proof {
            // every element before p has time <= t (sortedness), so it comes first
            assert forall|a: int| 0 <= a < p implies capture_before(
                items@,
                order@[a] as int,
                k as int,
            ) by {
                if p > 0 {
                    let last = (p - 1) as int;
                    assert(!(items@[order@[last] as int].time > t));
                    if a < last {
                        assert(capture_before(items@, order@[a] as int, order@[last] as int));
                    }
                }
            }
        }
        let ghost old_order = order@;
        order.insert(p, k);
        proof {
            assert forall|a: int, b: int| 0 <= a < b < order@.len() implies capture_before(
                items@,
                order@[a] as int,
                order@[b] as int,
            ) by {
                if b < p {
                    assert(order@[a] == old_order[a] && order@[b] == old_order[b]);
                } else if b == p {
                    assert(order@[a] == old_order[a]);
                } else if a < p {
                    assert(order@[a] == old_order[a] && order@[b] == old_order[b - 1]);
                    assert(items@[old_order[b - 1] as int].time > t);
                    if a + 1 < p as int {
                        assert(capture_before(items@, old_order[a] as int, old_order[(p - 1) as int] as int));
                    }
                } else if a == p {
                    assert(order@[b] == old_order[b - 1]);
                    assert(items@[old_order[b - 1] as int].time > t);
                } else {
                    assert(order@[a] == old_order[a - 1] && order@[b] == old_order[b - 1]);
                }
            }
        }
        k = k + 1;
    }
    order
}

/// Group consecutive near-duplicate frames. Frames are walked in capture
/// order; a frame joins the open stack when it is within `threshold` Hamming
/// distance of the stack's first frame and within `window_secs` of the
/// previous frame. Only groups of at least two frames are returned, as lists
/// of indices into `items`.
pub fn group_stacks(items: &[HashedFile], threshold: u32, window_secs: i64) -> (groups: Vec<
    Vec<usize>,
>)
    requires
        capture_gaps_fit(items@),
    ensures
        exists|order: Seq<usize>|
            #![trigger is_capture_order(items@, order)]
            is_capture_order(items@, order) && groups@.map_values(|g: Vec<usize>| g@)
                == stacks_of(items@, order, threshold, window_secs),
{
    let order = capture_order(items);
    let mut groups: Vec<Vec<usize>> = Vec::new();
    let mut current: Vec<usize> = Vec::new();
    let mut rep_hash: u64 = 0;
    let mut prev_time: i64 = 0;
    let n = order.len();
    let mut k: usize = 0;
    while k < n
        invariant
            n == order@.len(),
            k <= n,
            is_capture_order(items@, order@),
            capture_gaps_fit(items@),
            ({
                let st = stack_walk(items@, order@.take(k as int), threshold, window_secs);
                &&& groups@.map_values(|g: Vec<usize>| g@) == st.groups
                &&& current@ == st.current
                &&& rep_hash == st.rep
                &&& prev_time == st.prev
            }),
            current@.len() > 0 ==> k > 0,
            k > 0 ==> prev_time == items@[order@[k - 1] as int].time,
        decreases n - k,
    {
        let i = order[k];
        let f = items[i];
        proof {
            assert(order@.take(k + 1).drop_last() =~= order@.take(k as int));
            assert(order@.take(k + 1).last() == i);
        }
        proof {
            if k > 0 {
                assert(capture_before(items@, order@[k - 1] as int, order@[k as int] as int));
                assert(items@[order@[k as int] as int].time - items@[order@[k - 1] as int].time
                    <= i64::MAX);
            }
        }
        let joins = if current.len() == 0 {
            false
        } else {
            hamming(rep_hash, f.hash) <= threshold && (f.time - prev_time) <= window_secs
        };
        if joins {
            current.push(i);
        } else {
            if current.len() >= 2 {
                let ghost gs = groups@;
                let ghost cur = current@;
                groups.push(current);
                proof {
                    assert(groups@.map_values(|g: Vec<usize>| g@) =~= gs.map_values(
                        |g: Vec<usize>| g@,
                    ).push(cur));
                }
            }
            current = Vec::new();
            current.push(i);
            rep_hash = f.hash;
        }
        prev_time = f.time;
        k = k + 1;
    }
    proof {
        assert(order@.take(n as int) =~= order@);
    }
    if current.len() >= 2 {
        groups.push(current);
    }
    groups
}

/// Every member of `g` is within `threshold` of its first frame, and each
/// frame is within `window` seconds of the one before it.
pub open spec fn is_tight_group(
    items: Seq<HashedFile>,
    g: Seq<usize>,
    threshold: u32,
    window: i64,
) -> bool {
    &&& forall|j: int| 0 <= j < g.len() ==> g[j] < items.len()
    &&& forall|j: int|
        0 <= j < g.len() ==> hamming_spec(items[g[0] as int].hash, items[g[j] as int].hash)
            <= threshold
    &&& forall|j: int|
        0 < j < g.len() ==> items[#[trigger] g[j] as int].time - items[g[j - 1] as int].time
            <= window
}

proof fn lemma_walk_tight(items: Seq<HashedFile>, order: Seq<usize>, threshold: u32, window: i64)
    requires
        forall|k: int| 0 <= k < order.len() ==> order[k] < items.len(),
    ensures
        ({
            let st = stack_walk(items, order, threshold, window);
            &&& forall|q: int|
                0 <= q < st.groups.len() ==> st.groups[q].len() >= 2 && is_tight_group(
                    items,
                    st.groups[q],
                    threshold,
                    window,
                )
            &&& is_tight_group(items, st.current, threshold, window)
            &&& st.current.len() > 0 ==> st.rep == items[st.current[0] as int].hash && st.prev
                == items[st.current.last() as int].time
            &&& order.len() > 0 ==> st.current.len() > 0
        }),
    decreases order.len(),
{
    if order.len() > 0 {
        let prefix = order.drop_last();
        lemma_walk_tight(items, prefix, threshold, window);
        let st = stack_walk(items, prefix, threshold, window);
        let i = order.last();
        let h = items[i as int].hash;
        assert(h ^ h == 0) by (bit_vector);
        assert(popcount(0) == 0);
        if joins_stack(items, st, i, threshold, window) {
            let c = st.current.push(i);
            assert(c[0] == st.current[0]);
        } else {
            let c = seq![i];
            assert(hamming_spec(items[c[0] as int].hash, items[c[0] as int].hash) == 0);
        }
    }
}

/// Every stack has at least two frames, every frame of a stack is within
/// `threshold` bits of the stack's first frame, and consecutive frames of a
/// stack are at most `window` seconds apart.
pub proof fn lemma_stacks_are_tight(
    items: Seq<HashedFile>,
    order: Seq<usize>,
    threshold: u32,
    window: i64,
)
    requires
        is_capture_order(items, order),
    ensures
        forall|q: int|
            0 <= q < stacks_of(items, order, threshold, window).len() ==> {
                let g = #[trigger] stacks_of(items, order, threshold, window)[q];
                g.len() >= 2 && is_tight_group(items, g, threshold, window)
            },
{
    lemma_walk_tight(items, order, threshold, window);
}


/// Whether index `j` occurs in `o`.
spec fn lists_index(o: Seq<usize>, j: int) -> bool {
    exists|k: int| 0 <= k < o.len() && o[k] == j
}

/// A capture order lists every frame: each index below the length occurs.
proof fn lemma_capture_order_onto(items: Seq<HashedFile>, o: Seq<usize>)
    requires
        is_capture_order(items, o),
    ensures
        forall|j: int| 0 <= j < items.len() ==> #[trigger] lists_index(o, j),
{
    broadcast use vstd::seq_lib::seq_to_set_is_finite;
    let n = items.len() as int;
    let s = o.map_values(|x: usize| x as int);
    assert(s.no_duplicates()) by {
        assert forall|a: int, b: int| 0 <= a < s.len() && 0 <= b < s.len() && a != b implies s[a]
            != s[b] by {
            if a < b {
                assert(capture_before(items, o[a] as int, o[b] as int));
            } else {
                assert(capture_before(items, o[b] as int, o[a] as int));
            }
        }
    }
    s.unique_seq_to_set();
    vstd::set_lib::lemma_int_range(0, n);
    let r = vstd::set_lib::set_int_range(0, n);
    assert(s.to_set().subset_of(r)) by {
        assert forall|x: int| s.to_set().contains(x) implies r.contains(x) by {
            let k = choose|k: int| 0 <= k < s.len() && s[k] == x;
            assert(o[k] < items.len());
        }
    }
    vstd::set_lib::lemma_subset_equality(s.to_set(), r);
    assert forall|j: int| 0 <= j < n implies #[trigger] lists_index(o, j) by {
        assert(r.contains(j));
        assert(s.to_set().contains(j));
        let k = choose|k: int| 0 <= k < s.len() && s[k] == j;
        assert(o[k] == j);
    }
}

/// Two capture orders of the same frames agree up to position `k`.
proof fn lemma_capture_order_unique(items: Seq<HashedFile>, o: Seq<usize>, o2: Seq<usize>, k: int)
    requires
        is_capture_order(items, o),
        is_capture_order(items, o2),
        0 <= k < o.len(),
    ensures
        forall|i: int| 0 <= i <= k ==> o[i] == o2[i],
    decreases k,
{
    if k > 0 {
        lemma_capture_order_unique(items, o, o2, k - 1);
    }
    if o[k] != o2[k] {
        lemma_capture_order_onto(items, o);
        lemma_capture_order_onto(items, o2);
        let a = o[k] as int;
        let b = o2[k] as int;
        assert(lists_index(o2, a));
        assert(lists_index(o, b));
        let m = choose|m: int| 0 <= m < o2.len() && o2[m] == a;
        let m2 = choose|m2: int| 0 <= m2 < o.len() && o[m2] == b;
        if m < k {
            assert(o[m] == o2[m]);
            assert(capture_before(items, o[m] as int, o[k] as int));
        }
        if m2 < k {
            assert(o[m2] == o2[m2]);
            assert(capture_before(items, o2[m2] as int, o2[k] as int));
        }
        assert(m > k && m2 > k);
        assert(capture_before(items, b, a));
        assert(capture_before(items, a, b));
    }
}

/// `g` with every index `i` replaced by `p[i]`.
pub open spec fn reindexed(g: Seq<usize>, p: Seq<usize>) -> Seq<usize> {
    g.map_values(|i: usize| p[i as int])
}

/// Every group of `gs` reindexed through `p`.
pub open spec fn groups_reindexed(gs: Seq<Seq<usize>>, p: Seq<usize>) -> Seq<Seq<usize>> {
    gs.map_values(|g: Seq<usize>| reindexed(g, p))
}

/// Walking frames of a reordered list gives the same stacks as walking the
/// same frames of the original list, up to the renaming of indices.
proof fn lemma_walk_reindexed(
    items: Seq<HashedFile>,
    items2: Seq<HashedFile>,
    p: Seq<usize>,
    o2: Seq<usize>,
    threshold: u32,
    window: i64,
)
    requires
        forall|k: int| 0 <= k < o2.len() ==> o2[k] < items2.len() && o2[k] < p.len(),
        forall|i: int| 0 <= i < items2.len() && i < p.len() ==> #[trigger] items2[i] == items[p[i] as int],
    ensures
        ({
            let st2 = stack_walk(items2, o2, threshold, window);
            let st = stack_walk(items, reindexed(o2, p), threshold, window);
            &&& st.groups == groups_reindexed(st2.groups, p)
            &&& st.current == reindexed(st2.current, p)
            &&& st.rep == st2.rep
            &&& st.prev == st2.prev
        }),
    decreases o2.len(),
{
    if o2.len() > 0 {
        let d = o2.drop_last();
        lemma_walk_reindexed(items, items2, p, d, threshold, window);
        let o = reindexed(o2, p);
        assert(o.drop_last() =~= reindexed(d, p));
        let st2 = stack_walk(items2, d, threshold, window);
        let st = stack_walk(items, reindexed(d, p), threshold, window);
        let i = o2.last();
        assert(o.last() == p[i as int]);
        assert(items2[i as int] == items[p[i as int] as int]);
        assert(st.current.len() == st2.current.len());
        if joins_stack(items2, st2, i, threshold, window) {
            assert(st2.current.push(i).map_values(|x: usize| p[x as int]) =~= st.current.push(
                p[i as int],
            ));
        } else {
            assert(seq![i].map_values(|x: usize| p[x as int]) =~= seq![p[i as int]]);
            if st2.current.len() >= 2 {
                assert(groups_reindexed(st2.groups.push(st2.current), p) =~= st.groups.push(
                    st.current,
                ));
            }
        }
    }
}

/// Input order does not matter: listing the same frames in another order
/// (`items2[k]` is `items[p[k]]` for a permutation `p`) gives the same stacks,
/// once each index `k` of the reordered list is read as `p[k]`, provided no
/// two frames share a capture time (ties are broken by input position).
pub proof fn lemma_stacks_ignore_input_order(
    items: Seq<HashedFile>,
    items2: Seq<HashedFile>,
    p: Seq<usize>,
    o: Seq<usize>,
    o2: Seq<usize>,
    threshold: u32,
    window: i64,
)
    requires
        items2.len() == items.len(),
        p.len() == items.len(),
        forall|k: int| 0 <= k < p.len() ==> p[k] < items.len(),
        forall|a: int, b: int| 0 <= a < b < p.len() ==> p[a] != p[b],
        forall|k: int| 0 <= k < items2.len() ==> #[trigger] items2[k] == items[p[k] as int],
        forall|a: int, b: int| 0 <= a < b < items.len() ==> items[a].time != items[b].time,
        is_capture_order(items, o),
        is_capture_order(items2, o2),
    ensures
        groups_reindexed(stacks_of(items2, o2, threshold, window), p) == stacks_of(
            items,
            o,
            threshold,
            window,
        ),
{
    let o1 = reindexed(o2, p);
    assert(is_capture_order(items, o1)) by {
        assert forall|a: int, b: int| 0 <= a < b < o1.len() implies capture_before(
            items,
            o1[a] as int,
            o1[b] as int,
        ) by {
            let x = o2[a] as int;
            let y = o2[b] as int;
            assert(capture_before(items2, x, y));
            assert(items2[x] == items[p[x] as int] && items2[y] == items[p[y] as int]);
            if x == y {
                assert(false);
            }
            assert(p[x] != p[y]) by {
                if x < y {
                } else {
                }
            }
            assert(items[p[x] as int].time != items[p[y] as int].time) by {
                if p[x] < p[y] {
                } else {
                }
            }
        }
    }
    if o.len() > 0 {
        lemma_capture_order_unique(items, o, o1, o.len() - 1);
    }
    assert(o1 =~= o);
    lemma_walk_reindexed(items, items2, p, o2, threshold, window);
    let st2 = stack_walk(items2, o2, threshold, window);
    if st2.current.len() >= 2 {
        assert(groups_reindexed(st2.groups.push(st2.current), p) =~= groups_reindexed(
            st2.groups,
            p,
        ).push(reindexed(st2.current, p)));
    }
}


/// Whether bit `i` of `h` is set.
pub open spec fn bit_of(h: u64, i: u64) -> bool {
    (h >> i) & 1u64 == 1u64
}

/// Whether the pixel at `(i % 8, i / 8)` of a 9x8 luma grid (row-major) is
/// brighter than its right neighbour.
pub open spec fn brighter_than_right(px: Seq<u8>, i: int) -> bool {
    px[9 * (i / 8) + i % 8] > px[9 * (i / 8) + i % 8 + 1]
}

proof fn lemma_set_bit(h: u64, b: u64, j: u64)
    by (bit_vector)
    requires
        b < 64,
        j < 64,
    ensures
        ((h | (1u64 << b)) >> j) & 1u64 == if j == b {
            1u64
        } else {
            (h >> j) & 1u64
        },
{
}

proof fn lemma_zero_bits(j: u64)
    by (bit_vector)
    requires
        j < 64,
    ensures
        (0u64 >> j) & 1u64 == 0u64,
{
}

/// The difference hash of a 9x8 luma grid (row-major): bit `8y + x` is set
/// exactly when pixel `(x, y)` is brighter than pixel `(x + 1, y)`.
pub fn dhash_from_luma(px: &Vec<u8>) -> (h: u64)
    requires
        px@.len() == 72,
    ensures
        forall|i: u64| i < 64 ==> (bit_of(h, i) <==> brighter_than_right(px@, i as int)),
{
    let mut hash: u64 = 0;
    let mut bit: u64 = 0;
    proof {
        assert forall|j: u64| j < 64 implies !bit_of(hash, j) by {
            lemma_zero_bits(j);
        }
    }
    while bit < 64
        invariant
            px@.len() == 72,
            bit <= 64,
            forall|j: u64| j < bit ==> (bit_of(hash, j) <==> brighter_than_right(px@, j as int)),
            forall|j: u64| bit <= j < 64 ==> !bit_of(hash, j),
        decreases 64 - bit,
    {
        let y = (bit / 8) as usize;
        let x = (bit % 8) as usize;
        let left = px[9 * y + x];
        let right = px[9 * y + x + 1];
        if left > right {
            let old_hash = hash;
            hash = hash | (1u64 << bit);
            proof {
                assert forall|j: u64| j < 64 implies bit_of(hash, j) == (if j == bit {
                    true
                } else {
                    bit_of(old_hash, j)
                }) by {
                    lemma_set_bit(old_hash, bit, j);
                }
            }
        }
        bit = bit + 1;
    }
    hash
}

/// Channel layout of an image with 8-bit or 16-bit samples.
#[derive(Debug, Clone, Copy, PartialEq, Eq, Structural)]
pub enum PixelKind {
    /// Grey.
    Luma8,
    /// Grey and alpha.
    LumaA8,
    /// Red, green, blue.
    Rgb8,
    /// Red, green, blue, alpha.
    Rgba8,
    /// Grey, 16-bit samples.
    Luma16,
    /// Grey and alpha, 16-bit samples.
    LumaA16,
    /// Red, green, blue, 16-bit samples.
    Rgb16,
    /// Red, green, blue, alpha, 16-bit samples.
    Rgba16,
}

/// Samples per pixel of a layout.
pub open spec fn channels(k: PixelKind) -> nat {
    match k {
        PixelKind::Luma8 | PixelKind::Luma16 => 1,
        PixelKind::LumaA8 | PixelKind::LumaA16 => 2,
        PixelKind::Rgb8 | PixelKind::Rgb16 => 3,
        PixelKind::Rgba8 | PixelKind::Rgba16 => 4,
    }
}

/// Whether a layout has 16-bit samples.
pub open spec fn is_wide(k: PixelKind) -> bool {
    match k {
        PixelKind::Luma16 | PixelKind::LumaA16 | PixelKind::Rgb16 | PixelKind::Rgba16 => true,
        _ => false,
    }
}

/// The number that stands for a layout: its samples per pixel.
pub open spec fn kind_code(k: PixelKind) -> u8 {
    channels(k) as u8
}

/// A decoded image: its layout, its size, and its samples row by row, in
/// `bytes` for 8-bit layouts and in `wide` for 16-bit ones.
pub struct PixelImage {
    pub kind: PixelKind,
    pub width: u32,
    pub height: u32,
    pub bytes: Vec<u8>,
    pub wide: Vec<u16>,
}

/// The samples fill the image exactly.
pub open spec fn pixels_fit(img: PixelImage) -> bool {
    if is_wide(img.kind) {
        img.wide@.len() == img.width * img.height * channels(img.kind)
    } else {
        img.bytes@.len() == img.width * img.height * channels(img.kind)
    }
}

/// The 9x8 grey grid that `image` makes of an 8-bit image with `code`
/// samples per pixel (1 grey, 2 grey and alpha, 3 RGB, 4 RGBA), `width` by
/// `height`, with samples `bytes`: `resize_exact(9, 8, Triangle)`, then
/// `to_luma8`, read row by row.
pub uninterp spec fn luma_grid(code: u8, width: u32, height: u32, bytes: Seq<u8>) -> Seq<u8>;

/// The same grid made of a 16-bit image with samples `wide`.
pub uninterp spec fn luma_grid16(code: u8, width: u32, height: u32, wide: Seq<u16>) -> Seq<u8>;

/// The grid of an image, by its sample width.
pub open spec fn image_grid(img: PixelImage) -> Seq<u8> {
    if is_wide(img.kind) {
        luma_grid16(kind_code(img.kind), img.width, img.height, img.wide@)
    } else {
        luma_grid(kind_code(img.kind), img.width, img.height, img.bytes@)
    }
}

/// `DynamicImage::resize_exact(9, 8, FilterType::Triangle)` followed by
/// `to_luma8` and `into_raw`, on the 8-bit image the samples make
/// (`ImageBuffer::from_raw`, which accepts them because they fill the image).
/// The resampling is named `luma_grid`; the grid is 9 by 8 grey samples.
#[verifier::external_body]
fn luma_grid_9x8(img: &PixelImage) -> (r: Vec<u8>)
    requires
        pixels_fit(*img),
        !is_wide(img.kind),
    ensures
        r@ == luma_grid(kind_code(img.kind), img.width, img.height, img.bytes@),
        r@.len() == 72,
{
    let (w, h, b) = (img.width, img.height, img.bytes.clone());
    let decoded = match img.kind {
        PixelKind::Luma8 => image::DynamicImage::ImageLuma8(image::ImageBuffer::from_raw(w, h, b).unwrap()),
        PixelKind::LumaA8 => image::DynamicImage::ImageLumaA8(image::ImageBuffer::from_raw(w, h, b).unwrap()),
        PixelKind::Rgb8 => image::DynamicImage::ImageRgb8(image::ImageBuffer::from_raw(w, h, b).unwrap()),
        _ => image::DynamicImage::ImageRgba8(image::ImageBuffer::from_raw(w, h, b).unwrap()),
    };
    decoded.resize_exact(9, 8, image::imageops::FilterType::Triangle).to_luma8().into_raw()
}

/// The same call on the 16-bit image the samples make. The resampling is
/// named `luma_grid16`; the grid is 9 by 8 grey 8-bit samples.
#[verifier::external_body]
fn luma_grid16_9x8(img: &PixelImage) -> (r: Vec<u8>)
    requires
        pixels_fit(*img),
        is_wide(img.kind),
    ensures
        r@ == luma_grid16(kind_code(img.kind), img.width, img.height, img.wide@),
        r@.len() == 72,
{
    let (w, h, b) = (img.width, img.height, img.wide.clone());
    let decoded = match img.kind {
        PixelKind::Luma16 => image::DynamicImage::ImageLuma16(image::ImageBuffer::from_raw(w, h, b).unwrap()),
        PixelKind::LumaA16 => image::DynamicImage::ImageLumaA16(image::ImageBuffer::from_raw(w, h, b).unwrap()),
        PixelKind::Rgb16 => image::DynamicImage::ImageRgb16(image::ImageBuffer::from_raw(w, h, b).unwrap()),
        _ => image::DynamicImage::ImageRgba16(image::ImageBuffer::from_raw(w, h, b).unwrap()),
    };
    decoded.resize_exact(9, 8, image::imageops::FilterType::Triangle).to_luma8().into_raw()
}

/// 64-bit difference hash of an image: reduced to a 9x8 grey grid, each
/// pixel compared with its right neighbour; bit `8 * row + column` is set
/// when the pixel is brighter than the one to its right.
pub fn dhash(img: &PixelImage) -> (h: u64)
    requires
        pixels_fit(*img),
    ensures
        forall|i: u64|
            i < 64 ==> (bit_of(h, i) <==> #[trigger] brighter_than_right(image_grid(*img), i as int)),
{
    let wide = match img.kind {
        PixelKind::Luma16 | PixelKind::LumaA16 | PixelKind::Rgb16 | PixelKind::Rgba16 => true,
        _ => false,
    };
    let px = if wide {
        luma_grid16_9x8(img)
    } else {
        luma_grid_9x8(img)
    };
    dhash_from_luma(&px)
}


proof fn lemma_popcount_zero(x: u64)
    ensures
        popcount(x) == 0 <==> x == 0,
    decreases x,
{
    if x != 0 {
        if x % 2 == 0 {
            assert(x / 2 != 0);
            lemma_popcount_zero(x / 2);
        }
    }
}

/// The Hamming distance between hashes behaves as a distance: a hash is at
/// distance 0 from itself and from nothing else, the distance is symmetric,
/// and it never exceeds 64 bits.
pub proof fn lemma_hamming_is_a_distance(a: u64, b: u64)
    ensures
        hamming_spec(a, a) == 0,
        hamming_spec(a, b) == hamming_spec(b, a),
        hamming_spec(a, b) == 0 <==> a == b,
        hamming_spec(a, b) <= 64,
{
    assert(a ^ a == 0) by (bit_vector);
    assert(a ^ b == b ^ a) by (bit_vector);
    assert(a ^ b == 0 <==> a == b) by (bit_vector);
    lemma_popcount_zero(a ^ b);
    lemma_popcount_bound(a ^ b);
}

} // verus!
