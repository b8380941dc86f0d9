//! The sidebar folder forest: a tree rebuilt from the flat list of folders
//! that hold photos, rooted at the library anchors, with single-child
//! pass-through runs compacted into one breadcrumb row.

use vstd::prelude::*;
use crate::text::{chars_of, chars_eq, lowercase, to_lowercase, string_of};
use crate::thumbnail_queue::strings_view;
use crate::paths::main_separator;

verus! {

/// One folder segment of a row's breadcrumb: its display name and the path it
/// navigates to.
#[derive(Debug, Clone)]
pub struct FolderSeg {
    pub name: String,
    pub path: String,
}

/// A folder in the sidebar tree.
#[derive(Debug)]
pub struct FolderNode {
    /// Full normalised path of this folder (the deepest segment of `chain`).
    pub path: String,
    /// Display name of the deepest segment.
    pub name: String,
    /// Breadcrumb of this row: the compacted pass-through ancestors, ending at
    /// this node.
    pub chain: Vec<FolderSeg>,
    /// Photos directly in this folder.
    pub direct_count: usize,
    /// Photos in this folder and all its descendants.
    pub total_count: usize,
    pub children: Vec<FolderNode>,
}

/// The value of a breadcrumb segment: `(name, path)`.
pub open spec fn seg_view(s: FolderSeg) -> (Seq<char>, Seq<char>) {
    (s.name@, s.path@)
}

/// The mathematical value of a folder node.
pub struct NodeView {
    pub path: Seq<char>,
    pub name: Seq<char>,
    pub chain: Seq<(Seq<char>, Seq<char>)>,
    pub direct_count: nat,
    pub total_count: nat,
    pub children: Seq<NodeView>,
}

/// The value of a folder node and, recursively, of its children.
pub open spec fn node_view(n: FolderNode) -> NodeView
    decreases n,
{
    NodeView {
        path: n.path@,
        name: n.name@,
        chain: n.chain@.map_values(|s: FolderSeg| seg_view(s)),
        direct_count: n.direct_count as nat,
        total_count: n.total_count as nat,
        children: Seq::new(
            n.children@.len(),
            |j: int|
                if 0 <= j < n.children@.len() {
                    node_view(n.children@[j])
                } else {
                    arbitrary_node()
                },
        ),
    }
}

/// A placeholder node value.
pub open spec fn arbitrary_node() -> NodeView {
    NodeView {
        path: Seq::empty(),
        name: Seq::empty(),
        chain: Seq::empty(),
        direct_count: 0,
        total_count: 0,
        children: Seq::empty(),
    }
}

impl View for FolderNode {
    type V = NodeView;

    open spec fn view(&self) -> NodeView {
        node_view(*self)
    }
}

/// Values of a sequence of nodes.
pub open spec fn forest_view(v: Seq<FolderNode>) -> Seq<NodeView> {
    v.map_values(|n: FolderNode| n@)
}

/// Whether a node has no photos of its own and exactly one child.
pub open spec fn is_pass_through(n: NodeView) -> bool {
    n.direct_count == 0 && n.children.len() == 1
}

/// Compaction: a pass-through node absorbs its (compacted) only child, whose
/// breadcrumb is appended to its own; every other node keeps its fields and
/// has its children compacted.
pub open spec fn compact_view(n: NodeView) -> NodeView
    decreases n,
{
    if is_pass_through(n) {
        let r = compact_view(n.children[0]);
        NodeView { chain: n.chain + r.chain, total_count: n.total_count, ..r }
    } else {
        NodeView {
            children: Seq::new(
                n.children.len(),
                |j: int|
                    if 0 <= j < n.children.len() {
                        compact_view(n.children[j])
                    } else {
                        arbitrary_node()
                    },
            ),
            ..n
        }
    }
}


/// Compacts each node of a list, in order.
fn compact_all(children: Vec<FolderNode>, Ghost(parent): Ghost<FolderNode>) -> (r: Vec<FolderNode>)
    requires
        children@ == parent.children@,
    ensures
        r@.len() == children@.len(),
        forall|j: int| 0 <= j < r@.len() ==> #[trigger] r@[j]@ == compact_view(children@[j]@),
    decreases parent, 0nat,
{
    let mut rest = children;
    let mut out: Vec<FolderNode> = Vec::new();
    let ghost orig = rest@;
    while rest.len() > 0
        invariant
            orig == parent.children@,
            out@.len() + rest@.len() == orig.len(),
            rest@ == orig.skip(out@.len() as int),
            forall|j: int| 0 <= j < out@.len() ==> #[trigger] out@[j]@ == compact_view(orig[j]@),
        decreases rest@.len(),
    {
        let ghost k = out@.len() as int;
        let c = rest.remove(0);
        assert(c == orig[k]);
        proof {
            assert(decreases_to!(parent => parent.children@[k]));
        }
        let cc = compact(c);
        out.push(cc);
        assert(rest@ =~= orig.skip(out@.len() as int));
    }
    out
}

/// Compacts the pass-through runs of a tree (see `compact_view`).
pub fn compact(node: FolderNode) -> (r: FolderNode)
    ensures
        r@ == compact_view(node@),
    decreases node, 1nat,
{
    let ghost whole = node;
    let FolderNode { path, name, chain, direct_count, total_count, children } = node;
    if direct_count == 0 && children.len() == 1 {
        let mut children = children;
        let child = children.remove(0);
        proof {
            assert(decreases_to!(whole => whole.children@[0]));
        }
        let r = compact(child);
        let FolderNode { path: rpath, name: rname, chain: rchain, direct_count: rdirect, total_count: _, children: rchildren } = r;
        let mut chain = chain;
        let mut rchain = rchain;
        chain.append(&mut rchain);
        let out = FolderNode {
            path: rpath,
            name: rname,
            chain,
            direct_count: rdirect,
            total_count,
            children: rchildren,
        };
        proof {
            assert(out@.chain =~= whole@.chain + r@.chain);
            assert(out@.children =~= r@.children);
        }
        out
    } else {
        let kids = compact_all(children, Ghost(whole));
        let out = FolderNode { path, name, chain, direct_count, total_count, children: kids };
        proof {
            let wv = whole@;
            assert(!is_pass_through(wv));
            assert forall|j: int| 0 <= j < kids@.len() implies out@.children[j]
                == compact_view(wv).children[j] by {
                assert(wv.children[j] == whole.children@[j]@);
                assert(out@.children[j] == kids@[j]@);
                assert(kids@[j]@ == compact_view(whole.children@[j]@));
            }
            assert(out@.children =~= compact_view(wv).children);
        }
        out
    }
}


// ---------------------------------------------------------------------------
// Splitting paths into segments
// ---------------------------------------------------------------------------

/// Left-to-right scan of `s` split on `sep`: the non-empty pieces closed so
/// far, and the piece still open.
pub open spec fn segment_scan(s: Seq<char>, sep: char) -> (Seq<Seq<char>>, Seq<char>)
    decreases s.len(),
{
    if s.len() == 0 {
        (Seq::empty(), Seq::empty())
    } else {
        let (done, cur) = segment_scan(s.drop_last(), sep);
        if s.last() == sep {
            (if cur.len() == 0 { done } else { done.push(cur) }, Seq::empty())
        } else {
            (done, cur.push(s.last()))
        }
    }
}

/// The non-empty pieces of `s` split on `sep`, in order.
pub open spec fn segments(s: Seq<char>, sep: char) -> Seq<Seq<char>> {
    let (done, cur) = segment_scan(s, sep);
    if cur.len() == 0 {
        done
    } else {
        done.push(cur)
    }
}

/// Values of a list of character vectors.
pub open spec fn vecs_view(v: Seq<Vec<char>>) -> Seq<Seq<char>> {
    v.map_values(|x: Vec<char>| x@)
}

/// Splits `s` on `sep`, dropping empty pieces.
pub fn split_segments(s: &Vec<char>, sep: char) -> (r: Vec<Vec<char>>)
    ensures
        vecs_view(r@) == segments(s@, sep),
{
    let mut done: Vec<Vec<char>> = Vec::new();
    let mut cur: Vec<char> = Vec::new();
    let mut k: usize = 0;
    while k < s.len()
        invariant
            k <= s@.len(),
            (vecs_view(done@), cur@) == segment_scan(s@.take(k as int), sep),
        decreases s@.len() - k,
    {
        let c = s[k];
        proof {
            assert(s@.take(k + 1).drop_last() =~= s@.take(k as int));
        }
        if c == sep {
            if cur.len() > 0 {
                let piece = cur;
                done.push(piece);
                proof {
                    assert(vecs_view(done@) =~= vecs_view(done@.drop_last()).push(piece@));
                }
            }
            cur = Vec::new();
        } else {
            cur.push(c);
        }
        k = k + 1;
    }
    proof {
        assert(s@.take(s@.len() as int) =~= s@);
    }
    if cur.len() > 0 {
        let piece = cur;
        done.push(piece);
        proof {
            assert(vecs_view(done@) =~= vecs_view(done@.drop_last()).push(piece@));
        }
    }
    done
}

// ---------------------------------------------------------------------------
// String order
// ---------------------------------------------------------------------------

/// Lexicographic order of strings by code point (the order of `String`).
pub open spec fn str_lt(a: Seq<char>, b: Seq<char>) -> bool
    decreases a.len(),
{
    if b.len() == 0 {
        false
    } else if a.len() == 0 {
        true
    } else if a[0] != b[0] {
        (a[0] as u32) < (b[0] as u32)
    } else {
        str_lt(a.drop_first(), b.drop_first())
    }
}

/// `a < b` in the order of `String`.
pub fn chars_lt(a: &Vec<char>, b: &Vec<char>) -> (r: bool)
    ensures
        r == str_lt(a@, b@),
{
    let mut k: usize = 0;
    proof {
        assert(a@.skip(0) =~= a@);
        assert(b@.skip(0) =~= b@);
    }
    while k < a.len() && k < b.len() && a[k] == b[k]
        invariant
            k <= a@.len(),
            k <= b@.len(),
            str_lt(a@, b@) == str_lt(a@.skip(k as int), b@.skip(k as int)),
        decreases a@.len() - k,
    {
        proof {
            assert(a@.skip(k as int).drop_first() =~= a@.skip(k + 1));
            assert(b@.skip(k as int).drop_first() =~= b@.skip(k + 1));
        }
        k = k + 1;
    }
    if k == b.len() {
        false
    } else if k == a.len() {
        true
    } else {
        (a[k] as u32) < (b[k] as u32)
    }
}

/// `list` (strictly increasing) with `c` added where it belongs, unless present.
pub open spec fn insert_key(list: Seq<Seq<char>>, c: Seq<char>) -> Seq<Seq<char>>
    decreases list.len(),
{
    if list.len() == 0 {
        seq![c]
    } else if list[0] == c {
        list
    } else if str_lt(c, list[0]) {
        seq![c] + list
    } else {
        seq![list[0]] + insert_key(list.drop_first(), c)
    }
}

proof fn lemma_insert_key_step(list: Seq<Seq<char>>, c: Seq<char>, i: int)
    requires
        0 <= i < list.len(),
        list[i] != c,
        !str_lt(c, list[i]),
    ensures
        list.take(i) + insert_key(list.skip(i), c) == list.take(i + 1) + insert_key(
            list.skip(i + 1),
            c,
        ),
{
    let t = list.skip(i);
    assert(t[0] == list[i]);
    assert(t.drop_first() =~= list.skip(i + 1));
    assert(insert_key(t, c) == seq![list[i]] + insert_key(list.skip(i + 1), c));
    assert(list.take(i) + (seq![list[i]] + insert_key(list.skip(i + 1), c)) =~= list.take(i + 1)
        + insert_key(list.skip(i + 1), c));
}

/// Adds `c` to the strictly increasing `list` unless it is already there.
fn insert_key_exec(list: &mut Vec<Vec<char>>, c: Vec<char>)
    ensures
        vecs_view(final(list)@) == insert_key(vecs_view(old(list)@), c@),
{
    let ghost l = vecs_view(list@);
    let mut i: usize = 0;
    proof {
        assert(l.skip(0) =~= l);
        assert(l.take(0) + insert_key(l, c@) =~= insert_key(l, c@));
    }
    while i < list.len() && !chars_eq(&list[i], &c) && !chars_lt(&c, &list[i])
        invariant
            l == vecs_view(list@),
            i <= list@.len(),
            insert_key(l, c@) == l.take(i as int) + insert_key(l.skip(i as int), c@),
        decreases list@.len() - i,
    {
        proof {
            lemma_insert_key_step(l, c@, i as int);
        }
        i = i + 1;
    }
    if i < list.len() && chars_eq(&list[i], &c) {
        proof {
            let t = l.skip(i as int);
            assert(t[0] == c@);
            assert(l.take(i as int) + t =~= l);
        }
    } else {
        proof {
            let t = l.skip(i as int);
            if i < l.len() {
                assert(t[0] == l[i as int]);
                assert(insert_key(t, c@) == seq![c@] + t);
            } else {
                assert(insert_key(t, c@) == seq![c@]);
            }
        }
        list.insert(i, c);
        proof {
            assert(vecs_view(list@) =~= l.take(i as int) + (seq![c@] + l.skip(i as int)));
        }
    }
}


// ---------------------------------------------------------------------------
// The trie of folders, as a function of the input list
// ---------------------------------------------------------------------------

/// A folder of the input as the tree sees it: the segments of its key path,
/// the segments of its display path, and its photo count.
pub struct EntryView {
    pub keys: Seq<Seq<char>>,
    pub disps: Seq<Seq<char>>,
    pub count: nat,
}

/// The tree's view of one `(key, display, count)` input triple.
pub open spec fn entry_of(f: (String, String, usize), sep: char) -> EntryView {
    EntryView { keys: segments(f.0@, sep), disps: segments(f.1@, sep), count: f.2 as nat }
}

/// The tree's view of the input list.
pub open spec fn entries(folders: Seq<(String, String, usize)>, sep: char) -> Seq<EntryView> {
    folders.map_values(|f: (String, String, usize)| entry_of(f, sep))
}

/// Whether the segment list `p` is a prefix of `k`.
pub open spec fn is_prefix(p: Seq<Seq<char>>, k: Seq<Seq<char>>) -> bool {
    p.len() <= k.len() && k.take(p.len() as int) == p
}

/// Whether the folder of `e` is the node `p` or lies below it (a folder with
/// no segments is no node).
pub open spec fn at_or_below(e: EntryView, p: Seq<Seq<char>>) -> bool {
    e.keys.len() > 0 && is_prefix(p, e.keys)
}

/// Photos directly in the node `p`.
pub open spec fn direct_sum(es: Seq<EntryView>, p: Seq<Seq<char>>) -> nat
    decreases es.len(),
{
    if es.len() == 0 {
        0
    } else {
        direct_sum(es.drop_last(), p) + if es.last().keys.len() > 0 && es.last().keys == p {
            es.last().count
        } else {
            0
        }
    }
}

/// Photos in the node `p` and below it.
pub open spec fn subtree_sum(es: Seq<EntryView>, p: Seq<Seq<char>>) -> nat
    decreases es.len(),
{
    if es.len() == 0 {
        0
    } else {
        subtree_sum(es.drop_last(), p) + if at_or_below(es.last(), p) {
            es.last().count
        } else {
            0
        }
    }
}

/// Display name the first folder through `p` gives it: its display segment at
/// that depth, or the key segment when the display path is shorter.
pub open spec fn display_at(e: EntryView, p: Seq<Seq<char>>) -> Seq<char> {
    if p.len() - 1 < e.disps.len() {
        e.disps[p.len() - 1]
    } else {
        p.last()
    }
}

/// The display name of node `p`, set by the first folder through it.
pub open spec fn first_display(es: Seq<EntryView>, p: Seq<Seq<char>>) -> Option<Seq<char>>
    decreases es.len(),
{
    if es.len() == 0 {
        None
    } else {
        match first_display(es.drop_last(), p) {
            Some(d) => Some(d),
            None => if p.len() > 0 && is_prefix(p, es.last().keys) {
                Some(display_at(es.last(), p))
            } else {
                None
            },
        }
    }
}

/// The display name of node `p` (empty for the root).
pub open spec fn display_of(es: Seq<EntryView>, p: Seq<Seq<char>>) -> Seq<char> {
    match first_display(es, p) {
        Some(d) => d,
        None => Seq::empty(),
    }
}

/// Whether the folder of `e` lies strictly below node `p`.
pub open spec fn strictly_below(e: EntryView, p: Seq<Seq<char>>) -> bool {
    is_prefix(p, e.keys) && e.keys.len() > p.len()
}

/// The child segments of node `p`, in increasing string order, each once.
pub open spec fn child_keys(es: Seq<EntryView>, p: Seq<Seq<char>>) -> Seq<Seq<char>>
    decreases es.len(),
{
    if es.len() == 0 {
        Seq::empty()
    } else if strictly_below(es.last(), p) {
        insert_key(child_keys(es.drop_last(), p), es.last().keys[p.len() as int])
    } else {
        child_keys(es.drop_last(), p)
    }
}

/// Number of segments of the deepest folder.
pub open spec fn max_depth(es: Seq<EntryView>) -> nat
    decreases es.len(),
{
    if es.len() == 0 {
        0
    } else {
        let d = max_depth(es.drop_last());
        if es.last().keys.len() > d {
            es.last().keys.len()
        } else {
            d
        }
    }
}

/// Whether some folder is at or below `p` (so the trie has a node there).
pub open spec fn reaches(es: Seq<EntryView>, p: Seq<Seq<char>>) -> bool
    decreases es.len(),
{
    es.len() > 0 && (reaches(es.drop_last(), p) || is_prefix(p, es.last().keys))
}

/// The sort key of a node: its name in lower case.
pub open spec fn name_key(n: NodeView) -> Seq<char> {
    lowercase(n.name)
}

/// Sorted `s` with `x` inserted after every element whose key is not greater.
pub open spec fn insert_by_name(s: Seq<NodeView>, x: NodeView) -> Seq<NodeView>
    decreases s.len(),
{
    if s.len() == 0 {
        seq![x]
    } else if str_lt(name_key(x), name_key(s.last())) {
        insert_by_name(s.drop_last(), x).push(s.last())
    } else {
        s.push(x)
    }
}

/// Stable sort by case-insensitive name.
pub open spec fn sort_by_name(s: Seq<NodeView>) -> Seq<NodeView>
    decreases s.len(),
{
    if s.len() == 0 {
        s
    } else {
        insert_by_name(sort_by_name(s.drop_last()), s.last())
    }
}

/// `path`, the separator, then `comp`.
pub open spec fn join_path(path: Seq<char>, comp: Seq<char>, sep: char) -> Seq<char> {
    path.push(sep) + comp
}

/// The children of node `p` shown at `path`, in the order of their segments
/// (before sorting by name).
pub open spec fn model_children(
    es: Seq<EntryView>,
    sep: char,
    path: Seq<char>,
    p: Seq<Seq<char>>,
) -> Seq<NodeView>
    decreases max_depth(es) - p.len(), 0nat,
{
    let ck = child_keys(es, p);
    if p.len() < max_depth(es) {
        Seq::new(
            ck.len(),
            |j: int|
                node_model(
                    es,
                    sep,
                    join_path(path, ck[j], sep),
                    display_of(es, p.push(ck[j])),
                    ck[j],
                    p.push(ck[j]),
                ),
        )
    } else {
        Seq::empty()
    }
}

/// The uncompacted node of the trie at `p`, shown at `path`: named by `disp`
/// (or `comp` when that is empty), with its direct and total photo counts,
/// and its children in case-insensitive name order.
pub open spec fn node_model(
    es: Seq<EntryView>,
    sep: char,
    path: Seq<char>,
    disp: Seq<char>,
    comp: Seq<char>,
    p: Seq<Seq<char>>,
) -> NodeView
    decreases max_depth(es) - p.len(), 1nat,
{
    let name = if disp.len() == 0 { comp } else { disp };
    NodeView {
        path,
        name,
        chain: seq![(name, path)],
        direct_count: direct_sum(es, p),
        total_count: subtree_sum(es, p),
        children: sort_by_name(model_children(es, sep, path, p)),
    }
}

// ---------------------------------------------------------------------------
// Facts about the trie model
// ---------------------------------------------------------------------------

proof fn lemma_sums_bounded(es: Seq<EntryView>, p: Seq<Seq<char>>)
    ensures
        direct_sum(es, p) <= subtree_sum(es, p),
        subtree_sum(es, p) <= subtree_sum(es, Seq::empty()),
    decreases es.len(),
{
    if es.len() > 0 {
        lemma_sums_bounded(es.drop_last(), p);
        let e = es.last();
        if at_or_below(e, p) {
            assert(e.keys.take(0) =~= Seq::<Seq<char>>::empty());
        }
        if e.keys == p {
            assert(e.keys.take(e.keys.len() as int) =~= e.keys);
        }
    }
}

proof fn lemma_sums_of_prefix(es: Seq<EntryView>, p: Seq<Seq<char>>, k: int)
    requires
        0 <= k <= es.len(),
    ensures
        direct_sum(es.take(k), p) <= direct_sum(es, p),
        subtree_sum(es.take(k), p) <= subtree_sum(es, p),
    decreases es.len(),
{
    if k == es.len() {
        assert(es.take(k) =~= es);
    } else {
        assert(es.drop_last().take(k) =~= es.take(k));
        lemma_sums_of_prefix(es.drop_last(), p, k);
    }
}

proof fn lemma_children_need_depth(es: Seq<EntryView>, p: Seq<Seq<char>>)
    ensures
        child_keys(es, p).len() > 0 ==> p.len() < max_depth(es),
    decreases es.len(),
{
    if es.len() > 0 {
        lemma_children_need_depth(es.drop_last(), p);
    }
}

proof fn lemma_take_last<T>(s: Seq<T>, k: int)
    requires
        0 <= k < s.len(),
    ensures
        s.take(k + 1).drop_last() == s.take(k),
        s.take(k + 1).last() == s[k],
{
    assert(s.take(k + 1).drop_last() =~= s.take(k));
}

// ---------------------------------------------------------------------------
// The input in segments
// ---------------------------------------------------------------------------

/// A folder of the input, split into segments.
struct Keyed {
    keys: Vec<Vec<char>>,
    disps: Vec<Vec<char>>,
    count: usize,
}

spec fn keyed_view(k: Keyed) -> EntryView {
    EntryView { keys: vecs_view(k.keys@), disps: vecs_view(k.disps@), count: k.count as nat }
}

spec fn keyed_views(v: Seq<Keyed>) -> Seq<EntryView> {
    v.map_values(|k: Keyed| keyed_view(k))
}

fn keyed_entries(folders: &[(String, String, usize)], sep: char) -> (r: Vec<Keyed>)
    ensures
        keyed_views(r@) == entries(folders@, sep),
{
    let mut out: Vec<Keyed> = Vec::new();
    let mut k: usize = 0;
    while k < folders.len()
        invariant
            k <= folders@.len(),
            keyed_views(out@) == entries(folders@.take(k as int), sep),
        decreases folders@.len() - k,
    {
        let f = &folders[k];
        let keys = split_segments(&chars_of(f.0.as_str()), sep);
        let disps = split_segments(&chars_of(f.1.as_str()), sep);
        out.push(Keyed { keys, disps, count: f.2 });
        proof {
            assert(entries(folders@.take(k + 1), sep) =~= entries(folders@.take(k as int), sep).push(
                entry_of(folders@[k as int], sep),
            ));
            assert(keyed_views(out@) =~= keyed_views(out@.drop_last()).push(
                keyed_view(out@.last()),
            ));
        }
        k = k + 1;
    }
    proof {
        assert(folders@.take(folders@.len() as int) =~= folders@);
    }
    out
}

fn copy_chars(v: &Vec<char>) -> (r: Vec<char>)
    ensures
        r@ == v@,
{
    let mut r: Vec<char> = Vec::new();
    let mut k: usize = 0;
    while k < v.len()
        invariant
            k <= v@.len(),
            r@ == v@.take(k as int),
        decreases v@.len() - k,
    {
        r.push(v[k]);
        proof {
            assert(r@ =~= v@.take(k + 1));
        }
        k = k + 1;
    }
    proof {
        assert(v@.take(v@.len() as int) =~= v@);
    }
    r
}

fn copy_segments(v: &Vec<Vec<char>>) -> (r: Vec<Vec<char>>)
    ensures
        vecs_view(r@) == vecs_view(v@),
{
    let mut r: Vec<Vec<char>> = Vec::new();
    let mut k: usize = 0;
    while k < v.len()
        invariant
            k <= v@.len(),
            r@.len() == k,
            vecs_view(r@) == vecs_view(v@).take(k as int),
        decreases v@.len() - k,
    {
        let c = copy_chars(&v[k]);
        r.push(c);
        proof {
            assert(vecs_view(r@)[k as int] == c@);
            assert(vecs_view(r@) =~= vecs_view(v@).take(k + 1));
        }
        k = k + 1;
    }
    proof {
        assert(vecs_view(v@).take(v@.len() as int) =~= vecs_view(v@));
    }
    r
}

/// Whether `p` is a prefix of `k`, segment by segment.
fn segments_prefix(p: &Vec<Vec<char>>, k: &Vec<Vec<char>>) -> (b: bool)
    ensures
        b == is_prefix(vecs_view(p@), vecs_view(k@)),
{
    if p.len() > k.len() {
        return false;
    }
    let ghost pv = vecs_view(p@);
    let ghost kv = vecs_view(k@);
    let mut i: usize = 0;
    while i < p.len()
        invariant
            p@.len() <= k@.len(),
            pv == vecs_view(p@),
            kv == vecs_view(k@),
            i <= p@.len(),
            forall|j: int| 0 <= j < i ==> pv[j] == kv[j],
        decreases p@.len() - i,
    {
        if !chars_eq(&p[i], &k[i]) {
            proof {
                assert(kv.take(pv.len() as int)[i as int] != pv[i as int]);
            }
            return false;
        }
        i = i + 1;
    }
    proof {
        assert(kv.take(pv.len() as int) =~= pv);
    }
    true
}

/// Whether two segment lists are equal.
fn segments_eq(a: &Vec<Vec<char>>, b: &Vec<Vec<char>>) -> (r: bool)
    ensures
        r == (vecs_view(a@) == vecs_view(b@)),
{
    if a.len() != b.len() {
        proof {
            assert(vecs_view(a@).len() != vecs_view(b@).len());
        }
        return false;
    }
    let r = segments_prefix(a, b);
    proof {
        assert(vecs_view(b@).take(vecs_view(a@).len() as int) =~= vecs_view(b@));
    }
    r
}

/// Photos directly in node `p`.
fn direct_count_of(es: &Vec<Keyed>, p: &Vec<Vec<char>>) -> (n: usize)
    requires
        subtree_sum(keyed_views(es@), Seq::empty()) <= usize::MAX,
    ensures
        n == direct_sum(keyed_views(es@), vecs_view(p@)),
{
    let ghost ev = keyed_views(es@);
    let ghost pv = vecs_view(p@);
    let mut acc: usize = 0;
    let mut k: usize = 0;
    while k < es.len()
        invariant
            ev == keyed_views(es@),
            pv == vecs_view(p@),
            subtree_sum(ev, Seq::empty()) <= usize::MAX,
            k <= es@.len(),
            acc == direct_sum(ev.take(k as int), pv),
        decreases es@.len() - k,
    {
        proof {
            lemma_take_last(ev, k as int);
            lemma_sums_of_prefix(ev, pv, k + 1);
            lemma_sums_bounded(ev, pv);
        }
        let e = &es[k];
        if e.keys.len() > 0 && segments_eq(&e.keys, p) {
            acc = acc + e.count;
        }
        k = k + 1;
    }
    proof {
        assert(ev.take(es@.len() as int) =~= ev);
    }
    acc
}

/// Photos in node `p` and below it.
fn subtree_count_of(es: &Vec<Keyed>, p: &Vec<Vec<char>>) -> (n: usize)
    requires
        subtree_sum(keyed_views(es@), Seq::empty()) <= usize::MAX,
    ensures
        n == subtree_sum(keyed_views(es@), vecs_view(p@)),
{
    let ghost ev = keyed_views(es@);
    let ghost pv = vecs_view(p@);
    let mut acc: usize = 0;
    let mut k: usize = 0;
    while k < es.len()
        invariant
            ev == keyed_views(es@),
            pv == vecs_view(p@),
            subtree_sum(ev, Seq::empty()) <= usize::MAX,
            k <= es@.len(),
            acc == subtree_sum(ev.take(k as int), pv),
        decreases es@.len() - k,
    {
        proof {
            lemma_take_last(ev, k as int);
            lemma_sums_of_prefix(ev, pv, k + 1);
            lemma_sums_bounded(ev, pv);
        }
        let e = &es[k];
        if e.keys.len() > 0 && segments_prefix(p, &e.keys) {
            acc = acc + e.count;
        }
        k = k + 1;
    }
    proof {
        assert(ev.take(es@.len() as int) =~= ev);
    }
    acc
}

/// The display name of node `p`.
fn display_of_node(es: &Vec<Keyed>, p: &Vec<Vec<char>>) -> (d: Vec<char>)
    ensures
        d@ == display_of(keyed_views(es@), vecs_view(p@)),
{
    let ghost ev = keyed_views(es@);
    let ghost pv = vecs_view(p@);
    let mut k: usize = 0;
    while k < es.len()
        invariant
            ev == keyed_views(es@),
            pv == vecs_view(p@),
            k <= es@.len(),
            first_display(ev.take(k as int), pv) is None,
        decreases es@.len() - k,
    {
        proof {
            lemma_take_last(ev, k as int);
        }
        let e = &es[k];
        if p.len() > 0 && segments_prefix(p, &e.keys) {
            let depth = p.len() - 1;
            let d = if depth < e.disps.len() {
                copy_chars(&e.disps[depth])
            } else {
                copy_chars(&p[depth])
            };
            proof {
                lemma_first_display_prefix(ev, pv, k + 1);
            }
            return d;
        }
        k = k + 1;
    }
    proof {
        assert(ev.take(es@.len() as int) =~= ev);
    }
    Vec::new()
}

proof fn lemma_first_display_prefix(es: Seq<EntryView>, p: Seq<Seq<char>>, k: int)
    requires
        0 <= k <= es.len(),
        first_display(es.take(k), p) is Some,
    ensures
        first_display(es, p) == first_display(es.take(k), p),
    decreases es.len(),
{
    if k == es.len() {
        assert(es.take(k) =~= es);
    } else {
        assert(es.drop_last().take(k) =~= es.take(k));
        lemma_first_display_prefix(es.drop_last(), p, k);
    }
}

/// The child segments of node `p`, in increasing order.
fn child_keys_of(es: &Vec<Keyed>, p: &Vec<Vec<char>>) -> (ck: Vec<Vec<char>>)
    ensures
        vecs_view(ck@) == child_keys(keyed_views(es@), vecs_view(p@)),
{
    let ghost ev = keyed_views(es@);
    let ghost pv = vecs_view(p@);
    let mut out: Vec<Vec<char>> = Vec::new();
    let mut k: usize = 0;
    while k < es.len()
        invariant
            ev == keyed_views(es@),
            pv == vecs_view(p@),
            k <= es@.len(),
            vecs_view(out@) == child_keys(ev.take(k as int), pv),
        decreases es@.len() - k,
    {
        proof {
            lemma_take_last(ev, k as int);
        }
        let e = &es[k];
        if e.keys.len() > p.len() && segments_prefix(p, &e.keys) {
            insert_key_exec(&mut out, copy_chars(&e.keys[p.len()]));
        }
        k = k + 1;
    }
    proof {
        assert(ev.take(es@.len() as int) =~= ev);
    }
    out
}


// ---------------------------------------------------------------------------
// Building nodes
// ---------------------------------------------------------------------------

/// The lower-case name of a node, as characters.
fn name_key_of(n: &FolderNode) -> (k: Vec<char>)
    ensures
        k@ == name_key(n@),
{
    let lower = to_lowercase(n.name.as_str());
    chars_of(lower.as_str())
}

proof fn lemma_insert_by_name_step(s: Seq<NodeView>, x: NodeView, i: int)
    requires
        0 < i <= s.len(),
        str_lt(name_key(x), name_key(s[i - 1])),
    ensures
        insert_by_name(s.take(i), x) + s.skip(i) == insert_by_name(s.take(i - 1), x) + s.skip(
            i - 1,
        ),
{
    let t = s.take(i);
    assert(t.last() == s[i - 1]);
    assert(t.drop_last() =~= s.take(i - 1));
    assert(insert_by_name(t, x) == insert_by_name(s.take(i - 1), x).push(s[i - 1]));
    assert(insert_by_name(s.take(i - 1), x).push(s[i - 1]) + s.skip(i) =~= insert_by_name(
        s.take(i - 1),
        x,
    ) + s.skip(i - 1));
}

/// Inserts `x` into the name-sorted `v` after every node whose name key is not
/// greater.
fn insert_node_by_name(v: &mut Vec<FolderNode>, x: FolderNode)
    ensures
        forest_view(final(v)@) == insert_by_name(forest_view(old(v)@), x@),
{
    let ghost s = forest_view(v@);
    let kx = name_key_of(&x);
    let mut i: usize = v.len();
    let mut go = true;
    proof {
        assert(s.take(s.len() as int) =~= s);
        assert(s.skip(s.len() as int) =~= Seq::<NodeView>::empty());
        assert(insert_by_name(s, x@) =~= insert_by_name(s.take(i as int), x@) + s.skip(i as int));
    }
    while go && i > 0
        invariant
            s == forest_view(v@),
            i <= v@.len(),
            kx@ == name_key(x@),
            insert_by_name(s, x@) == insert_by_name(s.take(i as int), x@) + s.skip(i as int),
            !go ==> i > 0 && !str_lt(name_key(x@), name_key(s[i - 1])),
        decreases i + if go { 1int } else { 0int },
    {
        let kb = name_key_of(&v[i - 1]);
        if chars_lt(&kx, &kb) {
            proof {
                lemma_insert_by_name_step(s, x@, i as int);
            }
            i = i - 1;
        } else {
            go = false;
        }
    }
    proof {
        let t = s.take(i as int);
        if i == 0 {
            assert(insert_by_name(t, x@) == seq![x@]);
        } else {
            assert(t.last() == s[i - 1]);
            assert(insert_by_name(t, x@) == t.push(x@));
        }
    }
    v.insert(i, x);
    proof {
        assert(forest_view(v@) =~= s.take(i as int).push(x@) + s.skip(i as int));
        assert(forest_view(v@) =~= insert_by_name(s, x@));
    }
}

/// Stable sort of nodes by case-insensitive name.
fn sort_nodes(v: Vec<FolderNode>) -> (r: Vec<FolderNode>)
    ensures
        forest_view(r@) == sort_by_name(forest_view(v@)),
{
    let ghost orig = forest_view(v@);
    let mut rest = v;
    let mut out: Vec<FolderNode> = Vec::new();
    let mut k: usize = 0;
    let len = rest.len();
    let ghost n = len as nat;
    while rest.len() > 0
        invariant
            n == orig.len(),
            n <= usize::MAX,
            k + rest@.len() == orig.len(),
            forest_view(rest@) == orig.skip(k as int),
            forest_view(out@) == sort_by_name(orig.take(k as int)),
        decreases rest@.len(),
    {
        let ghost before = rest@;
        let x = rest.remove(0);
        proof {
            assert(x == before[0]);
            assert(forest_view(before)[0] == x@);
            assert(orig.skip(k as int)[0] == orig[k as int]);
            assert(x@ == orig[k as int]);
            assert(orig.take(k + 1).drop_last() =~= orig.take(k as int));
            assert(forest_view(rest@) =~= forest_view(before).skip(1));
            assert(orig.skip(k as int).skip(1) =~= orig.skip(k + 1));
        }
        insert_node_by_name(&mut out, x);
        k = k + 1;
    }
    proof {
        assert(orig.take(orig.len() as int) =~= orig);
    }
    out
}

/// The node of the trie at `p`, shown at `path`, named `disp` (or `comp`
/// when that is empty).
fn build_node(
    es: &Vec<Keyed>,
    sep: char,
    path: Vec<char>,
    disp: Vec<char>,
    comp: Vec<char>,
    p: Vec<Vec<char>>,
) -> (r: FolderNode)
    requires
        subtree_sum(keyed_views(es@), Seq::empty()) <= usize::MAX,
    ensures
        r@ == node_model(keyed_views(es@), sep, path@, disp@, comp@, vecs_view(p@)),
    decreases max_depth(keyed_views(es@)) - p@.len(),
{
    let ghost ev = keyed_views(es@);
    let ghost pv = vecs_view(p@);
    let direct = direct_count_of(es, &p);
    let total = subtree_count_of(es, &p);
    let ck = child_keys_of(es, &p);
    let ghost ckv = vecs_view(ck@);
    proof {
        lemma_children_need_depth(ev, pv);
    }
    let mut kids: Vec<FolderNode> = Vec::new();
    let mut j: usize = 0;
    while j < ck.len()
        invariant
            ev == keyed_views(es@),
            pv == vecs_view(p@),
            ckv == vecs_view(ck@),
            ckv == child_keys(ev, pv),
            ck@.len() > 0 ==> pv.len() < max_depth(ev),
            subtree_sum(ev, Seq::empty()) <= usize::MAX,
            j <= ck@.len(),
            kids@.len() == j,
            forall|i: int|
                0 <= i < j ==> #[trigger] kids@[i]@ == node_model(
                    ev,
                    sep,
                    join_path(path@, ckv[i], sep),
                    display_of(ev, pv.push(ckv[i])),
                    ckv[i],
                    pv.push(ckv[i]),
                ),
        decreases ck@.len() - j,
    {
        let mut q = copy_segments(&p);
        q.push(copy_chars(&ck[j]));
        proof {
            assert(vecs_view(q@) =~= pv.push(ckv[j as int]));
        }
        let d = display_of_node(es, &q);
        let mut cp = copy_chars(&path);
        cp.push(sep);
        let mut m: usize = 0;
        while m < ck[j].len()
            invariant
                j < ck@.len(),
                m <= ck@[j as int]@.len(),
                cp@ == path@.push(sep) + ck@[j as int]@.take(m as int),
            decreases ck@[j as int]@.len() - m,
        {
            cp.push(ck[j][m]);
            proof {
                assert(cp@ =~= path@.push(sep) + ck@[j as int]@.take(m + 1));
            }
            m = m + 1;
        }
        proof {
            assert(ck@[j as int]@.take(m as int) =~= ck@[j as int]@);
            assert(ckv[j as int] == ck@[j as int]@);
        }
        let child = build_node(es, sep, cp, d, copy_chars(&ck[j]), q);
        kids.push(child);
        j = j + 1;
    }
    let ghost unsorted = forest_view(kids@);
    proof {
        let mk = model_children(ev, sep, path@, pv);
        if pv.len() < max_depth(ev) {
            assert(mk.len() == ckv.len());
            assert forall|i: int| 0 <= i < mk.len() implies mk[i] == unsorted[i] by {
                assert(unsorted[i] == kids@[i]@);
            }
        } else {
            assert(ckv.len() == 0);
        }
        assert(unsorted =~= mk);
    }
    let sorted = sort_nodes(kids);
    let name = if disp.len() == 0 {
        comp
    } else {
        disp
    };
    let seg = FolderSeg { name: string_of(&name), path: string_of(&path) };
    let r = FolderNode {
        path: string_of(&path),
        name: string_of(&name),
        chain: vec![seg],
        direct_count: direct,
        total_count: total,
        children: sorted,
    };
    proof {
        assert(r@.children =~= forest_view(sorted@));
        assert(r@.chain =~= seq![(name@, path@)]);
        let m = node_model(ev, sep, path@, disp@, comp@, pv);
        assert(r@.name == m.name);
        assert(r@.path == m.path);
        assert(r@.chain == m.chain);
        assert(r@.children == m.children);
        assert(r@.direct_count == m.direct_count);
        assert(r@.total_count == m.total_count);
    }
    r
}


// ---------------------------------------------------------------------------
// Library anchors
// ---------------------------------------------------------------------------

/// Number of leading segments `a` and `b` share.
pub open spec fn common_len(a: Seq<Seq<char>>, b: Seq<Seq<char>>) -> nat
    decreases a.len(),
{
    if a.len() == 0 || b.len() == 0 || a[0] != b[0] {
        0
    } else {
        1 + common_len(a.drop_first(), b.drop_first())
    }
}

/// The leading segments all of `paths` share (those of the first path when
/// there is one path, none when there is none).
pub open spec fn common_segments(paths: Seq<Seq<char>>, sep: char) -> Seq<Seq<char>>
    decreases paths.len(),
{
    if paths.len() == 0 {
        Seq::empty()
    } else if paths.len() == 1 {
        segments(paths[0], sep)
    } else {
        let c = common_segments(paths.drop_last(), sep);
        c.take(common_len(c, segments(paths.last(), sep)) as int)
    }
}

/// Each segment preceded by the separator: `/a/b` for `[a, b]`, empty for none.
pub open spec fn sep_joined(segs: Seq<Seq<char>>, sep: char) -> Seq<char>
    decreases segs.len(),
{
    if segs.len() == 0 {
        Seq::empty()
    } else {
        sep_joined(segs.drop_last(), sep).push(sep) + segs.last()
    }
}

/// Deepest common ancestor of `paths` as an absolute path, empty when they
/// share no leading segment.
pub open spec fn common_ancestor_text(paths: Seq<Seq<char>>, sep: char) -> Seq<char> {
    sep_joined(common_segments(paths, sep), sep)
}

/// First non-empty segment of a path, or empty.
pub open spec fn top_segment(r: Seq<char>, sep: char) -> Seq<char> {
    let s = segments(r, sep);
    if s.len() == 0 {
        Seq::empty()
    } else {
        s[0]
    }
}

/// The distinct top segments of `roots`, in increasing order.
pub open spec fn top_keys(roots: Seq<Seq<char>>, sep: char) -> Seq<Seq<char>>
    decreases roots.len(),
{
    if roots.len() == 0 {
        Seq::empty()
    } else {
        insert_key(top_keys(roots.drop_last(), sep), top_segment(roots.last(), sep))
    }
}

/// The roots whose top segment is `t`, in order.
pub open spec fn group_of(roots: Seq<Seq<char>>, t: Seq<char>, sep: char) -> Seq<Seq<char>> {
    roots.filter(|r: Seq<char>| top_segment(r, sep) == t)
}

/// The non-empty common ancestors of the groups with top segments `keys`.
pub open spec fn group_anchors(roots: Seq<Seq<char>>, keys: Seq<Seq<char>>, sep: char) -> Seq<
    Seq<char>,
>
    decreases keys.len(),
{
    if keys.len() == 0 {
        Seq::empty()
    } else {
        let a = common_ancestor_text(group_of(roots, keys.last(), sep), sep);
        let rest = group_anchors(roots, keys.drop_last(), sep);
        if a.len() == 0 {
            rest
        } else {
            rest.push(a)
        }
    }
}

/// The forest anchors: the common ancestor of all roots when they have one;
/// otherwise the common ancestor of each group of roots that share a top
/// segment, in the order of those segments.
pub open spec fn anchor_paths(roots: Seq<Seq<char>>, sep: char) -> Seq<Seq<char>> {
    if roots.len() == 0 {
        Seq::empty()
    } else {
        let ca = common_ancestor_text(roots, sep);
        if ca.len() > 0 {
            seq![ca]
        } else {
            group_anchors(roots, top_keys(roots, sep), sep)
        }
    }
}

/// Number of leading segments two lists share.
fn common_len_exec(a: &Vec<Vec<char>>, b: &Vec<Vec<char>>) -> (n: usize)
    ensures
        n == common_len(vecs_view(a@), vecs_view(b@)),
        n <= a@.len(),
{
    let ghost av = vecs_view(a@);
    let ghost bv = vecs_view(b@);
    let mut i: usize = 0;
    proof {
        assert(av.skip(0) =~= av);
        assert(bv.skip(0) =~= bv);
    }
    while i < a.len() && i < b.len() && chars_eq(&a[i], &b[i])
        invariant
            av == vecs_view(a@),
            bv == vecs_view(b@),
            i <= a@.len(),
            i <= b@.len(),
            common_len(av, bv) == i + common_len(av.skip(i as int), bv.skip(i as int)),
        decreases a@.len() - i,
    {
        proof {
            assert(av.skip(i as int)[0] == av[i as int]);
            assert(bv.skip(i as int)[0] == bv[i as int]);
            assert(av.skip(i as int).drop_first() =~= av.skip(i + 1));
            assert(bv.skip(i as int).drop_first() =~= bv.skip(i + 1));
        }
        i = i + 1;
    }
    proof {
        if i < a@.len() && i < b@.len() {
            assert(av.skip(i as int)[0] == av[i as int]);
            assert(bv.skip(i as int)[0] == bv[i as int]);
        }
    }
    i
}

/// Each segment preceded by the separator.
fn sep_join(segs: &Vec<Vec<char>>, sep: char) -> (r: Vec<char>)
    ensures
        r@ == sep_joined(vecs_view(segs@), sep),
{
    let ghost sv = vecs_view(segs@);
    let mut r: Vec<char> = Vec::new();
    let mut k: usize = 0;
    while k < segs.len()
        invariant
            sv == vecs_view(segs@),
            k <= segs@.len(),
            r@ == sep_joined(sv.take(k as int), sep),
        decreases segs@.len() - k,
    {
        proof {
            lemma_take_last(sv, k as int);
        }
        r.push(sep);
        let mut m: usize = 0;
        let ghost base = r@;
        while m < segs[k].len()
            invariant
                k < segs@.len(),
                m <= segs@[k as int]@.len(),
                r@ == base + segs@[k as int]@.take(m as int),
            decreases segs@[k as int]@.len() - m,
        {
            r.push(segs[k][m]);
            proof {
                assert(r@ =~= base + segs@[k as int]@.take(m + 1));
            }
            m = m + 1;
        }
        proof {
            assert(segs@[k as int]@.take(m as int) =~= segs@[k as int]@);
            assert(sv[k as int] == segs@[k as int]@);
        }
        k = k + 1;
    }
    proof {
        assert(sv.take(segs@.len() as int) =~= sv);
    }
    r
}

/// Deepest common ancestor of `paths`, segment-wise, as an absolute path
/// (empty when they share no leading segment).
fn common_ancestor(paths: &Vec<Vec<char>>, sep: char) -> (r: Vec<char>)
    ensures
        r@ == common_ancestor_text(vecs_view(paths@), sep),
{
    let ghost pv = vecs_view(paths@);
    if paths.len() == 0 {
        let r: Vec<char> = Vec::new();
        proof {
            assert(common_segments(pv, sep) =~= Seq::<Seq<char>>::empty());
        }
        return r;
    }
    let mut common = split_segments(&paths[0], sep);
    proof {
        assert(pv.take(1).len() == 1);
        assert(pv.take(1)[0] == pv[0]);
    }
    let mut k: usize = 1;
    while k < paths.len()
        invariant
            pv == vecs_view(paths@),
            1 <= k <= paths@.len(),
            vecs_view(common@) == common_segments(pv.take(k as int), sep),
        decreases paths@.len() - k,
    {
        proof {
            lemma_take_last(pv, k as int);
        }
        let other = split_segments(&paths[k], sep);
        let n = common_len_exec(&common, &other);
        let ghost before = vecs_view(common@);
        common.truncate(n);
        proof {
            assert(vecs_view(common@) =~= before.take(n as int));
        }
        k = k + 1;
    }
    proof {
        assert(pv.take(paths@.len() as int) =~= pv);
    }
    sep_join(&common, sep)
}

/// First non-empty segment of a path, or empty.
fn top_segment_of(r: &Vec<char>, sep: char) -> (t: Vec<char>)
    ensures
        t@ == top_segment(r@, sep),
{
    let s = split_segments(r, sep);
    if s.len() == 0 {
        Vec::new()
    } else {
        copy_chars(&s[0])
    }
}

/// The library anchors of `roots` (see `anchor_paths`).
pub fn library_anchors(roots: &[String], sep: char) -> (r: Vec<String>)
    ensures
        strings_view(r@) == anchor_paths(strings_view(roots@), sep),
{
    let ghost rv = strings_view(roots@);
    let mut rs: Vec<Vec<char>> = Vec::new();
    let mut tops: Vec<Vec<char>> = Vec::new();
    let mut keys: Vec<Vec<char>> = Vec::new();
    let mut k: usize = 0;
    while k < roots.len()
        invariant
            rv == strings_view(roots@),
            k <= roots@.len(),
            rs@.len() == k,
            tops@.len() == k,
            vecs_view(rs@) == rv.take(k as int),
            forall|i: int| 0 <= i < k ==> #[trigger] tops@[i]@ == top_segment(rv[i], sep),
            vecs_view(keys@) == top_keys(rv.take(k as int), sep),
        decreases roots@.len() - k,
    {
        proof {
            lemma_take_last(rv, k as int);
        }
        let c = chars_of(roots[k].as_str());
        let t = top_segment_of(&c, sep);
        insert_key_exec(&mut keys, copy_chars(&t));
        tops.push(t);
        rs.push(c);
        proof {
            assert(vecs_view(rs@) =~= rv.take(k + 1));
        }
        k = k + 1;
    }
    proof {
        assert(rv.take(roots@.len() as int) =~= rv);
    }
    let mut out: Vec<String> = Vec::new();
    if rs.len() == 0 {
        return out;
    }
    let ca = common_ancestor(&rs, sep);
    if ca.len() > 0 {
        out.push(string_of(&ca));
        proof {
            assert(strings_view(out@) =~= seq![ca@]);
        }
        return out;
    }
    let ghost kv = vecs_view(keys@);
    let mut j: usize = 0;
    while j < keys.len()
        invariant
            rv == strings_view(roots@),
            vecs_view(rs@) == rv,
            rs@.len() == tops@.len(),
            forall|i: int| 0 <= i < rs@.len() ==> #[trigger] tops@[i]@ == top_segment(rv[i], sep),
            kv == vecs_view(keys@),
            j <= keys@.len(),
            strings_view(out@) == group_anchors(rv, kv.take(j as int), sep),
        decreases keys@.len() - j,
    {
        proof {
            lemma_take_last(kv, j as int);
        }
        let mut group: Vec<Vec<char>> = Vec::new();
        let mut i: usize = 0;
        while i < rs.len()
            invariant
                rv == strings_view(roots@),
                vecs_view(rs@) == rv,
                rs@.len() == tops@.len(),
                forall|i: int| 0 <= i < rs@.len() ==> #[trigger] tops@[i]@ == top_segment(rv[i], sep),
                kv == vecs_view(keys@),
                j < keys@.len(),
                i <= rs@.len(),
                vecs_view(group@) == group_of(rv.take(i as int), kv[j as int], sep),
            decreases rs@.len() - i,
        {
            proof {
                lemma_take_last(rv, i as int);
                assert(kv[j as int] == keys@[j as int]@);
                let t = kv[j as int];
                let pred = |r: Seq<char>| top_segment(r, sep) == t;
                let ti = rv.take(i + 1);
                reveal(Seq::filter);
                assert(ti.filter(pred) == if pred(ti.last()) {
                    ti.drop_last().filter(pred).push(ti.last())
                } else {
                    ti.drop_last().filter(pred)
                });
            }
            if chars_eq(&tops[i], &keys[j]) {
                group.push(copy_chars(&rs[i]));
                proof {
                    assert(vecs_view(group@) =~= vecs_view(group@.drop_last()).push(rv[i as int]));
                }
            }
            i = i + 1;
        }
        proof {
            assert(rv.take(rs@.len() as int) =~= rv);
        }
        let a = common_ancestor(&group, sep);
        if a.len() > 0 {
            out.push(string_of(&a));
            proof {
                assert(strings_view(out@) =~= strings_view(out@.drop_last()).push(a@));
            }
        }
        j = j + 1;
    }
    proof {
        assert(kv.take(keys@.len() as int) =~= kv);
    }
    out
}


// ---------------------------------------------------------------------------
// The forest
// ---------------------------------------------------------------------------

/// Whether the trie has a node at `p` (the root, or a folder at or below it).
pub open spec fn in_trie(es: Seq<EntryView>, p: Seq<Seq<char>>) -> bool {
    p.len() == 0 || reaches(es, p)
}

/// The name an anchor's node falls back to: its last non-empty segment, or
/// the anchor itself when it has none.
pub open spec fn anchor_name(a: Seq<char>, sep: char) -> Seq<char> {
    let s = segments(a, sep);
    if s.len() == 0 {
        a
    } else {
        s.last()
    }
}

/// The compacted nodes of the anchors that the trie reaches, in anchor order.
pub open spec fn anchored_nodes(es: Seq<EntryView>, anchors: Seq<Seq<char>>, sep: char) -> Seq<
    NodeView,
>
    decreases anchors.len(),
{
    if anchors.len() == 0 {
        Seq::empty()
    } else {
        let rest = anchored_nodes(es, anchors.drop_last(), sep);
        let a = anchors.last();
        let p = segments(a, sep);
        if in_trie(es, p) {
            rest.push(
                compact_view(node_model(es, sep, a, display_of(es, p), anchor_name(a, sep), p)),
            )
        } else {
            rest
        }
    }
}

/// The compacted nodes of the top-level folders, each shown at `prefix`
/// followed by its segment, in segment order.
pub open spec fn top_level_nodes(es: Seq<EntryView>, prefix: Seq<char>, sep: char) -> Seq<
    NodeView,
> {
    let tk = child_keys(es, Seq::empty());
    Seq::new(
        tk.len(),
        |j: int|
            compact_view(
                node_model(
                    es,
                    sep,
                    prefix + tk[j],
                    display_of(es, seq![tk[j]]),
                    tk[j],
                    seq![tk[j]],
                ),
            ),
    )
}

/// Whether some folder key starts with the separator.
pub open spec fn any_absolute(folders: Seq<(String, String, usize)>, sep: char) -> bool {
    exists|i: int| 0 <= i < folders.len() && #[trigger] folders[i].0@.len() > 0 && folders[i].0@[0] == sep
}

/// The sidebar forest: rooted at the library anchors of `roots`, or at the
/// top-level folders when there are none; compacted; sorted by
/// case-insensitive name.
pub open spec fn folder_forest(
    folders: Seq<(String, String, usize)>,
    roots: Seq<String>,
    sep: char,
) -> Seq<NodeView> {
    let es = entries(folders, sep);
    let anchors = anchor_paths(strings_view(roots), sep);
    let nodes = if anchors.len() == 0 {
        let prefix = if any_absolute(folders, sep) {
            seq![sep]
        } else {
            Seq::empty()
        };
        top_level_nodes(es, prefix, sep)
    } else {
        anchored_nodes(es, anchors, sep)
    };
    sort_by_name(nodes)
}

/// Photos in all folders of the input.
pub open spec fn photo_total(folders: Seq<(String, String, usize)>) -> nat
    decreases folders.len(),
{
    if folders.len() == 0 {
        0
    } else {
        photo_total(folders.drop_last()) + folders.last().2 as nat
    }
}

proof fn lemma_subtree_within_total(folders: Seq<(String, String, usize)>, sep: char)
    ensures
        subtree_sum(entries(folders, sep), Seq::empty()) <= photo_total(folders),
    decreases folders.len(),
{
    if folders.len() > 0 {
        lemma_subtree_within_total(folders.drop_last(), sep);
        assert(entries(folders, sep).drop_last() =~= entries(folders.drop_last(), sep));
    }
}

/// Whether the trie has a node at `p`.
fn reaches_exec(es: &Vec<Keyed>, p: &Vec<Vec<char>>) -> (b: bool)
    ensures
        b == reaches(keyed_views(es@), vecs_view(p@)),
{
    let ghost ev = keyed_views(es@);
    let ghost pv = vecs_view(p@);
    let mut k: usize = 0;
    while k < es.len()
        invariant
            ev == keyed_views(es@),
            pv == vecs_view(p@),
            k <= es@.len(),
            !reaches(ev.take(k as int), pv),
        decreases es@.len() - k,
    {
        proof {
            lemma_take_last(ev, k as int);
        }
        if segments_prefix(p, &es[k].keys) {
            proof {
                lemma_reaches_prefix(ev, pv, k + 1);
            }
            return true;
        }
        k = k + 1;
    }
    proof {
        assert(ev.take(es@.len() as int) =~= ev);
    }
    false
}

proof fn lemma_reaches_prefix(es: Seq<EntryView>, p: Seq<Seq<char>>, k: int)
    requires
        0 <= k <= es.len(),
        reaches(es.take(k), p),
    ensures
        reaches(es, p),
    decreases es.len(),
{
    if k == es.len() {
        assert(es.take(k) =~= es);
    } else {
        assert(es.drop_last().take(k) =~= es.take(k));
        lemma_reaches_prefix(es.drop_last(), p, k);
    }
}

/// Build the sidebar folder forest from `(folder_key, folder_display,
/// direct_count)` triples and the library roots, splitting paths on `sep`.
pub fn build_tree_sep(folders: &[(String, String, usize)], roots: &[String], sep: char) -> (r: Vec<
    FolderNode,
>)
    requires
        subtree_sum(entries(folders@, sep), Seq::empty()) <= usize::MAX,
    ensures
        forest_view(r@) == folder_forest(folders@, roots@, sep),
{
    let es = keyed_entries(folders, sep);
    let ghost ev = keyed_views(es@);
    let mut absolute = false;
    let mut k: usize = 0;
    while k < folders.len()
        invariant
            k <= folders@.len(),
            absolute == exists|i: int|
                0 <= i < k && #[trigger] folders@[i].0@.len() > 0 && folders@[i].0@[0] == sep,
        decreases folders@.len() - k,
    {
        let c = chars_of(folders[k].0.as_str());
        if c.len() > 0 && c[0] == sep {
            absolute = true;
        }
        k = k + 1;
    }
    let anchors = library_anchors(roots, sep);
    let ghost av = strings_view(anchors@);
    let mut nodes: Vec<FolderNode> = Vec::new();
    if anchors.len() == 0 {
        let prefix: Vec<char> = if absolute {
            vec![sep]
        } else {
            Vec::new()
        };
        let root: Vec<Vec<char>> = Vec::new();
        let tk = child_keys_of(&es, &root);
        let ghost tkv = vecs_view(tk@);
        proof {
            assert(vecs_view(root@) =~= Seq::<Seq<char>>::empty());
        }
        let mut j: usize = 0;
        while j < tk.len()
            invariant
                ev == keyed_views(es@),
                subtree_sum(ev, Seq::empty()) <= usize::MAX,
                tkv == vecs_view(tk@),
                tkv == child_keys(ev, Seq::empty()),
                j <= tk@.len(),
                nodes@.len() == j,
                forall|i: int|
                    0 <= i < j ==> #[trigger] nodes@[i]@ == compact_view(
                        node_model(
                            ev,
                            sep,
                            prefix@ + tkv[i],
                            display_of(ev, seq![tkv[i]]),
                            tkv[i],
                            seq![tkv[i]],
                        ),
                    ),
            decreases tk@.len() - j,
        {
            let mut q: Vec<Vec<char>> = Vec::new();
            q.push(copy_chars(&tk[j]));
            proof {
                assert(vecs_view(q@) =~= seq![tkv[j as int]]);
            }
            let d = display_of_node(&es, &q);
            let mut path = copy_chars(&prefix);
            let mut m: usize = 0;
            while m < tk[j].len()
                invariant
                    j < tk@.len(),
                    m <= tk@[j as int]@.len(),
                    path@ == prefix@ + tk@[j as int]@.take(m as int),
                decreases tk@[j as int]@.len() - m,
            {
                path.push(tk[j][m]);
                proof {
                    assert(path@ =~= prefix@ + tk@[j as int]@.take(m + 1));
                }
                m = m + 1;
            }
            proof {
                assert(tk@[j as int]@.take(m as int) =~= tk@[j as int]@);
                assert(tkv[j as int] == tk@[j as int]@);
            }
            let node = build_node(&es, sep, path, d, copy_chars(&tk[j]), q);
            nodes.push(compact(node));
            j = j + 1;
        }
        proof {
            let pre = if any_absolute(folders@, sep) {
                seq![sep]
            } else {
                Seq::empty()
            };
            if absolute {
                let i = choose|i: int|
                    0 <= i < folders@.len() && #[trigger] folders@[i].0@.len() > 0 && folders@[i].0@[0] == sep;
                assert(any_absolute(folders@, sep));
            }
            assert(prefix@ == pre);
            assert(forest_view(nodes@) =~= top_level_nodes(ev, pre, sep));
        }
    } else {
        let mut j: usize = 0;
        while j < anchors.len()
            invariant
                ev == keyed_views(es@),
                subtree_sum(ev, Seq::empty()) <= usize::MAX,
                av == strings_view(anchors@),
                j <= anchors@.len(),
                forest_view(nodes@) == anchored_nodes(ev, av.take(j as int), sep),
            decreases anchors@.len() - j,
        {
            proof {
                lemma_take_last(av, j as int);
            }
            let a = chars_of(anchors[j].as_str());
            let p = split_segments(&a, sep);
            if p.len() == 0 || reaches_exec(&es, &p) {
                let d = display_of_node(&es, &p);
                let name = if p.len() == 0 {
                    copy_chars(&a)
                } else {
                    copy_chars(&p[p.len() - 1])
                };
                let node = build_node(&es, sep, copy_chars(&a), d, name, p);
                nodes.push(compact(node));
                proof {
                    assert(forest_view(nodes@) =~= forest_view(nodes@.drop_last()).push(
                        nodes@.last()@,
                    ));
                }
            }
            j = j + 1;
        }
        proof {
            assert(av.take(anchors@.len() as int) =~= av);
        }
    }
    sort_nodes(nodes)
}

/// Build the sidebar folder forest, splitting paths on the platform separator.
pub fn build_tree(folders: &[(String, String, usize)], roots: &[String]) -> (r: Vec<FolderNode>)
    requires
        photo_total(folders@) <= usize::MAX,
    ensures
        exists|sep: char|
            (sep == '/' || sep == '\\') && forest_view(r@) == folder_forest(folders@, roots@, sep),
{
    let sep = main_separator();
    proof {
        lemma_subtree_within_total(folders@, sep);
    }
    build_tree_sep(folders, roots, sep)
}


/// A library root: its key form, its display form, and whether it is
/// scanned recursively.
pub struct LibraryRoot {
    pub path: String,
    pub path_display: String,
    pub recursive: bool,
}

/// The indexed folders, then the discovered folders and the library roots
/// with no photos counted.
pub open spec fn seeded_folders(
    folders: Seq<(String, String, usize)>,
    roots: Seq<LibraryRoot>,
    extra: Seq<(String, String)>,
) -> Seq<(String, String, usize)> {
    folders + extra.map_values(|e: (String, String)| (e.0, e.1, 0usize)) + roots.map_values(
        |r: LibraryRoot| (r.path, r.path_display, 0usize),
    )
}

/// The key forms of the library roots, in order.
pub open spec fn root_keys(roots: Seq<LibraryRoot>) -> Seq<String> {
    roots.map_values(|r: LibraryRoot| r.path)
}

proof fn lemma_photo_total_zeros(f: Seq<(String, String, usize)>, z: Seq<(String, String, usize)>)
    requires
        forall|i: int| 0 <= i < z.len() ==> (#[trigger] z[i]).2 == 0,
    ensures
        photo_total(f + z) == photo_total(f),
    decreases z.len(),
{
    if z.len() > 0 {
        let zd = z.drop_last();
        lemma_photo_total_zeros(f, zd);
        assert((f + z).drop_last() =~= f + zd);
        assert((f + z).last() == z.last());
    } else {
        assert(f + z =~= f);
    }
}

/// The sidebar forest of a catalog: the indexed folders with their photo
/// counts, unioned with the folders a running scan has discovered and with
/// the library roots (both at no photos, so a root or subfolder shows before
/// its files are indexed), anchored at the library roots.
pub fn folder_tree_from(
    folders: Vec<(String, String, usize)>,
    library_roots: &[LibraryRoot],
    extra: &[(String, String)],
) -> (r: Vec<FolderNode>)
    requires
        photo_total(folders@) <= usize::MAX,
    ensures
        exists|sep: char|
            (sep == '/' || sep == '\\') && forest_view(r@) == folder_forest(
                seeded_folders(folders@, library_roots@, extra@),
                root_keys(library_roots@),
                sep,
            ),
{
    let ghost f0 = folders@;
    let mut all = folders;
    let mut k: usize = 0;
    while k < extra.len()
        invariant
            k <= extra@.len(),
            all@ == f0 + extra@.take(k as int).map_values(|e: (String, String)| (e.0, e.1, 0usize)),
        decreases extra@.len() - k,
    {
        let (p, d) = &extra[k];
        all.push((p.clone(), d.clone(), 0));
        proof {
            assert(extra@.take(k + 1).map_values(|e: (String, String)| (e.0, e.1, 0usize)) =~= extra@.take(
                k as int,
            ).map_values(|e: (String, String)| (e.0, e.1, 0usize)).push((extra@[k as int].0, extra@[k as int].1, 0usize)));
        }
        k = k + 1;
    }
    proof {
        assert(extra@.take(extra@.len() as int) =~= extra@);
    }
    let ghost f1 = all@;
    let mut keys: Vec<String> = Vec::new();
    let mut j: usize = 0;
    while j < library_roots.len()
        invariant
            j <= library_roots@.len(),
            all@ == f1 + library_roots@.take(j as int).map_values(
                |r: LibraryRoot| (r.path, r.path_display, 0usize),
            ),
            keys@ == library_roots@.take(j as int).map_values(|r: LibraryRoot| r.path),
        decreases library_roots@.len() - j,
    {
        let root = &library_roots[j];
        all.push((root.path.clone(), root.path_display.clone(), 0));
        keys.push(root.path.clone());
        proof {
            let t0 = library_roots@.take(j as int);
            let t1 = library_roots@.take(j + 1);
            assert(t1.map_values(|r: LibraryRoot| (r.path, r.path_display, 0usize)) =~= t0.map_values(
                |r: LibraryRoot| (r.path, r.path_display, 0usize),
            ).push((library_roots@[j as int].path, library_roots@[j as int].path_display, 0usize)));
            assert(t1.map_values(|r: LibraryRoot| r.path) =~= t0.map_values(|r: LibraryRoot| r.path).push(
                library_roots@[j as int].path,
            ));
        }
        j = j + 1;
    }
    proof {
        assert(library_roots@.take(library_roots@.len() as int) =~= library_roots@);
        let z1 = extra@.map_values(|e: (String, String)| (e.0, e.1, 0usize));
        let z2 = library_roots@.map_values(|r: LibraryRoot| (r.path, r.path_display, 0usize));
        lemma_photo_total_zeros(f0, z1);
        lemma_photo_total_zeros(f0 + z1, z2);
        assert(all@ == seeded_folders(f0, library_roots@, extra@));
        assert(keys@ == root_keys(library_roots@));
    }
    let r = build_tree(&all, &keys);
    proof {
        let sep = choose|sep: char|
            (sep == '/' || sep == '\\') && forest_view(r@) == folder_forest(all@, keys@, sep);
        assert((sep == '/' || sep == '\\') && forest_view(r@) == folder_forest(
            seeded_folders(f0, library_roots@, extra@),
            root_keys(library_roots@),
            sep,
        ));
    }
    r
}


// ---------------------------------------------------------------------------
// Folders to expand
// ---------------------------------------------------------------------------

/// Whether the text `s` starts with `pre`.
pub open spec fn starts_with(s: Seq<char>, pre: Seq<char>) -> bool {
    pre.len() <= s.len() && s.take(pre.len() as int) == pre
}

/// Whether node `n` is expanded to reveal `target`: it has children, and it is
/// the target, lies below it, or is one of its ancestors.
pub open spec fn expands_for(n: NodeView, target: Seq<char>, sep: char) -> bool {
    n.children.len() > 0 && (n.path == target || starts_with(n.path, target.push(sep))
        || starts_with(target, n.path.push(sep)))
}

/// Paths to expand in the tree of `n`, in pre-order.
pub open spec fn expand_list(n: NodeView, target: Seq<char>, sep: char) -> Seq<Seq<char>>
    decreases n, 1nat,
{
    (if expands_for(n, target, sep) {
        seq![n.path]
    } else {
        Seq::empty()
    }) + expand_seq(n.children, target, sep)
}

/// Paths to expand in each tree of `ns`, in order.
pub open spec fn expand_seq(ns: Seq<NodeView>, target: Seq<char>, sep: char) -> Seq<Seq<char>>
    decreases ns, 0nat,
{
    if ns.len() == 0 {
        Seq::empty()
    } else {
        expand_seq(ns.drop_last(), target, sep) + expand_list(ns.last(), target, sep)
    }
}

/// Whether `s` starts with `pre`.
fn chars_start_with(s: &Vec<char>, pre: &Vec<char>) -> (b: bool)
    ensures
        b == starts_with(s@, pre@),
{
    if pre.len() > s.len() {
        return false;
    }
    let mut i: usize = 0;
    while i < pre.len()
        invariant
            pre@.len() <= s@.len(),
            i <= pre@.len(),
            forall|j: int| 0 <= j < i ==> s@[j] == pre@[j],
        decreases pre@.len() - i,
    {
        if s[i] != pre[i] {
            proof {
                assert(s@.take(pre@.len() as int)[i as int] != pre@[i as int]);
            }
            return false;
        }
        i = i + 1;
    }
    proof {
        assert(s@.take(pre@.len() as int) =~= pre@);
    }
    true
}

fn collect_expand(node: &FolderNode, target: &Vec<char>, sep: char, out: &mut Vec<String>)
    ensures
        strings_view(final(out)@) == strings_view(old(out)@) + expand_list(node@, target@, sep),
    decreases node,
{
    let path = chars_of(node.path.as_str());
    let mut below = copy_chars(target);
    below.push(sep);
    let mut above = copy_chars(&path);
    above.push(sep);
    let related = chars_eq(&path, target) || chars_start_with(&path, &below) || chars_start_with(
        target,
        &above,
    );
    let ghost start = strings_view(out@);
    if node.children.len() > 0 && related {
        out.push(node.path.clone());
    }
    let ghost head = if expands_for(node@, target@, sep) {
        seq![node@.path]
    } else {
        Seq::<Seq<char>>::empty()
    };
    proof {
        assert(node@.children.len() == node.children@.len());
        assert(strings_view(out@) =~= start + head);
    }
    let ghost kids = node@.children;
    let mut k: usize = 0;
    while k < node.children.len()
        invariant
            kids == node@.children,
            kids.len() == node.children@.len(),
            k <= node.children@.len(),
            strings_view(out@) == start + head + expand_seq(kids.take(k as int), target@, sep),
        decreases node.children@.len() - k,
    {
        proof {
            assert(decreases_to!(node => node.children@[k as int]));
            assert(kids[k as int] == node.children@[k as int]@);
            lemma_take_last(kids, k as int);
        }
        collect_expand(&node.children[k], target, sep, out);
        proof {
            assert(strings_view(out@) =~= start + head + expand_seq(kids.take(k + 1), target@, sep));
        }
        k = k + 1;
    }
    proof {
        assert(kids.take(kids.len() as int) =~= kids);
    }
}

/// Folder paths to expand so `target` and its immediate children are
/// visible, splitting paths on `sep`.
pub fn expand_paths_for_sep(tree: &[FolderNode], target: &str, sep: char) -> (r: Vec<String>)
    ensures
        strings_view(r@) == expand_seq(forest_view(tree@), target@, sep),
{
    let t = chars_of(target);
    let ghost fv = forest_view(tree@);
    let mut out: Vec<String> = Vec::new();
    let mut k: usize = 0;
    while k < tree.len()
        invariant
            fv == forest_view(tree@),
            k <= tree@.len(),
            t@ == target@,
            strings_view(out@) == expand_seq(fv.take(k as int), target@, sep),
        decreases tree@.len() - k,
    {
        proof {
            lemma_take_last(fv, k as int);
        }
        collect_expand(&tree[k], &t, sep, &mut out);
        k = k + 1;
    }
    proof {
        assert(fv.take(tree@.len() as int) =~= fv);
    }
    out
}

/// Folder paths to expand so `target` and its immediate children are
/// visible: every ancestor of `target`, `target` itself, and any descendant
/// that has children.
pub fn expand_paths_for(tree: &[FolderNode], target: &str) -> (r: Vec<String>)
    ensures
        exists|sep: char|
            (sep == '/' || sep == '\\') && strings_view(r@) == expand_seq(
                forest_view(tree@),
                target@,
                sep,
            ),
{
    let sep = main_separator();
    expand_paths_for_sep(tree, target, sep)
}


// ---------------------------------------------------------------------------
// Laws of the forest
// ---------------------------------------------------------------------------

/// No node of the tree is a pass-through folder (no photos of its own and a
/// single child).
pub open spec fn no_pass_through(n: NodeView) -> bool
    decreases n,
{
    !is_pass_through(n) && forall|j: int|
        0 <= j < n.children.len() ==> no_pass_through(#[trigger] n.children[j])
}

/// Every breadcrumb of the tree is non-empty and ends at its own node.
pub open spec fn chains_end_at_node(n: NodeView) -> bool
    decreases n,
{
    n.chain.len() > 0 && n.chain.last() == (n.name, n.path) && forall|j: int|
        0 <= j < n.children.len() ==> chains_end_at_node(#[trigger] n.children[j])
}

/// Compaction leaves no pass-through folder anywhere in the tree.
pub proof fn lemma_compact_leaves_no_pass_through(n: NodeView)
    ensures
        no_pass_through(compact_view(n)),
    decreases n,
{
    let c = compact_view(n);
    if is_pass_through(n) {
        lemma_compact_leaves_no_pass_through(n.children[0]);
        let r = compact_view(n.children[0]);
        assert(c.children == r.children);
        assert(c.direct_count == r.direct_count);
        assert(no_pass_through(r));
        assert(!is_pass_through(c));
        assert forall|j: int| 0 <= j < c.children.len() implies no_pass_through(
            #[trigger] c.children[j],
        ) by {
            assert(c.children[j] == r.children[j]);
        }
        assert(no_pass_through(c));
    } else {
        assert forall|j: int| 0 <= j < c.children.len() implies no_pass_through(
            #[trigger] c.children[j],
        ) by {
            lemma_compact_leaves_no_pass_through(n.children[j]);
        }
        assert(!is_pass_through(c));
        assert(no_pass_through(c));
    }
}

/// Compaction keeps every breadcrumb ending at its own node.
pub proof fn lemma_compact_keeps_chains(n: NodeView)
    requires
        chains_end_at_node(n),
    ensures
        chains_end_at_node(compact_view(n)),
    decreases n,
{
    let c = compact_view(n);
    assert(n.chain.len() > 0);
    assert(n.children.len() > 0 ==> chains_end_at_node(n.children[0]));
    if is_pass_through(n) {
        assert(chains_end_at_node(n.children[0]));
        lemma_compact_keeps_chains(n.children[0]);
        let r = compact_view(n.children[0]);
        assert(chains_end_at_node(r));
        assert((n.chain + r.chain).last() == r.chain.last());
        assert(c.children == r.children);
        assert(c.chain.last() == (c.name, c.path));
        assert forall|j: int| 0 <= j < c.children.len() implies chains_end_at_node(
            #[trigger] c.children[j],
        ) by {
            assert(c.children[j] == r.children[j]);
        }
        assert(chains_end_at_node(c));
    } else {
        assert forall|j: int| 0 <= j < c.children.len() implies chains_end_at_node(
            #[trigger] c.children[j],
        ) by {
            assert(chains_end_at_node(n.children[j]));
            lemma_compact_keeps_chains(n.children[j]);
        }
    }
}

proof fn lemma_insert_by_name_members(s: Seq<NodeView>, x: NodeView)
    ensures
        insert_by_name(s, x).len() == s.len() + 1,
        forall|i: int|
            0 <= i < insert_by_name(s, x).len() ==> (#[trigger] insert_by_name(s, x)[i] == x
                || s.contains(insert_by_name(s, x)[i])),
    decreases s.len(),
{
    if s.len() > 0 && str_lt(name_key(x), name_key(s.last())) {
        lemma_insert_by_name_members(s.drop_last(), x);
        let r = insert_by_name(s, x);
        assert forall|i: int| 0 <= i < r.len() implies (#[trigger] r[i] == x || s.contains(r[i])) by {
            if i < r.len() - 1 {
                let t = insert_by_name(s.drop_last(), x);
                assert(r[i] == t[i]);
                if t[i] != x {
                    let k = choose|k: int| 0 <= k < s.drop_last().len() && s.drop_last()[k] == t[i];
                    assert(s[k] == t[i]);
                }
            } else {
                assert(r[i] == s[s.len() - 1]);
            }
        }
    } else if s.len() > 0 {
        let r = insert_by_name(s, x);
        assert forall|i: int| 0 <= i < r.len() implies (#[trigger] r[i] == x || s.contains(r[i])) by {
            if i < s.len() {
                assert(r[i] == s[i]);
            }
        }
    }
}

/// Sorting by name keeps the length and takes every element from the input.
pub proof fn lemma_sort_members(s: Seq<NodeView>)
    ensures
        sort_by_name(s).len() == s.len(),
        forall|i: int| 0 <= i < s.len() ==> s.contains(#[trigger] sort_by_name(s)[i]),
    decreases s.len(),
{
    if s.len() > 0 {
        lemma_sort_members(s.drop_last());
        let t = sort_by_name(s.drop_last());
        lemma_insert_by_name_members(t, s.last());
        assert forall|i: int| 0 <= i < s.len() implies s.contains(#[trigger] sort_by_name(s)[i]) by {
            let v = sort_by_name(s)[i];
            if v != s.last() {
                assert(t.contains(v));
                let k = choose|k: int| 0 <= k < t.len() && t[k] == v;
                assert(s.drop_last().contains(t[k]));
                let m = choose|m: int| 0 <= m < s.drop_last().len() && s.drop_last()[m] == v;
                assert(s[m] == v);
            } else {
                assert(s[s.len() - 1] == v);
            }
        }
    }
}

/// Every breadcrumb of an uncompacted node ends at its own node.
pub proof fn lemma_model_chains(
    es: Seq<EntryView>,
    sep: char,
    path: Seq<char>,
    disp: Seq<char>,
    comp: Seq<char>,
    p: Seq<Seq<char>>,
)
    ensures
        chains_end_at_node(node_model(es, sep, path, disp, comp, p)),
    decreases max_depth(es) - p.len(),
{
    let n = node_model(es, sep, path, disp, comp, p);
    let kids = model_children(es, sep, path, p);
    lemma_sort_members(kids);
    assert forall|j: int| 0 <= j < n.children.len() implies chains_end_at_node(
        #[trigger] n.children[j],
    ) by {
        assert(kids.contains(n.children[j]));
        let i = choose|i: int| 0 <= i < kids.len() && kids[i] == n.children[j];
        let ck = child_keys(es, p);
        lemma_model_chains(
            es,
            sep,
            join_path(path, ck[i], sep),
            display_of(es, p.push(ck[i])),
            ck[i],
            p.push(ck[i]),
        );
    }
    assert(n.chain.last() == (n.name, n.path));
}

/// The forest's rows are compacted: no node anywhere in it is a pass-through
/// folder, and every row's breadcrumb is non-empty and ends at the row itself.
/// At every node, the total count is the node's own photos plus its
/// children's totals.
pub proof fn lemma_forest_rows(
    folders: Seq<(String, String, usize)>,
    roots: Seq<String>,
    sep: char,
)
    ensures
        forall|i: int|
            0 <= i < folder_forest(folders, roots, sep).len() ==> no_pass_through(
                #[trigger] folder_forest(folders, roots, sep)[i],
            ) && chains_end_at_node(folder_forest(folders, roots, sep)[i]) && totals_add_up(
                folder_forest(folders, roots, sep)[i],
            ),
{
    let es = entries(folders, sep);
    let anchors = anchor_paths(strings_view(roots), sep);
    let prefix = if any_absolute(folders, sep) {
        seq![sep]
    } else {
        Seq::empty()
    };
    let nodes = if anchors.len() == 0 {
        top_level_nodes(es, prefix, sep)
    } else {
        anchored_nodes(es, anchors, sep)
    };
    assert forall|i: int| 0 <= i < nodes.len() implies no_pass_through(#[trigger] nodes[i])
        && chains_end_at_node(nodes[i]) && totals_add_up(nodes[i]) by {
        if anchors.len() == 0 {
            let tk = child_keys(es, Seq::empty());
            let m = node_model(es, sep, prefix + tk[i], display_of(es, seq![tk[i]]), tk[i], seq![tk[i]]);
            lemma_compact_leaves_no_pass_through(m);
            lemma_model_chains(es, sep, prefix + tk[i], display_of(es, seq![tk[i]]), tk[i], seq![tk[i]]);
            lemma_compact_keeps_chains(m);
            lemma_model_totals(es, sep, prefix + tk[i], display_of(es, seq![tk[i]]), tk[i], seq![tk[i]]);
            lemma_compact_keeps_totals(m);
        } else {
            lemma_anchored_rows(es, anchors, sep, i);
        }
    }
    lemma_sort_members(nodes);
    let f = folder_forest(folders, roots, sep);
    assert forall|i: int| 0 <= i < f.len() implies no_pass_through(#[trigger] f[i])
        && chains_end_at_node(f[i]) && totals_add_up(f[i]) by {
        assert(nodes.contains(f[i]));
        let k = choose|k: int| 0 <= k < nodes.len() && nodes[k] == f[i];
        assert(no_pass_through(nodes[k]));
    }
}

proof fn lemma_anchored_rows(es: Seq<EntryView>, anchors: Seq<Seq<char>>, sep: char, i: int)
    requires
        0 <= i < anchored_nodes(es, anchors, sep).len(),
    ensures
        no_pass_through(anchored_nodes(es, anchors, sep)[i]),
        chains_end_at_node(anchored_nodes(es, anchors, sep)[i]),
        totals_add_up(anchored_nodes(es, anchors, sep)[i]),
    decreases anchors.len(),
{
    let rest = anchored_nodes(es, anchors.drop_last(), sep);
    if i < rest.len() {
        lemma_anchored_rows(es, anchors.drop_last(), sep, i);
    } else {
        let a = anchors.last();
        let p = segments(a, sep);
        let m = node_model(es, sep, a, display_of(es, p), anchor_name(a, sep), p);
        lemma_compact_leaves_no_pass_through(m);
        lemma_model_chains(es, sep, a, display_of(es, p), anchor_name(a, sep), p);
        lemma_compact_keeps_chains(m);
        lemma_model_totals(es, sep, a, display_of(es, p), anchor_name(a, sep), p);
        lemma_compact_keeps_totals(m);
    }
}


// ---------------------------------------------------------------------------
// The order of strings and the child-key lists
// ---------------------------------------------------------------------------

proof fn lemma_str_lt_irreflexive(a: Seq<char>)
    ensures
        !str_lt(a, a),
    decreases a.len(),
{
    if a.len() > 0 {
        lemma_str_lt_irreflexive(a.drop_first());
    }
}

proof fn lemma_str_lt_transitive(a: Seq<char>, b: Seq<char>, c: Seq<char>)
    requires
        str_lt(a, b),
        str_lt(b, c),
    ensures
        str_lt(a, c),
    decreases a.len(),
{
    if a.len() > 0 && b.len() > 0 && c.len() > 0 && a[0] == b[0] && b[0] == c[0] {
        lemma_str_lt_transitive(a.drop_first(), b.drop_first(), c.drop_first());
    }
}

proof fn lemma_str_lt_total(a: Seq<char>, b: Seq<char>)
    requires
        a != b,
    ensures
        str_lt(a, b) || str_lt(b, a),
    decreases a.len(),
{
    if a.len() > 0 && b.len() > 0 {
        if a[0] == b[0] {
            if a.drop_first() == b.drop_first() {
                assert(a =~= seq![a[0]] + a.drop_first());
                assert(b =~= seq![b[0]] + b.drop_first());
            }
            lemma_str_lt_total(a.drop_first(), b.drop_first());
        } else {
            assert((a[0] as u32) != (b[0] as u32)) by {
                if (a[0] as u32) == (b[0] as u32) {
                    vstd::utf8::char_u32_cast(a[0], a[0] as u32);
                    vstd::utf8::char_u32_cast(b[0], b[0] as u32);
                }
            }
        }
    } else if a.len() == 0 && b.len() == 0 {
        assert(a =~= b);
    }
}

/// Strictly increasing in string order.
pub open spec fn strictly_sorted(k: Seq<Seq<char>>) -> bool {
    forall|i: int, j: int| 0 <= i < j < k.len() ==> str_lt(#[trigger] k[i], #[trigger] k[j])
}

proof fn lemma_insert_key_facts(list: Seq<Seq<char>>, c: Seq<char>)
    requires
        strictly_sorted(list),
    ensures
        strictly_sorted(insert_key(list, c)),
        insert_key(list, c).contains(c),
        forall|x: Seq<char>| #[trigger] insert_key(list, c).contains(x) <==> (list.contains(x) || x == c),
        list.contains(c) ==> insert_key(list, c) == list,
        !list.contains(c) ==> insert_key(list, c).len() == list.len() + 1,
    decreases list.len(),
{
    if list.len() == 0 {
        assert(insert_key(list, c) =~= seq![c]);
        assert(seq![c][0] == c);
    } else if list[0] == c {
    } else if str_lt(c, list[0]) {
        let r = seq![c] + list;
        assert(r[0] == c);
        assert forall|i: int, j: int| 0 <= i < j < r.len() implies str_lt(#[trigger] r[i], #[trigger] r[j]) by {
            if i == 0 {
                if j > 1 {
                    lemma_str_lt_transitive(c, list[0], list[j - 1]);
                }
            } else {
                assert(r[i] == list[i - 1] && r[j] == list[j - 1]);
            }
        }
        assert forall|x: Seq<char>| #[trigger] r.contains(x) <==> (list.contains(x) || x == c) by {
            if list.contains(x) {
                let i = choose|i: int| 0 <= i < list.len() && list[i] == x;
                assert(r[i + 1] == x);
            }
            if r.contains(x) {
                let i = choose|i: int| 0 <= i < r.len() && r[i] == x;
                if i > 0 {
                    assert(list[i - 1] == x);
                }
            }
        }
        if list.contains(c) {
            let i = choose|i: int| 0 <= i < list.len() && list[i] == c;
            if i > 0 {
                lemma_str_lt_transitive(c, list[0], list[i]);
            }
            lemma_str_lt_irreflexive(c);
        }
    } else {
        let t = list.drop_first();
        assert(strictly_sorted(t)) by {
            assert forall|i: int, j: int| 0 <= i < j < t.len() implies str_lt(#[trigger] t[i], #[trigger] t[j]) by {
                assert(t[i] == list[i + 1] && t[j] == list[j + 1]);
            }
        }
        lemma_insert_key_facts(t, c);
        lemma_str_lt_total(c, list[0]);
        let it = insert_key(t, c);
        let r = seq![list[0]] + it;
        assert forall|i: int, j: int| 0 <= i < j < r.len() implies str_lt(#[trigger] r[i], #[trigger] r[j]) by {
            if i == 0 {
                let y = r[j];
                assert(y == it[j - 1]);
                assert(it.contains(y));
                if y == c {
                } else {
                    assert(t.contains(y));
                    let m = choose|m: int| 0 <= m < t.len() && t[m] == y;
                    assert(list[m + 1] == y);
                }
            } else {
                assert(r[i] == it[i - 1] && r[j] == it[j - 1]);
            }
        }
        assert forall|x: Seq<char>| #[trigger] r.contains(x) <==> (list.contains(x) || x == c) by {
            if r.contains(x) {
                let i = choose|i: int| 0 <= i < r.len() && r[i] == x;
                if i > 0 {
                    assert(it[i - 1] == x);
                    assert(it.contains(x));
                    if t.contains(x) {
                        let m = choose|m: int| 0 <= m < t.len() && t[m] == x;
                        assert(list[m + 1] == x);
                    }
                } else {
                    assert(list[0] == x);
                }
            }
            if list.contains(x) {
                let i = choose|i: int| 0 <= i < list.len() && list[i] == x;
                if i > 0 {
                    assert(t[i - 1] == x);
                    assert(it.contains(x));
                    let m = choose|m: int| 0 <= m < it.len() && it[m] == x;
                    assert(r[m + 1] == x);
                } else {
                    assert(r[0] == x);
                }
            }
            if x == c {
                let m = choose|m: int| 0 <= m < it.len() && it[m] == c;
                assert(r[m + 1] == c);
            }
        }
        assert(r.contains(c));
        if list.contains(c) {
            let i = choose|i: int| 0 <= i < list.len() && list[i] == c;
            assert(i > 0);
            assert(t[i - 1] == c);
            assert(t.contains(c));
            assert(list =~= seq![list[0]] + t);
        }
    }
}

proof fn lemma_child_keys_sorted(es: Seq<EntryView>, p: Seq<Seq<char>>)
    ensures
        strictly_sorted(child_keys(es, p)),
        forall|c: Seq<char>| #[trigger] child_keys(es, p).contains(c) <==> exists|i: int|
            0 <= i < es.len() && strictly_below(es[i], p) && es[i].keys[p.len() as int] == c,
    decreases es.len(),
{
    if es.len() > 0 {
        let rest = es.drop_last();
        lemma_child_keys_sorted(rest, p);
        let e = es.last();
        let k = child_keys(rest, p);
        if strictly_below(e, p) {
            lemma_insert_key_facts(k, e.keys[p.len() as int]);
        }
        assert forall|c: Seq<char>| #[trigger] child_keys(es, p).contains(c) <==> exists|i: int|
            0 <= i < es.len() && strictly_below(es[i], p) && es[i].keys[p.len() as int] == c by {
            if child_keys(es, p).contains(c) {
                if strictly_below(e, p) && c == e.keys[p.len() as int] {
                    assert(es[es.len() - 1] == e);
                } else {
                    assert(k.contains(c));
                    let i = choose|i: int|
                        0 <= i < rest.len() && strictly_below(rest[i], p) && rest[i].keys[p.len() as int] == c;
                    assert(es[i] == rest[i]);
                }
            }
            if exists|i: int| 0 <= i < es.len() && strictly_below(es[i], p) && es[i].keys[p.len() as int] == c {
                let i = choose|i: int|
                    0 <= i < es.len() && strictly_below(es[i], p) && es[i].keys[p.len() as int] == c;
                if i < es.len() - 1 {
                    assert(rest[i] == es[i]);
                    assert(k.contains(c));
                }
            }
        }
    }
}


// ---------------------------------------------------------------------------
// Photo totals
// ---------------------------------------------------------------------------

/// Photos below node `p` through each of the child segments `keys`.
pub open spec fn key_totals(es: Seq<EntryView>, p: Seq<Seq<char>>, keys: Seq<Seq<char>>) -> nat
    decreases keys.len(),
{
    if keys.len() == 0 {
        0
    } else {
        subtree_sum(es, p.push(keys[0])) + key_totals(es, p, keys.drop_first())
    }
}

/// Sum of the totals of a list of nodes.
pub open spec fn sum_totals(ns: Seq<NodeView>) -> nat
    decreases ns.len(),
{
    if ns.len() == 0 {
        0
    } else {
        ns[0].total_count + sum_totals(ns.drop_first())
    }
}

/// Every node's total is its own photos plus its children's totals.
pub open spec fn totals_add_up(n: NodeView) -> bool
    decreases n,
{
    n.total_count == n.direct_count + sum_totals(n.children) && forall|j: int|
        0 <= j < n.children.len() ==> totals_add_up(#[trigger] n.children[j])
}

proof fn lemma_below_child(e: EntryView, p: Seq<Seq<char>>, k: Seq<char>)
    ensures
        at_or_below(e, p.push(k)) <==> (strictly_below(e, p) && e.keys[p.len() as int] == k),
{
    let q = p.push(k);
    if at_or_below(e, q) {
        assert(e.keys.take(q.len() as int) == q);
        assert(e.keys.take(p.len() as int) =~= e.keys.take(q.len() as int).take(p.len() as int));
        assert(q.take(p.len() as int) =~= p);
        assert(e.keys[p.len() as int] == e.keys.take(q.len() as int)[p.len() as int]);
    }
    if strictly_below(e, p) && e.keys[p.len() as int] == k {
        assert(e.keys.take(q.len() as int) =~= e.keys.take(p.len() as int).push(e.keys[p.len() as int]));
    }
}

proof fn lemma_key_totals_insert(es: Seq<EntryView>, p: Seq<Seq<char>>, k: Seq<Seq<char>>, c: Seq<char>)
    requires
        strictly_sorted(k),
    ensures
        key_totals(es, p, insert_key(k, c)) == key_totals(es, p, k) + if k.contains(c) {
            0
        } else {
            subtree_sum(es, p.push(c))
        },
    decreases k.len(),
{
    if k.len() == 0 {
        let r = seq![c];
        assert(insert_key(k, c) =~= r);
        assert(r.drop_first() =~= Seq::<Seq<char>>::empty());
        assert(key_totals(es, p, Seq::<Seq<char>>::empty()) == 0);
        assert(r[0] == c);
        assert(key_totals(es, p, r) == subtree_sum(es, p.push(r[0])) + key_totals(es, p, r.drop_first()));
        assert(!k.contains(c));
    } else if k[0] == c {
        assert(k.contains(c));
    } else if str_lt(c, k[0]) {
        let r = seq![c] + k;
        assert(r.drop_first() =~= k);
        assert(r[0] == c);
        if k.contains(c) {
            let i = choose|i: int| 0 <= i < k.len() && k[i] == c;
            if i > 0 {
                lemma_str_lt_transitive(c, k[0], k[i]);
            }
            lemma_str_lt_irreflexive(c);
        }
    } else {
        let t = k.drop_first();
        assert(strictly_sorted(t)) by {
            assert forall|i: int, j: int| 0 <= i < j < t.len() implies str_lt(#[trigger] t[i], #[trigger] t[j]) by {
                assert(t[i] == k[i + 1] && t[j] == k[j + 1]);
            }
        }
        lemma_key_totals_insert(es, p, t, c);
        let r = seq![k[0]] + insert_key(t, c);
        assert(r.drop_first() =~= insert_key(t, c));
        assert(r[0] == k[0]);
        assert(k.contains(c) <==> t.contains(c)) by {
            if k.contains(c) {
                let i = choose|i: int| 0 <= i < k.len() && k[i] == c;
                assert(i > 0);
                assert(t[i - 1] == c);
            }
            if t.contains(c) {
                let i = choose|i: int| 0 <= i < t.len() && t[i] == c;
                assert(k[i + 1] == c);
            }
        }
    }
}

proof fn lemma_key_totals_extend(es: Seq<EntryView>, p: Seq<Seq<char>>, k: Seq<Seq<char>>)
    requires
        es.len() > 0,
        strictly_sorted(k),
    ensures
        key_totals(es, p, k) == key_totals(es.drop_last(), p, k) + if strictly_below(es.last(), p)
            && k.contains(es.last().keys[p.len() as int]) {
            es.last().count
        } else {
            0
        },
    decreases k.len(),
{
    let e = es.last();
    if k.len() > 0 {
        let t = k.drop_first();
        assert(strictly_sorted(t)) by {
            assert forall|i: int, j: int| 0 <= i < j < t.len() implies str_lt(#[trigger] t[i], #[trigger] t[j]) by {
                assert(t[i] == k[i + 1] && t[j] == k[j + 1]);
            }
        }
        lemma_key_totals_extend(es, p, t);
        lemma_below_child(e, p, k[0]);
        let ce = e.keys[p.len() as int];
        assert(k.contains(ce) <==> (k[0] == ce || t.contains(ce))) by {
            if k.contains(ce) {
                let i = choose|i: int| 0 <= i < k.len() && k[i] == ce;
                if i > 0 {
                    assert(t[i - 1] == ce);
                }
            }
            if t.contains(ce) {
                let i = choose|i: int| 0 <= i < t.len() && t[i] == ce;
                assert(k[i + 1] == ce);
            }
        }
        if k[0] == ce && t.contains(ce) {
            let i = choose|i: int| 0 <= i < t.len() && t[i] == ce;
            assert(k[i + 1] == ce);
            lemma_str_lt_irreflexive(ce);
        }
    }
}

proof fn lemma_missing_key_is_empty(es: Seq<EntryView>, p: Seq<Seq<char>>, c: Seq<char>)
    requires
        !child_keys(es, p).contains(c),
    ensures
        subtree_sum(es, p.push(c)) == 0,
    decreases es.len(),
{
    if es.len() > 0 {
        lemma_child_keys_sorted(es, p);
        let rest = es.drop_last();
        lemma_child_keys_sorted(rest, p);
        lemma_below_child(es.last(), p, c);
        if child_keys(rest, p).contains(c) {
            let i = choose|i: int|
                0 <= i < rest.len() && strictly_below(rest[i], p) && rest[i].keys[p.len() as int] == c;
            assert(es[i] == rest[i]);
        }
        lemma_missing_key_is_empty(rest, p, c);
        if at_or_below(es.last(), p.push(c)) {
            assert(es[es.len() - 1] == es.last());
        }
    }
}

/// The photos at or below a node are its own photos plus those below each of
/// its child segments.
pub proof fn lemma_subtree_partition(es: Seq<EntryView>, p: Seq<Seq<char>>)
    ensures
        subtree_sum(es, p) == direct_sum(es, p) + key_totals(es, p, child_keys(es, p)),
    decreases es.len(),
{
    if es.len() == 0 {
        assert(child_keys(es, p) =~= Seq::<Seq<char>>::empty());
        assert(key_totals(es, p, Seq::<Seq<char>>::empty()) == 0);
    } else {
        let rest = es.drop_last();
        let e = es.last();
        lemma_subtree_partition(rest, p);
        lemma_child_keys_sorted(rest, p);
        lemma_child_keys_sorted(es, p);
        let k0 = child_keys(rest, p);
        let k1 = child_keys(es, p);
        lemma_key_totals_extend(es, p, k1);
        assert(subtree_sum(es, p) == subtree_sum(rest, p) + if at_or_below(e, p) {
            e.count
        } else {
            0
        });
        assert(direct_sum(es, p) == direct_sum(rest, p) + if e.keys.len() > 0 && e.keys == p {
            e.count
        } else {
            0
        });
        if strictly_below(e, p) {
            let ce = e.keys[p.len() as int];
            assert(k1 == insert_key(k0, ce));
            lemma_insert_key_facts(k0, ce);
            lemma_key_totals_insert(rest, p, k0, ce);
            if !k0.contains(ce) {
                lemma_missing_key_is_empty(rest, p, ce);
            }
            assert(key_totals(rest, p, k1) == key_totals(rest, p, k0));
            assert(k1.contains(ce));
            assert(key_totals(es, p, k1) == key_totals(rest, p, k0) + e.count);
            assert(e.keys != p);
            assert(at_or_below(e, p)) by {
                assert(e.keys.take(p.len() as int) == p);
            }
        } else {
            assert(k1 == k0);
            assert(key_totals(es, p, k1) == key_totals(rest, p, k0));
            if at_or_below(e, p) {
                assert(e.keys.len() == p.len());
                assert(e.keys =~= e.keys.take(p.len() as int));
            }
            if e.keys.len() > 0 && e.keys == p {
                assert(e.keys.take(p.len() as int) =~= e.keys);
            }
        }
    }
}

proof fn lemma_sum_totals_push(s: Seq<NodeView>, x: NodeView)
    ensures
        sum_totals(s.push(x)) == sum_totals(s) + x.total_count,
    decreases s.len(),
{
    let t = s.push(x);
    assert(sum_totals(t) == t[0].total_count + sum_totals(t.drop_first()));
    if s.len() > 0 {
        lemma_sum_totals_push(s.drop_first(), x);
        assert(t.drop_first() =~= s.drop_first().push(x));
        assert(t[0] == s[0]);
    } else {
        assert(t.drop_first() =~= Seq::<NodeView>::empty());
        assert(sum_totals(Seq::<NodeView>::empty()) == 0);
        assert(t[0] == x);
    }
}

proof fn lemma_sum_totals_insert(s: Seq<NodeView>, x: NodeView)
    ensures
        sum_totals(insert_by_name(s, x)) == sum_totals(s) + x.total_count,
    decreases s.len(),
{
    if s.len() == 0 {
        lemma_sum_totals_push(s, x);
        assert(s.push(x) =~= seq![x]);
    } else if str_lt(name_key(x), name_key(s.last())) {
        lemma_sum_totals_insert(s.drop_last(), x);
        lemma_sum_totals_push(insert_by_name(s.drop_last(), x), s.last());
        lemma_sum_totals_push(s.drop_last(), s.last());
        assert(s.drop_last().push(s.last()) =~= s);
    } else {
        lemma_sum_totals_push(s, x);
    }
}

/// Sorting keeps the sum of totals.
proof fn lemma_sum_totals_sort(s: Seq<NodeView>)
    ensures
        sum_totals(sort_by_name(s)) == sum_totals(s),
    decreases s.len(),
{
    if s.len() > 0 {
        lemma_sum_totals_sort(s.drop_last());
        lemma_sum_totals_insert(sort_by_name(s.drop_last()), s.last());
        lemma_sum_totals_push(s.drop_last(), s.last());
        assert(s.drop_last().push(s.last()) =~= s);
    }
}

proof fn lemma_sum_matches_keys(s: Seq<NodeView>, es: Seq<EntryView>, p: Seq<Seq<char>>, k: Seq<Seq<char>>)
    requires
        s.len() == k.len(),
        forall|j: int| 0 <= j < s.len() ==> #[trigger] s[j].total_count == subtree_sum(es, p.push(k[j])),
    ensures
        sum_totals(s) == key_totals(es, p, k),
    decreases s.len(),
{
    if s.len() > 0 {
        let s2 = s.drop_first();
        let k2 = k.drop_first();
        assert forall|j: int| 0 <= j < s2.len() implies #[trigger] s2[j].total_count == subtree_sum(
            es,
            p.push(k2[j]),
        ) by {
            assert(s2[j] == s[j + 1]);
            assert(k2[j] == k[j + 1]);
        }
        lemma_sum_matches_keys(s2, es, p, k2);
        assert(s[0].total_count == subtree_sum(es, p.push(k[0])));
    }
}

proof fn lemma_sum_same_totals(a: Seq<NodeView>, b: Seq<NodeView>)
    requires
        a.len() == b.len(),
        forall|j: int| 0 <= j < a.len() ==> #[trigger] a[j].total_count == b[j].total_count,
    ensures
        sum_totals(a) == sum_totals(b),
    decreases a.len(),
{
    if a.len() > 0 {
        let a2 = a.drop_first();
        let b2 = b.drop_first();
        assert forall|j: int| 0 <= j < a2.len() implies #[trigger] a2[j].total_count == b2[j].total_count by {
            assert(a2[j] == a[j + 1] && b2[j] == b[j + 1]);
        }
        lemma_sum_same_totals(a2, b2);
        assert(a[0].total_count == b[0].total_count);
    }
}

/// In the uncompacted tree, each node's total is its own photos plus its
/// children's totals.
pub proof fn lemma_model_totals(
    es: Seq<EntryView>,
    sep: char,
    path: Seq<char>,
    disp: Seq<char>,
    comp: Seq<char>,
    p: Seq<Seq<char>>,
)
    ensures
        totals_add_up(node_model(es, sep, path, disp, comp, p)),
    decreases max_depth(es) - p.len(),
{
    let n = node_model(es, sep, path, disp, comp, p);
    let kids = model_children(es, sep, path, p);
    let ck = child_keys(es, p);
    lemma_subtree_partition(es, p);
    lemma_sum_totals_sort(kids);
    lemma_children_need_depth(es, p);
    if p.len() < max_depth(es) {
        assert forall|j: int| 0 <= j < kids.len() implies #[trigger] kids[j].total_count == subtree_sum(
            es,
            p.push(ck[j]),
        ) by {}
        lemma_sum_matches_keys(kids, es, p, ck);
    } else {
        assert(ck.len() == 0);
    }
    lemma_sort_members(kids);
    assert forall|j: int| 0 <= j < n.children.len() implies totals_add_up(#[trigger] n.children[j]) by {
        assert(kids.contains(n.children[j]));
        let i = choose|i: int| 0 <= i < kids.len() && kids[i] == n.children[j];
        lemma_model_totals(
            es,
            sep,
            join_path(path, ck[i], sep),
            display_of(es, p.push(ck[i])),
            ck[i],
            p.push(ck[i]),
        );
    }
}

/// Compaction keeps a node's total.
proof fn lemma_compact_total(n: NodeView)
    ensures
        compact_view(n).total_count == n.total_count,
{
}

/// Compaction keeps every total equal to the node's own photos plus its
/// children's totals.
pub proof fn lemma_compact_keeps_totals(n: NodeView)
    requires
        totals_add_up(n),
    ensures
        totals_add_up(compact_view(n)),
    decreases n,
{
    let c = compact_view(n);
    if is_pass_through(n) {
        let ch = n.children[0];
        assert(totals_add_up(ch));
        lemma_compact_keeps_totals(ch);
        let r = compact_view(ch);
        lemma_compact_total(ch);
        assert(n.children.drop_first() =~= Seq::<NodeView>::empty());
        assert(sum_totals(Seq::<NodeView>::empty()) == 0);
        assert(sum_totals(n.children) == ch.total_count + sum_totals(n.children.drop_first()));
        assert(n.total_count == ch.total_count);
        assert(c.children == r.children);
        assert forall|j: int| 0 <= j < c.children.len() implies totals_add_up(#[trigger] c.children[j]) by {
            assert(c.children[j] == r.children[j]);
        }
    } else {
        assert forall|j: int| 0 <= j < c.children.len() implies #[trigger] c.children[j].total_count
            == n.children[j].total_count by {
            lemma_compact_total(n.children[j]);
        }
        lemma_sum_same_totals(c.children, n.children);
        assert forall|j: int| 0 <= j < c.children.len() implies totals_add_up(#[trigger] c.children[j]) by {
            assert(totals_add_up(n.children[j]));
            lemma_compact_keeps_totals(n.children[j]);
        }
    }
}


/// Photos in the folders of the input that have at least one path segment
/// (those are the folders the tree shows).
pub open spec fn shown_total(folders: Seq<(String, String, usize)>, sep: char) -> nat
    decreases folders.len(),
{
    if folders.len() == 0 {
        0
    } else {
        shown_total(folders.drop_last(), sep) + if segments(folders.last().0@, sep).len() > 0 {
            folders.last().2 as nat
        } else {
            0nat
        }
    }
}

/// No folder sits directly at the root, which has no segments.
proof fn lemma_root_has_no_photos(es: Seq<EntryView>)
    ensures
        direct_sum(es, Seq::empty()) == 0,
    decreases es.len(),
{
    if es.len() > 0 {
        lemma_root_has_no_photos(es.drop_last());
    }
}

/// Everything under the root is every folder with a segment.
proof fn lemma_root_subtree(folders: Seq<(String, String, usize)>, sep: char)
    ensures
        subtree_sum(entries(folders, sep), Seq::empty()) == shown_total(folders, sep),
    decreases folders.len(),
{
    if folders.len() > 0 {
        let d = folders.drop_last();
        lemma_root_subtree(d, sep);
        assert(entries(folders, sep).drop_last() =~= entries(d, sep));
        let e = entries(folders, sep).last();
        assert(e == entry_of(folders.last(), sep));
        assert(is_prefix(Seq::<Seq<char>>::empty(), e.keys)) by {
            assert(e.keys.take(0) =~= Seq::<Seq<char>>::empty());
        }
    }
}

/// Without library roots the forest's rows together hold every photo of
/// every folder that has a path segment: the sum of their totals is that
/// grand total.
pub proof fn lemma_forest_grand_total(folders: Seq<(String, String, usize)>, sep: char)
    ensures
        sum_totals(folder_forest(folders, Seq::empty(), sep)) == shown_total(folders, sep),
{
    let es = entries(folders, sep);
    assert(strings_view(Seq::<String>::empty()).len() == 0);
    let prefix = if any_absolute(folders, sep) {
        seq![sep]
    } else {
        Seq::empty()
    };
    let nodes = top_level_nodes(es, prefix, sep);
    let tk = child_keys(es, Seq::<Seq<char>>::empty());
    lemma_sum_totals_sort(nodes);
    assert forall|j: int| 0 <= j < nodes.len() implies #[trigger] nodes[j].total_count
        == subtree_sum(es, Seq::<Seq<char>>::empty().push(tk[j])) by {
        let m = node_model(
            es,
            sep,
            prefix + tk[j],
            display_of(es, seq![tk[j]]),
            tk[j],
            seq![tk[j]],
        );
        lemma_compact_total(m);
        assert(Seq::<Seq<char>>::empty().push(tk[j]) =~= seq![tk[j]]);
    }
    lemma_sum_matches_keys(nodes, es, Seq::empty(), tk);
    lemma_subtree_partition(es, Seq::empty());
    lemma_root_has_no_photos(es);
    lemma_root_subtree(folders, sep);
}


/// Not-greater is transitive.
proof fn lemma_str_le_trans(a: Seq<char>, b: Seq<char>, c: Seq<char>)
    requires
        !str_lt(b, a),
        !str_lt(c, b),
    ensures
        !str_lt(c, a),
{
    lemma_str_lt_irreflexive(a);
    if str_lt(c, a) {
        if a != b {
            lemma_str_lt_total(a, b);
        }
        if b != c {
            lemma_str_lt_total(b, c);
        }
        if a == b {
            assert(str_lt(b, c));
        } else if b == c {
            assert(str_lt(a, b));
        } else {
            lemma_str_lt_transitive(a, b, c);
        }
        lemma_str_lt_transitive(c, a, c);
        lemma_str_lt_irreflexive(c);
    }
}

/// Nodes ordered by case-insensitive name: no node's name sorts before that
/// of a node ahead of it.
pub open spec fn name_sorted(s: Seq<NodeView>) -> bool {
    forall|a: int, b: int| 0 <= a < b < s.len() ==> !str_lt(name_key(s[b]), name_key(s[a]))
}

proof fn lemma_insert_by_name_sorted(s: Seq<NodeView>, x: NodeView)
    requires
        name_sorted(s),
    ensures
        name_sorted(insert_by_name(s, x)),
    decreases s.len(),
{
    lemma_insert_by_name_members(s, x);
    if s.len() > 0 {
        let l = s.last();
        if str_lt(name_key(x), name_key(l)) {
            let d = s.drop_last();
            assert(name_sorted(d));
            lemma_insert_by_name_sorted(d, x);
            lemma_insert_by_name_members(d, x);
            let t = insert_by_name(d, x);
            let r = insert_by_name(s, x);
            assert forall|a: int, b: int| 0 <= a < b < r.len() implies !str_lt(
                name_key(r[b]),
                name_key(r[a]),
            ) by {
                if b < r.len() - 1 {
                    assert(r[a] == t[a] && r[b] == t[b]);
                } else {
                    assert(r[a] == t[a]);
                    assert(r[b] == l);
                    if t[a] == x {
                        if str_lt(name_key(l), name_key(x)) {
                            lemma_str_lt_transitive(name_key(x), name_key(l), name_key(x));
                            lemma_str_lt_irreflexive(name_key(x));
                        }
                    } else {
                        let k = choose|k: int| 0 <= k < d.len() && d[k] == t[a];
                        assert(s[k] == d[k]);
                        assert(!str_lt(name_key(s[s.len() - 1]), name_key(s[k])));
                    }
                }
            }
        } else {
            let r = insert_by_name(s, x);
            assert forall|a: int, b: int| 0 <= a < b < r.len() implies !str_lt(
                name_key(r[b]),
                name_key(r[a]),
            ) by {
                if b < s.len() {
                    assert(r[a] == s[a] && r[b] == s[b]);
                } else {
                    assert(r[b] == x);
                    assert(r[a] == s[a]);
                    if a < s.len() - 1 {
                        lemma_str_le_trans(name_key(s[a]), name_key(l), name_key(x));
                    }
                }
            }
        }
    }
}

/// Sorting by name yields nodes in case-insensitive name order.
pub proof fn lemma_sort_by_name_sorted(s: Seq<NodeView>)
    ensures
        name_sorted(sort_by_name(s)),
    decreases s.len(),
{
    if s.len() > 0 {
        lemma_sort_by_name_sorted(s.drop_last());
        lemma_insert_by_name_sorted(sort_by_name(s.drop_last()), s.last());
    }
}

/// The forest's rows come in case-insensitive order of their names.
pub proof fn lemma_forest_sorted(
    folders: Seq<(String, String, usize)>,
    roots: Seq<String>,
    sep: char,
)
    ensures
        name_sorted(folder_forest(folders, roots, sep)),
{
    let es = entries(folders, sep);
    let anchors = anchor_paths(strings_view(roots), sep);
    let nodes = if anchors.len() == 0 {
        let prefix = if any_absolute(folders, sep) {
            seq![sep]
        } else {
            Seq::empty()
        };
        top_level_nodes(es, prefix, sep)
    } else {
        anchored_nodes(es, anchors, sep)
    };
    lemma_sort_by_name_sorted(nodes);
}


/// The sort key of a row's first breadcrumb: that folder's name in lower case.
pub open spec fn crumb_key(n: NodeView) -> Seq<char> {
    lowercase(n.chain[0].0)
}

/// At every node the children come in case-insensitive order of the name of
/// their first breadcrumb (the folder the row starts at), and every row has a
/// breadcrumb.
pub open spec fn children_in_name_order(n: NodeView) -> bool
    decreases n,
{
    &&& n.chain.len() > 0
    &&& forall|a: int, b: int|
        0 <= a < b < n.children.len() ==> !str_lt(
            crumb_key(#[trigger] n.children[b]),
            crumb_key(#[trigger] n.children[a]),
        )
    &&& forall|j: int| 0 <= j < n.children.len() ==> children_in_name_order(#[trigger] n.children[j])
}

/// In the uncompacted tree every child is named by its only breadcrumb, and
/// children are sorted by name.
proof fn lemma_model_order(
    es: Seq<EntryView>,
    sep: char,
    path: Seq<char>,
    disp: Seq<char>,
    comp: Seq<char>,
    p: Seq<Seq<char>>,
)
    ensures
        children_in_name_order(node_model(es, sep, path, disp, comp, p)),
        node_model(es, sep, path, disp, comp, p).chain[0].0 == node_model(es, sep, path, disp, comp, p).name,
    decreases max_depth(es) - p.len(),
{
    let n = node_model(es, sep, path, disp, comp, p);
    let kids = model_children(es, sep, path, p);
    lemma_sort_members(kids);
    lemma_sort_by_name_sorted(kids);
    let ck = child_keys(es, p);
    assert forall|j: int| 0 <= j < n.children.len() implies children_in_name_order(
        #[trigger] n.children[j],
    ) && n.children[j].chain[0].0 == n.children[j].name by {
        assert(kids.contains(n.children[j]));
        let i = choose|i: int| 0 <= i < kids.len() && kids[i] == n.children[j];
        lemma_model_order(
            es,
            sep,
            join_path(path, ck[i], sep),
            display_of(es, p.push(ck[i])),
            ck[i],
            p.push(ck[i]),
        );
    }
    assert forall|a: int, b: int| 0 <= a < b < n.children.len() implies !str_lt(
        crumb_key(#[trigger] n.children[b]),
        crumb_key(#[trigger] n.children[a]),
    ) by {
        assert(children_in_name_order(n.children[a]) && n.children[a].chain[0].0 == n.children[a].name);
        assert(children_in_name_order(n.children[b]) && n.children[b].chain[0].0 == n.children[b].name);
        assert(n.children == sort_by_name(kids));
        assert(!str_lt(name_key(n.children[b]), name_key(n.children[a])));
        assert(crumb_key(n.children[a]) == name_key(n.children[a]));
        assert(crumb_key(n.children[b]) == name_key(n.children[b]));
    }
}

/// Compaction keeps a row's first breadcrumb and the order of children.
pub proof fn lemma_compact_keeps_order(n: NodeView)
    requires
        children_in_name_order(n),
    ensures
        children_in_name_order(compact_view(n)),
        compact_view(n).chain[0] == n.chain[0],
    decreases n,
{
    let c = compact_view(n);
    if is_pass_through(n) {
        let ch = n.children[0];
        assert(children_in_name_order(ch));
        lemma_compact_keeps_order(ch);
        let r = compact_view(ch);
        assert(c.chain == n.chain + r.chain);
        assert(c.chain[0] == n.chain[0]);
        assert(c.children == r.children);
    } else {
        assert forall|j: int| 0 <= j < c.children.len() implies children_in_name_order(
            #[trigger] c.children[j],
        ) && c.children[j].chain[0] == n.children[j].chain[0] by {
            assert(children_in_name_order(n.children[j]));
            lemma_compact_keeps_order(n.children[j]);
        }
        assert forall|a: int, b: int| 0 <= a < b < c.children.len() implies !str_lt(
            crumb_key(#[trigger] c.children[b]),
            crumb_key(#[trigger] c.children[a]),
        ) by {
            assert(c.children[a].chain[0] == n.children[a].chain[0]);
            assert(c.children[b].chain[0] == n.children[b].chain[0]);
            assert(!str_lt(crumb_key(n.children[b]), crumb_key(n.children[a])));
        }
    }
}

proof fn lemma_anchored_order(es: Seq<EntryView>, anchors: Seq<Seq<char>>, sep: char, i: int)
    requires
        0 <= i < anchored_nodes(es, anchors, sep).len(),
    ensures
        children_in_name_order(anchored_nodes(es, anchors, sep)[i]),
    decreases anchors.len(),
{
    let rest = anchored_nodes(es, anchors.drop_last(), sep);
    if i < rest.len() {
        lemma_anchored_order(es, anchors.drop_last(), sep, i);
    } else {
        let a = anchors.last();
        let p = segments(a, sep);
        lemma_model_order(es, sep, a, display_of(es, p), anchor_name(a, sep), p);
        lemma_compact_keeps_order(node_model(es, sep, a, display_of(es, p), anchor_name(a, sep), p));
    }
}

/// Below every row of the forest, siblings come in case-insensitive order of
/// the folder each starts at (so leaf siblings read alphabetically).
pub proof fn lemma_forest_children_sorted(
    folders: Seq<(String, String, usize)>,
    roots: Seq<String>,
    sep: char,
)
    ensures
        forall|i: int|
            0 <= i < folder_forest(folders, roots, sep).len() ==> children_in_name_order(
                #[trigger] folder_forest(folders, roots, sep)[i],
            ),
{
    let es = entries(folders, sep);
    let anchors = anchor_paths(strings_view(roots), sep);
    let prefix = if any_absolute(folders, sep) {
        seq![sep]
    } else {
        Seq::empty()
    };
    let nodes = if anchors.len() == 0 {
        top_level_nodes(es, prefix, sep)
    } else {
        anchored_nodes(es, anchors, sep)
    };
    assert forall|i: int| 0 <= i < nodes.len() implies children_in_name_order(#[trigger] nodes[i]) by {
        if anchors.len() == 0 {
            let tk = child_keys(es, Seq::empty());
            lemma_model_order(es, sep, prefix + tk[i], display_of(es, seq![tk[i]]), tk[i], seq![tk[i]]);
            lemma_compact_keeps_order(
                node_model(es, sep, prefix + tk[i], display_of(es, seq![tk[i]]), tk[i], seq![tk[i]]),
            );
        } else {
            lemma_anchored_order(es, anchors, sep, i);
        }
    }
    lemma_sort_members(nodes);
    let f = folder_forest(folders, roots, sep);
    assert forall|i: int| 0 <= i < f.len() implies children_in_name_order(#[trigger] f[i]) by {
        assert(nodes.contains(f[i]));
    }
}


/// A path segment: non-empty and free of the separator.
pub open spec fn is_segment(c: Seq<char>, sep: char) -> bool {
    c.len() > 0 && !c.contains(sep)
}

proof fn lemma_scan_pieces(s: Seq<char>, sep: char)
    ensures
        forall|k: int|
            0 <= k < segment_scan(s, sep).0.len() ==> is_segment(
                #[trigger] segment_scan(s, sep).0[k],
                sep,
            ),
        !segment_scan(s, sep).1.contains(sep),
    decreases s.len(),
{
    if s.len() > 0 {
        lemma_scan_pieces(s.drop_last(), sep);
        let (done, cur) = segment_scan(s.drop_last(), sep);
        if s.last() != sep {
            assert forall|i: int| 0 <= i < cur.push(s.last()).len() implies cur.push(s.last())[i]
                != sep by {
                if i < cur.len() {
                    assert(cur.push(s.last())[i] == cur[i]);
                }
            }
        } else if cur.len() > 0 {
            assert forall|k: int| 0 <= k < done.push(cur).len() implies is_segment(
                #[trigger] done.push(cur)[k],
                sep,
            ) by {
                if k < done.len() {
                    assert(done.push(cur)[k] == done[k]);
                }
            }
        }
    }
}

/// Every piece of a split path is a segment.
proof fn lemma_segments_are_segments(s: Seq<char>, sep: char)
    ensures
        forall|k: int| 0 <= k < segments(s, sep).len() ==> is_segment(#[trigger] segments(s, sep)[k], sep),
{
    lemma_scan_pieces(s, sep);
    let (done, cur) = segment_scan(s, sep);
    if cur.len() > 0 {
        assert forall|k: int| 0 <= k < done.push(cur).len() implies is_segment(
            #[trigger] done.push(cur)[k],
            sep,
        ) by {
            if k < done.len() {
                assert(done.push(cur)[k] == done[k]);
            }
        }
    }
}

proof fn lemma_scan_plain(t: Seq<char>, c: Seq<char>, sep: char)
    requires
        segment_scan(t, sep).1.len() == 0,
        !c.contains(sep),
    ensures
        segment_scan(t + c, sep) == (segment_scan(t, sep).0, c),
    decreases c.len(),
{
    if c.len() == 0 {
        assert(t + c =~= t);
        assert(segment_scan(t, sep).1 =~= c);
    } else {
        let d = c.drop_last();
        assert(!d.contains(sep)) by {
            if d.contains(sep) {
                let i = choose|i: int| 0 <= i < d.len() && d[i] == sep;
                assert(c[i] == sep);
            }
        }
        lemma_scan_plain(t, d, sep);
        assert((t + c).drop_last() =~= t + d);
        assert((t + c).last() == c.last());
        assert(c[c.len() - 1] != sep);
        assert(d.push(c.last()) =~= c);
    }
}

/// Appending the separator and a segment to a path appends that segment.
proof fn lemma_segments_join(s: Seq<char>, c: Seq<char>, sep: char)
    requires
        is_segment(c, sep),
    ensures
        segments(join_path(s, c, sep), sep) == segments(s, sep).push(c),
{
    let t = s.push(sep);
    assert(t.drop_last() =~= s);
    assert(segment_scan(t, sep) == (segments(s, sep), Seq::<char>::empty()));
    lemma_scan_plain(t, c, sep);
}

/// A segment after an empty path or a lone separator is the only segment.
proof fn lemma_segments_top(prefix: Seq<char>, c: Seq<char>, sep: char)
    requires
        prefix == seq![sep] || prefix.len() == 0,
        is_segment(c, sep),
    ensures
        segments(prefix + c, sep) == seq![c],
{
    if prefix.len() == 0 {
        assert(segment_scan(prefix, sep).0 =~= Seq::<Seq<char>>::empty());
        lemma_scan_plain(prefix, c, sep);
    } else {
        let e = Seq::<char>::empty();
        assert(prefix.drop_last() =~= e);
        assert(segment_scan(e, sep) == (Seq::<Seq<char>>::empty(), e));
        assert(prefix.last() == sep);
        assert(segment_scan(prefix, sep).0 =~= Seq::<Seq<char>>::empty());
        assert(segment_scan(prefix, sep).1.len() == 0);
        lemma_scan_plain(prefix, c, sep);
    }
    assert(Seq::<Seq<char>>::empty().push(c) =~= seq![c]);
}

/// Every folder key is a list of segments.
pub open spec fn keys_are_segments(es: Seq<EntryView>, sep: char) -> bool {
    forall|i: int, k: int|
        0 <= i < es.len() && 0 <= k < es[i].keys.len() ==> is_segment(#[trigger] es[i].keys[k], sep)
}

proof fn lemma_entries_keys(folders: Seq<(String, String, usize)>, sep: char)
    ensures
        keys_are_segments(entries(folders, sep), sep),
{
    let es = entries(folders, sep);
    assert forall|i: int, k: int| 0 <= i < es.len() && 0 <= k < es[i].keys.len() implies is_segment(
        #[trigger] es[i].keys[k],
        sep,
    ) by {
        lemma_segments_are_segments(folders[i].0@, sep);
        assert(es[i].keys == segments(folders[i].0@, sep));
    }
}

proof fn lemma_child_keys_segments(es: Seq<EntryView>, p: Seq<Seq<char>>, sep: char)
    requires
        keys_are_segments(es, sep),
    ensures
        forall|j: int| 0 <= j < child_keys(es, p).len() ==> is_segment(#[trigger] child_keys(es, p)[j], sep),
{
    lemma_child_keys_sorted(es, p);
    assert forall|j: int| 0 <= j < child_keys(es, p).len() implies is_segment(
        #[trigger] child_keys(es, p)[j],
        sep,
    ) by {
        let c = child_keys(es, p)[j];
        assert(child_keys(es, p).contains(c));
        let i = choose|i: int|
            0 <= i < es.len() && strictly_below(es[i], p) && es[i].keys[p.len() as int] == c;
        assert(is_segment(es[i].keys[p.len() as int], sep));
    }
}

/// At every node, the node's own photo count is the sum over the folders
/// whose segments are exactly those of the node's path.
pub open spec fn direct_counts_match(n: NodeView, es: Seq<EntryView>, sep: char) -> bool
    decreases n,
{
    n.direct_count == direct_sum(es, segments(n.path, sep)) && forall|j: int|
        0 <= j < n.children.len() ==> direct_counts_match(#[trigger] n.children[j], es, sep)
}

proof fn lemma_model_direct(
    es: Seq<EntryView>,
    sep: char,
    path: Seq<char>,
    disp: Seq<char>,
    comp: Seq<char>,
    p: Seq<Seq<char>>,
)
    requires
        keys_are_segments(es, sep),
        segments(path, sep) == p,
    ensures
        direct_counts_match(node_model(es, sep, path, disp, comp, p), es, sep),
    decreases max_depth(es) - p.len(),
{
    let n = node_model(es, sep, path, disp, comp, p);
    let kids = model_children(es, sep, path, p);
    let ck = child_keys(es, p);
    lemma_sort_members(kids);
    lemma_child_keys_segments(es, p, sep);
    assert forall|j: int| 0 <= j < n.children.len() implies direct_counts_match(
        #[trigger] n.children[j],
        es,
        sep,
    ) by {
        assert(kids.contains(n.children[j]));
        let i = choose|i: int| 0 <= i < kids.len() && kids[i] == n.children[j];
        assert(is_segment(ck[i], sep));
        lemma_segments_join(path, ck[i], sep);
        lemma_model_direct(
            es,
            sep,
            join_path(path, ck[i], sep),
            display_of(es, p.push(ck[i])),
            ck[i],
            p.push(ck[i]),
        );
    }
}

/// Compaction keeps every node's own count matched to its path.
pub proof fn lemma_compact_keeps_direct(n: NodeView, es: Seq<EntryView>, sep: char)
    requires
        direct_counts_match(n, es, sep),
    ensures
        direct_counts_match(compact_view(n), es, sep),
    decreases n,
{
    let c = compact_view(n);
    if is_pass_through(n) {
        assert(direct_counts_match(n.children[0], es, sep));
        lemma_compact_keeps_direct(n.children[0], es, sep);
        let r = compact_view(n.children[0]);
        assert(c.children == r.children && c.path == r.path && c.direct_count == r.direct_count);
        assert forall|j: int| 0 <= j < c.children.len() implies direct_counts_match(
            #[trigger] c.children[j],
            es,
            sep,
        ) by {
            assert(c.children[j] == r.children[j]);
        }
    } else {
        assert forall|j: int| 0 <= j < c.children.len() implies direct_counts_match(
            #[trigger] c.children[j],
            es,
            sep,
        ) by {
            assert(direct_counts_match(n.children[j], es, sep));
            lemma_compact_keeps_direct(n.children[j], es, sep);
        }
    }
}

proof fn lemma_anchored_direct(es: Seq<EntryView>, anchors: Seq<Seq<char>>, sep: char, i: int)
    requires
        0 <= i < anchored_nodes(es, anchors, sep).len(),
        keys_are_segments(es, sep),
    ensures
        direct_counts_match(anchored_nodes(es, anchors, sep)[i], es, sep),
    decreases anchors.len(),
{
    let rest = anchored_nodes(es, anchors.drop_last(), sep);
    if i < rest.len() {
        lemma_anchored_direct(es, anchors.drop_last(), sep, i);
    } else {
        let a = anchors.last();
        let p = segments(a, sep);
        lemma_model_direct(es, sep, a, display_of(es, p), anchor_name(a, sep), p);
        lemma_compact_keeps_direct(node_model(es, sep, a, display_of(es, p), anchor_name(a, sep), p), es, sep);
    }
}

/// At every node of the forest, the node's own photo count is the sum of
/// the counts of the input folders whose non-empty path segments are exactly
/// those of the node's path.
pub proof fn lemma_forest_direct_counts(
    folders: Seq<(String, String, usize)>,
    roots: Seq<String>,
    sep: char,
)
    ensures
        forall|i: int|
            0 <= i < folder_forest(folders, roots, sep).len() ==> direct_counts_match(
                #[trigger] folder_forest(folders, roots, sep)[i],
                entries(folders, sep),
                sep,
            ),
{
    let es = entries(folders, sep);
    lemma_entries_keys(folders, sep);
    let anchors = anchor_paths(strings_view(roots), sep);
    let prefix = if any_absolute(folders, sep) {
        seq![sep]
    } else {
        Seq::empty()
    };
    let nodes = if anchors.len() == 0 {
        top_level_nodes(es, prefix, sep)
    } else {
        anchored_nodes(es, anchors, sep)
    };
    assert forall|i: int| 0 <= i < nodes.len() implies direct_counts_match(#[trigger] nodes[i], es, sep) by {
        if anchors.len() == 0 {
            let tk = child_keys(es, Seq::empty());
            lemma_child_keys_segments(es, Seq::empty(), sep);
            lemma_segments_top(prefix, tk[i], sep);
            lemma_model_direct(es, sep, prefix + tk[i], display_of(es, seq![tk[i]]), tk[i], seq![tk[i]]);
            lemma_compact_keeps_direct(
                node_model(es, sep, prefix + tk[i], display_of(es, seq![tk[i]]), tk[i], seq![tk[i]]),
                es,
                sep,
            );
        } else {
            lemma_anchored_direct(es, anchors, sep, i);
        }
    }
    lemma_sort_members(nodes);
    let f = folder_forest(folders, roots, sep);
    assert forall|i: int| 0 <= i < f.len() implies direct_counts_match(#[trigger] f[i], es, sep) by {
        assert(nodes.contains(f[i]));
    }
}


/// `b` is the path `a` extended by one segment.
pub open spec fn one_level_below(a: Seq<char>, b: Seq<char>, sep: char) -> bool {
    exists|c: Seq<char>| is_segment(c, sep) && b == #[trigger] join_path(a, c, sep)
}

/// Breadcrumbs go down one folder at a time: each crumb's path is the one
/// before it plus one segment, the last crumb is the row's own path, and each
/// child row starts one segment below its parent's path.
pub open spec fn crumbs_step_down(n: NodeView, sep: char) -> bool
    decreases n,
{
    &&& n.chain.len() > 0
    &&& n.chain.last().1 == n.path
    &&& forall|a: int, b: int|
        0 <= a && b == a + 1 && b < n.chain.len() ==> one_level_below(
            #[trigger] n.chain[a].1,
            #[trigger] n.chain[b].1,
            sep,
        )
    &&& forall|j: int|
        #![trigger n.children[j]]
        0 <= j < n.children.len() ==> one_level_below(n.path, n.children[j].chain[0].1, sep)
            && crumbs_step_down(n.children[j], sep)
}

proof fn lemma_model_crumbs(
    es: Seq<EntryView>,
    sep: char,
    path: Seq<char>,
    disp: Seq<char>,
    comp: Seq<char>,
    p: Seq<Seq<char>>,
)
    requires
        keys_are_segments(es, sep),
    ensures
        crumbs_step_down(node_model(es, sep, path, disp, comp, p), sep),
        node_model(es, sep, path, disp, comp, p).chain[0].1 == path,
    decreases max_depth(es) - p.len(),
{
    let n = node_model(es, sep, path, disp, comp, p);
    let kids = model_children(es, sep, path, p);
    let ck = child_keys(es, p);
    lemma_sort_members(kids);
    lemma_child_keys_segments(es, p, sep);
    assert forall|j: int| 0 <= j < n.children.len() implies one_level_below(
        n.path,
        #[trigger] n.children[j].chain[0].1,
        sep,
    ) && crumbs_step_down(n.children[j], sep) by {
        assert(kids.contains(n.children[j]));
        let i = choose|i: int| 0 <= i < kids.len() && kids[i] == n.children[j];
        assert(is_segment(ck[i], sep));
        lemma_model_crumbs(
            es,
            sep,
            join_path(path, ck[i], sep),
            display_of(es, p.push(ck[i])),
            ck[i],
            p.push(ck[i]),
        );
        assert(n.children[j].chain[0].1 == join_path(path, ck[i], sep));
    }
}

/// Compaction keeps breadcrumbs stepping down one segment at a time.
pub proof fn lemma_compact_keeps_crumbs(n: NodeView, sep: char)
    requires
        crumbs_step_down(n, sep),
    ensures
        crumbs_step_down(compact_view(n), sep),
        compact_view(n).chain[0] == n.chain[0],
    decreases n,
{
    let c = compact_view(n);
    if is_pass_through(n) {
        let ch = n.children[0];
        assert(crumbs_step_down(ch, sep));
        assert(one_level_below(n.path, ch.chain[0].1, sep));
        lemma_compact_keeps_crumbs(ch, sep);
        let r = compact_view(ch);
        assert(c.chain == n.chain + r.chain);
        assert(c.children == r.children && c.path == r.path);
        let m = n.chain.len() as int;
        assert forall|a: int, b: int|
            0 <= a && b == a + 1 && b < c.chain.len() implies one_level_below(
            #[trigger] c.chain[a].1,
            #[trigger] c.chain[b].1,
            sep,
        ) by {
            if b < m {
                assert(c.chain[a] == n.chain[a] && c.chain[b] == n.chain[b]);
            } else if a < m {
                assert(a == m - 1);
                assert(c.chain[a] == n.chain.last());
                assert(c.chain[b] == r.chain[0]);
            } else {
                assert(c.chain[a] == r.chain[a - m] && c.chain[b] == r.chain[b - m]);
            }
        }
        assert(c.chain.last() == r.chain.last());
        assert forall|j: int| 0 <= j < c.children.len() implies one_level_below(
            c.path,
            #[trigger] c.children[j].chain[0].1,
            sep,
        ) && crumbs_step_down(c.children[j], sep) by {
            assert(c.children[j] == r.children[j]);
        }
    } else {
        assert forall|j: int| 0 <= j < c.children.len() implies one_level_below(
            c.path,
            #[trigger] c.children[j].chain[0].1,
            sep,
        ) && crumbs_step_down(c.children[j], sep) by {
            assert(crumbs_step_down(n.children[j], sep));
            assert(one_level_below(n.path, n.children[j].chain[0].1, sep));
            lemma_compact_keeps_crumbs(n.children[j], sep);
        }
    }
}

proof fn lemma_anchored_crumbs(es: Seq<EntryView>, anchors: Seq<Seq<char>>, sep: char, i: int)
    requires
        0 <= i < anchored_nodes(es, anchors, sep).len(),
        keys_are_segments(es, sep),
    ensures
        crumbs_step_down(anchored_nodes(es, anchors, sep)[i], sep),
    decreases anchors.len(),
{
    let rest = anchored_nodes(es, anchors.drop_last(), sep);
    if i < rest.len() {
        lemma_anchored_crumbs(es, anchors.drop_last(), sep, i);
    } else {
        let a = anchors.last();
        let p = segments(a, sep);
        lemma_model_crumbs(es, sep, a, display_of(es, p), anchor_name(a, sep), p);
        lemma_compact_keeps_crumbs(node_model(es, sep, a, display_of(es, p), anchor_name(a, sep), p), sep);
    }
}

/// Throughout the forest, breadcrumbs step down one folder segment at a time
/// and end at their row, and every child row starts one segment below its
/// parent.
pub proof fn lemma_forest_crumbs(
    folders: Seq<(String, String, usize)>,
    roots: Seq<String>,
    sep: char,
)
    ensures
        forall|i: int|
            0 <= i < folder_forest(folders, roots, sep).len() ==> crumbs_step_down(
                #[trigger] folder_forest(folders, roots, sep)[i],
                sep,
            ),
{
    let es = entries(folders, sep);
    lemma_entries_keys(folders, sep);
    let anchors = anchor_paths(strings_view(roots), sep);
    let prefix = if any_absolute(folders, sep) {
        seq![sep]
    } else {
        Seq::empty()
    };
    let nodes = if anchors.len() == 0 {
        top_level_nodes(es, prefix, sep)
    } else {
        anchored_nodes(es, anchors, sep)
    };
    assert forall|i: int| 0 <= i < nodes.len() implies crumbs_step_down(#[trigger] nodes[i], sep) by {
        if anchors.len() == 0 {
            let tk = child_keys(es, Seq::empty());
            lemma_model_crumbs(es, sep, prefix + tk[i], display_of(es, seq![tk[i]]), tk[i], seq![tk[i]]);
            lemma_compact_keeps_crumbs(
                node_model(es, sep, prefix + tk[i], display_of(es, seq![tk[i]]), tk[i], seq![tk[i]]),
                sep,
            );
        } else {
            lemma_anchored_crumbs(es, anchors, sep, i);
        }
    }
    lemma_sort_members(nodes);
    let f = folder_forest(folders, roots, sep);
    assert forall|i: int| 0 <= i < f.len() implies crumbs_step_down(#[trigger] f[i], sep) by {
        assert(nodes.contains(f[i]));
    }
}

} // verus!
