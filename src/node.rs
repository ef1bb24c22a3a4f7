//! Tree nodes, their contents, and the structural invariants of the index.
use vstd::prelude::*;
use vstd::multiset::Multiset;
use crate::geometry::Rectangle;

verus! {

broadcast use {vstd::std_specs::vec::group_vec_axioms, vstd::seq::group_seq_axioms};

/// A stored record: its identifier and rectangle.
pub type Entry = (usize, Rectangle);

/// A node of the tree: a leaf entry, or an inner node with a bounding
/// rectangle and its children.
#[derive(Debug)]
pub enum Node {
    Leaf { tid: usize, rect: Rectangle },
    Inner { rect: Rectangle, children: Vec<Node> },
}

/// The rectangle a node stands for.
pub open spec fn rect_of(n: Node) -> Rectangle {
    match n {
        Node::Leaf { rect, .. } => rect,
        Node::Inner { rect, .. } => rect,
    }
}

/// The children of a node (none for a leaf).
pub open spec fn kids(n: Node) -> Seq<Node> {
    match n {
        Node::Leaf { .. } => Seq::empty(),
        Node::Inner { children, .. } => children@,
    }
}

/// The leaf entries below a node, left to right.
pub open spec fn entries(n: Node) -> Seq<Entry>
    decreases n,
{
    match n {
        Node::Leaf { tid, rect } => seq![(tid, rect)],
        Node::Inner { children, .. } => entries_of(children@),
    }
}

/// The leaf entries below a sequence of nodes, left to right.
pub open spec fn entries_of(cs: Seq<Node>) -> Seq<Entry>
    decreases cs,
{
    if cs.len() == 0 {
        Seq::empty()
    } else {
        entries_of(cs.drop_last()) + entries(cs.last())
    }
}

/// The minimum bounding rectangle of the rectangles of `cs` (nonempty).
pub open spec fn mbr_of(cs: Seq<Node>) -> Rectangle
    decreases cs.len(),
{
    if cs.len() <= 1 {
        rect_of(cs[0])
    } else {
        mbr_of(cs.drop_last()).mbr_spec(rect_of(cs.last()))
    }
}

/// An inner node at height `h`: at most `mx` children, each well formed one
/// level down, and a rectangle equal to the MBR of its children when it has any.
pub open spec fn wf_loose(n: Node, h: nat, mx: nat, mn: nat) -> bool
    decreases n, 1nat,
{
    match n {
        Node::Leaf { .. } => false,
        Node::Inner { rect, children } => {
            &&& h >= 1
            &&& children@.len() <= mx
            &&& children@.len() > 0 ==> rect == mbr_of(children@)
            &&& forall|i: int| 0 <= i < children@.len() ==> wf_node(#[trigger] children@[i], (h - 1) as nat, mx, mn)
        },
    }
}

/// A non-root node at height `h`: a valid leaf entry at height 0, or an inner
/// node holding between `mn` and `mx` children, all at height `h - 1`.
pub open spec fn wf_node(n: Node, h: nat, mx: nat, mn: nat) -> bool
    decreases n, 2nat,
{
    match n {
        Node::Leaf { rect, .. } => h == 0 && rect.valid(),
        Node::Inner { children, .. } => {
            &&& wf_loose(n, h, mx, mn)
            &&& children@.len() >= mn
        },
    }
}

/// All nodes of `cs` are well formed at height `h`.
pub open spec fn all_wf(cs: Seq<Node>, h: nat, mx: nat, mn: nat) -> bool {
    forall|i: int| 0 <= i < cs.len() ==> wf_node(#[trigger] cs[i], h, mx, mn)
}

/// The entries below the nodes of a concatenation are those of each part.
pub proof fn lemma_entries_concat(a: Seq<Node>, b: Seq<Node>)
    ensures
        entries_of(a + b) == entries_of(a) + entries_of(b),
    decreases b.len(),
{
    if b.len() == 0 {
        assert(a + b =~= a);
        assert(entries_of(b) =~= Seq::<Entry>::empty());
        assert(entries_of(a) + entries_of(b) =~= entries_of(a));
    } else {
        lemma_entries_concat(a, b.drop_last());
        assert((a + b).drop_last() =~= a + b.drop_last());
        assert((a + b).last() == b.last());
        assert(entries_of(a) + entries_of(b) =~= entries_of(a) + entries_of(b.drop_last())
            + entries(b.last()));
    }
}

/// Appending a node appends its entries.
pub proof fn lemma_entries_push(a: Seq<Node>, n: Node)
    ensures
        entries_of(a.push(n)) == entries_of(a) + entries(n),
{
    assert(a.push(n).drop_last() =~= a);
}

/// The entries of a one-node sequence.
pub proof fn lemma_entries_single(n: Node)
    ensures
        entries_of(seq![n]) == entries(n),
{
    assert(seq![n].drop_last() =~= Seq::<Node>::empty());
    assert(entries_of(Seq::<Node>::empty()) =~= Seq::<Entry>::empty());
    assert(Seq::<Entry>::empty() + entries(n) =~= entries(n));
}

/// Removing the node at `i` removes exactly its entries (as a multiset).
pub proof fn lemma_entries_remove(a: Seq<Node>, i: int)
    requires
        0 <= i < a.len(),
    ensures
        entries_of(a).to_multiset() == entries_of(a.remove(i)).to_multiset().add(
            entries(a[i]).to_multiset(),
        ),
{
    let l = a.subrange(0, i);
    let r = a.subrange(i + 1, a.len() as int);
    assert(a =~= l + seq![a[i]] + r);
    assert(a.remove(i) =~= l + r);
    lemma_entries_concat(l + seq![a[i]], r);
    lemma_entries_concat(l, seq![a[i]]);
    lemma_entries_concat(l, r);
    lemma_entries_single(a[i]);
    vstd::seq_lib::lemma_multiset_commutative(entries_of(l) + entries(a[i]), entries_of(r));
    vstd::seq_lib::lemma_multiset_commutative(entries_of(l), entries(a[i]));
    vstd::seq_lib::lemma_multiset_commutative(entries_of(l), entries_of(r));
    let ml = entries_of(l).to_multiset();
    let mi = entries(a[i]).to_multiset();
    let mr = entries_of(r).to_multiset();
    assert(ml.add(mi).add(mr) =~= ml.add(mr).add(mi));
}

/// Every rectangle of `cs` lies in the MBR of `cs`.
pub proof fn lemma_mbr_of_contains(cs: Seq<Node>, i: int)
    requires
        0 <= i < cs.len(),
    ensures
        mbr_of(cs).contains_rect_spec(rect_of(cs[i])),
    decreases cs.len(),
{
    if cs.len() > 1 {
        let m = mbr_of(cs.drop_last());
        crate::geometry::lemma_mbr_contains_both(m, rect_of(cs.last()));
        if i < cs.len() - 1 {
            lemma_mbr_of_contains(cs.drop_last(), i);
            assert(cs.drop_last()[i] == cs[i]);
        }
    }
}

/// The MBR of valid rectangles is valid.
pub proof fn lemma_mbr_of_valid(cs: Seq<Node>)
    requires
        cs.len() > 0,
        forall|i: int| 0 <= i < cs.len() ==> (#[trigger] rect_of(cs[i])).valid(),
    ensures
        mbr_of(cs).valid(),
    decreases cs.len(),
{
    if cs.len() > 1 {
        assert forall|i: int| 0 <= i < cs.drop_last().len() implies (#[trigger] rect_of(
            cs.drop_last()[i],
        )).valid() by {
            assert(cs.drop_last()[i] == cs[i]);
        }
        lemma_mbr_of_valid(cs.drop_last());
        crate::geometry::lemma_mbr_contains_both(mbr_of(cs.drop_last()), rect_of(cs.last()));
    }
}

/// A well-formed node's rectangle is valid and contains every entry below it,
/// and every such entry is valid.
pub proof fn lemma_node_bound(n: Node, h: nat, mx: nat, mn: nat)
    requires
        wf_node(n, h, mx, mn),
        mn >= 1,
    ensures
        rect_of(n).valid(),
        forall|k: int|
            0 <= k < entries(n).len() ==> rect_of(n).contains_rect_spec(
                (#[trigger] entries(n)[k]).1,
            ) && entries(n)[k].1.valid(),
    decreases n, 1nat,
{
    match n {
        Node::Leaf { .. } => {},
        Node::Inner { rect, children } => {
            lemma_loose_bound(n, h, mx, mn);
        },
    }
}

/// As `lemma_node_bound`, for an inner node that may be underfull.
pub proof fn lemma_loose_bound(n: Node, h: nat, mx: nat, mn: nat)
    requires
        wf_loose(n, h, mx, mn),
        mn >= 1,
    ensures
        kids(n).len() > 0 ==> rect_of(n).valid(),
        forall|k: int|
            0 <= k < entries(n).len() ==> rect_of(n).contains_rect_spec(
                (#[trigger] entries(n)[k]).1,
            ) && entries(n)[k].1.valid(),
    decreases n, 0nat,
{
    match n {
        Node::Leaf { .. } => {},
        Node::Inner { rect, children } => {
            let cs = children@;
            assert forall|i: int| 0 <= i < cs.len() implies rect.contains_rect_spec(
                rect_of(#[trigger] cs[i]),
            ) && rect_of(cs[i]).valid() by {
                lemma_mbr_of_contains(cs, i);
                lemma_node_bound(cs[i], (h - 1) as nat, mx, mn);
            }
            if cs.len() > 0 {
                lemma_mbr_of_valid(cs);
            }
            lemma_seq_bound(cs, rect, (h - 1) as nat, mx, mn);
            assert(entries(n) == entries_of(cs));
        },
    }
}

/// Entries below nodes whose rectangles lie in `r` lie in `r`.
pub proof fn lemma_seq_bound(cs: Seq<Node>, r: Rectangle, h: nat, mx: nat, mn: nat)
    requires
        all_wf(cs, h, mx, mn),
        mn >= 1,
        forall|i: int| 0 <= i < cs.len() ==> r.contains_rect_spec(rect_of(#[trigger] cs[i])),
    ensures
        forall|k: int|
            0 <= k < entries_of(cs).len() ==> r.contains_rect_spec(
                (#[trigger] entries_of(cs)[k]).1,
            ) && entries_of(cs)[k].1.valid(),
    decreases cs,
{
    if cs.len() > 0 {
        let p = cs.drop_last();
        assert forall|i: int| 0 <= i < p.len() implies wf_node(#[trigger] p[i], h, mx, mn)
            && r.contains_rect_spec(rect_of(p[i])) by {
            assert(p[i] == cs[i]);
        }
        lemma_seq_bound(p, r, h, mx, mn);
        assert(cs[cs.len() - 1] == cs.last());
        lemma_node_bound(cs.last(), h, mx, mn);
        let a = entries_of(p);
        let b = entries(cs.last());
        assert forall|k: int| 0 <= k < entries_of(cs).len() implies r.contains_rect_spec(
            (#[trigger] entries_of(cs)[k]).1,
        ) && entries_of(cs)[k].1.valid() by {
            if k < a.len() {
                assert(entries_of(cs)[k] == a[k]);
            } else {
                assert(entries_of(cs)[k] == b[k - a.len()]);
            }
        }
    }
}

/// The identifiers of the entries of `s` whose rectangle meets `q`, in order.
pub open spec fn hits(s: Seq<Entry>, q: Rectangle) -> Seq<usize>
    decreases s.len(),
{
    if s.len() == 0 {
        Seq::empty()
    } else if s.last().1.intersects_spec(q) {
        hits(s.drop_last(), q).push(s.last().0)
    } else {
        hits(s.drop_last(), q)
    }
}

/// The hits of a concatenation are those of each part.
pub proof fn lemma_hits_concat(a: Seq<Entry>, b: Seq<Entry>, q: Rectangle)
    ensures
        hits(a + b, q) == hits(a, q) + hits(b, q),
    decreases b.len(),
{
    if b.len() == 0 {
        assert(a + b =~= a);
        assert(hits(a, q) + hits(b, q) =~= hits(a, q));
    } else {
        lemma_hits_concat(a, b.drop_last(), q);
        assert((a + b).drop_last() =~= a + b.drop_last());
        assert(hits(a, q) + hits(b, q) =~= hits(a, q) + hits(b.drop_last(), q) + (if b.last().1.intersects_spec(q) {
            seq![b.last().0]
        } else {
            Seq::empty()
        }));
        if b.last().1.intersects_spec(q) {
            assert(hits(a + b, q) =~= hits(a, q) + hits(b.drop_last(), q) + seq![b.last().0]);
        } else {
            assert(hits(a + b, q) =~= hits(a, q) + hits(b.drop_last(), q) + Seq::<usize>::empty());
        }
    }
}

/// No entry lying in a rectangle disjoint from `q` is a hit.
pub proof fn lemma_hits_none(s: Seq<Entry>, r: Rectangle, q: Rectangle)
    requires
        !r.intersects_spec(q),
        forall|k: int| 0 <= k < s.len() ==> r.contains_rect_spec((#[trigger] s[k]).1),
    ensures
        hits(s, q) == Seq::<usize>::empty(),
    decreases s.len(),
{
    if s.len() > 0 {
        assert(s[s.len() - 1] == s.last());
        if s.last().1.intersects_spec(q) {
            crate::geometry::lemma_intersects_container(r, s.last().1, q);
        }
        assert forall|k: int| 0 <= k < s.drop_last().len() implies r.contains_rect_spec(
            (#[trigger] s.drop_last()[k]).1,
        ) by {
            assert(s.drop_last()[k] == s[k]);
        }
        lemma_hits_none(s.drop_last(), r, q);
    }
}

impl Node {
    /// The rectangle this node stands for.
    pub fn rect(&self) -> (r: Rectangle)
        ensures
            r == rect_of(*self),
    {
        match self {
            Node::Leaf { rect, .. } => *rect,
            Node::Inner { rect, .. } => *rect,
        }
    }

    /// True iff this node is a leaf entry.
    pub fn is_leaf(&self) -> (r: bool)
        ensures
            r == (*self is Leaf),
    {
        match self {
            Node::Leaf { .. } => true,
            Node::Inner { .. } => false,
        }
    }
}

/// The minimum bounding rectangle of a nonempty list of nodes.
pub(crate) fn compute_mbr(cs: &Vec<Node>) -> (r: Rectangle)
    requires
        cs@.len() > 0,
    ensures
        r == mbr_of(cs@),
{
    let mut acc = cs[0].rect();
    let mut i: usize = 1;
    assert(cs@.subrange(0, 1).len() == 1);
    while i < cs.len()
        invariant
            1 <= i <= cs@.len(),
            acc == mbr_of(cs@.subrange(0, i as int)),
        decreases cs@.len() - i,
    {
        assert(cs@.subrange(0, i as int + 1).drop_last() =~= cs@.subrange(0, i as int));
        acc = acc.mbr(&cs[i].rect());
        i = i + 1;
    }
    assert(cs@.subrange(0, cs@.len() as int) =~= cs@);
    acc
}

/// Appends the entries below the nodes of `cs` to `out`, left to right.
pub(crate) fn collect_all(cs: &Vec<Node>, out: &mut Vec<Entry>)
    ensures
        final(out)@ == old(out)@ + entries_of(cs@),
    decreases cs@,
{
    let ghost start = out@;
    let mut i: usize = 0;
    while i < cs.len()
        invariant
            0 <= i <= cs@.len(),
            out@ == start + entries_of(cs@.subrange(0, i as int)),
        decreases cs@.len() - i,
    {
        let ghost pre = cs@.subrange(0, i as int);
        assert(cs@.subrange(0, i as int + 1) =~= pre.push(cs@[i as int]));
        proof { lemma_entries_push(pre, cs@[i as int]); }
        match &cs[i] {
            Node::Leaf { tid, rect } => {
                out.push((*tid, *rect));
            },
            Node::Inner { children, .. } => {
                assert(decreases_to!(cs@ => cs@[i as int]));
                collect_all(children, out);
            },
        }
        assert(out@ =~= start + entries_of(cs@.subrange(0, i as int + 1)));
        i = i + 1;
    }
    assert(cs@.subrange(0, cs@.len() as int) =~= cs@);
}

/// Appends to `out` the identifiers of the entries below `cs` whose
/// rectangle meets `q`, visiting only subtrees whose rectangle meets `q`.
pub(crate) fn search_all(cs: &Vec<Node>, q: &Rectangle, out: &mut Vec<usize>, Ghost(h): Ghost<nat>, Ghost(mx): Ghost<nat>, Ghost(mn): Ghost<nat>)
    requires
        all_wf(cs@, h, mx, mn),
        mn >= 1,
    ensures
        final(out)@ == old(out)@ + hits(entries_of(cs@), *q),
    decreases cs@,
{
    let ghost start = out@;
    let mut i: usize = 0;
    assert(entries_of(Seq::<Node>::empty()) =~= Seq::<Entry>::empty());
    assert(cs@.subrange(0, 0) =~= Seq::<Node>::empty());
    while i < cs.len()
        invariant
            0 <= i <= cs@.len(),
            all_wf(cs@, h, mx, mn),
            mn >= 1,
            out@ == start + hits(entries_of(cs@.subrange(0, i as int)), *q),
        decreases cs@.len() - i,
    {
        let ghost pre = cs@.subrange(0, i as int);
        let ghost n = cs@[i as int];
        assert(cs@.subrange(0, i as int + 1) =~= pre.push(n));
        proof { lemma_entries_push(pre, n); }
        proof { lemma_hits_concat(entries_of(pre), entries(n), *q); }
        assert(wf_node(n, h, mx, mn));
        match &cs[i] {
            Node::Leaf { tid, rect } => {
                assert(entries(n) =~= seq![(*tid, *rect)]);
                assert(entries(n).drop_last() =~= Seq::<Entry>::empty());
                assert(entries(n).last() == (*tid, *rect));
                assert(hits(entries(n).drop_last(), *q) =~= Seq::<usize>::empty());
                if rect.intersects(q) {
                    out.push(*tid);
                    assert(hits(entries(n), *q) =~= seq![*tid]);
                } else {
                    assert(hits(entries(n), *q) =~= Seq::<usize>::empty());
                }
            },
            Node::Inner { rect, children } => {
                assert(entries(n) == entries_of(children@));
                if rect.intersects(q) {
                    assert(decreases_to!(cs@ => cs@[i as int]));
                    search_all(children, q, out, Ghost((h - 1) as nat), Ghost(mx), Ghost(mn));
                } else {
                    proof { lemma_node_bound(n, h, mx, mn); }
                    proof { lemma_hits_none(entries(n), *rect, *q); }
                }
            },
        }
        assert(out@ =~= start + hits(entries_of(cs@.subrange(0, i as int + 1)), *q));
        i = i + 1;
    }
    assert(cs@.subrange(0, cs@.len() as int) =~= cs@);
}

/// An entry is in a concatenation exactly when it is in one of the parts.
pub proof fn lemma_contains_concat(a: Seq<Entry>, b: Seq<Entry>, e: Entry)
    ensures
        (a + b).contains(e) == (a.contains(e) || b.contains(e)),
{
    if a.contains(e) {
        let k = choose|k: int| 0 <= k < a.len() && a[k] == e;
        assert((a + b)[k] == e);
    }
    if b.contains(e) {
        let k = choose|k: int| 0 <= k < b.len() && b[k] == e;
        assert((a + b)[a.len() + k] == e);
    }
    if (a + b).contains(e) {
        let k = choose|k: int| 0 <= k < (a + b).len() && (a + b)[k] == e;
        if k < a.len() {
            assert(a[k] == e);
        } else {
            assert(b[k - a.len()] == e);
        }
    }
}

/// True iff `e` is an entry below the nodes of `cs`; visits only subtrees
/// whose rectangle meets the entry's rectangle.
pub(crate) fn find_all(cs: &Vec<Node>, e: &Entry, Ghost(h): Ghost<nat>, Ghost(mx): Ghost<nat>, Ghost(mn): Ghost<nat>) -> (r: bool)
    requires
        all_wf(cs@, h, mx, mn),
        mn >= 1,
        e.1.valid(),
    ensures
        r == entries_of(cs@).contains(*e),
    decreases cs@,
{
    let mut i: usize = 0;
    assert(entries_of(Seq::<Node>::empty()) =~= Seq::<Entry>::empty());
    assert(cs@.subrange(0, 0) =~= Seq::<Node>::empty());
    while i < cs.len()
        invariant
            0 <= i <= cs@.len(),
            all_wf(cs@, h, mx, mn),
            mn >= 1,
            e.1.valid(),
            !entries_of(cs@.subrange(0, i as int)).contains(*e),
        decreases cs@.len() - i,
    {
        let ghost pre = cs@.subrange(0, i as int);
        let ghost n = cs@[i as int];
        assert(cs@.subrange(0, i as int + 1) =~= pre.push(n));
        proof { lemma_entries_push(pre, n); }
        proof { lemma_contains_concat(entries_of(pre), entries(n), *e); }
        assert(wf_node(n, h, mx, mn));
        let hit = match &cs[i] {
            Node::Leaf { tid, rect } => {
                assert(entries(n) =~= seq![(*tid, *rect)]);
                if *tid == e.0 && *rect == e.1 {
                    assert(entries(n)[0] == *e);
                    true
                } else {
                    false
                }
            },
            Node::Inner { rect, children } => {
                assert(entries(n) == entries_of(children@));
                if rect.intersects(&e.1) {
                    assert(decreases_to!(cs@ => cs@[i as int]));
                    find_all(children, e, Ghost((h - 1) as nat), Ghost(mx), Ghost(mn))
                } else {
                    proof { lemma_node_bound(n, h, mx, mn); }
                    false
                }
            },
        };
        if hit {
            proof { lemma_entries_concat(pre.push(n), cs@.subrange(i as int + 1, cs@.len() as int)); }
            assert(cs@ =~= pre.push(n) + cs@.subrange(i as int + 1, cs@.len() as int));
            proof { lemma_contains_concat(entries_of(pre.push(n)), entries_of(cs@.subrange(i as int + 1, cs@.len() as int)), *e); }
            return true;
        }
        i = i + 1;
    }
    assert(cs@.subrange(0, cs@.len() as int) =~= cs@);
    false
}

/// The entries below a multiset view of a node sequence.
pub open spec fn ms(cs: Seq<Node>) -> Multiset<Entry> {
    entries_of(cs).to_multiset()
}

/// Every entry below well-formed nodes has a valid rectangle.
pub proof fn lemma_seq_valid(cs: Seq<Node>, h: nat, mx: nat, mn: nat)
    requires
        all_wf(cs, h, mx, mn),
        mn >= 1,
    ensures
        forall|k: int| 0 <= k < entries_of(cs).len() ==> (#[trigger] entries_of(cs)[k]).1.valid(),
    decreases cs.len(),
{
    if cs.len() > 0 {
        let p = cs.drop_last();
        assert forall|i: int| 0 <= i < p.len() implies wf_node(#[trigger] p[i], h, mx, mn) by {
            assert(p[i] == cs[i]);
        }
        lemma_seq_valid(p, h, mx, mn);
        assert(cs[cs.len() - 1] == cs.last());
        lemma_node_bound(cs.last(), h, mx, mn);
        let a = entries_of(p);
        let b = entries(cs.last());
        assert forall|k: int| 0 <= k < entries_of(cs).len() implies (#[trigger] entries_of(
            cs,
        )[k]).1.valid() by {
            if k < a.len() {
                assert(entries_of(cs)[k] == a[k]);
            } else {
                assert(entries_of(cs)[k] == b[k - a.len()]);
            }
        }
    }
}

/// An identifier is a hit exactly when some entry with that identifier has a
/// rectangle meeting `q`.
pub proof fn lemma_hits_exact(s: Seq<Entry>, q: Rectangle, id: usize)
    ensures
        hits(s, q).contains(id) <==> exists|k: int|
            0 <= k < s.len() && (#[trigger] s[k]).0 == id && s[k].1.intersects_spec(q),
    decreases s.len(),
{
    if s.len() > 0 {
        let p = s.drop_last();
        lemma_hits_exact(p, q, id);
        if hits(p, q).contains(id) {
            let j = choose|j: int| 0 <= j < hits(p, q).len() && hits(p, q)[j] == id;
            assert(hits(s, q)[j] == id);
        }
        if exists|k: int| 0 <= k < p.len() && (#[trigger] p[k]).0 == id && p[k].1.intersects_spec(q) {
            let k = choose|k: int| 0 <= k < p.len() && (#[trigger] p[k]).0 == id && p[k].1.intersects_spec(q);
            assert(s[k] == p[k]);
        }
        if exists|k: int| 0 <= k < s.len() && (#[trigger] s[k]).0 == id && s[k].1.intersects_spec(q) {
            let k = choose|k: int| 0 <= k < s.len() && (#[trigger] s[k]).0 == id && s[k].1.intersects_spec(q);
            if k < p.len() {
                assert(p[k] == s[k]);
            } else {
                assert(s[k] == s.last());
                assert(hits(s, q) == hits(p, q).push(id));
                assert(hits(s, q)[hits(p, q).len() as int] == id);
            }
        }
        if hits(s, q).contains(id) {
            let j = choose|j: int| 0 <= j < hits(s, q).len() && hits(s, q)[j] == id;
            if s.last().1.intersects_spec(q) && j == hits(p, q).len() {
                assert(s[s.len() - 1] == s.last());
            } else {
                assert(hits(p, q)[j] == id);
            }
        }
    }
}

} // verus!
