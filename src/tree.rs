//! The index: construction, insertion, deletion and range queries.
use vstd::prelude::*;
use vstd::multiset::Multiset;
use crate::geometry::{Point, Rectangle};
use crate::node::{
    Node, Entry, entries, entries_of, all_wf, wf_node, wf_loose, kids, mbr_of, ms, hits,
    rect_of, lemma_hits_exact, compute_mbr, search_all, find_all, collect_all, lemma_entries_push, lemma_entries_remove,
    lemma_entries_single, lemma_contains_concat, lemma_seq_valid, lemma_loose_bound,
};
use crate::split::{choose_subtree, split};

verus! {

broadcast use {
    vstd::std_specs::vec::group_vec_axioms,
    vstd::seq::group_seq_axioms,
    vstd::seq_lib::group_to_multiset_ensures,
};

/// Why an operation on the index was refused.
#[derive(Debug, Clone, Copy, PartialEq, Eq, Structural)]
pub enum RTreeError {
    /// The rectangle's corners are not ordered.
    InvalidGeometry,
    /// The fill parameters do not satisfy `1 <= m <= M / 2`.
    InvalidConfig,
    /// No stored record matches the one to delete.
    NotFound,
}

/// An R-tree over records keyed by `usize` identifiers.
pub struct RTree {
    root: Node,
    max_entries: usize,
    min_entries: usize,
    next_id: usize,
    height: Ghost<nat>,
}

/// The multiset of entries of `a` and `b` together, with `e` added.
proof fn lemma_ms_insert_assoc(a: Multiset<Entry>, b: Multiset<Entry>, e: Entry)
    ensures
        a.add(b.insert(e)) == a.add(b).insert(e),
{
    assert(a.add(b.insert(e)) =~= a.add(b).insert(e));
}

/// Adds `e` below the nodes `cs` of an inner node at height `h`. When the
/// node overflows it is split, `cs` keeping one half and the other returned.
fn insert_into(cs: &mut Vec<Node>, e: Entry, mx: usize, mn: usize, Ghost(h): Ghost<nat>) -> (sib: Option<Vec<Node>>)
    requires
        h >= 1,
        all_wf(old(cs)@, (h - 1) as nat, mx as nat, mn as nat),
        old(cs)@.len() <= mx,
        h > 1 ==> old(cs)@.len() >= 1,
        e.1.valid(),
        1 <= mn,
        2 * mn <= mx,
    ensures
        all_wf(final(cs)@, (h - 1) as nat, mx as nat, mn as nat),
        final(cs)@.len() >= 1,
        final(cs)@.len() <= mx,
        match sib {
            None => {
                &&& final(cs)@.len() >= old(cs)@.len()
                &&& ms(final(cs)@) == ms(old(cs)@).insert(e)
            },
            Some(s) => {
                &&& final(cs)@.len() >= mn
                &&& mn <= s@.len() <= mx
                &&& all_wf(s@, (h - 1) as nat, mx as nat, mn as nat)
                &&& ms(final(cs)@).add(ms(s@)) == ms(old(cs)@).insert(e)
            },
        },
    decreases h,
{
    let ghost o = cs@;
    if cs.len() == 0 || cs[0].is_leaf() {
        proof {
            if cs@.len() > 0 {
                assert(wf_node(cs@[0], (h - 1) as nat, mx as nat, mn as nat));
            }
            lemma_entries_push(cs@, Node::Leaf { tid: e.0, rect: e.1 });
            assert(entries(Node::Leaf { tid: e.0, rect: e.1 }) == seq![e]);
            assert(entries_of(cs@) + seq![e] == entries_of(cs@).push(e));
        }
        cs.push(Node::Leaf { tid: e.0, rect: e.1 });
    } else {
        proof {
            assert(wf_node(cs@[0], (h - 1) as nat, mx as nat, mn as nat));
        }
        let i = choose_subtree(cs, &e.1);
        proof {
            lemma_entries_remove(cs@, i as int);
            assert(wf_node(cs@[i as int], (h - 1) as nat, mx as nat, mn as nat));
        }
        let child = cs.remove(i);
        let ghost rest = cs@;
        assert(all_wf(rest, (h - 1) as nat, mx as nat, mn as nat)) by {
            assert forall|k: int| 0 <= k < rest.len() implies wf_node(#[trigger] rest[k], (h - 1) as nat, mx as nat, mn as nat) by {
                if k < i { assert(rest[k] == o[k]); } else { assert(rest[k] == o[k + 1]); }
            }
        }
        match child {
            Node::Leaf { .. } => {
                proof { assert(false); }
            },
            Node::Inner { rect: _, children: mut gc } => {
                let ghost g0 = gc@;
                let s = insert_into(&mut gc, e, mx, mn, Ghost((h - 1) as nat));
                let ghost g1 = gc@;
                let r = compute_mbr(&gc);
                let a = Node::Inner { rect: r, children: gc };
                proof {
                    lemma_entries_push(cs@, a);
                    vstd::seq_lib::lemma_multiset_commutative(entries_of(cs@), entries(a));
                }
                cs.push(a);
                match s {
                    None => {
                        proof {
                            lemma_ms_insert_assoc(ms(rest), ms(g0), e);
                        }
                    },
                    Some(sv) => {
                        let ghost sg = sv@;
                        let r2 = compute_mbr(&sv);
                        let b = Node::Inner { rect: r2, children: sv };
                        proof {
                            lemma_entries_push(cs@, b);
                            vstd::seq_lib::lemma_multiset_commutative(entries_of(cs@), entries(b));
                            lemma_ms_insert_assoc(ms(rest), ms(g0), e);
                            assert(ms(rest).add(ms(g1)).add(ms(sg)) =~= ms(rest).add(ms(g1).add(ms(sg))));
                        }
                        cs.push(b);
                    },
                }
            },
        }
    }
    if cs.len() > mx {
        let other = split(cs, mn, Ghost((h - 1) as nat), Ghost(mx as nat));
        Some(other)
    } else {
        None
    }
}

impl RTree {
    /// The tree's invariant: valid fill parameters, and a root that is an
    /// inner node at height `height` whose subtrees are all well formed (each
    /// inner node's rectangle is the MBR of its children, each non-root inner
    /// node holds between `m` and `M` children, and all leaf entries lie at
    /// the same depth). A root above height 1 has at least two children.
    pub closed spec fn wf(&self) -> bool {
        &&& 1 <= self.min_entries
        &&& 2 * self.min_entries <= self.max_entries
        &&& wf_loose(self.root, self.height@, self.max_entries as nat, self.min_entries as nat)
        &&& self.height@ > 1 ==> kids(self.root).len() >= 2
    }

    /// The stored records, left to right.
    pub closed spec fn entries(&self) -> Seq<Entry> {
        entries(self.root)
    }

    /// The stored records, as a multiset of `(id, rect)` pairs.
    pub open spec fn content(&self) -> Multiset<Entry> {
        self.entries().to_multiset()
    }

    pub closed spec fn max_spec(&self) -> usize {
        self.max_entries
    }

    pub closed spec fn min_spec(&self) -> usize {
        self.min_entries
    }

    /// The identifier that `insert_auto` hands out next.
    pub closed spec fn next_id_spec(&self) -> usize {
        self.next_id
    }

    pub closed spec fn root_spec(&self) -> Node {
        self.root
    }

    pub closed spec fn height_spec(&self) -> nat {
        self.height@
    }

    /// An empty tree whose non-root nodes hold between `min_entries` and
    /// `max_entries` children.
    pub fn new(max_entries: usize, min_entries: usize) -> (r: Result<RTree, RTreeError>)
        ensures
            (min_entries < 1 || min_entries > max_entries / 2) <==> r is Err,
            r is Err ==> r == Err::<RTree, RTreeError>(RTreeError::InvalidConfig),
            r matches Ok(t) ==> t.wf() && t.entries() == Seq::<Entry>::empty() && t.next_id_spec() == 0
                && t.max_spec() == max_entries && t.min_spec() == min_entries,
    {
        if min_entries < 1 || min_entries > max_entries / 2 {
            return Err(RTreeError::InvalidConfig);
        }
        let z = Rectangle::new(Point::new(0, 0), Point::new(0, 0));
        let t = RTree {
            root: Node::Inner { rect: z, children: Vec::new() },
            max_entries,
            min_entries,
            next_id: 0,
            height: Ghost(1),
        };
        proof {
            assert(entries_of(Seq::<Node>::empty()) =~= Seq::<Entry>::empty());
        }
        Ok(t)
    }

    /// The largest number of children of a node.
    pub fn max_entries(&self) -> (r: usize)
        ensures
            r == self.max_spec(),
    {
        self.max_entries
    }

    /// The smallest number of children of a non-root node.
    pub fn min_entries(&self) -> (r: usize)
        ensures
            r == self.min_spec(),
    {
        self.min_entries
    }

    /// The root node.
    pub fn root(&self) -> (r: &Node)
        ensures
            *r == self.root_spec(),
    {
        &self.root
    }

    /// Adds a valid entry, splitting overflowing nodes up to the root; a split
    /// root gets a new root above the two halves.
    fn insert_entry(&mut self, e: Entry)
        requires
            old(self).wf(),
            e.1.valid(),
        ensures
            final(self).wf(),
            final(self).content() == old(self).content().insert(e),
            final(self).max_spec() == old(self).max_spec(),
            final(self).min_spec() == old(self).min_spec(),
            final(self).next_id_spec() == old(self).next_id_spec(),
    {
        let mx = self.max_entries;
        let mn = self.min_entries;
        let ghost h = self.height@;
        let z = Rectangle::new(Point::new(0, 0), Point::new(0, 0));
        let mut root = Node::Inner { rect: z, children: Vec::new() };
        core::mem::swap(&mut self.root, &mut root);
        match root {
            Node::Leaf { .. } => {
                proof { assert(false); }
            },
            Node::Inner { rect, children: mut cs } => {
                let s = insert_into(&mut cs, e, mx, mn, Ghost(h));
                match s {
                    None => {
                        let r = compute_mbr(&cs);
                        self.root = Node::Inner { rect: r, children: cs };
                        assert(wf_loose(self.root, h, mx as nat, mn as nat));
                    },
                    Some(sv) => {
                        let ra = compute_mbr(&cs);
                        let rb = compute_mbr(&sv);
                        let a = Node::Inner { rect: ra, children: cs };
                        let b = Node::Inner { rect: rb, children: sv };
                        let mut top: Vec<Node> = Vec::new();
                        proof {
                            lemma_entries_single(a);
                            assert(Seq::<Node>::empty().push(a) =~= seq![a]);
                        }
                        top.push(a);
                        proof {
                            lemma_entries_push(top@, b);
                            vstd::seq_lib::lemma_multiset_commutative(entries(a), entries(b));
                        }
                        top.push(b);
                        let r = ra.mbr(&rb);
                        proof {
                            assert(top@.drop_last() =~= seq![a]);
                            assert(top@.last() == b);
                            assert(mbr_of(seq![a]) == ra);
                            assert(mbr_of(top@) == r);
                            assert(wf_node(a, h, mx as nat, mn as nat));
                            assert(wf_node(b, h, mx as nat, mn as nat));
                            assert(top@[0] == a && top@[1] == b);
                        }
                        self.root = Node::Inner { rect: r, children: top };
                        self.height = Ghost(h + 1);
                    },
                }
            },
        }
    }

    /// Stores a record; a rectangle whose corners are not ordered is refused
    /// and leaves the tree unchanged.
    pub fn insert(&mut self, record_id: usize, rect: Rectangle) -> (r: Result<(), RTreeError>)
        requires
            old(self).wf(),
        ensures
            final(self).wf(),
            final(self).max_spec() == old(self).max_spec(),
            final(self).min_spec() == old(self).min_spec(),
            final(self).next_id_spec() == old(self).next_id_spec(),
            rect.valid() <==> r is Ok,
            r is Ok ==> final(self).content() == old(self).content().insert((record_id, rect)),
            r is Err ==> r == Err::<(), RTreeError>(RTreeError::InvalidGeometry) && *final(self) == *old(self),
    {
        if !rect.is_valid() {
            return Err(RTreeError::InvalidGeometry);
        }
        self.insert_entry((record_id, rect));
        Ok(())
    }

    /// Stores a record under the next identifier of the tree's counter and
    /// returns that identifier; the counter then moves on by one.
    pub fn insert_auto(&mut self, rect: Rectangle) -> (r: Result<usize, RTreeError>)
        requires
            old(self).wf(),
            old(self).next_id_spec() < usize::MAX,
        ensures
            final(self).wf(),
            final(self).max_spec() == old(self).max_spec(),
            final(self).min_spec() == old(self).min_spec(),
            rect.valid() <==> r is Ok,
            r matches Ok(id) ==> id == old(self).next_id_spec()
                && final(self).next_id_spec() == id + 1
                && final(self).content() == old(self).content().insert((id, rect)),
            r is Err ==> r == Err::<usize, RTreeError>(RTreeError::InvalidGeometry) && *final(self) == *old(self),
    {
        if !rect.is_valid() {
            return Err(RTreeError::InvalidGeometry);
        }
        let id = self.next_id;
        self.insert_entry((id, rect));
        self.next_id = id + 1;
        Ok(id)
    }

    /// The identifiers of the stored records whose rectangle meets `q`, in
    /// left-to-right order; subtrees whose rectangle misses `q` are skipped.
    pub fn query(&self, q: &Rectangle) -> (r: Vec<usize>)
        requires
            self.wf(),
        ensures
            r@ == hits(self.entries(), *q),
            forall|id: usize| r@.contains(id) <==> exists|k: int|
                0 <= k < self.entries().len() && (#[trigger] self.entries()[k]).0 == id
                    && self.entries()[k].1.intersects_spec(*q),
    {
        let mut out: Vec<usize> = Vec::new();
        match &self.root {
            Node::Leaf { .. } => {
                proof { assert(false); }
            },
            Node::Inner { children, .. } => {
                search_all(children, q, &mut out, Ghost((self.height@ - 1) as nat), Ghost(self.max_entries as nat), Ghost(self.min_entries as nat));
                assert(out@ =~= hits(self.entries(), *q));
                assert forall|id: usize| out@.contains(id) <==> exists|k: int|
                    0 <= k < self.entries().len() && (#[trigger] self.entries()[k]).0 == id
                        && self.entries()[k].1.intersects_spec(*q) by {
                    lemma_hits_exact(self.entries(), *q, id);
                }
            },
        }
        out
    }
}

/// Removes one occurrence of `e` from below the nodes `cs` of an inner node
/// at height `h`. A child left with fewer than `mn` children is removed and
/// the entries below it are appended to `orphans`.
fn delete_from(cs: &mut Vec<Node>, e: &Entry, mx: usize, mn: usize, Ghost(h): Ghost<nat>, orphans: &mut Vec<Entry>)
    requires
        h >= 1,
        all_wf(old(cs)@, (h - 1) as nat, mx as nat, mn as nat),
        old(cs)@.len() <= mx,
        e.1.valid(),
        1 <= mn,
        entries_of(old(cs)@).contains(*e),
        forall|k: int| 0 <= k < old(orphans)@.len() ==> (#[trigger] old(orphans)@[k]).1.valid(),
    ensures
        all_wf(final(cs)@, (h - 1) as nat, mx as nat, mn as nat),
        final(cs)@.len() <= old(cs)@.len(),
        final(cs)@.len() + 1 >= old(cs)@.len(),
        forall|k: int| 0 <= k < final(orphans)@.len() ==> (#[trigger] final(orphans)@[k]).1.valid(),
        ms(final(cs)@).add(final(orphans)@.to_multiset()) == ms(old(cs)@).remove(*e).add(
            old(orphans)@.to_multiset(),
        ),
    decreases h,
{
    let ghost o = cs@;
    let ghost o_orph = orphans@;
    let mut i: usize = 0;
    assert(entries_of(Seq::<Node>::empty()) =~= Seq::<Entry>::empty());
    assert(cs@.subrange(0, 0) =~= Seq::<Node>::empty());
    while i < cs.len()
        invariant
            cs@ == o,
            orphans@ == o_orph,
            o == old(cs)@,
            o_orph == old(orphans)@,
            h >= 1,
            o.len() <= mx,
            entries_of(o).contains(*e),
            forall|k: int| 0 <= k < o_orph.len() ==> (#[trigger] o_orph[k]).1.valid(),
            0 <= i <= cs@.len(),
            all_wf(cs@, (h - 1) as nat, mx as nat, mn as nat),
            1 <= mn,
            e.1.valid(),
            !entries_of(cs@.subrange(0, i as int)).contains(*e),
        decreases cs@.len() - i,
    {
        let ghost pre = cs@.subrange(0, i as int);
        let ghost n = cs@[i as int];
        assert(cs@.subrange(0, i as int + 1) =~= pre.push(n));
        proof {
            lemma_entries_push(pre, n);
            lemma_contains_concat(entries_of(pre), entries(n), *e);
            assert(wf_node(n, (h - 1) as nat, mx as nat, mn as nat));
        }
        let hit = match &cs[i] {
            Node::Leaf { tid, rect } => {
                assert(entries(n) =~= seq![(*tid, *rect)]);
                if *tid == e.0 && *rect == e.1 {
                    assert(entries(n)[0] == *e);
                    true
                } else {
                    false
                }
            },
            Node::Inner { rect, children } => {
                assert(entries(n) == entries_of(children@));
                assert(wf_loose(n, (h - 1) as nat, mx as nat, mn as nat));
                assert(all_wf(children@, (h - 2) as nat, mx as nat, mn as nat));
                if rect.intersects(&e.1) {
                    find_all(children, e, Ghost((h - 2) as nat), Ghost(mx as nat), Ghost(mn as nat))
                } else {
                    proof { crate::node::lemma_node_bound(n, (h - 1) as nat, mx as nat, mn as nat); }
                    false
                }
            },
        };
        if hit {
            proof { lemma_entries_remove(cs@, i as int); }
            let child = cs.remove(i);
            let ghost rest = cs@;
            assert(rest.len() + 1 == o.len());
            assert(child == n);
            assert(all_wf(rest, (h - 1) as nat, mx as nat, mn as nat)) by {
                assert forall|k: int| 0 <= k < rest.len() implies wf_node(#[trigger] rest[k], (h - 1) as nat, mx as nat, mn as nat) by {
                    if k < i { assert(rest[k] == o[k]); } else { assert(rest[k] == o[k + 1]); }
                }
            }
            proof {
                assert(ms(o) == ms(rest).add(entries(n).to_multiset()));
                assert(entries(n).to_multiset().count(*e) > 0);
            }
            match child {
                Node::Leaf { .. } => {
                    proof {
                        assert(entries(n) =~= seq![*e]);
                        assert(seq![*e] =~= Seq::<Entry>::empty().push(*e));
                        assert(entries(n).to_multiset() =~= Multiset::<Entry>::empty().insert(*e));
                        assert(ms(o).remove(*e) =~= ms(rest));
                        assert(ms(cs@).add(orphans@.to_multiset()) =~= ms(o).remove(*e).add(o_orph.to_multiset()));
                    }
                },
                Node::Inner { rect: _, children: mut gc } => {
                    let ghost g0 = gc@;
                    proof {
                        assert(entries(n) == entries_of(g0));
                        assert(ms(g0).count(*e) > 0);
                        assert(ms(o).remove(*e) =~= ms(rest).add(ms(g0).remove(*e)));
                    }
                    delete_from(&mut gc, e, mx, mn, Ghost((h - 1) as nat), orphans);
                    let ghost g1 = gc@;
                    let ghost orph1 = orphans@;
                    if gc.len() < mn {
                        proof { lemma_seq_valid(gc@, (h - 2) as nat, mx as nat, mn as nat); }
                        collect_all(&gc, orphans);
                        proof {
                            vstd::seq_lib::lemma_multiset_commutative(orph1, entries_of(g1));
                            assert(orphans@ == orph1 + entries_of(g1));
                            assert(cs@ == rest);
                            assert(orphans@.to_multiset() == orph1.to_multiset().add(ms(g1)));
                            assert(ms(g1).add(orph1.to_multiset()) == ms(g0).remove(*e).add(o_orph.to_multiset()));
                            assert forall|k: int| 0 <= k < orphans@.len() implies (#[trigger] orphans@[k]).1.valid() by {
                                if k >= orph1.len() {
                                    assert(orphans@[k] == entries_of(g1)[k - orph1.len()]);
                                }
                            }
                            let ma = ms(rest);
                            let mb = orph1.to_multiset();
                            let mc = ms(g1);
                            let md = ms(g0).remove(*e);
                            let me = o_orph.to_multiset();
                            assert(mb.add(mc) =~= mc.add(mb));
                            assert(ma.add(md.add(me)) =~= ma.add(md).add(me));
                            assert(ms(cs@).add(orphans@.to_multiset()) == ma.add(mc.add(mb)));
                            assert(ms(cs@).add(orphans@.to_multiset()) =~= ms(o).remove(*e).add(o_orph.to_multiset()));
                        }
                    } else {
                        let r = compute_mbr(&gc);
                        let a = Node::Inner { rect: r, children: gc };
                        proof {
                            lemma_entries_push(cs@, a);
                            vstd::seq_lib::lemma_multiset_commutative(entries_of(cs@), entries(a));
                        }
                        cs.push(a);
                        proof {
                            assert(orphans@ == orph1);
                            assert(ms(g1).add(orph1.to_multiset()) == ms(g0).remove(*e).add(o_orph.to_multiset()));
                            assert(ms(cs@) == ms(rest).add(ms(g1)));
                            let ma = ms(rest);
                            let mb = orph1.to_multiset();
                            let mc = ms(g1);
                            let md = ms(g0).remove(*e);
                            let me = o_orph.to_multiset();
                            assert(ma.add(mc).add(mb) =~= ma.add(mc.add(mb)));
                            assert(ma.add(md.add(me)) =~= ma.add(md).add(me));
                            assert(ms(cs@).add(orphans@.to_multiset()) =~= ms(o).remove(*e).add(o_orph.to_multiset()));
                        }
                    }
                },
            }
            assert(cs@.len() <= o.len() && cs@.len() + 1 >= o.len());
            return;
        }
        i = i + 1;
    }
    proof {
        assert(cs@.subrange(0, cs@.len() as int) =~= cs@);
    }
}

impl RTree {
    /// Removes one stored record equal to `(record_id, rect)`. Underfull
    /// nodes on the way are removed and their entries reinserted, and a root
    /// left with a single inner child is replaced by that child. When no such
    /// record is stored the tree is left unchanged.
    pub fn delete(&mut self, record_id: usize, rect: Rectangle) -> (r: Result<(), RTreeError>)
        requires
            old(self).wf(),
        ensures
            final(self).wf(),
            final(self).max_spec() == old(self).max_spec(),
            final(self).min_spec() == old(self).min_spec(),
            final(self).next_id_spec() == old(self).next_id_spec(),
            old(self).content().contains((record_id, rect)) <==> r is Ok,
            r is Ok ==> final(self).content() == old(self).content().remove((record_id, rect)),
            r is Err ==> r == Err::<(), RTreeError>(RTreeError::NotFound) && *final(self) == *old(self),
    {
        let e: Entry = (record_id, rect);
        let mx = self.max_entries;
        let mn = self.min_entries;
        let ghost h = self.height@;
        let ghost target = self.content().remove(e);
        proof {
            lemma_loose_bound(self.root, h, mx as nat, mn as nat);
        }
        if !rect.is_valid() {
            proof {
                if self.entries().contains(e) {
                    let k = choose|k: int| 0 <= k < self.entries().len() && self.entries()[k] == e;
                    assert(self.entries()[k].1.valid());
                }
            }
            return Err(RTreeError::NotFound);
        }
        let found = match &self.root {
            Node::Leaf { .. } => false,
            Node::Inner { children, .. } => find_all(children, &e, Ghost((h - 1) as nat), Ghost(mx as nat), Ghost(mn as nat)),
        };
        if !found {
            return Err(RTreeError::NotFound);
        }
        let z = Rectangle::new(Point::new(0, 0), Point::new(0, 0));
        let mut root = Node::Inner { rect: z, children: Vec::new() };
        core::mem::swap(&mut self.root, &mut root);
        match root {
            Node::Leaf { .. } => {
                proof { assert(false); }
            },
            Node::Inner { rect: _, children: mut cs } => {
                let mut orphans: Vec<Entry> = Vec::new();
                delete_from(&mut cs, &e, mx, mn, Ghost(h), &mut orphans);
                proof {
                    assert(ms(cs@).add(orphans@.to_multiset()) =~= target);
                }
                let ghost kept = ms(cs@);
                let ghost mut hh: nat = h;
                while cs.len() == 1 && !cs[0].is_leaf()
                    invariant
                        hh >= 1,
                        1 <= mn,
                        2 * mn <= mx,
                        all_wf(cs@, (hh - 1) as nat, mx as nat, mn as nat),
                        cs@.len() <= mx,
                        hh > 1 ==> cs@.len() >= 1,
                        ms(cs@) == kept,
                    decreases hh,
                {
                    proof {
                        assert(wf_node(cs@[0], (hh - 1) as nat, mx as nat, mn as nat));
                        lemma_entries_single(cs@[0]);
                        assert(cs@ =~= seq![cs@[0]]);
                    }
                    let c = cs.pop().unwrap();
                    match c {
                        Node::Leaf { .. } => {
                            proof { assert(false); }
                        },
                        Node::Inner { rect: _, children: g } => {
                            cs = g;
                            proof { hh = (hh - 1) as nat; }
                        },
                    }
                }
                proof {
                    if hh > 1 && cs@.len() == 1 {
                        assert(wf_node(cs@[0], (hh - 1) as nat, mx as nat, mn as nat));
                    }
                }
                let r = if cs.len() > 0 { compute_mbr(&cs) } else { z };
                self.root = Node::Inner { rect: r, children: cs };
                self.height = Ghost(hh);
                proof {
                    assert(self.entries() == entries_of(cs@));
                    assert(wf_loose(self.root, hh, mx as nat, mn as nat));
                    assert(hh > 1 ==> kids(self.root).len() >= 2);
                    assert(self.max_entries == mx && self.min_entries == mn);
                }
                while orphans.len() > 0
                    invariant
                        self.wf(),
                        self.max_spec() == mx,
                        self.min_spec() == mn,
                        self.next_id_spec() == old(self).next_id_spec(),
                        self.content().add(orphans@.to_multiset()) == target,
                        forall|k: int| 0 <= k < orphans@.len() ==> (#[trigger] orphans@[k]).1.valid(),
                    decreases orphans@.len(),
                {
                    let ghost before = orphans@;
                    let x = orphans.pop().unwrap();
                    proof {
                        assert(before =~= orphans@.push(x));
                        assert(before[before.len() - 1] == x);
                    }
                    self.insert_entry(x);
                    proof {
                        assert(self.content().add(orphans@.to_multiset()) =~= target);
                    }
                }
                proof {
                    vstd::seq_lib::to_multiset_len(orphans@);
                    vstd::multiset::lemma_multiset_empty_len(orphans@.to_multiset());
                    assert(self.content() =~= target);
                }
            },
        }
        Ok(())
    }
}

/// Every stored record's rectangle lies within the root's rectangle, and
/// every stored rectangle is valid.
pub proof fn lemma_root_covers_records(t: &RTree)
    requires
        t.wf(),
    ensures
        forall|k: int|
            0 <= k < t.entries().len() ==> rect_of(t.root_spec()).contains_rect_spec(
                (#[trigger] t.entries()[k]).1,
            ) && t.entries()[k].1.valid(),
{
    lemma_loose_bound(t.root, t.height@, t.max_entries as nat, t.min_entries as nat);
}

/// The tree's structure: the root is an inner node at the tree's height with
/// at most `M` children, each inner node's rectangle equals the MBR of its
/// children, every inner node below the root holds between `m` and `M`
/// children, and every leaf entry lies at depth `height` (see `wf_loose` and
/// `wf_node`).
pub proof fn lemma_structure(t: &RTree)
    requires
        t.wf(),
    ensures
        wf_loose(t.root_spec(), t.height_spec(), t.max_spec() as nat, t.min_spec() as nat),
        1 <= t.min_spec(),
        2 * t.min_spec() <= t.max_spec(),
        t.height_spec() > 1 ==> kids(t.root_spec()).len() >= 2,
{
}

/// Inserting a record and then deleting it gives back the records held
/// before the insertion.
pub proof fn lemma_insert_then_delete(t0: &RTree, t1: &RTree, t2: &RTree, e: Entry)
    requires
        t1.content() == t0.content().insert(e),
        t2.content() == t1.content().remove(e),
    ensures
        t2.content() == t0.content(),
        t1.content().contains(e),
{
    assert(t0.content().insert(e).remove(e) =~= t0.content());
}

} // verus!
