//! Subtree choice and the quadratic split of an overflowing node.
use vstd::prelude::*;
use crate::geometry::Rectangle;
use crate::node::{Node, Entry, entries, entries_of, all_wf, wf_node, rect_of, lemma_entries_push, lemma_entries_remove};

verus! {

broadcast use {vstd::std_specs::vec::group_vec_axioms, vstd::seq::group_seq_axioms};

/// How much the area of `r` grows when it is made to cover `add`.
pub open spec fn enlargement_spec(r: Rectangle, add: Rectangle) -> int {
    r.mbr_spec(add).area_spec() - r.area_spec()
}

/// Number of children of a node (zero for a leaf).
pub open spec fn fanout_spec(n: Node) -> int {
    match n {
        Node::Leaf { .. } => 0,
        Node::Inner { children, .. } => children@.len() as int,
    }
}

/// The preference of `n` as a home for `r`: enlargement, then resulting
/// area, then number of children; smaller is better.
pub open spec fn cost(n: Node, r: Rectangle) -> (int, int, int) {
    (enlargement_spec(rect_of(n), r), rect_of(n).mbr_spec(r).area_spec(), fanout_spec(n))
}

/// Lexicographic order on costs.
pub open spec fn cost_lt(a: (int, int, int), b: (int, int, int)) -> bool {
    a.0 < b.0 || (a.0 == b.0 && (a.1 < b.1 || (a.1 == b.1 && a.2 < b.2)))
}

fn enlargement(r: &Rectangle, add: &Rectangle) -> (e: i128)
    ensures
        e == enlargement_spec(*r, *add),
{
    let m = r.mbr(add);
    m.area() - r.area()
}

fn fanout(n: &Node) -> (c: usize)
    ensures
        c == fanout_spec(*n),
{
    match n {
        Node::Leaf { .. } => 0,
        Node::Inner { children, .. } => children.len(),
    }
}

/// Picks the child needing the least area enlargement to cover `r`; ties go
/// to the smaller resulting area, then the fewer entries, then the lower index.
pub(crate) fn choose_subtree(cs: &Vec<Node>, r: &Rectangle) -> (i: usize)
    requires
        cs@.len() > 0,
    ensures
        i < cs@.len(),
        forall|j: int| 0 <= j < cs@.len() ==> !cost_lt(cost(#[trigger] cs@[j], *r), cost(cs@[i as int], *r)),
        forall|j: int| 0 <= j < i ==> cost_lt(cost(cs@[i as int], *r), cost(#[trigger] cs@[j], *r)),
{
    let mut best: usize = 0;
    let mut best_enl = enlargement(&cs[0].rect(), r);
    let mut best_area = cs[0].rect().mbr(r).area();
    let mut best_cnt = fanout(&cs[0]);
    let mut i: usize = 1;
    while i < cs.len()
        invariant
            1 <= i <= cs@.len(),
            best < i,
            cost(cs@[best as int], *r) == (best_enl as int, best_area as int, best_cnt as int),
            forall|j: int| 0 <= j < i ==> !cost_lt(cost(#[trigger] cs@[j], *r), cost(cs@[best as int], *r)),
            forall|j: int| 0 <= j < best ==> cost_lt(cost(cs@[best as int], *r), cost(#[trigger] cs@[j], *r)),
        decreases cs@.len() - i,
    {
        let c = cs[i].rect();
        let enl = enlargement(&c, r);
        let area = c.mbr(r).area();
        let cnt = fanout(&cs[i]);
        if enl < best_enl || (enl == best_enl && (area < best_area || (area == best_area
            && cnt < best_cnt))) {
            best = i;
            best_enl = enl;
            best_area = area;
            best_cnt = cnt;
        }
        i = i + 1;
    }
    best
}

/// Area wasted by covering two rectangles with one.
fn waste(a: &Rectangle, b: &Rectangle) -> i128 {
    a.mbr(b).area() - a.area() - b.area()
}

/// Splits the nodes of `cs` into two groups of at least `mn` nodes each: the
/// pair wasting the most area seeds the groups, and each remaining node goes
/// to the group enlarged least, unless a group needs all that remain to reach
/// `mn`. `cs` keeps the first group; the second is returned.
pub(crate) fn split(cs: &mut Vec<Node>, mn: usize, Ghost(h): Ghost<nat>, Ghost(mx): Ghost<nat>) -> (other: Vec<Node>)
    requires
        old(cs)@.len() >= 2,
        mn >= 1,
        2 * mn <= old(cs)@.len(),
        all_wf(old(cs)@, h, mx, mn as nat),
    ensures
        final(cs)@.len() >= mn,
        other@.len() >= mn,
        final(cs)@.len() + other@.len() == old(cs)@.len(),
        all_wf(final(cs)@, h, mx, mn as nat),
        all_wf(other@, h, mx, mn as nat),
        entries_of(final(cs)@).to_multiset().add(entries_of(other@).to_multiset())
            == entries_of(old(cs)@).to_multiset(),
{
    let ghost orig = cs@;
    let n = cs.len();
    let mut si: usize = 0;
    let mut sj: usize = 1;
    let mut best = waste(&cs[0].rect(), &cs[1].rect());
    let mut i: usize = 0;
    while i < n
        invariant
            n == cs@.len(),
            si < sj < n,
        decreases n - i,
    {
        let mut j: usize = i + 1;
        while j < n
            invariant
                n == cs@.len(),
                i < j <= n,
                si < sj < n,
            decreases n - j,
        {
            let w = waste(&cs[i].rect(), &cs[j].rect());
            if w > best {
                best = w;
                si = i;
                sj = j;
            }
            j = j + 1;
        }
        i = i + 1;
    }
    let mut rest: Vec<Node> = Vec::new();
    core::mem::swap(cs, &mut rest);
    proof { lemma_entries_remove(rest@, sj as int); }
    let b = rest.remove(sj);
    proof { lemma_entries_remove(rest@, si as int); }
    let a = rest.remove(si);
    let mut r1 = a.rect();
    let mut r2 = b.rect();
    let mut g1: Vec<Node> = Vec::new();
    let mut g2: Vec<Node> = Vec::new();
    proof {
        lemma_entries_push(g1@, a);
        lemma_entries_push(g2@, b);
        assert(entries_of(g1@) =~= Seq::<Entry>::empty());
    }
    g1.push(a);
    g2.push(b);
    proof {
        let e1 = entries_of(g1@).to_multiset();
        let e2 = entries_of(g2@).to_multiset();
        let er = entries_of(rest@).to_multiset();
        assert(Seq::<Entry>::empty() + entries(a) =~= entries(a));
        assert(Seq::<Entry>::empty() + entries(b) =~= entries(b));
        assert(e1.add(e2).add(er) =~= entries_of(orig).to_multiset());
    }
    while rest.len() > 0
        invariant
            g1@.len() + g2@.len() + rest@.len() == orig.len(),
            orig.len() == n,
            g1@.len() + rest@.len() >= mn,
            g2@.len() + rest@.len() >= mn,
            2 * mn <= orig.len(),
            all_wf(g1@, h, mx, mn as nat),
            all_wf(g2@, h, mx, mn as nat),
            all_wf(rest@, h, mx, mn as nat),
            entries_of(g1@).to_multiset().add(entries_of(g2@).to_multiset()).add(
                entries_of(rest@).to_multiset(),
            ) == entries_of(orig).to_multiset(),
        decreases rest@.len(),
    {
        let k = rest.len();
        let ghost before = rest@;
        let x = match rest.pop() {
            Some(x) => x,
            None => { return g2; },
        };
        proof {
            assert(before.drop_last() == rest@);
            assert(before[before.len() - 1] == x);
            vstd::seq_lib::lemma_multiset_commutative(entries_of(rest@), entries(x));
        }
        let to_first = if g1.len() + k <= mn {
            true
        } else if g2.len() + k <= mn {
            false
        } else {
            let xr = x.rect();
            let e1 = enlargement(&r1, &xr);
            let e2 = enlargement(&r2, &xr);
            if e1 != e2 {
                e1 < e2
            } else {
                let a1 = r1.area();
                let a2 = r2.area();
                if a1 != a2 {
                    a1 < a2
                } else {
                    g1.len() <= g2.len()
                }
            }
        };
        let ghost ex = entries(x).to_multiset();
        let ghost er = entries_of(rest@).to_multiset();
        if to_first {
            proof { lemma_entries_push(g1@, x); vstd::seq_lib::lemma_multiset_commutative(entries_of(g1@), entries(x)); }
            r1 = r1.mbr(&x.rect());
            g1.push(x);
            proof {
                let e2 = entries_of(g2@).to_multiset();
                let e1p = entries_of(g1@.drop_last()).to_multiset();
                assert(g1@.drop_last() =~= g1@.subrange(0, g1@.len() - 1));
                assert(e1p.add(ex).add(e2).add(er) =~= e1p.add(e2).add(er.add(ex)));
            }
        } else {
            proof { lemma_entries_push(g2@, x); vstd::seq_lib::lemma_multiset_commutative(entries_of(g2@), entries(x)); }
            r2 = r2.mbr(&x.rect());
            g2.push(x);
            proof {
                let e1 = entries_of(g1@).to_multiset();
                let e2p = entries_of(g2@.drop_last()).to_multiset();
                assert(e1.add(e2p.add(ex)).add(er) =~= e1.add(e2p).add(er.add(ex)));
            }
        }
    }
    proof {
        assert(entries_of(rest@) =~= Seq::<Entry>::empty());
        vstd::seq_lib::to_multiset_len(entries_of(rest@));
        vstd::multiset::lemma_multiset_empty_len(entries_of(rest@).to_multiset());
        assert(entries_of(g1@).to_multiset().add(entries_of(g2@).to_multiset()).add(
            entries_of(rest@).to_multiset()) =~= entries_of(g1@).to_multiset().add(entries_of(g2@).to_multiset()));
    }
    *cs = g1;
    g2
}

} // verus!
