//! Graph distances from a declared root, built by breadth-first search over
//! the linked maze graph, with shortest-path reconstruction and a
//! farthest-point query.

use vstd::prelude::*;
use vstd::set_lib::lemma_int_range;
use vstd::set_lib::lemma_len_subset;
use vstd::set_lib::set_int_range;

use crate::cell::spec_links;
use crate::grid::Grid;
use crate::grid::cell_flag_count;
use crate::grid::grid_links_wf;
use crate::grid::lemma_link_connected_sym;
use crate::grid::lemma_link_connected_trans;
use crate::grid::lemma_present_cell_in_bounds;
use crate::grid::link_connected;
use crate::grid::linked_path;
use crate::grid::links_flag_count;
use crate::grid::present_count;
use crate::grid::spanning;
use crate::grid::grid_wf;
use crate::grid::in_bounds;
use crate::grid::index_of;
use crate::grid::lemma_get_point;
use crate::grid::lemma_index_of_in_bounds;
use crate::grid::lemma_index_of_injective;
use crate::grid::lemma_links_sym;
use crate::grid::spec_get;
use crate::point::Point;

verus! {

/// A mapping from visited points to their distance (in links) from `root`.
/// Unreached points are absent, never zero.
#[derive(Debug, Clone, PartialEq, Eq)]
pub struct Distances {
    pub root: Point,
    cells: Vec<(Point, usize)>,
}

/// The map an association list denotes: later entries win, though the
/// library never records a key twice.
pub open spec fn assoc_map(s: Seq<(Point, usize)>) -> Map<Point, usize>
    decreases s.len(),
{
    if s.len() == 0 {
        Map::empty()
    } else {
        assoc_map(s.drop_last()).insert(s.last().0, s.last().1)
    }
}

/// The entries carry pairwise distinct points.
pub open spec fn entries_distinct(s: Seq<(Point, usize)>) -> bool {
    forall|i: int, j: int| 0 <= i < j < s.len() ==> (#[trigger] s[i]).0 != (#[trigger] s[j]).0
}

impl View for Distances {
    type V = Map<Point, usize>;

    closed spec fn view(&self) -> Map<Point, usize> {
        assoc_map(self.cells@)
    }
}

/// Every carved passage out of the recorded point `p` leads to a recorded
/// point at most one hop farther from the root.
pub open spec fn bfs_closed_at(
    w: int,
    h: int,
    cells: Seq<Option<crate::cell::Cell>>,
    m: Map<Point, usize>,
    p: Point,
) -> bool {
    forall|q: Point|
        #[trigger] spec_links(spec_get(w, h, cells, p)->Some_0).contains(q) ==> m.contains_key(q)
            && m[q] <= m[p] + 1
}

/// What breadth-first search from `root` over the linked graph of the grid
/// leaves behind: the root at distance zero; every other recorded point an
/// existing cell, reached from some recorded predecessor by one link and one
/// extra hop; and the record closed under links, which never skip a level.
pub open spec fn is_bfs_map(
    w: int,
    h: int,
    cells: Seq<Option<crate::cell::Cell>>,
    root: Point,
    m: Map<Point, usize>,
) -> bool {
    &&& m.contains_key(root)
    &&& m[root] == 0
    &&& forall|p: Point|
        #[trigger] m.contains_key(p) && p != root ==> spec_get(w, h, cells, p) is Some
    &&& forall|p: Point|
        #[trigger] m.contains_key(p) && p != root ==> exists|q: Point|
            m.contains_key(q) && m[p] == m[q] + 1 && spec_get(w, h, cells, q) is Some
                && spec_links(spec_get(w, h, cells, q)->Some_0).contains(p)
    &&& forall|p: Point|
        #[trigger] m.contains_key(p) && spec_get(w, h, cells, p) is Some ==> bfs_closed_at(
            w,
            h,
            cells,
            m,
            p,
        )
}

/// The running state of the search: the record is a queue, `settled` many of
/// its entries fully explored.  Every entry after the first (the root at
/// distance zero) is an existing cell one carved hop past some earlier
/// entry; distances never decrease along the queue and never trail the entry
/// under exploration by more than one hop.
#[verifier::opaque]
pub open spec fn bfs_entries_wf(
    w: int,
    h: int,
    gc: Seq<Option<crate::cell::Cell>>,
    root: Point,
    s: Seq<(Point, usize)>,
    settled: int,
) -> bool {
    &&& s.len() >= 1
    &&& s[0].0 == root
    &&& s[0].1 == 0
    &&& 0 <= settled <= s.len()
    &&& forall|i: int| 0 < i < s.len() ==> spec_get(w, h, gc, (#[trigger] s[i]).0) is Some
    &&& forall|i: int|
        0 < i < s.len() ==> exists|j: int|
            0 <= j < i && (#[trigger] s[i]).1 == s[j].1 + 1 && spec_get(
                w,
                h,
                gc,
                s[j].0,
            ) is Some && spec_links(spec_get(w, h, gc, s[j].0)->Some_0).contains(s[i].0)
    &&& forall|i: int, j: int|
        0 <= i <= j < s.len() ==> (#[trigger] s[i]).1 <= (#[trigger] s[j]).1
    &&& forall|i: int| 0 <= i < s.len() ==> (#[trigger] s[i]).1 < s.len()
    &&& (settled < s.len() ==> forall|i: int|
        0 <= i < s.len() ==> (#[trigger] s[i]).1 <= s[settled].1 + 1)
}

/// The settled prefix of the queue is closed: every passage out of an
/// explored entry leads to a recorded point at most one hop farther.
#[verifier::opaque]
pub open spec fn bfs_settled_ok(
    w: int,
    h: int,
    gc: Seq<Option<crate::cell::Cell>>,
    s: Seq<(Point, usize)>,
    settled: int,
) -> bool {
    forall|i: int|
        0 <= i < settled ==> (spec_get(w, h, gc, (#[trigger] s[i]).0) is Some ==> bfs_closed_at(
            w,
            h,
            gc,
            assoc_map(s),
            s[i].0,
        ))
}

/// The accounting that bounds the queue: every entry after the root sits at
/// a distinct in-bounds slot index, collected in `used`.
#[verifier::opaque]
pub open spec fn bfs_used_ok(w: int, h: int, s: Seq<(Point, usize)>, used: Set<int>) -> bool {
    &&& used.finite()
    &&& used.subset_of(set_int_range(0, w * h))
    &&& forall|i: int|
        #[trigger] used.contains(i) ==> exists|k: int|
            0 < k < s.len() && in_bounds(w, h, s[k].0) && index_of(w, s[k].0) == i
    &&& forall|k: int|
        0 < k < s.len() ==> in_bounds(w, h, (#[trigger] s[k]).0) && used.contains(
            index_of(w, s[k].0),
        )
}

/// Appending an entry denotes inserting it into the map.
pub proof fn lemma_assoc_map_push(s: Seq<(Point, usize)>, e: (Point, usize))
    ensures
        assoc_map(s.push(e)) == assoc_map(s).insert(e.0, e.1),
{
    let s2 = s.push(e);
    assert(s2.drop_last() =~= s);
    assert(s2.last() == e);
}

/// A key absent from the denoted map stands on no entry at all.
pub proof fn lemma_assoc_map_entries_ne(s: Seq<(Point, usize)>, p: Point)
    requires
        entries_distinct(s),
        !assoc_map(s).contains_key(p),
    ensures
        forall|i: int| 0 <= i < s.len() ==> (#[trigger] s[i]).0 != p,
{
    assert forall|i: int| 0 <= i < s.len() implies (#[trigger] s[i]).0 != p by {
        if s[i].0 == p {
            lemma_assoc_map_found(s, i);
        }
    }
}

/// If entry `i` of a duplicate-free association list holds `p`, the denoted
/// map records `p` with that entry's value.
pub proof fn lemma_assoc_map_found(s: Seq<(Point, usize)>, i: int)
    requires
        0 <= i < s.len(),
        entries_distinct(s),
    ensures
        assoc_map(s).contains_key(s[i].0),
        assoc_map(s)[s[i].0] == s[i].1,
    decreases s.len(),
{
    if i == s.len() - 1 {
    } else {
        lemma_assoc_map_found(s.drop_last(), i);
        assert(s.drop_last()[i] == s[i]);
        assert(s.last().0 != s[i].0);
    }
}

/// A point on no entry of the association list is absent from the denoted
/// map.
pub proof fn lemma_assoc_map_absent(s: Seq<(Point, usize)>, p: Point)
    requires
        forall|j: int| 0 <= j < s.len() ==> (#[trigger] s[j]).0 != p,
    ensures
        !assoc_map(s).contains_key(p),
    decreases s.len(),
{
    if s.len() > 0 {
        lemma_assoc_map_absent(s.drop_last(), p);
    }
}

/// Every key of the denoted map stands on some entry of the list.
pub proof fn lemma_assoc_map_key_has_entry(s: Seq<(Point, usize)>, p: Point)
    requires
        assoc_map(s).contains_key(p),
    ensures
        exists|i: int| 0 <= i < s.len() && (#[trigger] s[i]).0 == p,
    decreases s.len(),
{
    if s.len() > 0 {
        if s.last().0 == p {
            assert(s[s.len() - 1].0 == p);
        } else {
            lemma_assoc_map_key_has_entry(s.drop_last(), p);
            let i = choose|i: int|
                0 <= i < s.drop_last().len() && (#[trigger] s.drop_last()[i]).0 == p;
            assert(s[i].0 == p);
        }
    }
}

/// Recording one more, previously unrecorded point disturbs no closure fact
/// already established.
pub proof fn lemma_closed_at_mono(
    w: int,
    h: int,
    gc: Seq<Option<crate::cell::Cell>>,
    m: Map<Point, usize>,
    link: Point,
    v: usize,
    p: Point,
)
    requires
        m.contains_key(p),
        !m.contains_key(link),
        bfs_closed_at(w, h, gc, m, p),
    ensures
        bfs_closed_at(w, h, gc, m.insert(link, v), p),
{
    let m2 = m.insert(link, v);
    assert forall|q: Point|
        #[trigger] spec_links(spec_get(w, h, gc, p)->Some_0).contains(q) implies m2.contains_key(q)
        && m2[q] <= m2[p] + 1 by {
        assert(m.contains_key(q) && m[q] <= m[p] + 1);
    }
}

/// A one-entry queue holding the root at distance zero is a valid starting
/// state.
pub proof fn lemma_bfs_start(
    w: int,
    h: int,
    gc: Seq<Option<crate::cell::Cell>>,
    root: Point,
    s: Seq<(Point, usize)>,
)
    requires
        s.len() == 1,
        s[0].0 == root,
        s[0].1 == 0,
    ensures
        bfs_entries_wf(w, h, gc, root, s, 0),
        bfs_settled_ok(w, h, gc, s, 0),
        bfs_used_ok(w, h, s, Set::<int>::empty()),
{
    reveal(bfs_entries_wf);
    reveal(bfs_settled_ok);
    reveal(bfs_used_ok);
}

/// While exploring entry `qi`, a recorded point can lie at most one hop past
/// it.
pub proof fn lemma_bfs_value_bound(
    w: int,
    h: int,
    gc: Seq<Option<crate::cell::Cell>>,
    root: Point,
    s: Seq<(Point, usize)>,
    qi: int,
    p: Point,
)
    requires
        entries_distinct(s),
        bfs_entries_wf(w, h, gc, root, s, qi),
        0 <= qi < s.len(),
        assoc_map(s).contains_key(p),
    ensures
        assoc_map(s)[p] <= s[qi].1 + 1,
{
    reveal(bfs_entries_wf);
    lemma_assoc_map_key_has_entry(s, p);
    let i = choose|i: int| 0 <= i < s.len() && (#[trigger] s[i]).0 == p;
    lemma_assoc_map_found(s, i);
}

/// Appending an entry with a point no earlier entry holds keeps the entries
/// distinct.
pub proof fn lemma_entries_distinct_push(s: Seq<(Point, usize)>, e: (Point, usize))
    requires
        entries_distinct(s),
        forall|i: int| 0 <= i < s.len() ==> (#[trigger] s[i]).0 != e.0,
    ensures
        entries_distinct(s.push(e)),
{
    let s2 = s.push(e);
    assert forall|i: int, j: int|
        0 <= i < j < s2.len() implies (#[trigger] s2[i]).0 != (#[trigger] s2[j]).0 by {
        if j < s.len() {
            assert(s2[i] == s[i] && s2[j] == s[j]);
        } else {
            assert(s2[i] == s[i] && s2[j] == e);
        }
    }
}

/// Appending a fresh point, one carved hop past the entry under exploration,
/// keeps the queue entries valid.
#[verifier::rlimit(60)]
pub proof fn lemma_bfs_push_entries(
    w: int,
    h: int,
    gc: Seq<Option<crate::cell::Cell>>,
    root: Point,
    s: Seq<(Point, usize)>,
    qi: int,
    link: Point,
)
    requires
        bfs_entries_wf(w, h, gc, root, s, qi),
        0 <= qi < s.len(),
        s.len() <= usize::MAX,
        spec_get(w, h, gc, s[qi].0) is Some,
        spec_links(spec_get(w, h, gc, s[qi].0)->Some_0).contains(link),
        spec_get(w, h, gc, link) is Some,
    ensures
        bfs_entries_wf(w, h, gc, root, s.push((link, (s[qi].1 + 1) as usize)), qi),
{
    reveal(bfs_entries_wf);
    let v = (s[qi].1 + 1) as usize;
    let s2 = s.push((link, v));
    assert forall|i: int|
        0 < i < s2.len() implies exists|j: int|
        0 <= j < i && (#[trigger] s2[i]).1 == s2[j].1 + 1 && spec_get(w, h, gc, s2[j].0) is Some
            && spec_links(spec_get(w, h, gc, s2[j].0)->Some_0).contains(s2[i].0) by {
        if i == s.len() {
            assert(s2[qi] == s[qi]);
            assert(0 <= qi < i && s2[i].1 == s2[qi].1 + 1 && spec_get(
                w,
                h,
                gc,
                s2[qi].0,
            ) is Some && spec_links(spec_get(w, h, gc, s2[qi].0)->Some_0).contains(s2[i].0));
        } else {
            let j = choose|j: int|
                0 <= j < i && (#[trigger] s[i]).1 == s[j].1 + 1 && spec_get(
                    w,
                    h,
                    gc,
                    s[j].0,
                ) is Some && spec_links(spec_get(w, h, gc, s[j].0)->Some_0).contains(s[i].0);
            assert(s2[j] == s[j] && s2[i] == s[i]);
        }
    }
}

/// Appending a point the settled prefix never recorded keeps that prefix
/// closed.
pub proof fn lemma_bfs_push_settled(
    w: int,
    h: int,
    gc: Seq<Option<crate::cell::Cell>>,
    s: Seq<(Point, usize)>,
    settled: int,
    e: (Point, usize),
)
    requires
        entries_distinct(s),
        bfs_settled_ok(w, h, gc, s, settled),
        settled <= s.len(),
        !assoc_map(s).contains_key(e.0),
    ensures
        bfs_settled_ok(w, h, gc, s.push(e), settled),
{
    reveal(bfs_settled_ok);
    let s2 = s.push(e);
    lemma_assoc_map_push(s, e);
    assert forall|i: int|
        0 <= i < settled implies (spec_get(w, h, gc, (#[trigger] s2[i]).0) is Some
        ==> bfs_closed_at(w, h, gc, assoc_map(s2), s2[i].0)) by {
        assert(s2[i] == s[i]);
        if spec_get(w, h, gc, s[i].0) is Some {
            lemma_assoc_map_found(s, i);
            lemma_closed_at_mono(w, h, gc, assoc_map(s), e.0, e.1, s[i].0);
        }
    }
}

/// A fresh in-bounds point occupies a slot index the accounting has not seen
/// yet, which bounds the queue by the lattice size.
pub proof fn lemma_bfs_push_used(
    w: int,
    h: int,
    s: Seq<(Point, usize)>,
    used: Set<int>,
    e: (Point, usize),
)
    requires
        s.len() >= 1,
        bfs_used_ok(w, h, s, used),
        in_bounds(w, h, e.0),
        forall|i: int| 0 <= i < s.len() ==> (#[trigger] s[i]).0 != e.0,
    ensures
        !used.contains(index_of(w, e.0)),
        bfs_used_ok(w, h, s.push(e), used.insert(index_of(w, e.0))),
        used.insert(index_of(w, e.0)).len() == used.len() + 1,
        used.insert(index_of(w, e.0)).len() <= w * h,
{
    reveal(bfs_used_ok);
    let s2 = s.push(e);
    let iq = index_of(w, e.0);
    assert(!used.contains(iq)) by {
        if used.contains(iq) {
            let k = choose|k: int|
                0 < k < s.len() && in_bounds(w, h, s[k].0) && index_of(w, s[k].0) == iq;
            lemma_index_of_injective(w, h, s[k].0, e.0);
        }
    }
    lemma_index_of_in_bounds(w, h, e.0);
    lemma_int_range(0, w * h);
    lemma_len_subset(used.insert(iq), set_int_range(0, w * h));
    assert forall|i: int| #[trigger] used.insert(iq).contains(i) implies exists|k: int|
        0 < k < s2.len() && in_bounds(w, h, s2[k].0) && index_of(w, s2[k].0) == i by {
        if i == iq {
            let k = s2.len() - 1;
            assert(0 < k < s2.len() && in_bounds(w, h, s2[k].0) && index_of(w, s2[k].0) == i);
        } else {
            let k = choose|k: int|
                0 < k < s.len() && in_bounds(w, h, s[k].0) && index_of(w, s[k].0) == i;
            assert(s2[k] == s[k]);
        }
    }
    assert forall|k: int|
        0 < k < s2.len() implies in_bounds(w, h, (#[trigger] s2[k]).0) && used.insert(iq).contains(
        index_of(w, s2[k].0),
    ) by {
        if k < s.len() {
            assert(s2[k] == s[k]);
        }
    }
}

/// Exploration may move on past entry `qi`: distances farther along the
/// queue still trail the new current entry by at most one hop.
pub proof fn lemma_bfs_advance_entries(
    w: int,
    h: int,
    gc: Seq<Option<crate::cell::Cell>>,
    root: Point,
    s: Seq<(Point, usize)>,
    qi: int,
)
    requires
        bfs_entries_wf(w, h, gc, root, s, qi),
        0 <= qi < s.len(),
    ensures
        bfs_entries_wf(w, h, gc, root, s, qi + 1),
{
    reveal(bfs_entries_wf);
    if qi + 1 < s.len() {
        assert forall|i: int| 0 <= i < s.len() implies (#[trigger] s[i]).1 <= s[qi + 1].1 + 1 by {
            assert(s[i].1 <= s[qi].1 + 1);
            assert(s[qi].1 <= s[qi + 1].1);
        }
    }
}

/// Once every passage out of entry `qi` is accounted for, that entry is
/// settled.
pub proof fn lemma_bfs_advance_settled(
    w: int,
    h: int,
    gc: Seq<Option<crate::cell::Cell>>,
    s: Seq<(Point, usize)>,
    qi: int,
)
    requires
        bfs_settled_ok(w, h, gc, s, qi),
        0 <= qi < s.len(),
        spec_get(w, h, gc, s[qi].0) is Some ==> bfs_closed_at(w, h, gc, assoc_map(s), s[qi].0),
    ensures
        bfs_settled_ok(w, h, gc, s, qi + 1),
{
    reveal(bfs_settled_ok);
}

/// When the queue has been worked off, its entry-wise invariants amount to
/// a breadth-first distance map.
#[verifier::rlimit(60)]
pub proof fn lemma_bfs_finish(
    w: int,
    h: int,
    gc: Seq<Option<crate::cell::Cell>>,
    root: Point,
    s: Seq<(Point, usize)>,
)
    requires
        entries_distinct(s),
        bfs_entries_wf(w, h, gc, root, s, s.len() as int),
        bfs_settled_ok(w, h, gc, s, s.len() as int),
    ensures
        is_bfs_map(w, h, gc, root, assoc_map(s)),
{
    reveal(bfs_entries_wf);
    reveal(bfs_settled_ok);
    let m = assoc_map(s);
    lemma_assoc_map_found(s, 0);
    assert forall|p: Point| #[trigger] m.contains_key(p) && p != root implies spec_get(
        w,
        h,
        gc,
        p,
    ) is Some by {
        lemma_assoc_map_key_has_entry(s, p);
        let i = choose|i: int| 0 <= i < s.len() && (#[trigger] s[i]).0 == p;
        assert(i != 0);
    }
    assert forall|p: Point| #[trigger] m.contains_key(p) && p != root implies exists|q: Point|
        m.contains_key(q) && m[p] == m[q] + 1 && spec_get(w, h, gc, q) is Some && spec_links(
            spec_get(w, h, gc, q)->Some_0,
        ).contains(p) by {
        lemma_assoc_map_key_has_entry(s, p);
        let i = choose|i: int| 0 <= i < s.len() && (#[trigger] s[i]).0 == p;
        assert(i != 0);
        let j = choose|j: int|
            0 <= j < i && s[i].1 == (#[trigger] s[j]).1 + 1 && spec_get(
                w,
                h,
                gc,
                s[j].0,
            ) is Some && spec_links(spec_get(w, h, gc, s[j].0)->Some_0).contains(s[i].0);
        lemma_assoc_map_found(s, i);
        lemma_assoc_map_found(s, j);
        assert(m.contains_key(s[j].0) && m[p] == m[s[j].0] + 1);
    }
    assert forall|p: Point|
        #[trigger] m.contains_key(p) && spec_get(w, h, gc, p) is Some implies bfs_closed_at(
        w,
        h,
        gc,
        m,
        p,
    ) by {
        lemma_assoc_map_key_has_entry(s, p);
        let i = choose|i: int| 0 <= i < s.len() && (#[trigger] s[i]).0 == p;
    }
}

/// Recorded distances stay below the queue length, so one more hop always
/// fits the distance type.
pub proof fn lemma_bfs_entry_value(
    w: int,
    h: int,
    gc: Seq<Option<crate::cell::Cell>>,
    root: Point,
    s: Seq<(Point, usize)>,
    settled: int,
    i: int,
)
    requires
        bfs_entries_wf(w, h, gc, root, s, settled),
        0 <= i < s.len(),
    ensures
        s[i].1 < s.len(),
    decreases 0int,
{
    reveal(bfs_entries_wf);
}


/// The breadcrumb entries chain from goal toward root: each successor is a
/// real carved link of its predecessor, and exactly the first linked
/// neighbor (in the fixed north, south, east, west order) with a strictly
/// smaller recorded distance.
#[verifier::opaque]
pub open spec fn path_chain_ok(
    w: int,
    h: int,
    gc: Seq<Option<crate::cell::Cell>>,
    m: Map<Point, usize>,
    s: Seq<(Point, usize)>,
) -> bool {
    forall|k: int|
        0 <= k < s.len() - 1 ==> spec_get(w, h, gc, (#[trigger] s[k]).0) is Some && spec_links(
            spec_get(w, h, gc, s[k].0)->Some_0,
        ).contains(s[k + 1].0) && first_smaller_link(
            spec_links(spec_get(w, h, gc, s[k].0)->Some_0),
            m,
            m[s[k].0],
            0,
        ) == Some(s[k + 1].0)
}

/// A one-entry breadcrumb record chains trivially.
pub proof fn lemma_path_chain_one(
    w: int,
    h: int,
    gc: Seq<Option<crate::cell::Cell>>,
    m: Map<Point, usize>,
    s: Seq<(Point, usize)>,
)
    requires
        s.len() == 1,
    ensures
        path_chain_ok(w, h, gc, m, s),
{
    reveal(path_chain_ok);
}

/// Extending the breadcrumbs with the first smaller-distance linked
/// neighbor of the last entry keeps the chain valid.
pub proof fn lemma_path_chain_push(
    w: int,
    h: int,
    gc: Seq<Option<crate::cell::Cell>>,
    m: Map<Point, usize>,
    s: Seq<(Point, usize)>,
    e: (Point, usize),
)
    requires
        s.len() >= 1,
        path_chain_ok(w, h, gc, m, s),
        spec_get(w, h, gc, s.last().0) is Some,
        spec_links(spec_get(w, h, gc, s.last().0)->Some_0).contains(e.0),
        first_smaller_link(
            spec_links(spec_get(w, h, gc, s.last().0)->Some_0),
            m,
            m[s.last().0],
            0,
        ) == Some(e.0),
    ensures
        path_chain_ok(w, h, gc, m, s.push(e)),
{
    reveal(path_chain_ok);
    let s2 = s.push(e);
    assert forall|k: int|
        0 <= k < s2.len() - 1 implies spec_get(w, h, gc, (#[trigger] s2[k]).0) is Some
        && spec_links(spec_get(w, h, gc, s2[k].0)->Some_0).contains(s2[k + 1].0)
        && first_smaller_link(
        spec_links(spec_get(w, h, gc, s2[k].0)->Some_0),
        m,
        m[s2[k].0],
        0,
    ) == Some(s2[k + 1].0) by {
        if k + 1 < s.len() {
            assert(s2[k] == s[k] && s2[k + 1] == s[k + 1]);
        } else {
            assert(s2[k] == s[s.len() - 1] && s2[k + 1] == e);
        }
    }
}

/// A goal-to-root walk whose entries step down one hop at a time, each a
/// carved passage, denotes a path record: one point per distance level,
/// agreeing with the search record, ending at the root.
#[verifier::rlimit(60)]
pub proof fn lemma_path_result(
    w: int,
    h: int,
    gc: Seq<Option<crate::cell::Cell>>,
    root: Point,
    goal: Point,
    m: Map<Point, usize>,
    bc: Seq<(Point, usize)>,
    dgoal: usize,
)
    requires
        m.contains_key(goal),
        m[goal] == dgoal,
        bc.len() == dgoal + 1,
        bc[0].0 == goal,
        bc.last().0 == root,
        forall|k: int| 0 <= k < bc.len() ==> (#[trigger] bc[k]).1 == dgoal - k,
        forall|k: int|
            0 <= k < bc.len() ==> m.contains_key((#[trigger] bc[k]).0) && m[bc[k].0] == bc[k].1,
        path_chain_ok(w, h, gc, m, bc),
    ensures
        entries_distinct(bc),
        assoc_map(bc).contains_key(goal),
        assoc_map(bc).contains_key(root),
        forall|p: Point|
            #[trigger] assoc_map(bc).contains_key(p) && p != root ==> (first_smaller_link(
                spec_links(spec_get(w, h, gc, p)->Some_0),
                m,
                m[p],
                0,
            ) matches Some(q) && assoc_map(bc).contains_key(q) && assoc_map(bc)[q] + 1
                == assoc_map(bc)[p]),
        forall|p: Point|
            #[trigger] assoc_map(bc).contains_key(p) ==> m.contains_key(p) && assoc_map(bc)[p]
                == m[p] && assoc_map(bc)[p] <= dgoal,
        forall|p1: Point, p2: Point|
            assoc_map(bc).contains_key(p1) && assoc_map(bc).contains_key(p2) && p1 != p2
                ==> assoc_map(bc)[p1] != assoc_map(bc)[p2],
        forall|p: Point|
            #[trigger] assoc_map(bc).contains_key(p) && p != root ==> exists|q: Point|
                assoc_map(bc).contains_key(q) && assoc_map(bc)[q] + 1 == assoc_map(bc)[p]
                    && spec_links(spec_get(w, h, gc, p)->Some_0).contains(q),
{
    reveal(path_chain_ok);
    assert(entries_distinct(bc)) by {
        assert forall|i: int, j2: int|
            0 <= i < j2 < bc.len() implies (#[trigger] bc[i]).0 != (#[trigger] bc[j2]).0 by {
            assert(bc[i].1 == dgoal - i && bc[j2].1 == dgoal - j2);
            assert(m[bc[i].0] == bc[i].1);
        }
    }
    assert forall|p: Point| #[trigger] assoc_map(bc).contains_key(p) implies m.contains_key(p)
        && assoc_map(bc)[p] == m[p] && assoc_map(bc)[p] <= dgoal by {
        lemma_assoc_map_key_has_entry(bc, p);
        let k = choose|k: int| 0 <= k < bc.len() && (#[trigger] bc[k]).0 == p;
        lemma_assoc_map_found(bc, k);
    }
    assert forall|p: Point|
        #[trigger] assoc_map(bc).contains_key(p) && p != root implies exists|q: Point|
        assoc_map(bc).contains_key(q) && assoc_map(bc)[q] + 1 == assoc_map(bc)[p] && spec_links(
            spec_get(w, h, gc, p)->Some_0,
        ).contains(q) by {
        lemma_assoc_map_key_has_entry(bc, p);
        let k = choose|k: int| 0 <= k < bc.len() && (#[trigger] bc[k]).0 == p;
        lemma_assoc_map_found(bc, k);
        assert(k < bc.len() - 1) by {
            if k == bc.len() - 1 {
                assert(bc[k].0 == root);
            }
        }
        lemma_assoc_map_found(bc, k + 1);
        assert(spec_links(spec_get(w, h, gc, bc[k].0)->Some_0).contains(bc[k + 1].0));
        assert(assoc_map(bc).contains_key(bc[k + 1].0) && assoc_map(bc)[bc[k + 1].0] + 1
            == assoc_map(bc)[p]);
    }
    assert forall|p: Point|
        #[trigger] assoc_map(bc).contains_key(p) && p != root implies (first_smaller_link(
        spec_links(spec_get(w, h, gc, p)->Some_0),
        m,
        m[p],
        0,
    ) matches Some(q) && assoc_map(bc).contains_key(q) && assoc_map(bc)[q] + 1 == assoc_map(
        bc,
    )[p]) by {
        lemma_assoc_map_key_has_entry(bc, p);
        let k = choose|k: int| 0 <= k < bc.len() && (#[trigger] bc[k]).0 == p;
        lemma_assoc_map_found(bc, k);
        assert(k < bc.len() - 1) by {
            if k == bc.len() - 1 {
                assert(bc[k].0 == root);
            }
        }
        lemma_assoc_map_found(bc, k + 1);
        assert(first_smaller_link(spec_links(spec_get(w, h, gc, p)->Some_0), m, m[p], 0) == Some(
            bc[k + 1].0,
        ));
    }
    assert forall|p1: Point, p2: Point|
        assoc_map(bc).contains_key(p1) && assoc_map(bc).contains_key(p2) && p1 != p2
            implies assoc_map(bc)[p1] != assoc_map(bc)[p2] by {
        lemma_assoc_map_key_has_entry(bc, p1);
        lemma_assoc_map_key_has_entry(bc, p2);
        let k1 = choose|k: int| 0 <= k < bc.len() && (#[trigger] bc[k]).0 == p1;
        let k2 = choose|k: int| 0 <= k < bc.len() && (#[trigger] bc[k]).0 == p2;
        lemma_assoc_map_found(bc, k1);
        lemma_assoc_map_found(bc, k2);
        assert(bc[k1].1 == dgoal - k1 && bc[k2].1 == dgoal - k2);
    }
    lemma_assoc_map_found(bc, 0);
    lemma_assoc_map_found(bc, bc.len() - 1);
}



/// The first coordinate in `ls` (the fixed north, south, east, west link
/// order) whose recorded distance in `m` lies strictly below `d`, scanning
/// from position `i`.
#[verifier::opaque]
pub open spec fn first_smaller_link(ls: Seq<Point>, m: Map<Point, usize>, d: usize, i: int) -> Option<
    Point,
>
    decreases ls.len() - i
        when 0 <= i <= ls.len()
{
    if i >= ls.len() {
        None
    } else if m.contains_key(ls[i]) && m[ls[i]] < d {
        Some(ls[i])
    } else {
        first_smaller_link(ls, m, d, i + 1)
    }
}

/// Every point breadth-first search records is joined to the root by a
/// carved route.
pub proof fn lemma_bfs_connected(
    w: int,
    h: int,
    gc: Seq<Option<crate::cell::Cell>>,
    root: Point,
    m: Map<Point, usize>,
    p: Point,
)
    requires
        is_bfs_map(w, h, gc, root, m),
        m.contains_key(p),
        spec_get(w, h, gc, root) is Some,
        spec_get(w, h, gc, p) is Some,
    ensures
        link_connected(w, h, gc, root, p),
    decreases m[p],
{
    if p == root {
        let path = Seq::<Point>::empty().push(p);
        assert(linked_path(w, h, gc, path) && path[0] == root && path.last() == p);
    } else {
        let q = choose|q: Point|
            m.contains_key(q) && m[p] == m[q] + 1 && spec_get(w, h, gc, q) is Some && spec_links(
                spec_get(w, h, gc, q)->Some_0,
            ).contains(p);
        lemma_bfs_connected(w, h, gc, root, m, q);
        let pq = choose|path: Seq<Point>|
            #[trigger] linked_path(w, h, gc, path) && path[0] == root && path.last() == q;
        let path = pq.push(p);
        assert forall|k: int| 0 <= k < path.len() implies spec_get(
            w,
            h,
            gc,
            #[trigger] path[k],
        ) is Some by {
            if k < pq.len() {
                assert(path[k] == pq[k]);
            }
        }
        assert forall|k: int| 0 <= k < path.len() - 1 implies spec_links(
            spec_get(w, h, gc, #[trigger] path[k])->Some_0,
        ).contains(path[k + 1]) by {
            if k < pq.len() - 1 {
                assert(path[k] == pq[k] && path[k + 1] == pq[k + 1]);
            } else {
                assert(path[k] == pq.last() && pq.last() == q && path[k + 1] == p);
            }
        }
        assert(linked_path(w, h, gc, path) && path[0] == root && path.last() == p);
    }
}

/// Conversely, the record is closed under carved routes: whatever a route
/// from a recorded point reaches is recorded.
#[verifier::rlimit(60)]
#[verifier::spinoff_prover]
pub proof fn lemma_bfs_covers(
    w: int,
    h: int,
    gc: Seq<Option<crate::cell::Cell>>,
    root: Point,
    m: Map<Point, usize>,
    path: Seq<Point>,
)
    requires
        is_bfs_map(w, h, gc, root, m),
        linked_path(w, h, gc, path),
        m.contains_key(path[0]),
    ensures
        m.contains_key(path.last()),
    decreases path.len(),
{
    if path.len() > 1 {
        let head = path.drop_last();
        assert(linked_path(w, h, gc, head)) by {
            assert forall|k: int| 0 <= k < head.len() implies spec_get(
                w,
                h,
                gc,
                #[trigger] head[k],
            ) is Some by {
                assert(head[k] == path[k]);
            }
            assert forall|k: int| 0 <= k < head.len() - 1 implies spec_links(
                spec_get(w, h, gc, #[trigger] head[k])->Some_0,
            ).contains(head[k + 1]) by {
                assert(head[k] == path[k] && head[k + 1] == path[k + 1]);
            }
        }
        lemma_bfs_covers(w, h, gc, root, m, head);
        let prev = path[path.len() - 2];
        assert(m.contains_key(prev) && spec_get(w, h, gc, prev) is Some);
        assert(bfs_closed_at(w, h, gc, m, prev));
        assert(spec_links(spec_get(w, h, gc, prev)->Some_0).contains(path[path.len() - 1]));
    }
}

/// Counting one more slot adds that slot's contribution.
pub proof fn lemma_counts_take_step(gc: Seq<Option<crate::cell::Cell>>, i: int)
    requires
        0 <= i < gc.len(),
    ensures
        links_flag_count(gc.take(i + 1)) == links_flag_count(gc.take(i)) + cell_flag_count(gc[i]),
        present_count(gc.take(i + 1)) == present_count(gc.take(i)) + (if gc[i] is Some {
            1int
        } else {
            0
        }),
{
    assert(gc.take(i + 1).drop_last() =~= gc.take(i));
    assert(gc.take(i + 1).last() == gc[i]);
}


/// Decide whether the carved passages form a perfect maze — a spanning tree
/// of the present cells.  Breadth-first search from the first present cell
/// must reach every present cell, and the passage count must be exactly one
/// less than the cell count; the verdict equals the `spanning` predicate.
#[verifier::rlimit(100)]
#[verifier::spinoff_prover]
pub fn spanning_check<G: Grid>(grid: &G) -> (r: bool)
    requires
        grid_wf(grid.gwidth(), grid.gheight(), grid.gcells()),
        grid_links_wf(grid.gwidth(), grid.gheight(), grid.gcells()),
    ensures
        r == spanning(grid.gwidth(), grid.gheight(), grid.gcells()),
{
    let ghost w = grid.gwidth();
    let ghost h = grid.gheight();
    let ghost gc = grid.gcells();
    let n = grid.cells().len();
    let mut present: usize = 0;
    let mut flags: u64 = 0;
    let mut first: Option<crate::cell::Cell> = None;
    let mut i: usize = 0;
    while i < n
        invariant
            w == grid.gwidth(),
            h == grid.gheight(),
            gc == grid.gcells(),
            grid_wf(w, h, gc),
            grid_links_wf(w, h, gc),
            i <= n,
            n == gc.len(),
            present == present_count(gc.take(i as int)),
            present <= i,
            flags == links_flag_count(gc.take(i as int)),
            flags <= 4 * i,
            first is Some ==> present >= 1,
            first matches Some(c) ==> spec_get(w, h, gc, c.point) == Some(c),
            first is None ==> present == 0,
        decreases n - i,
    {
        proof {
            lemma_counts_take_step(gc, i as int);
        }
        let slot = grid.cells()[i];
        if let Some(c) = slot {
            present = present + 1;
            let cl = c.links();
            proof {
                assert(cl@.len() <= 4);
            }
            flags = flags + (cl.len() as u64);
            if first.is_none() {
                proof {
                    lemma_present_cell_in_bounds(w, h, gc, c);
                }
                first = Some(c);
            }
        }
        i = i + 1;
    }
    proof {
        assert(gc.take(n as int) =~= gc);
    }
    let root_cell = match first {
        Some(c) => c,
        None => {
            return false;
        },
    };
    let count_ok = flags == 2 * ((present - 1) as u64);
    let mut record = Distances::new(root_cell.point);
    record.compute(grid);
    let ghost m = record@;
    let mut all = true;
    let mut j: usize = 0;
    while j < n
        invariant
            w == grid.gwidth(),
            h == grid.gheight(),
            gc == grid.gcells(),
            grid_wf(w, h, gc),
            grid_links_wf(w, h, gc),
            j <= n,
            n == gc.len(),
            record.wf(),
            m == record@,
            is_bfs_map(w, h, gc, root_cell.point, m),
            spec_get(w, h, gc, root_cell.point) == Some(root_cell),
            all ==> forall|k: int|
                0 <= k < j ==> (#[trigger] gc[k] matches Some(c) ==> m.contains_key(c.point)),
            !all ==> exists|k: int|
                0 <= k < n && (#[trigger] gc[k] matches Some(c) && !m.contains_key(c.point)),
        decreases n - j,
    {
        let slot = grid.cells()[j];
        if let Some(c) = slot {
            if record.distance(c.point).is_none() {
                all = false;
            }
        }
        j = j + 1;
    }
    let verdict = all && count_ok;
    proof {
        if verdict {
            assert forall|p: Point, q: Point|
                spec_get(w, h, gc, p) is Some && spec_get(w, h, gc, q) is Some implies
                #[trigger] link_connected(w, h, gc, p, q) by {
                lemma_recorded_of_present(w, h, gc, m, p);
                lemma_recorded_of_present(w, h, gc, m, q);
                lemma_bfs_connected(w, h, gc, root_cell.point, m, p);
                lemma_bfs_connected(w, h, gc, root_cell.point, m, q);
                lemma_link_connected_sym(w, h, gc, root_cell.point, p);
                lemma_link_connected_trans(w, h, gc, p, root_cell.point, q);
            }
            assert(spanning(w, h, gc));
        } else {
            if !count_ok {
                assert(links_flag_count(gc) != 2 * (present_count(gc) - 1));
                assert(!spanning(w, h, gc));
            } else {
                let k = choose|k: int|
                    0 <= k < n && (#[trigger] gc[k] matches Some(c) && !m.contains_key(c.point));
                let c = gc[k]->Some_0;
                lemma_present_cell_in_bounds(w, h, gc, c);
                if spanning(w, h, gc) {
                    assert(link_connected(w, h, gc, root_cell.point, c.point));
                    let path = choose|path: Seq<Point>|
                        #[trigger] linked_path(w, h, gc, path) && path[0] == root_cell.point
                            && path.last() == c.point;
                    lemma_bfs_covers(w, h, gc, root_cell.point, m, path);
                }
                assert(!spanning(w, h, gc));
            }
        }
    }
    verdict
}

/// When the reach check passed, every present cell's point is recorded.
proof fn lemma_recorded_of_present(
    w: int,
    h: int,
    gc: Seq<Option<crate::cell::Cell>>,
    m: Map<Point, usize>,
    p: Point,
)
    requires
        grid_wf(w, h, gc),
        spec_get(w, h, gc, p) is Some,
        forall|k: int|
            0 <= k < gc.len() ==> (#[trigger] gc[k] matches Some(c) ==> m.contains_key(c.point)),
    ensures
        m.contains_key(p),
{
    lemma_index_of_in_bounds(w, h, p);
    lemma_get_point(w, h, gc, p);
    assert(gc[index_of(w, p)] matches Some(c) ==> m.contains_key(c.point));
}

impl Distances {
    /// The declared root of this distance record.
    pub closed spec fn spec_root(&self) -> Point {
        self.root
    }

    /// The recorded entries carry pairwise distinct points.
    pub closed spec fn wf(&self) -> bool {
        entries_distinct(self.cells@)
    }

    /// How many points have a recorded distance.
    pub closed spec fn spec_len(&self) -> nat {
        self.cells@.len()
    }

    /// An empty distance record rooted at `root`.
    pub fn new(root: Point) -> (r: Self)
        ensures
            r.wf(),
            r.spec_root() == root,
            r@ == Map::<Point, usize>::empty(),
            r.spec_len() == 0,
    {
        let cells: Vec<(Point, usize)> = Vec::new();
        Self { root, cells }
    }

    /// The recorded distance of `point`, absent when `point` was never
    /// reached.
    pub fn distance(&self, point: Point) -> (r: Option<usize>)
        requires
            self.wf(),
        ensures
            r == if self@.contains_key(point) {
                Some(self@[point])
            } else {
                None::<usize>
            },
    {
        let n = self.cells.len();
        let mut i: usize = 0;
        while i < n
            invariant
                self.wf(),
                i <= n,
                n == self.cells@.len(),
                forall|j: int| 0 <= j < i ==> (#[trigger] self.cells@[j]).0 != point,
            decreases n - i,
        {
            let entry = self.cells[i];
            if entry.0 == point {
                proof {
                    lemma_assoc_map_found(self.cells@, i as int);
                }
                return Some(entry.1);
            }
            i = i + 1;
        }
        proof {
            lemma_assoc_map_absent(self.cells@, point);
        }
        None
    }

    /// Breadth-first search from this record's root over the *linked* graph
    /// of `grid`: an adjacency not yet carved is invisible.  The record
    /// itself serves as the search queue, so entries appear in frontier
    /// order, each level one hop farther than the last.  Replaces whatever
    /// was recorded before; the grid itself is untouched, so the record can
    /// be recomputed (re-rooted) any number of times.
    #[verifier::spinoff_prover]
    pub fn compute<G: Grid>(&mut self, grid: &G)
        requires
            old(self).wf(),
            grid_wf(grid.gwidth(), grid.gheight(), grid.gcells()),
            grid_links_wf(grid.gwidth(), grid.gheight(), grid.gcells()),
        ensures
            final(self).wf(),
            final(self).spec_root() == old(self).spec_root(),
            is_bfs_map(
                grid.gwidth(),
                grid.gheight(),
                grid.gcells(),
                old(self).spec_root(),
                final(self)@,
            ),
    {
        let ghost w = grid.gwidth();
        let ghost h = grid.gheight();
        let ghost gc = grid.gcells();
        let root = self.root;
        let fresh: Vec<(Point, usize)> = Vec::new();
        self.cells = fresh;
        self.cells.push((root, 0));
        let ghost mut used: Set<int> = Set::empty();
        let n_slots = grid.cells().len();
        proof {
            lemma_bfs_start(w, h, gc, root, self.cells@);
        }
        let mut qi: usize = 0;
        while qi < self.cells.len()
            invariant
                w == grid.gwidth(),
                h == grid.gheight(),
                gc == grid.gcells(),
                grid_wf(w, h, gc),
                grid_links_wf(w, h, gc),
                n_slots == gc.len(),
                self.wf(),
                self.root == root,
                qi <= self.spec_len(),
                bfs_entries_wf(w, h, gc, root, self.cells@, qi as int),
                bfs_settled_ok(w, h, gc, self.cells@, qi as int),
                bfs_used_ok(w, h, self.cells@, used),
                self.spec_len() <= used.len() + 1,
                used.len() <= w * h,
            decreases n_slots + 1 - self.spec_len(), self.spec_len() - qi,
        {
            let ghost olen = self.spec_len();
            let entry = self.cells[qi];
            let point = entry.0;
            let d = entry.1;
            proof {
                lemma_bfs_entry_value(w, h, gc, root, self.cells@, qi as int, qi as int);
            }
            if let Some(cell) = grid.get(point) {
                proof {
                    lemma_get_point(w, h, gc, point);
                }
                let links = cell.links();
                let llen = links.len();
                let mut li: usize = 0;
                while li < llen
                    invariant
                        w == grid.gwidth(),
                        h == grid.gheight(),
                        gc == grid.gcells(),
                        grid_wf(w, h, gc),
                        grid_links_wf(w, h, gc),
                        n_slots == gc.len(),
                        self.wf(),
                        self.root == root,
                        qi < self.spec_len(),
                        self.cells@[qi as int].0 == point,
                        self.cells@[qi as int].1 == d,
                        spec_get(w, h, gc, point) == Some(cell),
                        links@ == spec_links(cell),
                        li <= llen,
                        llen == links@.len(),
                        olen <= self.spec_len(),
                        d < self.spec_len(),
                        forall|t: int|
                            0 <= t < li ==> self@.contains_key(#[trigger] links@[t])
                                && self@[links@[t]] <= d + 1,
                        bfs_entries_wf(w, h, gc, root, self.cells@, qi as int),
                        bfs_settled_ok(w, h, gc, self.cells@, qi as int),
                        bfs_used_ok(w, h, self.cells@, used),
                        self.spec_len() <= used.len() + 1,
                        used.len() <= w * h,
                    decreases llen - li,
                {
                    let link = links[li];
                    proof {
                        lemma_links_sym(w, h, gc, point, link);
                    }
                    let existing = self.distance(link);
                    match existing {
                        Some(_) => {
                            proof {
                                lemma_bfs_value_bound(
                                    w,
                                    h,
                                    gc,
                                    root,
                                    self.cells@,
                                    qi as int,
                                    link,
                                );
                            }
                        },
                        None => {
                            let cur_len = self.cells.len();
                            let ghost pre_cells = self.cells@;
                            proof {
                                lemma_assoc_map_entries_ne(pre_cells, link);
                                lemma_bfs_push_entries(w, h, gc, root, pre_cells, qi as int, link);
                                lemma_entries_distinct_push(pre_cells, (link, (d + 1) as usize));
                                lemma_bfs_push_settled(
                                    w,
                                    h,
                                    gc,
                                    pre_cells,
                                    qi as int,
                                    ((link, (d + 1) as usize)),
                                );
                                lemma_bfs_push_used(
                                    w,
                                    h,
                                    pre_cells,
                                    used,
                                    ((link, (d + 1) as usize)),
                                );
                                lemma_assoc_map_push(pre_cells, (link, (d + 1) as usize));
                            }
                            self.cells.push((link, d + 1));
                            proof {
                                used = used.insert(index_of(w, link));
                                assert(self.cells@ == pre_cells.push(
                                    (link, (pre_cells[qi as int].1 + 1) as usize),
                                ));
                                assert forall|t: int|
                                    0 <= t < li + 1 implies self@.contains_key(
                                    #[trigger] links@[t],
                                ) && self@[links@[t]] <= d + 1 by {
                                    if links@[t] == link {
                                        assert(self@[link] == d + 1);
                                    } else {
                                        assert(assoc_map(pre_cells).contains_key(links@[t]));
                                    }
                                }
                            }
                        },
                    }
                    li = li + 1;
                }
                proof {
                    assert forall|q: Point|
                        #[trigger] spec_links(spec_get(w, h, gc, point)->Some_0).contains(q)
                            implies self@.contains_key(q) && self@[q] <= self@[point] + 1 by {
                        let t = choose|t: int| 0 <= t < links@.len() && links@[t] == q;
                        lemma_assoc_map_found(self.cells@, qi as int);
                        assert(self@.contains_key(links@[t]));
                    }
                    lemma_assoc_map_found(self.cells@, qi as int);
                    assert(bfs_closed_at(w, h, gc, self@, point));
                    lemma_bfs_advance_entries(w, h, gc, root, self.cells@, qi as int);
                    lemma_bfs_advance_settled(w, h, gc, self.cells@, qi as int);
                }
            } else {
                proof {
                    lemma_bfs_advance_entries(w, h, gc, root, self.cells@, qi as int);
                    lemma_bfs_advance_settled(w, h, gc, self.cells@, qi as int);
                }
            }
            qi = qi + 1;
        }
        proof {
            lemma_bfs_finish(w, h, gc, root, self.cells@);
        }
    }

    /// Reconstruct a shortest path by walking from `goal` back toward the
    /// root, at each step taking the first linked neighbor (in the fixed
    /// order north, south, east, west) whose recorded distance is strictly
    /// smaller, until the root is reached.  The result records exactly the
    /// points of that path, one per distance from zero up to the distance of
    /// `goal`, each linked to its predecessor on the path.
    #[verifier::rlimit(100)]
    #[verifier::spinoff_prover]
    pub fn shortest_path_to<G: Grid>(&self, grid: &G, goal: Point) -> (r: Self)
        requires
            self.wf(),
            grid_wf(grid.gwidth(), grid.gheight(), grid.gcells()),
            grid_links_wf(grid.gwidth(), grid.gheight(), grid.gcells()),
            is_bfs_map(
                grid.gwidth(),
                grid.gheight(),
                grid.gcells(),
                self.spec_root(),
                self@,
            ),
            self@.contains_key(goal),
        ensures
            r.wf(),
            r.spec_root() == self.spec_root(),
            r@.contains_key(goal),
            r@.contains_key(self.spec_root()),
            r.spec_len() == self@[goal] + 1,
            forall|p: Point|
                #[trigger] r@.contains_key(p) ==> self@.contains_key(p) && r@[p] == self@[p]
                    && r@[p] <= self@[goal],
            forall|p1: Point, p2: Point|
                r@.contains_key(p1) && r@.contains_key(p2) && p1 != p2 ==> r@[p1] != r@[p2],
            forall|p: Point|
                #[trigger] r@.contains_key(p) && p != self.spec_root() ==> exists|q: Point|
                    r@.contains_key(q) && r@[q] + 1 == r@[p] && spec_links(
                        spec_get(grid.gwidth(), grid.gheight(), grid.gcells(), p)->Some_0,
                    ).contains(q),
            forall|p: Point|
                #[trigger] r@.contains_key(p) && p != self.spec_root() ==> (first_smaller_link(
                    spec_links(spec_get(grid.gwidth(), grid.gheight(), grid.gcells(), p)->Some_0),
                    self@,
                    self@[p],
                    0,
                ) matches Some(q) && r@.contains_key(q) && r@[q] + 1 == r@[p]),
    {
        let ghost w = grid.gwidth();
        let ghost h = grid.gheight();
        let ghost gc = grid.gcells();
        let root = self.root;
        let ghost m = self@;
        let mut current = goal;
        let dgoal = self.distance(goal).unwrap();
        let mut breadcrumbs = Distances::new(self.root);
        breadcrumbs.cells.push((goal, dgoal));
        proof {
            lemma_path_chain_one(w, h, gc, m, breadcrumbs.cells@);
        }
        while current != root
            invariant
                w == grid.gwidth(),
                h == grid.gheight(),
                gc == grid.gcells(),
                grid_wf(w, h, gc),
                grid_links_wf(w, h, gc),
                self.wf(),
                m == self@,
                root == self.root,
                is_bfs_map(w, h, gc, root, m),
                m.contains_key(goal),
                dgoal == m[goal],
                m.contains_key(current),
                breadcrumbs.root == root,
                breadcrumbs.cells@.len() == dgoal - m[current] + 1,
                breadcrumbs.cells@.len() >= 1,
                breadcrumbs.cells@[0].0 == goal,
                breadcrumbs.cells@.last().0 == current,
                forall|k: int|
                    0 <= k < breadcrumbs.cells@.len() ==> (#[trigger] breadcrumbs.cells@[k]).1
                        == dgoal - k,
                forall|k: int|
                    0 <= k < breadcrumbs.cells@.len() ==> m.contains_key(
                        (#[trigger] breadcrumbs.cells@[k]).0,
                    ) && m[breadcrumbs.cells@[k].0] == breadcrumbs.cells@[k].1,
                path_chain_ok(w, h, gc, m, breadcrumbs.cells@),
            decreases m[current],
        {
            let cur_d = self.distance(current).unwrap();
            proof {
                assert(m.contains_key(current) && current != root);
                let qq = choose|q: Point|
                    m.contains_key(q) && m[current] == m[q] + 1 && spec_get(
                        w,
                        h,
                        gc,
                        q,
                    ) is Some && spec_links(spec_get(w, h, gc, q)->Some_0).contains(current);
                lemma_links_sym(w, h, gc, qq, current);
            }
            let cell = grid.get(current).unwrap();
            let links = cell.links();
            let links_len = links.len();
            let mut j: usize = 0;
            let mut next: Point = current;
            let mut found = false;
            while j < links_len && !found
                invariant
                    w == grid.gwidth(),
                    h == grid.gheight(),
                    gc == grid.gcells(),
                    grid_wf(w, h, gc),
                    grid_links_wf(w, h, gc),
                    self.wf(),
                    m == self@,
                    is_bfs_map(w, h, gc, root, m),
                    m.contains_key(current),
                    cur_d == m[current],
                    spec_get(w, h, gc, current) == Some(cell),
                    links@ == spec_links(cell),
                    j <= links_len,
                    links_len == links@.len(),
                    !found ==> exists|t: int|
                        j <= t < links@.len() && m.contains_key(#[trigger] links@[t])
                            && m[links@[t]] < m[current],
                    !found ==> first_smaller_link(links@, m, cur_d, 0) == first_smaller_link(
                        links@,
                        m,
                        cur_d,
                        j as int,
                    ),
                    found ==> m.contains_key(next) && m[next] < m[current] && spec_links(
                        cell,
                    ).contains(next) && first_smaller_link(links@, m, cur_d, 0) == Some(next),
                decreases links_len - j, (if found { 0int } else { 1int }),
            {
                proof {
                    reveal(first_smaller_link);
                }
                let q = links[j];
                match self.distance(q) {
                    Some(dq) => {
                        if dq < cur_d {
                            next = q;
                            found = true;
                        } else {
                            j = j + 1;
                        }
                    },
                    None => {
                        j = j + 1;
                    },
                }
            }
            proof {
                assert(found);
                lemma_links_sym(w, h, gc, current, next);
                assert(spec_get(w, h, gc, next) is Some);
                assert(spec_links(spec_get(w, h, gc, next)->Some_0).contains(current));
                assert(m[current] <= m[next] + 1);
            }
            let next_d = self.distance(next).unwrap();
            let ghost pre = breadcrumbs.cells@;
            breadcrumbs.cells.push((next, next_d));
            proof {
                assert(breadcrumbs.cells@.last() == (next, next_d));
                assert(pre.last().0 == current);
                assert(m[current] == cur_d);
                lemma_path_chain_push(w, h, gc, m, pre, (next, next_d));
            }
            current = next;
        }
        proof {
            lemma_path_result(w, h, gc, root, goal, m, breadcrumbs.cells@, dgoal);
        }
        breadcrumbs
    }

    /// The farthest reachable cell: scan the grid's cells in row-major
    /// order and return the greatest recorded distance with the first point
    /// that attains it; `(0, root)` when nothing beats the root.
    pub fn max<G: Grid>(&self, grid: &G) -> (r: (usize, Point))
        requires
            self.wf(),
        ensures
            forall|i: int|
                0 <= i < grid.gcells().len() ==> (#[trigger] grid.gcells()[i] matches Some(c)
                    ==> (self@.contains_key(c.point) ==> self@[c.point] <= r.0)),
            r.0 == 0 ==> r.1 == self.spec_root(),
            r.0 > 0 ==> exists|i: int|
                0 <= i < grid.gcells().len() && (#[trigger] grid.gcells()[i] matches Some(c)
                    && c.point == r.1 && self@.contains_key(c.point) && self@[c.point] == r.0) && (
                forall|j: int|
                    0 <= j < i ==> (#[trigger] grid.gcells()[j] matches Some(e) ==> (
                    self@.contains_key(e.point) ==> self@[e.point] < r.0))),
    {
        let mut max_distance: usize = 0;
        let mut max_point = self.root;
        let n = grid.cells().len();
        let mut i: usize = 0;
        while i < n
            invariant
                self.wf(),
                n == grid.gcells().len(),
                i <= n,
                forall|k: int|
                    0 <= k < i ==> (#[trigger] grid.gcells()[k] matches Some(c)
                        ==> (self@.contains_key(c.point) ==> self@[c.point] <= max_distance)),
                max_distance == 0 ==> max_point == self.spec_root(),
                max_distance > 0 ==> exists|k: int|
                    0 <= k < i && (#[trigger] grid.gcells()[k] matches Some(c) && c.point
                        == max_point && self@.contains_key(c.point) && self@[c.point]
                        == max_distance) && (forall|j: int|
                        0 <= j < k ==> (#[trigger] grid.gcells()[j] matches Some(e) ==> (
                        self@.contains_key(e.point) ==> self@[e.point] < max_distance))),
            decreases n - i,
        {
            let slot = grid.cells()[i];
            if let Some(cell) = slot {
                if let Some(distance) = self.distance(cell.point) {
                    if distance > max_distance {
                        max_distance = distance;
                        max_point = cell.point;
                    }
                }
            }
            i = i + 1;
        }
        (max_distance, max_point)
    }
}

} // verus!
