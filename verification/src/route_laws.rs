//! Laws of the route tree over any number of routes: what adding a route
//! keeps and changes, and what a search finds in a tree built route by
//! route.
use vstd::prelude::*;

use crate::route::{
    children_matches, first_child_of_kind, inserted, is_chain, kind_matches, node_matches,
    piece_kind, route_kinds, spec_search, NodeKind, RouteNode, Router,
};
use crate::text::{lemma_split_nonempty, spec_split};

verus! {

// ---------------------------------------------------------------------------
// The node kinds of a route path
// ---------------------------------------------------------------------------

/// The node kinds of a path: the root first and only there; for `/` the
/// root alone; for any other path one kind per `/`-separated piece after
/// the first, `:name` a parameter and anything else a literal segment.
pub proof fn lemma_route_kinds_shape(path: Seq<char>)
    ensures
        route_kinds(path).len() >= 1,
        route_kinds(path)[0] == NodeKind::Root,
        path == seq!['/'] ==> route_kinds(path).len() == 1,
        path != seq!['/'] ==> route_kinds(path).len() == spec_split(path, '/').len(),
        path != seq!['/'] ==> forall|i: int|
            1 <= i < route_kinds(path).len() ==> #[trigger] route_kinds(path)[i] == piece_kind(
                spec_split(path, '/')[i],
            ),
        forall|i: int| 1 <= i < route_kinds(path).len() ==> !(#[trigger] route_kinds(path)[i] is Root),
{
    lemma_split_nonempty(path, '/');
}

// ---------------------------------------------------------------------------
// Nodes reached by kinds
// ---------------------------------------------------------------------------

/// The handler of the node reached from `n` by following, for each kind of
/// `ks` in turn, the first child of that kind; `None` where there is no
/// such node or it has no handler.
pub open spec fn handler_at<H>(n: RouteNode<H>, ks: Seq<NodeKind>) -> Option<H>
    decreases ks.len(),
{
    if ks.len() == 0 {
        n.handler
    } else {
        match first_child_of_kind(n.children@, ks[0]) {
            Some(j) => handler_at(n.children@[j], ks.drop_first()),
            None => None,
        }
    }
}

/// No two nodes of `cs` have the same kind.
pub open spec fn kinds_distinct<H>(cs: Seq<RouteNode<H>>) -> bool {
    forall|i: int, j: int| 0 <= i < j < cs.len() ==> #[trigger] cs[i].node_type@ != #[trigger] cs[j].node_type@
}

/// Throughout the tree under `n`, no two children of one node have the same
/// kind.
pub open spec fn siblings_distinct<H>(n: RouteNode<H>) -> bool
    decreases n, 1int,
{
    kinds_distinct(n.children@) && all_siblings_distinct(n.children@)
}

/// Every tree of `cs` has distinct siblings throughout.
pub open spec fn all_siblings_distinct<H>(cs: Seq<RouteNode<H>>) -> bool
    decreases cs, 0int,
{
    cs.len() > 0 ==> all_siblings_distinct(cs.drop_last()) && siblings_distinct(cs.last())
}

proof fn lemma_all_siblings_distinct<H>(cs: Seq<RouteNode<H>>)
    ensures
        all_siblings_distinct(cs) <==> forall|x: int| 0 <= x < cs.len() ==> siblings_distinct(#[trigger] cs[x]),
    decreases cs.len(),
{
    if cs.len() > 0 {
        let d = cs.drop_last();
        lemma_all_siblings_distinct(d);
        if all_siblings_distinct(cs) {
            assert forall|x: int| 0 <= x < cs.len() implies siblings_distinct(#[trigger] cs[x]) by {
                if x < cs.len() - 1 {
                    assert(d[x] == cs[x]);
                }
            }
        }
        if forall|x: int| 0 <= x < cs.len() ==> siblings_distinct(#[trigger] cs[x]) {
            assert forall|x: int| 0 <= x < d.len() implies siblings_distinct(#[trigger] d[x]) by {
                assert(d[x] == cs[x]);
            }
            assert(siblings_distinct(cs[cs.len() - 1]));
        }
    }
}

/// Two non-empty sequences with the same first element and the same rest
/// are the same.
proof fn lemma_seq_by_head_tail(a: Seq<NodeKind>, b: Seq<NodeKind>)
    requires
        a.len() > 0,
        b.len() > 0,
        a[0] == b[0],
        a.drop_first() == b.drop_first(),
    ensures
        a == b,
{
    assert(a.drop_first().len() == b.drop_first().len());
    assert(a.drop_first().len() == a.len() - 1);
    assert(b.drop_first().len() == b.len() - 1);
    assert(a.len() == b.len());
    assert forall|i: int| 0 <= i < a.len() implies a[i] == b[i] by {
        if i > 0 {
            assert(a[i] == a.drop_first()[i - 1]);
            assert(b[i] == b.drop_first()[i - 1]);
        }
    }
    assert(a =~= b);
}

/// What `first_child_of_kind` finds: the first node of the kind, or none
/// when no node has it.
proof fn lemma_first_child<H>(cs: Seq<RouteNode<H>>, k: NodeKind)
    ensures
        first_child_of_kind(cs, k) matches Some(j) ==> 0 <= j < cs.len() && cs[j].node_type@ == k
            && forall|x: int| 0 <= x < j ==> #[trigger] cs[x].node_type@ != k,
        first_child_of_kind(cs, k) is None ==> forall|x: int|
            0 <= x < cs.len() ==> #[trigger] cs[x].node_type@ != k,
    decreases cs.len(),
{
    if cs.len() > 0 {
        let d = cs.drop_last();
        lemma_first_child(d, k);
        match first_child_of_kind(d, k) {
            Some(j) => {
                assert(d[j] == cs[j]);
                assert forall|x: int| 0 <= x < j implies #[trigger] cs[x].node_type@ != k by {
                    assert(d[x] == cs[x]);
                }
            },
            None => {
                if cs.last().node_type@ == k {
                    assert forall|x: int| 0 <= x < cs.len() - 1 implies #[trigger] cs[x].node_type@
                        != k by {
                        assert(d[x] == cs[x]);
                    }
                } else {
                    assert forall|x: int| 0 <= x < cs.len() implies #[trigger] cs[x].node_type@ != k by {
                        if x < cs.len() - 1 {
                            assert(d[x] == cs[x]);
                        }
                    }
                }
            },
        }
    }
}

/// In nodes of distinct kinds, the first node of the kind of node `j` is
/// node `j`.
proof fn lemma_first_child_distinct<H>(cs: Seq<RouteNode<H>>, j: int)
    requires
        kinds_distinct(cs),
        0 <= j < cs.len(),
    ensures
        first_child_of_kind(cs, cs[j].node_type@) == Some(j),
{
    lemma_first_child(cs, cs[j].node_type@);
    if let Some(x) = first_child_of_kind(cs, cs[j].node_type@) {
        if x < j {
            assert(cs[x].node_type@ != cs[j].node_type@);
        }
    }
}

/// `first_child_of_kind` looks at kinds only.
proof fn lemma_first_child_same_kinds<H>(cs: Seq<RouteNode<H>>, ds: Seq<RouteNode<H>>, k: NodeKind)
    requires
        cs.len() == ds.len(),
        forall|x: int| 0 <= x < cs.len() ==> #[trigger] cs[x].node_type@ == ds[x].node_type@,
    ensures
        first_child_of_kind(cs, k) == first_child_of_kind(ds, k),
    decreases cs.len(),
{
    if cs.len() > 0 {
        assert forall|x: int| 0 <= x < cs.len() - 1 implies #[trigger] cs.drop_last()[x].node_type@
            == ds.drop_last()[x].node_type@ by {
            assert(cs.drop_last()[x] == cs[x]);
            assert(ds.drop_last()[x] == ds[x]);
        }
        lemma_first_child_same_kinds(cs.drop_last(), ds.drop_last(), k);
    }
}

/// A single route has distinct siblings, and its only handler is at its
/// end.
proof fn lemma_chain_handler_at<H>(c: RouteNode<H>, ks: Seq<NodeKind>, h: H, r: Seq<NodeKind>)
    requires
        is_chain(c, ks, h),
    ensures
        siblings_distinct(c),
        handler_at(c, r) == if r == ks.drop_first() {
            Some(h)
        } else {
            None::<H>
        },
    decreases ks.len(),
{
    lemma_all_siblings_distinct(c.children@);
    if ks.len() == 1 {
        assert(ks.drop_first() =~= Seq::<NodeKind>::empty());
        if r.len() > 0 {
            assert(r != ks.drop_first());
            assert(first_child_of_kind(c.children@, r[0]) is None);
        } else {
            assert(r =~= ks.drop_first());
        }
    } else {
        let c0 = c.children@[0];
        let rest = ks.drop_first();
        assert(is_chain(c0, rest, h));
        assert(c0.node_type@ == rest[0]);
        lemma_chain_handler_at(c0, rest, h, r.drop_first());
        lemma_chain_handler_at(c0, rest, h, r);
        if r.len() == 0 {
            assert(r != ks.drop_first());
        } else {
            lemma_first_child(c.children@, r[0]);
            if r[0] == rest[0] {
                assert(first_child_of_kind(c.children@, r[0]) == Some(0int));
                if r.drop_first() == rest.drop_first() {
                    lemma_seq_by_head_tail(r, rest);
                } else {
                    assert(r != rest);
                }
            } else {
                assert(r != rest);
                assert(first_child_of_kind(c.children@, r[0]) is None);
            }
        }
    }
}

// ---------------------------------------------------------------------------
// Adding a route
// ---------------------------------------------------------------------------

/// After adding the route of kinds `ks` with handler `h`, the node reached
/// by `ks` has handler `h`, and the node reached by any other kinds has the
/// handler it had before (none where there was no such node).
pub proof fn lemma_inserted_handler_at<H>(
    o: RouteNode<H>,
    n: RouteNode<H>,
    ks: Seq<NodeKind>,
    h: H,
    ks2: Seq<NodeKind>,
)
    requires
        inserted(o, n, ks, h),
    ensures
        handler_at(n, ks2) == if ks2 == ks {
            Some(h)
        } else {
            handler_at(o, ks2)
        },
    decreases ks.len(),
{
    if ks.len() == 0 {
        if ks2.len() == 0 {
            assert(ks2 =~= Seq::<NodeKind>::empty());
            assert(ks =~= Seq::<NodeKind>::empty());
        }
    } else if ks2.len() == 0 {
        assert(ks2 != ks);
    } else {
        lemma_first_child(o.children@, ks[0]);
        lemma_first_child(o.children@, ks2[0]);
        assert(ks2 == ks <==> (ks2[0] == ks[0] && ks2.drop_first() == ks.drop_first())) by {
            if ks2[0] == ks[0] && ks2.drop_first() == ks.drop_first() {
                lemma_seq_by_head_tail(ks2, ks);
            }
        }
        match first_child_of_kind(o.children@, ks[0]) {
            Some(j) => {
                let oc = o.children@[j];
                let nc = n.children@[j];
                assert(inserted(oc, nc, ks.drop_first(), h));
                assert forall|x: int| 0 <= x < o.children@.len() implies #[trigger] o.children@[x].node_type@
                    == n.children@[x].node_type@ by {
                    if x == j {
                        assert(nc.node_type == oc.node_type);
                    }
                }
                lemma_first_child_same_kinds(o.children@, n.children@, ks2[0]);
                if let Some(j2) = first_child_of_kind(o.children@, ks2[0]) {
                    if j2 == j {
                        lemma_inserted_handler_at(oc, nc, ks.drop_first(), h, ks2.drop_first());
                    } else {
                        assert(ks2[0] != ks[0]);
                    }
                } else {
                    assert(ks2[0] != ks[0]);
                }
            },
            None => {
                let c = n.children@.last();
                let len = o.children@.len();
                assert(n.children@.drop_last() == o.children@);
                lemma_first_child(n.children@, ks2[0]);
                if ks2[0] == ks[0] {
                    assert(first_child_of_kind(n.children@, ks2[0]) == Some(len as int));
                    lemma_chain_handler_at(c, ks, h, ks2.drop_first());
                } else {
                    if let Some(j2) = first_child_of_kind(o.children@, ks2[0]) {
                        assert(n.children@[j2] == o.children@[j2]);
                    }
                }
            },
        }
    }
}

/// Adding a route keeps the siblings of every node distinct.
pub proof fn lemma_inserted_distinct<H>(o: RouteNode<H>, n: RouteNode<H>, ks: Seq<NodeKind>, h: H)
    requires
        inserted(o, n, ks, h),
        siblings_distinct(o),
    ensures
        siblings_distinct(n),
    decreases ks.len(),
{
    lemma_all_siblings_distinct(o.children@);
    lemma_all_siblings_distinct(n.children@);
    if ks.len() > 0 {
        lemma_first_child(o.children@, ks[0]);
        match first_child_of_kind(o.children@, ks[0]) {
            Some(j) => {
                let oc = o.children@[j];
                let nc = n.children@[j];
                assert(inserted(oc, nc, ks.drop_first(), h));
                lemma_inserted_distinct(oc, nc, ks.drop_first(), h);
                assert forall|x: int| 0 <= x < n.children@.len() implies siblings_distinct(
                    #[trigger] n.children@[x],
                ) by {
                    if x != j {
                        assert(n.children@[x] == o.children@[x]);
                    }
                }
                assert forall|x: int, y: int| 0 <= x < y < n.children@.len() implies #[trigger] n.children@[x].node_type@
                    != #[trigger] n.children@[y].node_type@ by {
                    assert(o.children@[x].node_type@ != o.children@[y].node_type@);
                    assert(n.children@[x].node_type == o.children@[x].node_type);
                    assert(n.children@[y].node_type == o.children@[y].node_type);
                }
            },
            None => {
                let c = n.children@.last();
                let len = o.children@.len() as int;
                assert(n.children@.drop_last() == o.children@);
                lemma_chain_handler_at(c, ks, h, ks);
                assert forall|x: int| 0 <= x < n.children@.len() implies siblings_distinct(
                    #[trigger] n.children@[x],
                ) by {
                    if x < len {
                        assert(n.children@[x] == o.children@[x]);
                    }
                }
                assert forall|x: int, y: int| 0 <= x < y < n.children@.len() implies #[trigger] n.children@[x].node_type@
                    != #[trigger] n.children@[y].node_type@ by {
                    assert(n.children@[x] == o.children@[x]);
                    if y < len {
                        assert(n.children@[y] == o.children@[y]);
                    }
                }
            },
        }
    }
}

// ---------------------------------------------------------------------------
// Size and kept nodes
// ---------------------------------------------------------------------------

/// The number of nodes of the tree under `n`, `n` included.
pub open spec fn tree_size<H>(n: RouteNode<H>) -> nat
    decreases n, 1int,
{
    1 + trees_size(n.children@)
}

/// The number of nodes of the trees `cs`.
pub open spec fn trees_size<H>(cs: Seq<RouteNode<H>>) -> nat
    decreases cs, 0int,
{
    if cs.len() == 0 {
        0
    } else {
        trees_size(cs.drop_last()) + tree_size(cs.last())
    }
}

/// Every node of the tree under `o` is still in the tree under `n`, at
/// the same place, with the same kind, and with its old children, in their
/// order, as the first of its children.
pub open spec fn keeps<H>(o: RouteNode<H>, n: RouteNode<H>) -> bool
    decreases o, 1int,
{
    n.node_type == o.node_type && keeps_all(o.children@, n.children@)
}

/// Each tree of `os` is kept by the tree at the same place in `ns`, and
/// `ns` has at least as many trees.
pub open spec fn keeps_all<H>(os: Seq<RouteNode<H>>, ns: Seq<RouteNode<H>>) -> bool
    decreases os, 0int,
{
    os.len() <= ns.len() && (os.len() > 0 ==> keeps_all(os.drop_last(), ns.take(os.len() - 1))
        && keeps(os.last(), ns[os.len() - 1]))
}

proof fn lemma_keeps_all_from<H>(os: Seq<RouteNode<H>>, ns: Seq<RouteNode<H>>)
    requires
        os.len() <= ns.len(),
        forall|x: int| 0 <= x < os.len() ==> keeps(#[trigger] os[x], ns[x]),
    ensures
        keeps_all(os, ns),
    decreases os.len(),
{
    if os.len() > 0 {
        let m = os.len() - 1;
        assert forall|x: int| 0 <= x < m implies keeps(#[trigger] os.drop_last()[x], ns.take(m)[x]) by {
            assert(os.drop_last()[x] == os[x]);
            assert(ns.take(m)[x] == ns[x]);
        }
        lemma_keeps_all_from(os.drop_last(), ns.take(m));
    }
}

proof fn lemma_keeps_same<H>(n: RouteNode<H>)
    ensures
        keeps(n, n),
    decreases n, 1int,
{
    lemma_keeps_all_same(n.children@);
}

proof fn lemma_keeps_all_same<H>(cs: Seq<RouteNode<H>>)
    ensures
        keeps_all(cs, cs),
    decreases cs, 0int,
{
    if cs.len() > 0 {
        lemma_keeps_all_same(cs.drop_last());
        lemma_keeps_same(cs.last());
        assert(cs.take(cs.len() - 1) =~= cs.drop_last());
    }
}

proof fn lemma_trees_size_same<H>(cs: Seq<RouteNode<H>>, ds: Seq<RouteNode<H>>, j: int)
    requires
        cs.len() == ds.len(),
        0 <= j < cs.len(),
        forall|x: int| 0 <= x < cs.len() && x != j ==> #[trigger] cs[x] == ds[x],
    ensures
        trees_size(ds) + tree_size(cs[j]) == trees_size(cs) + tree_size(ds[j]),
    decreases cs.len(),
{
    if j < cs.len() - 1 {
        assert forall|x: int| 0 <= x < cs.len() - 1 && x != j implies #[trigger] cs.drop_last()[x]
            == ds.drop_last()[x] by {
            assert(cs.drop_last()[x] == cs[x]);
            assert(ds.drop_last()[x] == ds[x]);
        }
        lemma_trees_size_same(cs.drop_last(), ds.drop_last(), j);
        assert(cs.last() == ds.last());
    } else {
        assert(cs.drop_last() =~= ds.drop_last()) by {
            assert forall|x: int| 0 <= x < cs.len() - 1 implies #[trigger] cs.drop_last()[x]
                == ds.drop_last()[x] by {
                assert(cs[x] == ds[x]);
            }
        }
    }
}

proof fn lemma_chain_size<H>(c: RouteNode<H>, ks: Seq<NodeKind>, h: H)
    requires
        is_chain(c, ks, h),
    ensures
        tree_size(c) == ks.len(),
    decreases ks.len(),
{
    let cs = c.children@;
    if ks.len() > 1 {
        lemma_chain_size(cs[0], ks.drop_first(), h);
        assert(cs.drop_last() =~= Seq::<RouteNode<H>>::empty());
        assert(trees_size(cs.drop_last()) == 0);
        assert(trees_size(cs) == trees_size(cs.drop_last()) + tree_size(cs.last()));
    } else {
        assert(cs.len() == 0);
        assert(trees_size(cs) == 0);
    }
}

/// Adding a route keeps every node, its kind, and its old children as the
/// first of its children, and adds at most one node per segment of the
/// route, fewer nodes than the route has kinds counting the root.
pub proof fn lemma_inserted_keeps<H>(o: RouteNode<H>, n: RouteNode<H>, ks: Seq<NodeKind>, h: H)
    requires
        inserted(o, n, ks, h),
    ensures
        keeps(o, n),
        tree_size(o) <= tree_size(n) <= tree_size(o) + ks.len(),
    decreases ks.len(),
{
    if ks.len() == 0 {
        lemma_keeps_all_same(o.children@);
    } else {
        match first_child_of_kind(o.children@, ks[0]) {
            Some(j) => {
                lemma_first_child(o.children@, ks[0]);
                let oc = o.children@[j];
                let nc = n.children@[j];
                assert(inserted(oc, nc, ks.drop_first(), h));
                lemma_inserted_keeps(oc, nc, ks.drop_first(), h);
                assert forall|x: int| 0 <= x < o.children@.len() implies keeps(
                    #[trigger] o.children@[x],
                    n.children@[x],
                ) by {
                    if x != j {
                        lemma_keeps_same(o.children@[x]);
                    }
                }
                lemma_keeps_all_from(o.children@, n.children@);
                lemma_trees_size_same(o.children@, n.children@, j);
            },
            None => {
                let c = n.children@.last();
                assert(n.children@.drop_last() == o.children@);
                assert forall|x: int| 0 <= x < o.children@.len() implies keeps(
                    #[trigger] o.children@[x],
                    n.children@[x],
                ) by {
                    assert(n.children@[x] == o.children@[x]);
                    lemma_keeps_same(o.children@[x]);
                }
                lemma_keeps_all_from(o.children@, n.children@);
                lemma_chain_size(c, ks, h);
            },
        }
    }
}

/// What `Router::add_handler(path, h)` does to a router whose tree has
/// distinct siblings: the siblings stay distinct; the node reached by the
/// kinds of `path` now has handler `h`; every other node reached by kinds
/// has the handler it had (none for a node that was added); every old node
/// keeps its kind and its old children, in order, as its first children;
/// and fewer nodes are added than `path` has kinds, the root counted.
pub proof fn lemma_add_handler<H>(o: Router<H>, n: Router<H>, path: Seq<char>, h: H)
    requires
        siblings_distinct(o.tree()),
        inserted(o.tree(), n.tree(), route_kinds(path).drop_first(), h),
    ensures
        siblings_distinct(n.tree()),
        handler_at(n.tree(), route_kinds(path).drop_first()) == Some(h),
        forall|ks: Seq<NodeKind>|
            ks != route_kinds(path).drop_first() ==> #[trigger] handler_at(n.tree(), ks)
                == handler_at(o.tree(), ks),
        keeps(o.tree(), n.tree()),
        tree_size(o.tree()) <= tree_size(n.tree()) < tree_size(o.tree()) + route_kinds(path).len(),
{
    let ks = route_kinds(path).drop_first();
    lemma_route_kinds_shape(path);
    lemma_inserted_distinct(o.tree(), n.tree(), ks, h);
    lemma_inserted_keeps(o.tree(), n.tree(), ks, h);
    lemma_inserted_handler_at(o.tree(), n.tree(), ks, h, ks);
    assert forall|k2: Seq<NodeKind>| k2 != ks implies #[trigger] handler_at(n.tree(), k2)
        == handler_at(o.tree(), k2) by {
        lemma_inserted_handler_at(o.tree(), n.tree(), ks, h, k2);
    }
}

// ---------------------------------------------------------------------------
// Searching a tree of many routes
// ---------------------------------------------------------------------------

/// A route of node kinds `ks` (the root left out) matches `parts` from
/// segment `i` on: one kind per remaining segment, each matching its
/// segment.
pub open spec fn path_matches(ks: Seq<NodeKind>, parts: Seq<Seq<char>>, i: int) -> bool {
    &&& ks.len() + i == parts.len()
    &&& forall|k: int| 0 <= k < ks.len() ==> kind_matches(#[trigger] ks[k], parts, i + k)
}

/// A route of node kinds `ks` (the root left out) is one that a search for
/// `path` looks at: for `/` the root itself, for any other path a route of
/// at least one segment whose segments match those of `path` after its
/// first.
pub open spec fn route_pattern(ks: Seq<NodeKind>, path: Seq<char>) -> bool {
    if path == seq!['/'] {
        ks.len() == 0
    } else {
        ks.len() >= 1 && path_matches(ks, spec_split(path, '/'), 1)
    }
}

proof fn lemma_concat_contains<H>(a: Seq<H>, b: Seq<H>, x: H)
    requires
        (a + b).contains(x),
    ensures
        a.contains(x) || b.contains(x),
{
    let i = choose|i: int| 0 <= i < (a + b).len() && (a + b)[i] == x;
    if i < a.len() {
        assert(a[i] == x);
    } else {
        assert(b[i - a.len()] == x);
    }
}

/// A handler that a node gives for `parts` is the handler of a route below
/// it that matches.
proof fn lemma_node_match_witness<H>(c: RouteNode<H>, parts: Seq<Seq<char>>, i: int, x: H) -> (ks:
    Seq<NodeKind>)
    requires
        siblings_distinct(c),
        parts.len() > 0,
        0 <= i,
        node_matches(c, parts, i).contains(x),
    ensures
        ks.len() >= 1,
        ks[0] == c.node_type@,
        path_matches(ks, parts, i),
        handler_at(c, ks.drop_first()) == Some(x),
    decreases c, 1int,
{
    if i >= parts.len() {
        crate::route::lemma_beyond_parts(c, parts, i);
        assert(false);
        seq![c.node_type@]
    } else if i == parts.len() - 1 {
        let ks = seq![c.node_type@];
        assert(ks.drop_first() =~= Seq::<NodeKind>::empty());
        assert(c.handler == Some(x));
        ks
    } else {
        lemma_all_siblings_distinct(c.children@);
        let (j, rest) = lemma_children_match_witness(c.children@, parts, i + 1, x);
        lemma_first_child_distinct(c.children@, j);
        let ks = seq![c.node_type@] + rest;
        assert(ks.drop_first() =~= rest);
        assert forall|k: int| 0 <= k < ks.len() implies kind_matches(#[trigger] ks[k], parts, i + k) by {
            if k > 0 {
                assert(ks[k] == rest[k - 1]);
            }
        }
        ks
    }
}

proof fn lemma_children_match_witness<H>(cs: Seq<RouteNode<H>>, parts: Seq<Seq<char>>, i: int, x: H) -> (r:
    (int, Seq<NodeKind>))
    requires
        all_siblings_distinct(cs),
        parts.len() > 0,
        0 <= i,
        children_matches(cs, parts, i).contains(x),
    ensures
        0 <= r.0 < cs.len(),
        r.1.len() >= 1,
        r.1[0] == cs[r.0].node_type@,
        path_matches(r.1, parts, i),
        handler_at(cs[r.0], r.1.drop_first()) == Some(x),
    decreases cs, 0int,
{
    if cs.len() == 0 {
        assert(false);
        (0, Seq::empty())
    } else {
        lemma_concat_contains(children_matches(cs.drop_last(), parts, i), node_matches(cs.last(), parts, i), x);
        if children_matches(cs.drop_last(), parts, i).contains(x) {
            let (j, ks) = lemma_children_match_witness(cs.drop_last(), parts, i, x);
            assert(cs.drop_last()[j] == cs[j]);
            (j, ks)
        } else {
            let ks = lemma_node_match_witness(cs.last(), parts, i, x);
            (cs.len() - 1, ks)
        }
    }
}

/// A matching route that has a handler makes the nodes below `n` give a
/// handler.
proof fn lemma_handler_found<H>(n: RouteNode<H>, ks: Seq<NodeKind>, parts: Seq<Seq<char>>, i: int)
    requires
        ks.len() >= 1,
        0 <= i,
        path_matches(ks, parts, i),
        handler_at(n, ks) is Some,
    ensures
        children_matches(n.children@, parts, i).len() > 0,
    decreases ks.len(),
{
    lemma_first_child(n.children@, ks[0]);
    let j = first_child_of_kind(n.children@, ks[0]).unwrap();
    let c = n.children@[j];
    assert(kind_matches(ks[0], parts, i + 0));
    if ks.len() > 1 {
        let rest = ks.drop_first();
        assert forall|k: int| 0 <= k < rest.len() implies kind_matches(#[trigger] rest[k], parts, i + 1 + k) by {
            assert(rest[k] == ks[k + 1]);
        }
        lemma_handler_found(c, rest, parts, i + 1);
    }
    crate::route::lemma_children_found(n.children@, parts, i, j);
}

/// In a tree with distinct siblings, a search finds a handler exactly when
/// some route it looks at has one, and what it finds is the handler of
/// such a route.
pub proof fn lemma_search_by_handlers<H>(n: RouteNode<H>, path: Seq<char>)
    requires
        siblings_distinct(n),
    ensures
        spec_search(n, path) matches Some(x) ==> exists|ks: Seq<NodeKind>|
            route_pattern(ks, path) && #[trigger] handler_at(n, ks) == Some(x),
        spec_search(n, path) is Some <==> exists|ks: Seq<NodeKind>|
            route_pattern(ks, path) && #[trigger] handler_at(n, ks) is Some,
{
    if path == seq!['/'] {
        let ks = Seq::<NodeKind>::empty();
        assert(handler_at(n, ks) == n.handler);
        if exists|ks: Seq<NodeKind>| route_pattern(ks, path) && #[trigger] handler_at(n, ks) is Some {
            let k2 = choose|ks: Seq<NodeKind>| route_pattern(ks, path) && #[trigger] handler_at(n, ks) is Some;
            assert(k2 =~= ks);
        }
    } else {
        let parts = spec_split(path, '/');
        lemma_split_nonempty(path, '/');
        lemma_all_siblings_distinct(n.children@);
        let found = children_matches(n.children@, parts, 1);
        if found.len() > 0 {
            assert(found.contains(found[0]));
            let (j, rest) = lemma_children_match_witness(n.children@, parts, 1, found[0]);
            lemma_first_child_distinct(n.children@, j);
            assert(handler_at(n, rest) == Some(found[0]));
            assert(route_pattern(rest, path));
        }
        if exists|ks: Seq<NodeKind>| route_pattern(ks, path) && #[trigger] handler_at(n, ks) is Some {
            let k2 = choose|ks: Seq<NodeKind>| route_pattern(ks, path) && #[trigger] handler_at(n, ks) is Some;
            lemma_handler_found(n, k2, parts, 1);
        }
    }
}

/// A tree with no routes: the root alone, without handler.
pub open spec fn is_empty_tree<H>(n: RouteNode<H>) -> bool {
    &&& n.children@.len() == 0
    &&& n.handler is None
    &&& n.node_type@ == NodeKind::Root
}

/// `trees` are the trees that adding `routes` (path and handler) one after
/// another to an empty tree goes through, the empty tree first.
pub open spec fn built_by<H>(trees: Seq<RouteNode<H>>, routes: Seq<(Seq<char>, H)>) -> bool {
    &&& trees.len() == routes.len() + 1
    &&& is_empty_tree(trees[0])
    &&& forall|j: int|
        0 <= j < routes.len() ==> inserted(
            #[trigger] trees[j],
            trees[j + 1],
            route_kinds(routes[j].0).drop_first(),
            routes[j].1,
        )
}

/// The handler of the last of `routes` whose node kinds (the root left
/// out) are `ks`.
pub open spec fn last_handler<H>(routes: Seq<(Seq<char>, H)>, ks: Seq<NodeKind>) -> Option<H>
    decreases routes.len(),
{
    if routes.len() == 0 {
        None
    } else if route_kinds(routes.last().0).drop_first() == ks {
        Some(routes.last().1)
    } else {
        last_handler(routes.drop_last(), ks)
    }
}

proof fn lemma_built_prefix<H>(trees: Seq<RouteNode<H>>, routes: Seq<(Seq<char>, H)>, j: int)
    requires
        built_by(trees, routes),
        0 <= j <= routes.len(),
    ensures
        siblings_distinct(trees[j]),
        forall|ks: Seq<NodeKind>| #[trigger] handler_at(trees[j], ks) == last_handler(routes.take(j), ks),
    decreases j,
{
    if j == 0 {
        let t = trees[0];
        lemma_all_siblings_distinct(t.children@);
        assert forall|ks: Seq<NodeKind>| #[trigger] handler_at(t, ks) == last_handler(routes.take(0), ks) by {
            if ks.len() > 0 {
                lemma_first_child(t.children@, ks[0]);
            }
        }
    } else {
        lemma_built_prefix(trees, routes, j - 1);
        let o = trees[j - 1];
        let n = trees[j];
        let ks0 = route_kinds(routes[j - 1].0).drop_first();
        assert(inserted(o, n, ks0, routes[j - 1].1));
        lemma_inserted_distinct(o, n, ks0, routes[j - 1].1);
        assert(routes.take(j).drop_last() =~= routes.take(j - 1));
        assert(routes.take(j).last() == routes[j - 1]);
        assert forall|ks: Seq<NodeKind>| #[trigger] handler_at(n, ks) == last_handler(routes.take(j), ks) by {
            lemma_inserted_handler_at(o, n, ks0, routes[j - 1].1, ks);
        }
    }
}

/// Searching a tree built by adding routes one after another: the search
/// finds nothing exactly when no route it looks at (see `route_pattern`)
/// has been added, and what it finds is, for one such route, the handler
/// that was added for it last.
pub proof fn lemma_search_after_routes<H>(
    trees: Seq<RouteNode<H>>,
    routes: Seq<(Seq<char>, H)>,
    path: Seq<char>,
)
    requires
        built_by(trees, routes),
    ensures
        spec_search(trees.last(), path) matches Some(x) ==> exists|ks: Seq<NodeKind>|
            route_pattern(ks, path) && #[trigger] last_handler(routes, ks) == Some(x),
        spec_search(trees.last(), path) is None <==> !exists|ks: Seq<NodeKind>|
            route_pattern(ks, path) && #[trigger] last_handler(routes, ks) is Some,
{
    lemma_built_prefix(trees, routes, routes.len() as int);
    assert(routes.take(routes.len() as int) =~= routes);
    let n = trees.last();
    lemma_search_by_handlers(n, path);
    if let Some(x) = spec_search(n, path) {
        let ks = choose|ks: Seq<NodeKind>| route_pattern(ks, path) && #[trigger] handler_at(n, ks) == Some(x);
        assert(last_handler(routes, ks) == Some(x));
    }
    if exists|ks: Seq<NodeKind>| route_pattern(ks, path) && #[trigger] last_handler(routes, ks) is Some {
        let ks = choose|ks: Seq<NodeKind>| route_pattern(ks, path) && #[trigger] last_handler(routes, ks) is Some;
        assert(handler_at(n, ks) is Some);
    }
}

/// A route of node kinds `ks` (the root left out) fits the segments
/// `parts` of a path: one kind per segment after the first, a literal
/// equal to its segment, a parameter anywhere, the root nowhere.
pub open spec fn segments_fit(ks: Seq<NodeKind>, parts: Seq<Seq<char>>) -> bool {
    &&& ks.len() >= 1
    &&& ks.len() + 1 == parts.len()
    &&& forall|k: int|
        0 <= k < ks.len() ==> match #[trigger] ks[k] {
            NodeKind::Path(m) => parts[k + 1] == m,
            NodeKind::Param(_) => true,
            NodeKind::Root => false,
        }
}

proof fn lemma_pattern_is_fit(ks: Seq<NodeKind>, path: Seq<char>)
    requires
        path != seq!['/'],
    ensures
        route_pattern(ks, path) <==> segments_fit(ks, spec_split(path, '/')),
{
    let parts = spec_split(path, '/');
    if route_pattern(ks, path) {
        assert forall|k: int| 0 <= k < ks.len() implies match #[trigger] ks[k] {
            NodeKind::Path(m) => parts[k + 1] == m,
            NodeKind::Param(_) => true,
            NodeKind::Root => false,
        } by {
            assert(kind_matches(ks[k], parts, 1 + k));
        }
    }
    if segments_fit(ks, parts) {
        assert forall|k: int| 0 <= k < ks.len() implies kind_matches(#[trigger] ks[k], parts, 1 + k) by {
            if let NodeKind::Path(m) = ks[k] {
                assert(parts[k + 1] == m);
            }
        }
    }
}

/// In a tree with distinct siblings, a search for a path other than `/`
/// finds a handler exactly when some route whose literal segments equal
/// the path's segments, one for one, has a handler; and what it finds is
/// the handler of such a route. A literal segment never matches a longer
/// or shorter segment of the path.
pub proof fn lemma_search_segments<H>(n: RouteNode<H>, path: Seq<char>)
    requires
        siblings_distinct(n),
        path != seq!['/'],
    ensures
        spec_search(n, path) matches Some(x) ==> exists|ks: Seq<NodeKind>|
            segments_fit(ks, spec_split(path, '/')) && #[trigger] handler_at(n, ks) == Some(x),
        spec_search(n, path) is Some <==> exists|ks: Seq<NodeKind>|
            segments_fit(ks, spec_split(path, '/')) && #[trigger] handler_at(n, ks) is Some,
{
    lemma_search_by_handlers(n, path);
    let parts = spec_split(path, '/');
    if let Some(x) = spec_search(n, path) {
        let ks = choose|ks: Seq<NodeKind>| route_pattern(ks, path) && #[trigger] handler_at(n, ks) == Some(x);
        lemma_pattern_is_fit(ks, path);
    }
    if exists|ks: Seq<NodeKind>| segments_fit(ks, parts) && #[trigger] handler_at(n, ks) is Some {
        let ks = choose|ks: Seq<NodeKind>| segments_fit(ks, parts) && #[trigger] handler_at(n, ks) is Some;
        lemma_pattern_is_fit(ks, path);
    }
    if spec_search(n, path) is Some {
        let ks = choose|ks: Seq<NodeKind>| route_pattern(ks, path) && #[trigger] handler_at(n, ks) is Some;
        lemma_pattern_is_fit(ks, path);
    }
}

} // verus!
