//! The route tree: each node stands for one segment of a path (a literal
//! segment, a `:name` parameter, or the root), and a node with a handler
//! ends a route.
use vstd::prelude::*;

use crate::text::{chars_eq, chars_of, spec_split, split_chars, str_eq, string_from_chars, views_of};

verus! {

/// What a node stands for, as plain values.
pub enum NodeKind {
    Param(Seq<char>),
    Path(Seq<char>),
    Root,
}

/// The kind of one route node.
#[derive(Debug, Eq, Hash, PartialEq)]
pub enum RouteNodeType {
    /// A `:name` segment, which matches any segment.
    ParamNode(String),
    /// A literal segment, which matches only itself.
    PathNode(String),
    /// The root, which no segment matches.
    RootNode,
}

impl View for RouteNodeType {
    type V = NodeKind;

    open spec fn view(&self) -> NodeKind {
        match self {
            RouteNodeType::ParamNode(s) => NodeKind::Param(s@),
            RouteNodeType::PathNode(s) => NodeKind::Path(s@),
            RouteNodeType::RootNode => NodeKind::Root,
        }
    }
}

impl Clone for RouteNodeType {
    fn clone(&self) -> (r: Self)
        ensures
            r == *self,
    {
        match self {
            RouteNodeType::ParamNode(s) => RouteNodeType::ParamNode(s.clone()),
            RouteNodeType::PathNode(s) => RouteNodeType::PathNode(s.clone()),
            RouteNodeType::RootNode => RouteNodeType::RootNode,
        }
    }
}

impl RouteNodeType {
    /// Whether two node types stand for the same segment.
    pub fn same_as(&self, other: &Self) -> (r: bool)
        ensures
            r == (self@ == other@),
    {
        match (self, other) {
            (RouteNodeType::ParamNode(a), RouteNodeType::ParamNode(b)) => str_eq(a.as_str(), b.as_str()),
            (RouteNodeType::PathNode(a), RouteNodeType::PathNode(b)) => str_eq(a.as_str(), b.as_str()),
            (RouteNodeType::RootNode, RouteNodeType::RootNode) => true,
            _ => false,
        }
    }
}

/// A node of the route tree.
#[derive(Debug, Eq, Hash, PartialEq)]
#[verifier::reject_recursive_types(H)]
pub struct RouteNode<H> {
    pub children: Vec<RouteNode<H>>,
    pub handler: Option<H>,
    pub node_type: RouteNodeType,
}

/// Whether a node of kind `k` matches segment `i` of `parts`.
pub open spec fn kind_matches(k: NodeKind, parts: Seq<Seq<char>>, i: int) -> bool {
    match k {
        NodeKind::Param(_) => true,
        NodeKind::Path(n) => 0 <= i < parts.len() && parts[i] == n,
        NodeKind::Root => false,
    }
}

/// A literal node matches a segment exactly when the segment is its text
/// (a longer segment that starts with it does not match); a parameter node
/// matches any segment; the root matches none.
pub proof fn lemma_kind_matches_exactly(k: NodeKind, parts: Seq<Seq<char>>, i: int)
    ensures
        k matches NodeKind::Path(n) ==> (kind_matches(k, parts, i) <==> (0 <= i < parts.len()
            && parts[i].len() == n.len() && forall|j: int| 0 <= j < n.len() ==> parts[i][j] == n[j])),
        k is Param ==> kind_matches(k, parts, i),
        k is Root ==> !kind_matches(k, parts, i),
{
    if let NodeKind::Path(n) = k {
        if 0 <= i < parts.len() && parts[i].len() == n.len() && forall|j: int| 0 <= j < n.len() ==> parts[i][j] == n[j] {
            assert(parts[i] =~= n);
        }
    }
}

/// The handlers that `node` and the nodes under it give for `parts` when
/// `node` is tried against segment `i`, in depth-first order.
pub open spec fn node_matches<H>(node: RouteNode<H>, parts: Seq<Seq<char>>, i: int) -> Seq<H>
    decreases node, 1int,
{
    if !kind_matches(node.node_type@, parts, i) {
        Seq::empty()
    } else if i == parts.len() - 1 {
        match node.handler {
            Some(h) => seq![h],
            None => Seq::empty(),
        }
    } else {
        children_matches(node.children@, parts, i + 1)
    }
}

/// The handlers that the nodes `cs`, in order, give for `parts` when tried
/// against segment `i`.
pub open spec fn children_matches<H>(cs: Seq<RouteNode<H>>, parts: Seq<Seq<char>>, i: int) -> Seq<H>
    decreases cs, 0int,
{
    if cs.len() == 0 {
        Seq::empty()
    } else {
        children_matches(cs.drop_last(), parts, i) + node_matches(cs.last(), parts, i)
    }
}

} // verus!

verus! {

/// The kind of node that a path segment stands for: `:name` is a parameter
/// called `name`, anything else a literal segment.
pub open spec fn piece_kind(p: Seq<char>) -> NodeKind {
    if p.len() > 0 && p[0] == ':' {
        NodeKind::Param(p.drop_first())
    } else {
        NodeKind::Path(p)
    }
}

/// The node kinds of a route path: the root, then one kind per segment
/// after the first `/`. The path `/` is the root alone.
pub open spec fn route_kinds(path: Seq<char>) -> Seq<NodeKind> {
    if path == seq!['/'] {
        seq![NodeKind::Root]
    } else {
        seq![NodeKind::Root] + spec_split(path, '/').drop_first().map_values(
            |p: Seq<char>| piece_kind(p),
        )
    }
}

pub open spec fn kinds_of(v: Seq<RouteNodeType>) -> Seq<NodeKind> {
    v.map_values(|t: RouteNodeType| t@)
}

/// What searching the tree under `root` for `path` finds: for `/` the
/// root's own handler, otherwise the first handler, in depth-first order,
/// of a route whose segments match those of `path`.
pub open spec fn spec_search<H>(root: RouteNode<H>, path: Seq<char>) -> Option<H> {
    if path == seq!['/'] {
        root.handler
    } else {
        let found = children_matches(root.children@, spec_split(path, '/'), 1);
        if found.len() > 0 {
            Some(found[0])
        } else {
            None
        }
    }
}

/// `node` is a single route: a chain of nodes of kinds `kinds`, with
/// `h` on the last node and no other handler.
pub open spec fn is_chain<H>(node: RouteNode<H>, kinds: Seq<NodeKind>, h: H) -> bool
    decreases kinds.len(),
{
    &&& kinds.len() > 0
    &&& node.node_type@ == kinds[0]
    &&& if kinds.len() == 1 {
        node.children@.len() == 0 && node.handler == Some(h)
    } else {
        &&& node.handler is None
        &&& node.children@.len() == 1
        &&& is_chain(node.children@[0], kinds.drop_first(), h)
    }
}

/// The position of the first node in `cs` of kind `k`.
pub open spec fn first_child_of_kind<H>(cs: Seq<RouteNode<H>>, k: NodeKind) -> Option<int>
    decreases cs.len(),
{
    if cs.len() == 0 {
        None
    } else {
        match first_child_of_kind(cs.drop_last(), k) {
            Some(j) => Some(j),
            None => if cs.last().node_type@ == k {
                Some(cs.len() - 1)
            } else {
                None
            },
        }
    }
}

/// `n` is `o` with the route of kinds `ks` added below it, ending in `h`:
/// each segment follows the first child of its kind, a missing one is
/// added as the last child, and the handler at the end is replaced.
pub open spec fn inserted<H>(o: RouteNode<H>, n: RouteNode<H>, ks: Seq<NodeKind>, h: H) -> bool
    decreases ks.len(),
{
    &&& n.node_type == o.node_type
    &&& if ks.len() == 0 {
        n.handler == Some(h) && n.children@ == o.children@
    } else {
        &&& n.handler == o.handler
        &&& match first_child_of_kind(o.children@, ks[0]) {
            Some(j) => {
                &&& n.children@.len() == o.children@.len()
                &&& forall|x: int|
                    0 <= x < n.children@.len() && x != j ==> n.children@[x] == o.children@[x]
                &&& inserted(o.children@[j], n.children@[j], ks.drop_first(), h)
            },
            None => {
                &&& n.children@.len() == o.children@.len() + 1
                &&& n.children@.drop_last() == o.children@
                &&& is_chain(n.children@.last(), ks, h)
            },
        }
    }
}

/// A node that stands for nothing beyond the last segment matches nothing.
pub proof fn lemma_beyond_parts<H>(node: RouteNode<H>, parts: Seq<Seq<char>>, i: int)
    requires
        parts.len() > 0,
        i >= parts.len(),
    ensures
        node_matches(node, parts, i) == Seq::<H>::empty(),
    decreases node, 1int,
{
    if kind_matches(node.node_type@, parts, i) && i != parts.len() - 1 {
        lemma_children_beyond_parts(node.children@, parts, i + 1);
    }
}

proof fn lemma_children_beyond_parts<H>(cs: Seq<RouteNode<H>>, parts: Seq<Seq<char>>, i: int)
    requires
        parts.len() > 0,
        i >= parts.len(),
    ensures
        children_matches(cs, parts, i) == Seq::<H>::empty(),
    decreases cs, 0int,
{
    if cs.len() > 0 {
        lemma_children_beyond_parts(cs.drop_last(), parts, i);
        lemma_beyond_parts(cs.last(), parts, i);
        assert(Seq::<H>::empty() + Seq::<H>::empty() =~= Seq::<H>::empty());
    }
}

fn matches_segment<H>(node: &RouteNode<H>, parts: &Vec<Vec<char>>, i: usize) -> (r: bool)
    requires
        i < parts.len(),
    ensures
        r == kind_matches(node.node_type@, views_of(parts@), i as int),
{
    match &node.node_type {
        RouteNodeType::ParamNode(_) => true,
        RouteNodeType::PathNode(n) => {
            let cs = chars_of(n.as_str());
            chars_eq(parts[i].as_slice(), cs.as_slice())
        },
        RouteNodeType::RootNode => false,
    }
}

/// The handlers found under `node` for `parts`, trying `node` against
/// segment `i`.
fn search_node<H: Copy>(parts: &Vec<Vec<char>>, node: &RouteNode<H>, i: usize) -> (r: Vec<H>)
    requires
        parts.len() > 0,
    ensures
        r@ == node_matches(*node, views_of(parts@), i as int),
    decreases node,
{
    let ghost ps = views_of(parts@);
    if i >= parts.len() {
        proof {
            lemma_beyond_parts(*node, ps, i as int);
        }
        return Vec::new();
    }
    if !matches_segment(node, parts, i) {
        return Vec::new();
    }
    let mut found: Vec<H> = Vec::new();
    if i == parts.len() - 1 {
        if let Some(h) = node.handler {
            found.push(h);
        }
        assert(found@ =~= node_matches(*node, ps, i as int));
        return found;
    }
    let mut k: usize = 0;
    while k < node.children.len()
        invariant
            k <= node.children@.len(),
            parts.len() > 0,
            i + 1 < parts.len(),
            ps == views_of(parts@),
            found@ == children_matches(node.children@.take(k as int), ps, i + 1),
        decreases node.children.len() - k,
    {
        assert(decreases_to!(*node => node.children@[k as int]));
        let mut more = search_node(parts, &node.children[k], i + 1);
        let ghost before = found@;
        found.append(&mut more);
        assert(node.children@.take(k + 1).drop_last() == node.children@.take(k as int));
        k = k + 1;
    }
    assert(node.children@.take(node.children@.len() as int) == node.children@);
    found
}

/// Adds below `node` the route whose remaining segments are
/// `parts[depth..]`, ending in `h`.
fn insert_route<H>(node: &mut RouteNode<H>, parts: &Vec<RouteNodeType>, depth: usize, h: H)
    requires
        depth <= parts.len(),
    ensures
        inserted(*old(node), *final(node), kinds_of(parts@).skip(depth as int), h),
    decreases parts.len() - depth,
{
    let ghost ks = kinds_of(parts@).skip(depth as int);
    if depth == parts.len() {
        node.handler = Some(h);
        return;
    }
    assert(ks[0] == parts@[depth as int]@);
    assert(ks.drop_first() == kinds_of(parts@).skip(depth + 1));
    let ghost o = *node;
    let mut idx: Option<usize> = None;
    let mut k: usize = 0;
    assert(node.children@.take(node.children@.len() as int) =~= node.children@);
    while k < node.children.len()
        invariant_except_break
            k <= node.children@.len(),
            node.children@.take(node.children@.len() as int) == node.children@,
            o == *node,
            depth < parts.len(),
            ks[0] == parts@[depth as int]@,
            idx is None,
            first_child_of_kind(node.children@.take(k as int), ks[0]) is None,
        ensures
            o == *node,
            idx matches Some(j) ==> {
                &&& j < node.children@.len()
                &&& node.children@[j as int].node_type@ == ks[0]
                &&& first_child_of_kind(node.children@.take(j as int), ks[0]) is None
            },
            idx is None ==> first_child_of_kind(node.children@, ks[0]) is None,
        decreases node.children.len() - k,
    {
        assert(node.children@.take(k + 1).drop_last() == node.children@.take(k as int));
        if node.children[k].node_type.same_as(&parts[depth]) {
            idx = Some(k);
            break;
        }
        k = k + 1;
    }
    proof {
        if idx is None {
            assert(node.children@.take(node.children@.len() as int) == node.children@);
        }
    }
    match idx {
        Some(j) => {
            proof {
                lemma_first_child_prefix(o.children@, ks[0], j as int);
            }
            let mut child = node.children.remove(j);
            insert_route(&mut child, parts, depth + 1, h);
            node.children.insert(j, child);
        },
        None => {
            let mut child = RouteNode {
                children: Vec::new(),
                handler: None,
                node_type: parts[depth].clone(),
            };
            let ghost fresh = child;
            insert_route(&mut child, parts, depth + 1, h);
            proof {
                lemma_inserted_into_empty(fresh, child, ks.drop_first(), h);
                assert(seq![fresh.node_type@] + ks.drop_first() =~= ks);
            }
            node.children.push(child);
            assert(node.children@.drop_last() =~= o.children@);
        },
    }
}

/// If the first `j` nodes have no node of kind `k` and node `j` does, the
/// first node of kind `k` is node `j`.
proof fn lemma_first_child_prefix<H>(cs: Seq<RouteNode<H>>, k: NodeKind, j: int)
    requires
        0 <= j < cs.len(),
        first_child_of_kind(cs.take(j), k) is None,
        cs[j].node_type@ == k,
    ensures
        first_child_of_kind(cs, k) == Some(j),
    decreases cs.len(),
{
    if j < cs.len() - 1 {
        assert(cs.drop_last().take(j) == cs.take(j));
        lemma_first_child_prefix(cs.drop_last(), k, j);
    } else {
        assert(cs.drop_last() == cs.take(j));
    }
}

/// Adding a route below a fresh node with no children and no handler makes
/// a single chain.
proof fn lemma_inserted_into_empty<H>(o: RouteNode<H>, n: RouteNode<H>, ks: Seq<NodeKind>, h: H)
    requires
        o.children@.len() == 0,
        o.handler is None,
        inserted(o, n, ks, h),
    ensures
        is_chain(n, seq![o.node_type@] + ks, h),
    decreases ks.len(),
{
    let all = seq![o.node_type@] + ks;
    assert(all[0] == o.node_type@);
    if ks.len() > 0 {
        assert(all.drop_first() =~= ks);
        assert(n.children@.drop_last() == o.children@);
    }
}

impl<H> Default for RouteNode<H> {
    fn default() -> (r: Self)
        ensures
            r.children@.len() == 0,
            r.handler is None,
            r.node_type@ == NodeKind::Root,
    {
        RouteNode { children: Vec::new(), handler: None, node_type: RouteNodeType::RootNode }
    }
}

impl<H> RouteNode<H> {
    /// The tree of a single route: the root, then one node per segment of
    /// `path`, with `handler` on the last node.
    pub fn parse(path: &str, handler: H) -> (r: Self)
        ensures
            is_chain(r, route_kinds(path@), handler),
    {
        let parts = Router::<H>::parse(path);
        let ghost ks = kinds_of(parts@);
        assert(ks.len() >= 1);
        let n = parts.len();
        assert(ks[0] == NodeKind::Root);
        let mut node = RouteNode {
            children: Vec::new(),
            handler: Some(handler),
            node_type: parts[n - 1].clone(),
        };
        assert(ks.skip(n - 1) =~= seq![ks[n - 1]]);
        let mut k: usize = n - 1;
        while k > 0
            invariant
                0 <= k < n,
                n == parts@.len(),
                ks == kinds_of(parts@),
                is_chain(node, ks.skip(k as int), handler),
            decreases k,
        {
            k = k - 1;
            let mut cs: Vec<RouteNode<H>> = Vec::new();
            cs.push(node);
            node = RouteNode { children: cs, handler: None, node_type: parts[k].clone() };
            assert(ks.skip(k as int).drop_first() =~= ks.skip(k + 1));
        }
        assert(ks.skip(0) =~= ks);
        node
    }

    /// Adds the route `path`, ending in `handler`, to the tree under this
    /// node.
    pub fn add_handler(&mut self, path: &str, handler: H)
        ensures
            inserted(*old(self), *final(self), route_kinds(path@).drop_first(), handler),
    {
        let parts = Router::<H>::parse(path);
        assert(kinds_of(parts@).skip(1) =~= route_kinds(path@).drop_first());
        insert_route(self, &parts, 1, handler);
    }
}

impl<H: Copy> RouteNode<H> {
    /// The handler for `path`: for `/` this node's own handler, otherwise
    /// the first handler, in depth-first order, of a route below this node
    /// whose segments match those of `path`.
    pub fn search(&self, path: &str) -> (r: Option<H>)
        ensures
            r == spec_search(*self, path@),
    {
        proof {
            reveal_strlit("/");
        }
        assert("/"@ =~= seq!['/']);
        if str_eq(path, "/") {
            assert(path@ =~= seq!['/']);
            return self.handler;
        }
        assert(path@ != seq!['/']);
        let cs = chars_of(path);
        let parts = split_chars(cs.as_slice(), '/');
        proof {
            crate::text::lemma_split_nonempty(path@, '/');
        }
        let ghost ps = views_of(parts@);
        let mut found: Vec<H> = Vec::new();
        let mut k: usize = 0;
        while k < self.children.len()
            invariant
                k <= self.children@.len(),
                parts.len() > 0,
                ps == views_of(parts@),
                ps == spec_split(path@, '/'),
                found@ == children_matches(self.children@.take(k as int), ps, 1),
            decreases self.children.len() - k,
        {
            let mut more = search_node(&parts, &self.children[k], 1);
            found.append(&mut more);
            assert(self.children@.take(k + 1).drop_last() == self.children@.take(k as int));
            k = k + 1;
        }
        assert(self.children@.take(self.children@.len() as int) == self.children@);
        if found.len() > 0 {
            Some(found[0])
        } else {
            None
        }
    }
}

/// A set of routes, each leading to a handler.
#[verifier::reject_recursive_types(H)]
pub struct Router<H> {
    root: RouteNode<H>,
}

impl<H> Router<H> {
    /// The node kinds of `path`, as [`route_kinds`] gives them.
    fn parse(path: &str) -> (r: Vec<RouteNodeType>)
        ensures
            kinds_of(r@) == route_kinds(path@),
    {
        let mut parts: Vec<RouteNodeType> = Vec::new();
        parts.push(RouteNodeType::RootNode);
        proof {
            reveal_strlit("/");
        }
        assert("/"@ =~= seq!['/']);
        if str_eq(path, "/") {
            assert(path@ =~= seq!['/']);
            assert(kinds_of(parts@) =~= route_kinds(path@));
            return parts;
        }
        let cs = chars_of(path);
        let pieces = split_chars(cs.as_slice(), '/');
        let ghost ps = spec_split(path@, '/');
        let ghost want = route_kinds(path@);
        proof {
            crate::text::lemma_split_nonempty(path@, '/');
        }
        let mut index: usize = 1;
        while index < pieces.len()
            invariant
                1 <= index <= pieces@.len(),
                views_of(pieces@) == ps,
                ps.len() > 0,
                want == seq![NodeKind::Root] + ps.drop_first().map_values(|p: Seq<char>| piece_kind(p)),
                kinds_of(parts@) == want.take(index as int),
            decreases pieces.len() - index,
        {
            let piece = &pieces[index];
            assert(piece@ == ps[index as int]);
            let t = if piece.len() > 0 && piece[0] == ':' {
                let name = crate::text::string_from_chars_after(piece.as_slice(), 1);
                RouteNodeType::ParamNode(name)
            } else {
                RouteNodeType::PathNode(string_from_chars(piece.as_slice()))
            };
            assert(t@ == piece_kind(ps[index as int]));
            let ghost before = parts@;
            parts.push(t);
            assert(kinds_of(parts@) =~= kinds_of(before).push(t@));
            index = index + 1;
            assert(kinds_of(parts@) =~= want.take(index as int));
        }
        assert(want.take(index as int) =~= want);
        parts
    }

    /// The route tree.
    pub closed spec fn tree(&self) -> RouteNode<H> {
        self.root
    }

    /// A router with no routes.
    pub fn new() -> (r: Self)
        ensures
            r.tree().children@.len() == 0,
            r.tree().handler is None,
            r.tree().node_type@ == NodeKind::Root,
    {
        Router {
            root: RouteNode { children: Vec::new(), handler: None, node_type: RouteNodeType::RootNode },
        }
    }

    /// Adds the route `path`, ending in `handler`.
    pub fn add_handler(&mut self, path: &str, handler: H)
        ensures
            inserted(old(self).tree(), final(self).tree(), route_kinds(path@).drop_first(), handler),
    {
        self.root.add_handler(path, handler);
    }
}

impl<H: Copy> Router<H> {
    /// The handler for `path`, as [`RouteNode::search`] finds it.
    pub fn search(&self, path: &str) -> (r: Option<H>)
        ensures
            r == spec_search(self.tree(), path@),
    {
        self.root.search(path)
    }
}

} // verus!

verus! {

/// Whether a single route of kinds `kinds` leads to a handler for the path
/// whose segments are `parts`: one node per segment after the first, each
/// matching its segment.
pub open spec fn route_matches(kinds: Seq<NodeKind>, parts: Seq<Seq<char>>) -> bool {
    &&& kinds.len() >= 2
    &&& kinds.len() == parts.len()
    &&& forall|k: int| 1 <= k < kinds.len() ==> kind_matches(#[trigger] kinds[k], parts, k)
}

proof fn lemma_single_child_matches<H>(cs: Seq<RouteNode<H>>, parts: Seq<Seq<char>>, i: int)
    requires
        cs.len() == 1,
    ensures
        children_matches(cs, parts, i) == node_matches(cs[0], parts, i),
{
    assert(cs.drop_last() =~= Seq::<RouteNode<H>>::empty());
    assert(children_matches(cs.drop_last(), parts, i) =~= Seq::<H>::empty());
    assert(Seq::<H>::empty() + node_matches(cs[0], parts, i) =~= node_matches(cs[0], parts, i));
}

/// What a chain of nodes gives when its first node is tried against
/// segment `i`.
proof fn lemma_chain_matches<H>(node: RouteNode<H>, kinds: Seq<NodeKind>, parts: Seq<Seq<char>>, i: int, h: H)
    requires
        is_chain(node, kinds, h),
        parts.len() > 0,
    ensures
        node_matches(node, parts, i) == if i + kinds.len() == parts.len() && forall|k: int|
            0 <= k < kinds.len() ==> kind_matches(#[trigger] kinds[k], parts, i + k) {
            seq![h]
        } else {
            Seq::<H>::empty()
        },
    decreases kinds.len(),
{
    let cond = i + kinds.len() == parts.len() && forall|k: int|
        0 <= k < kinds.len() ==> kind_matches(#[trigger] kinds[k], parts, i + k);
    if !kind_matches(node.node_type@, parts, i) {
        assert(!kind_matches(kinds[0], parts, i + 0));
    } else if i == parts.len() - 1 {
        if kinds.len() == 1 {
            assert forall|k: int| 0 <= k < kinds.len() implies kind_matches(#[trigger] kinds[k], parts, i + k) by {
                assert(k == 0);
            }
        }
    } else if kinds.len() == 1 {
        assert(node.children@ =~= Seq::<RouteNode<H>>::empty());
    } else {
        let c = node.children@[0];
        let rest = kinds.drop_first();
        lemma_chain_matches(c, rest, parts, i + 1, h);
        lemma_single_child_matches(node.children@, parts, i + 1);
        let cond2 = i + 1 + rest.len() == parts.len() && forall|k: int|
            0 <= k < rest.len() ==> kind_matches(#[trigger] rest[k], parts, i + 1 + k);
        if cond2 {
            assert forall|k: int| 0 <= k < kinds.len() implies kind_matches(#[trigger] kinds[k], parts, i + k) by {
                if k > 0 {
                    assert(kinds[k] == rest[k - 1]);
                }
            }
        }
        if cond {
            assert forall|k: int| 0 <= k < rest.len() implies kind_matches(#[trigger] rest[k], parts, i + 1 + k) by {
                assert(rest[k] == kinds[k + 1]);
            }
        }
    }
}

/// Searching the tree of a single route: the path `/` finds the handler
/// exactly when the route is `/` itself (or has no segment after a `/`);
/// any other path finds it exactly when its segments match the route's
/// segments one for one, a `:name` segment matching anything.
pub proof fn lemma_search_single_route<H>(node: RouteNode<H>, route: Seq<char>, path: Seq<char>, h: H)
    requires
        is_chain(node, route_kinds(route), h),
    ensures
        spec_search(node, path) == if path == seq!['/'] {
            if route_kinds(route).len() == 1 {
                Some(h)
            } else {
                None
            }
        } else if route_matches(route_kinds(route), spec_split(path, '/')) {
            Some(h)
        } else {
            None
        },
{
    let kinds = route_kinds(route);
    let parts = spec_split(path, '/');
    if path != seq!['/'] {
        crate::text::lemma_split_nonempty(path, '/');
        if kinds.len() == 1 {
            assert(node.children@ =~= Seq::<RouteNode<H>>::empty());
        } else {
            let c = node.children@[0];
            let rest = kinds.drop_first();
            lemma_chain_matches(c, rest, parts, 1, h);
            lemma_single_child_matches(node.children@, parts, 1);
            if route_matches(kinds, parts) {
                assert forall|k: int| 0 <= k < rest.len() implies kind_matches(#[trigger] rest[k], parts, 1 + k) by {
                    assert(rest[k] == kinds[k + 1]);
                }
            } else {
                if 1 + rest.len() == parts.len() && forall|k: int|
                    0 <= k < rest.len() ==> kind_matches(#[trigger] rest[k], parts, 1 + k) {
                    assert forall|k: int| 1 <= k < kinds.len() implies kind_matches(#[trigger] kinds[k], parts, k) by {
                        assert(kinds[k] == rest[k - 1]);
                    }
                }
            }
        }
    }
}

/// A path with a `/` in it splits into at least two segments.
proof fn lemma_split_at_least_two(s: Seq<char>, sep: char)
    requires
        s.contains(sep),
    ensures
        spec_split(s, sep).len() >= 2,
    decreases s.len(),
{
    crate::text::lemma_split_nonempty(s.drop_last(), sep);
    if s.last() != sep {
        let i = choose|i: int| 0 <= i < s.len() && s[i] == sep;
        assert(s.drop_last()[i] == sep);
        lemma_split_at_least_two(s.drop_last(), sep);
    }
}

/// Each segment of a route path matches the node kind made from it.
proof fn lemma_route_kinds_match_own_parts(route: Seq<char>)
    requires
        route != seq!['/'],
        route.contains('/'),
    ensures
        route_matches(route_kinds(route), spec_split(route, '/')),
{
    let parts = spec_split(route, '/');
    lemma_split_at_least_two(route, '/');
    let kinds = route_kinds(route);
    assert forall|k: int| 1 <= k < kinds.len() implies kind_matches(#[trigger] kinds[k], parts, k) by {
        assert(kinds[k] == piece_kind(parts[k]));
    }
}

/// The tree of a single route finds its handler for the route's own path,
/// provided the path has a `/` in it.
pub proof fn lemma_route_finds_own_path<H>(node: RouteNode<H>, route: Seq<char>, h: H)
    requires
        is_chain(node, route_kinds(route), h),
        route.contains('/'),
    ensures
        spec_search(node, route) == Some(h),
{
    lemma_search_single_route(node, route, route, h);
    if route != seq!['/'] {
        lemma_route_kinds_match_own_parts(route);
    }
}

/// Adding a route to an empty tree gives the tree of that single route.
pub proof fn lemma_add_to_empty_tree<H>(o: RouteNode<H>, n: RouteNode<H>, route: Seq<char>, h: H)
    requires
        o.children@.len() == 0,
        o.handler is None,
        o.node_type@ == NodeKind::Root,
        inserted(o, n, route_kinds(route).drop_first(), h),
    ensures
        is_chain(n, route_kinds(route), h),
{
    lemma_inserted_into_empty(o, n, route_kinds(route).drop_first(), h);
    assert(seq![NodeKind::Root] + route_kinds(route).drop_first() =~= route_kinds(route));
}

proof fn lemma_first_child_found<H>(cs: Seq<RouteNode<H>>, k: NodeKind)
    ensures
        first_child_of_kind(cs, k) matches Some(j) ==> 0 <= j < cs.len() && cs[j].node_type@ == k,
    decreases cs.len(),
{
    if cs.len() > 0 {
        lemma_first_child_found(cs.drop_last(), k);
    }
}

/// If one node of `cs` gives a handler, the nodes together give one.
pub proof fn lemma_children_found<H>(cs: Seq<RouteNode<H>>, parts: Seq<Seq<char>>, i: int, j: int)
    requires
        0 <= j < cs.len(),
        node_matches(cs[j], parts, i).len() > 0,
    ensures
        children_matches(cs, parts, i).len() > 0,
    decreases cs.len(),
{
    if j < cs.len() - 1 {
        lemma_children_found(cs.drop_last(), parts, i, j);
    }
}

/// After a route of kinds `ks` is added below `n`, the children of `n`
/// give a handler for a path whose remaining segments match `ks`.
proof fn lemma_inserted_children_found<H>(
    o: RouteNode<H>,
    n: RouteNode<H>,
    ks: Seq<NodeKind>,
    parts: Seq<Seq<char>>,
    i: int,
    h: H,
)
    requires
        inserted(o, n, ks, h),
        ks.len() > 0,
        0 <= i,
        i + ks.len() == parts.len() - 1,
        forall|k: int| 0 <= k < ks.len() ==> kind_matches(#[trigger] ks[k], parts, i + 1 + k),
    ensures
        children_matches(n.children@, parts, i + 1).len() > 0,
    decreases ks.len(), 0int,
{
    let rest = ks.drop_first();
    assert(kind_matches(ks[0], parts, i + 1 + 0));
    match first_child_of_kind(o.children@, ks[0]) {
        Some(j) => {
            lemma_first_child_found(o.children@, ks[0]);
            let oc = o.children@[j];
            let nc = n.children@[j];
            assert(inserted(oc, nc, rest, h));
            assert(nc.node_type == oc.node_type);
            assert(oc.node_type@ == ks[0]);
            assert(kind_matches(nc.node_type@, parts, i + 1));
            lemma_inserted_found(oc, nc, rest, parts, i + 1, h);
            lemma_children_found(n.children@, parts, i + 1, j);
        },
        None => {
            let c = n.children@.last();
            lemma_chain_matches(c, ks, parts, i + 1, h);
            lemma_children_found(n.children@, parts, i + 1, n.children@.len() - 1);
        },
    }
}

proof fn lemma_inserted_found<H>(
    o: RouteNode<H>,
    n: RouteNode<H>,
    ks: Seq<NodeKind>,
    parts: Seq<Seq<char>>,
    i: int,
    h: H,
)
    requires
        inserted(o, n, ks, h),
        kind_matches(n.node_type@, parts, i),
        0 <= i,
        i + ks.len() == parts.len() - 1,
        forall|k: int| 0 <= k < ks.len() ==> kind_matches(#[trigger] ks[k], parts, i + 1 + k),
    ensures
        node_matches(n, parts, i).len() > 0,
    decreases ks.len(), 1int,
{
    if ks.len() > 0 {
        lemma_inserted_children_found(o, n, ks, parts, i, h);
    }
}

/// After a route is added to any tree, searching for the route's own path
/// finds a handler (the new one, or one of an earlier route that the path
/// also matches), provided the path has a `/` in it.
pub proof fn lemma_added_route_found<H>(o: RouteNode<H>, n: RouteNode<H>, route: Seq<char>, h: H)
    requires
        inserted(o, n, route_kinds(route).drop_first(), h),
        route.contains('/'),
    ensures
        spec_search(n, route) is Some,
        route == seq!['/'] ==> spec_search(n, route) == Some(h),
{
    let kinds = route_kinds(route);
    let ks = kinds.drop_first();
    if route != seq!['/'] {
        let parts = spec_split(route, '/');
        lemma_route_kinds_match_own_parts(route);
        assert forall|k: int| 0 <= k < ks.len() implies kind_matches(#[trigger] ks[k], parts, 0 + 1 + k) by {
            assert(ks[k] == kinds[k + 1]);
        }
        lemma_inserted_children_found(o, n, ks, parts, 0, h);
    }
}

/// `a` and `b` are the same tree: the same node type and handler, and the
/// same trees as children, in the same order.
pub open spec fn same_tree<H>(a: RouteNode<H>, b: RouteNode<H>) -> bool
    decreases a, 1int,
{
    &&& a.node_type == b.node_type
    &&& a.handler == b.handler
    &&& same_trees(a.children@, b.children@)
}

/// `a` and `b` hold the same trees, in the same order.
pub open spec fn same_trees<H>(a: Seq<RouteNode<H>>, b: Seq<RouteNode<H>>) -> bool
    decreases a, 0int,
{
    &&& a.len() == b.len()
    &&& a.len() > 0 ==> same_trees(a.drop_last(), b.drop_last()) && same_tree(a.last(), b.last())
}

fn clone_node<H: Copy>(node: &RouteNode<H>) -> (r: RouteNode<H>)
    ensures
        same_tree(r, *node),
    decreases node,
{
    let mut children: Vec<RouteNode<H>> = Vec::new();
    let mut k: usize = 0;
    while k < node.children.len()
        invariant
            k <= node.children@.len(),
            same_trees(children@, node.children@.take(k as int)),
        decreases node.children.len() - k,
    {
        assert(decreases_to!(*node => node.children@[k as int]));
        let c = clone_node(&node.children[k]);
        let ghost before = children@;
        children.push(c);
        assert(children@.drop_last() =~= before);
        assert(node.children@.take(k + 1).drop_last() =~= node.children@.take(k as int));
        k = k + 1;
    }
    assert(node.children@.take(node.children@.len() as int) =~= node.children@);
    RouteNode { children, handler: node.handler, node_type: node.node_type.clone() }
}

/// A copy of the tree, node for node, written out so that the copy is
/// proved to be the same tree (a derived `clone` would be unknown to the
/// verifier). Handlers are `Copy`, as plain function handlers are.
impl<H: Copy> Clone for RouteNode<H> {
    fn clone(&self) -> (r: Self)
        ensures
            same_tree(r, *self),
    {
        clone_node(self)
    }
}

} // verus!
