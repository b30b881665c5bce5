//! Typed nodes, typed directed links between them, and reachability queries.
use crate::fifo::{queue_add, queue_items, queue_new, queue_remove};
use vstd::prelude::*;

verus! {

/// Outcome of a change to the graph, or the reason a query failed.
#[derive(PartialEq, Eq, Structural, Clone, Copy, Debug)]
pub enum Status {
    Success,
    NotFound,
    DuplicateRelation,
}

/// The label carried by a directed link.
#[derive(PartialEq, Eq, Structural, Clone, Copy, Debug, Hash)]
pub enum RelationType {
    Is,
    Belongs,
    Has,
    Implies,
}

/// The category of a node.
#[derive(PartialEq, Eq, Structural, Clone, Copy, Debug, Hash)]
pub enum NodeType {
    Principal,
    Permission,
    Group,
}

/// The identity of a node: its id together with its kind. Two nodes with the
/// same id and different kinds are distinct.
pub type NodeKey = (Seq<char>, NodeType);

/// A node of the graph, identified by its id and its kind.
pub struct Node {
    uid: String,
    node_type: NodeType,
}

impl View for Node {
    type V = NodeKey;

    closed spec fn view(&self) -> NodeKey {
        (self.uid@, self.node_type)
    }
}

impl Node {
    /// The node with id `uid` and kind `node_type`.
    pub fn new(uid: String, node_type: NodeType) -> (r: Self)
        ensures
            r@ == (uid@, node_type),
    {
        Self { uid, node_type }
    }
}

/// An outgoing link: the index of its destination and its label.
#[derive(Clone, Copy)]
struct Link {
    to: usize,
    relation: RelationType,
}

/// The abstract state of a graph. Node `i` has identity `nodes[i]`; `links[i]`
/// lists its outgoing links as (destination index, label).
pub ghost struct GraphModel {
    pub nodes: Seq<NodeKey>,
    pub links: Seq<Seq<(int, RelationType)>>,
}

impl GraphModel {
    /// Identities are unique, every link points at a node, and no two links
    /// leave one node for the same destination.
    pub open spec fn wf(self) -> bool {
        &&& self.links.len() == self.nodes.len()
        &&& self.nodes.no_duplicates()
        &&& forall|a: int, k: int|
            0 <= a < self.links.len() && 0 <= k < self.links[a].len() ==> 0 <= #[trigger] self.links[a][k].0
                < self.nodes.len()
        &&& forall|a: int, k1: int, k2: int|
            0 <= a < self.links.len() && 0 <= k1 < self.links[a].len() && 0 <= k2 < self.links[a].len()
                && k1 != k2 ==> #[trigger] self.links[a][k1].0 != #[trigger] self.links[a][k2].0
    }

    /// `n` has been registered.
    pub open spec fn registered(self, n: NodeKey) -> bool {
        self.nodes.contains(n)
    }

    /// The index of a registered node.
    pub open spec fn index_of(self, n: NodeKey) -> int {
        choose|i: int| 0 <= i < self.nodes.len() && self.nodes[i] == n
    }

    /// The positions in `links[a]` of the links that go to `b`.
    pub open spec fn links_between(self, a: int, b: int) -> Set<int> {
        Set::new(|k: int| 0 <= k < self.links[a].len() && self.links[a][k].0 == b)
    }

    /// Some link leaves node `a` for node `b`, whatever its label.
    pub open spec fn has_link(self, a: int, b: int) -> bool {
        exists|k: int| 0 <= k < self.links[a].len() && self.links[a][k].0 == b
    }

    /// The number of links from `s` to `d`.
    pub open spec fn relation_count(self, s: NodeKey, d: NodeKey) -> nat {
        if self.registered(s) && self.registered(d) {
            self.links_between(self.index_of(s), self.index_of(d)).len()
        } else {
            0
        }
    }

    /// The label of the link from `s` to `d`, if there is one.
    pub open spec fn relation_of(self, s: NodeKey, d: NodeKey) -> Option<RelationType> {
        if self.registered(s) && self.registered(d) && self.has_link(self.index_of(s), self.index_of(d)) {
            let a = self.index_of(s);
            let k = choose|k: int| 0 <= k < self.links[a].len() && self.links[a][k].0 == self.index_of(d);
            Some(self.links[a][k].1)
        } else {
            None
        }
    }

    /// The graph after registering `n`: unchanged if `n` is already there.
    pub open spec fn register(self, n: NodeKey) -> GraphModel {
        if self.registered(n) {
            self
        } else {
            GraphModel { nodes: self.nodes.push(n), links: self.links.push(Seq::empty()) }
        }
    }

    /// What linking `s` to `d` reports: a missing endpoint first, then an
    /// existing link between the pair.
    pub open spec fn link_status(self, s: NodeKey, d: NodeKey) -> Status {
        if !self.registered(s) || !self.registered(d) {
            Status::NotFound
        } else if self.has_link(self.index_of(s), self.index_of(d)) {
            Status::DuplicateRelation
        } else {
            Status::Success
        }
    }

    /// The graph after linking `s` to `d` with label `t`: one link added on
    /// success, nothing changed otherwise.
    pub open spec fn link(self, s: NodeKey, d: NodeKey, t: RelationType) -> GraphModel {
        if self.link_status(s, d) == Status::Success {
            let a = self.index_of(s);
            GraphModel {
                nodes: self.nodes,
                links: self.links.update(a, self.links[a].push((self.index_of(d), t))),
            }
        } else {
            self
        }
    }

    /// A link leads from `a` to `b` with a label in `allowed`.
    pub open spec fn step(self, allowed: Set<RelationType>, a: int, b: int) -> bool {
        exists|k: int|
            0 <= k < self.links[a].len() && self.links[a][k].0 == b && allowed.contains(
                #[trigger] self.links[a][k].1,
            )
    }

    /// `p` is a walk of the graph along links with labels in `allowed`.
    pub open spec fn is_path(self, allowed: Set<RelationType>, p: Seq<int>) -> bool {
        &&& p.len() > 0
        &&& forall|i: int| 0 <= i < p.len() ==> 0 <= #[trigger] p[i] < self.nodes.len()
        &&& forall|i: int| 0 <= i < p.len() - 1 ==> #[trigger] self.step(allowed, p[i], p[i + 1])
    }

    /// Some walk along links with labels in `allowed` goes from `a` to `b`;
    /// the walk of one node makes every node reach itself.
    pub open spec fn reaches(self, allowed: Set<RelationType>, a: int, b: int) -> bool {
        exists|p: Seq<int>| #[trigger] self.is_path(allowed, p) && p[0] == a && p.last() == b
    }

    /// `d` can be reached from `s` along links with labels in `allowed`.
    pub open spec fn reachable(self, allowed: Set<RelationType>, s: NodeKey, d: NodeKey) -> bool {
        self.reaches(allowed, self.index_of(s), self.index_of(d))
    }

    /// The answer to a reachability query from `s` to `d`.
    pub open spec fn query(self, allowed: Set<RelationType>, s: NodeKey, d: NodeKey) -> Result<bool, Status> {
        if !self.registered(s) || !self.registered(d) {
            Err(Status::NotFound)
        } else {
            Ok(self.reachable(allowed, s, d))
        }
    }

    /// In a well-formed graph a node's index is the one position that holds it.
    pub proof fn lemma_index_of(self, i: int)
        requires
            self.wf(),
            0 <= i < self.nodes.len(),
        ensures
            self.registered(self.nodes[i]),
            self.index_of(self.nodes[i]) == i,
    {
        assert(self.nodes.contains(self.nodes[i]));
    }
    /// Every node reaches itself, by the walk that holds only that node.
    pub proof fn lemma_reaches_self(self, allowed: Set<RelationType>, a: int)
        requires
            0 <= a < self.nodes.len(),
        ensures
            self.reaches(allowed, a, a),
    {
        let p = seq![a];
        assert(self.is_path(allowed, p));
    }

    /// A walk to `v` followed by a permitted link from `v` to `w` reaches `w`.
    pub proof fn lemma_reaches_step(self, allowed: Set<RelationType>, a: int, v: int, w: int)
        requires
            self.reaches(allowed, a, v),
            self.step(allowed, v, w),
            0 <= w < self.nodes.len(),
        ensures
            self.reaches(allowed, a, w),
    {
        let p = choose|p: Seq<int>| #[trigger] self.is_path(allowed, p) && p[0] == a && p.last() == v;
        let q = p.push(w);
        assert forall|i: int| 0 <= i < q.len() - 1 implies #[trigger] self.step(allowed, q[i], q[i + 1]) by {
            if i < p.len() - 1 {
                assert(self.step(allowed, p[i], p[i + 1]));
            }
        }
        assert(self.is_path(allowed, q));
    }

    /// A set of nodes that holds `a` and is closed under permitted links holds
    /// every node on a walk from `a`.
    proof fn lemma_closed_holds_path(self, allowed: Set<RelationType>, marked: Seq<bool>, p: Seq<int>, i: int)
        requires
            marked.len() == self.nodes.len(),
            self.is_path(allowed, p),
            marked[p[0]],
            forall|v: int, w: int|
                0 <= v < self.nodes.len() && 0 <= w < self.nodes.len() && #[trigger] marked[v]
                    && #[trigger] self.step(allowed, v, w) ==> marked[w],
            0 <= i < p.len(),
        ensures
            marked[p[i]],
        decreases i,
    {
        if i > 0 {
            self.lemma_closed_holds_path(allowed, marked, p, i - 1);
            let j = i - 1;
            assert(self.step(allowed, p[j], p[j + 1]));
        }
    }

    /// Nothing outside a set closed under permitted links is reached from
    /// inside it.
    pub proof fn lemma_closed_unreachable(self, allowed: Set<RelationType>, marked: Seq<bool>, a: int, b: int)
        requires
            marked.len() == self.nodes.len(),
            0 <= a < self.nodes.len(),
            0 <= b < self.nodes.len(),
            marked[a],
            !marked[b],
            forall|v: int, w: int|
                0 <= v < self.nodes.len() && 0 <= w < self.nodes.len() && #[trigger] marked[v]
                    && #[trigger] self.step(allowed, v, w) ==> marked[w],
        ensures
            !self.reaches(allowed, a, b),
    {
        if self.reaches(allowed, a, b) {
            let p = choose|p: Seq<int>| #[trigger] self.is_path(allowed, p) && p[0] == a && p.last() == b;
            self.lemma_closed_holds_path(allowed, marked, p, p.len() - 1);
        }
    }
}

/// The positions that hold `true`.
spec fn marked_set(v: Seq<bool>) -> Set<int> {
    Set::new(|i: int| 0 <= i < v.len() && v[i])
}

proof fn lemma_marked_bounded(v: Seq<bool>)
    ensures
        marked_set(v).finite(),
        marked_set(v).len() <= v.len(),
{
    let range = Set::new(|i: int| 0 <= i < v.len());
    assert(range =~= vstd::set_lib::set_int_range(0, v.len() as int));
    vstd::set_lib::lemma_int_range(0, v.len() as int);
    vstd::set_lib::lemma_len_subset(marked_set(v), range);
}

proof fn lemma_marked_insert(v: Seq<bool>, w: int)
    requires
        0 <= w < v.len(),
        !v[w],
    ensures
        marked_set(v.update(w, true)) == marked_set(v).insert(w),
        marked_set(v.update(w, true)).len() == marked_set(v).len() + 1,
{
    assert(marked_set(v.update(w, true)) =~= marked_set(v).insert(w));
    lemma_marked_bounded(v);
}

/// The labels that a query follows: those listed, or every label when no list
/// is given.
pub open spec fn permitted(allowed: Option<&[RelationType]>) -> Set<RelationType> {
    match allowed {
        Some(a) => a@.to_set(),
        None => Set::full(),
    }
}

/// Whether a query restricted to `allowed` follows links labelled `t`.
fn permits(allowed: Option<&[RelationType]>, t: RelationType) -> (r: bool)
    ensures
        r == permitted(allowed).contains(t),
{
    if allowed.is_none() {
        return true;
    }
    let a = allowed.unwrap();
    let mut i: usize = 0;
    while i < a.len()
        invariant
            allowed == Some(a),
            i <= a.len(),
            forall|j: int| 0 <= j < i ==> a@[j] != t,
        decreases a.len() - i,
    {
        if a[i] == t {
            assert(a@[i as int] == t);
            assert(a@.to_set().contains(t));
            return true;
        }
        i += 1;
    }
    false
}

/// A directed graph of typed nodes joined by typed links.
pub struct Graph {
    nodes: Vec<Node>,
    links: Vec<Vec<Link>>,
}

impl View for Graph {
    type V = GraphModel;

    closed spec fn view(&self) -> GraphModel {
        GraphModel {
            nodes: self.nodes@.map_values(|n: Node| n@),
            links: self.links@.map_values(|v: Vec<Link>| v@.map_values(|l: Link| (l.to as int, l.relation))),
        }
    }
}

impl Graph {
    /// The graph's state is well formed; every operation keeps it so.
    pub open spec fn wf(&self) -> bool {
        self@.wf()
    }

    /// An empty graph.
    pub fn new() -> (r: Self)
        ensures
            r.wf(),
            r@.nodes.len() == 0,
    {
        let r = Self { nodes: Vec::new(), links: Vec::new() };
        assert(r@.nodes =~= Seq::<NodeKey>::empty());
        assert(r@.links =~= Seq::<Seq<(int, RelationType)>>::empty());
        r
    }

    /// The index of the node `(uid, node_type)`, if it is registered.
    pub fn lookup(&self, uid: &String, node_type: NodeType) -> (r: Option<usize>)
        requires
            self.wf(),
        ensures
            r is None ==> !self@.registered((uid@, node_type)),
            r matches Some(i) ==> i < self@.nodes.len() && self@.registered((uid@, node_type))
                && self@.index_of((uid@, node_type)) == i,
    {
        let mut i: usize = 0;
        while i < self.nodes.len()
            invariant
                self.wf(),
                i <= self.nodes.len(),
                forall|j: int| 0 <= j < i ==> self@.nodes[j] != (uid@, node_type),
            decreases self.nodes.len() - i,
        {
            let n = &self.nodes[i];
            if n.node_type == node_type && n.uid == *uid {
                proof {
                    self@.lemma_index_of(i as int);
                }
                return Some(i);
            }
            i += 1;
        }
        None
    }

    /// Registers the node `(uid, node_type)` with no outgoing links. A node
    /// that is already registered is left as it is, links included.
    pub fn insert_generic(&mut self, uid: String, node_type: NodeType)
        requires
            old(self).wf(),
        ensures
            final(self).wf(),
            final(self)@ == old(self)@.register((uid@, node_type)),
    {
        if self.lookup(&uid, node_type).is_some() {
            return;
        }
        let ghost before = self@;
        self.nodes.push(Node::new(uid, node_type));
        self.links.push(Vec::new());
        proof {
            let after = self@;
            let k = (uid@, node_type);
            assert(after.nodes =~= before.nodes.push(k));
            assert(after.links[before.links.len() as int] =~= Seq::<(int, RelationType)>::empty());
            assert(after.links =~= before.links.push(Seq::empty()));
            assert forall|i: int, j: int|
                0 <= i < after.nodes.len() && 0 <= j < after.nodes.len() && i != j implies after.nodes[i]
                != after.nodes[j] by {
                if i < before.nodes.len() && j < before.nodes.len() {
                } else if i < before.nodes.len() {
                    assert(before.nodes.contains(before.nodes[i]));
                } else {
                    assert(before.nodes.contains(before.nodes[j]));
                }
            }
        }
    }
    /// Whether node `a` has a link to node `b`.
    fn has_link_to(&self, a: usize, b: usize) -> (r: bool)
        requires
            self.wf(),
            a < self@.nodes.len(),
        ensures
            r == self@.has_link(a as int, b as int),
    {
        let row = &self.links[a];
        let mut k: usize = 0;
        while k < row.len()
            invariant
                self.wf(),
                a < self@.nodes.len(),
                row@.map_values(|l: Link| (l.to as int, l.relation)) == self@.links[a as int],
                k <= row.len(),
                forall|j: int| 0 <= j < k ==> self@.links[a as int][j].0 != b,
            decreases row.len() - k,
        {
            if row[k].to == b {
                assert(self@.links[a as int][k as int].0 == b);
                return true;
            }
            k += 1;
        }
        false
    }

    /// Adds a link labelled `relation_type` from `(uid1, node_type1)` to
    /// `(uid2, node_type2)`. Reports `NotFound` if either node is not
    /// registered, `DuplicateRelation` if some link already joins the pair in
    /// that direction, whatever its label; in both cases nothing changes.
    pub fn add_link(
        &mut self,
        uid1: String,
        uid2: String,
        node_type1: NodeType,
        node_type2: NodeType,
        relation_type: RelationType,
    ) -> (r: Status)
        requires
            old(self).wf(),
        ensures
            final(self).wf(),
            r == old(self)@.link_status((uid1@, node_type1), (uid2@, node_type2)),
            final(self)@ == old(self)@.link((uid1@, node_type1), (uid2@, node_type2), relation_type),
    {
        let src = self.lookup(&uid1, node_type1);
        let dst = self.lookup(&uid2, node_type2);
        if src.is_none() || dst.is_none() {
            return Status::NotFound;
        }
        let src = src.unwrap();
        let dst = dst.unwrap();
        if self.has_link_to(src, dst) {
            return Status::DuplicateRelation;
        }
        let ghost before = self@;
        self.links[src].push(Link { to: dst, relation: relation_type });
        proof {
            let after = self@;
            let row = before.links[src as int].push((dst as int, relation_type));
            assert(after.links[src as int] =~= row);
            assert(after.links =~= before.links.update(src as int, row));
            assert(after.nodes =~= before.nodes);
        }
        Status::Success
    }
    /// Breadth-first search from node `src` for node `dst`, along links whose
    /// labels `allowed` permits. Each node enters the work queue at most once.
    fn search(&self, src: usize, dst: usize, allowed: Option<&[RelationType]>) -> (r: bool)
        requires
            self.wf(),
            src < self@.nodes.len(),
            dst < self@.nodes.len(),
        ensures
            r == self@.reaches(permitted(allowed), src as int, dst as int),
    {
        let ghost perm = permitted(allowed);
        let ghost g = self@;
        if src == dst {
            proof {
                g.lemma_reaches_self(perm, src as int);
            }
            return true;
        }
        let n = self.nodes.len();
        let mut visited: Vec<bool> = Vec::new();
        while visited.len() < n
            invariant
                visited.len() <= n,
                forall|i: int| 0 <= i < visited.len() ==> !visited@[i],
            decreases n - visited.len(),
        {
            visited.push(false);
        }
        visited.set(src, true);
        let mut queue = queue_new();
        queue_add(&mut queue, src);
        proof {
            g.lemma_reaches_self(perm, src as int);
            lemma_marked_bounded(visited@);
            assert(queue_items(queue) =~= seq![src]);
            assert(queue_items(queue)[0] == src);
            assert forall|v: int, w: int|
                0 <= v < n && 0 <= w < n && #[trigger] visited@[v] && #[trigger] g.step(perm, v, w)
                    && !queue_items(queue).contains(v as usize) implies visited@[w] by {
                assert(v == src as int);
            }
        }
        loop
            invariant
                self.wf(),
                g == self@,
                perm == permitted(allowed),
                n == g.nodes.len(),
                visited.len() == n,
                src < n,
                dst < n,
                visited@[src as int],
                !visited@[dst as int],
                queue_items(queue).no_duplicates(),
                forall|i: int|
                    0 <= i < queue_items(queue).len() ==> #[trigger] queue_items(queue)[i] < n
                        && visited@[queue_items(queue)[i] as int],
                forall|v: int| 0 <= v < n && #[trigger] visited@[v] ==> g.reaches(perm, src as int, v),
                forall|v: int, w: int|
                    0 <= v < n && 0 <= w < n && #[trigger] visited@[v] && #[trigger] g.step(perm, v, w)
                        && !queue_items(queue).contains(v as usize) ==> visited@[w],
                marked_set(visited@).finite(),
                marked_set(visited@).len() <= n,
            decreases n - marked_set(visited@).len(), queue_items(queue).len(),
        {
            let ghost q0 = queue_items(queue);
            let ghost m0 = marked_set(visited@).len();
            let next = queue_remove(&mut queue);
            let u = match next {
                None => {
                    proof {
                        assert forall|v: int, w: int|
                            0 <= v < n && 0 <= w < n && #[trigger] visited@[v] && #[trigger] g.step(
                                perm,
                                v,
                                w,
                            ) implies visited@[w] by {
                            assert(!queue_items(queue).contains(v as usize));
                        }
                        g.lemma_closed_unreachable(perm, visited@, src as int, dst as int);
                    }
                    return false;
                },
                Some(u) => u,
            };
            proof {
                assert(q0[0] == u);
                if queue_items(queue).contains(u) {
                    let i = choose|i: int| 0 <= i < queue_items(queue).len() && queue_items(queue)[i] == u;
                    assert(q0[i + 1] == q0[0]);
                }
                assert forall|v: int|
                    0 <= v < n && v != u && !queue_items(queue).contains(v as usize) implies !#[trigger] q0.contains(
                    v as usize) by {
                    if q0.contains(v as usize) {
                        let i = choose|i: int| 0 <= i < q0.len() && q0[i] == v as usize;
                        assert(queue_items(queue)[i - 1] == q0[i]);
                    }
                }
            }
            let row = &self.links[u];
            let mut k: usize = 0;
            while k < row.len()
                invariant
                    self.wf(),
                    g == self@,
                    perm == permitted(allowed),
                    n == g.nodes.len(),
                    visited.len() == n,
                    src < n,
                    dst < n,
                    u < n,
                    visited@[u as int],
                    visited@[src as int],
                    !visited@[dst as int],
                    !queue_items(queue).contains(u),
                    row@.map_values(|l: Link| (l.to as int, l.relation)) == g.links[u as int],
                    k <= row.len(),
                    queue_items(queue).no_duplicates(),
                    forall|i: int|
                        0 <= i < queue_items(queue).len() ==> #[trigger] queue_items(queue)[i] < n
                            && visited@[queue_items(queue)[i] as int],
                    forall|v: int| 0 <= v < n && #[trigger] visited@[v] ==> g.reaches(perm, src as int, v),
                    forall|v: int, w: int|
                        0 <= v < n && 0 <= w < n && v != u && #[trigger] visited@[v] && #[trigger] g.step(
                            perm,
                            v,
                            w,
                        ) && !queue_items(queue).contains(v as usize) ==> visited@[w],
                    forall|j: int|
                        0 <= j < k && perm.contains(#[trigger] g.links[u as int][j].1) ==> visited@[g.links[u as int][j].0],
                    marked_set(visited@).finite(),
                    marked_set(visited@).len() <= n,
                    marked_set(visited@).len() >= m0,
                    queue_items(queue).len() + m0 == q0.len() - 1 + marked_set(visited@).len(),
                decreases row.len() - k,
            {
                let l = row[k];
                assert(g.links[u as int][k as int] == (l.to as int, l.relation));
                assert(0 <= g.links[u as int][k as int].0 < n);
                if permits(allowed, l.relation) && !visited[l.to] {
                    proof {
                        assert(perm.contains(g.links[u as int][k as int].1));
                        assert(g.step(perm, u as int, l.to as int));
                        g.lemma_reaches_step(perm, src as int, u as int, l.to as int);
                    }
                    if l.to == dst {
                        return true;
                    }
                    let ghost q1 = queue_items(queue);
                    proof {
                        lemma_marked_insert(visited@, l.to as int);
                        lemma_marked_bounded(visited@.update(l.to as int, true));
                        if q1.contains(l.to) {
                            let i = choose|i: int| 0 <= i < q1.len() && q1[i] == l.to;
                            assert(visited@[q1[i] as int]);
                        }
                    }
                    visited.set(l.to, true);
                    queue_add(&mut queue, l.to);
                    proof {
                        let q2 = queue_items(queue);
                        assert forall|v: int| 0 <= v < n && !q2.contains(v as usize) implies !#[trigger] q1.contains(v as usize) by {
                            if q1.contains(v as usize) {
                                let i = choose|i: int| 0 <= i < q1.len() && q1[i] == v as usize;
                                assert(q2[i] == q1[i]);
                            }
                        }
                        assert(q2.contains(l.to)) by {
                            assert(q2[q1.len() as int] == l.to);
                        }
                        if q2.contains(u) {
                            let i = choose|i: int| 0 <= i < q2.len() && q2[i] == u;
                            if i < q1.len() {
                                assert(q1[i] == u);
                            }
                        }
                    }
                }
                k += 1;
            }
            proof {
                assert forall|v: int, w: int|
                    0 <= v < n && 0 <= w < n && #[trigger] visited@[v] && #[trigger] g.step(perm, v, w)
                        && !queue_items(queue).contains(v as usize) implies visited@[w] by {
                    if v == u {
                        let j = choose|j: int|
                            0 <= j < g.links[v].len() && g.links[v][j].0 == w && perm.contains(
                                #[trigger] g.links[v][j].1,
                            );
                        assert(g.links[u as int][j] == g.links[v][j]);
                    }
                }
            }
        }
    }

    /// Resolves both endpoints, then searches along links permitted by
    /// `allowed`.
    fn query(
        &self,
        uid1: &String,
        uid2: &String,
        node_type1: NodeType,
        node_type2: NodeType,
        allowed: Option<&[RelationType]>,
    ) -> (r: Result<bool, Status>)
        requires
            self.wf(),
        ensures
            r == self@.query(permitted(allowed), (uid1@, node_type1), (uid2@, node_type2)),
    {
        let src = self.lookup(uid1, node_type1);
        let dst = self.lookup(uid2, node_type2);
        match (src, dst) {
            (Some(s), Some(d)) => Ok(self.search(s, d, allowed)),
            _ => Err(Status::NotFound),
        }
    }

    /// Whether `(uid2, node_type2)` can be reached from `(uid1, node_type1)`
    /// along links of any label. A node reaches itself. `NotFound` if either
    /// node is not registered.
    pub fn check_link(&self, uid1: String, uid2: String, node_type1: NodeType, node_type2: NodeType) -> (r: Result<
        bool,
        Status,
    >)
        requires
            self.wf(),
        ensures
            r == self@.query(Set::full(), (uid1@, node_type1), (uid2@, node_type2)),
    {
        self.query(&uid1, &uid2, node_type1, node_type2, None)
    }

    /// As `check_link`, following only links whose label is in
    /// `allowed_types`.
    pub fn check_link_filtered(
        &self,
        uid1: String,
        uid2: String,
        node_type1: NodeType,
        node_type2: NodeType,
        allowed_types: &[RelationType],
    ) -> (r: Result<bool, Status>)
        requires
            self.wf(),
        ensures
            r == self@.query(allowed_types@.to_set(), (uid1@, node_type1), (uid2@, node_type2)),
    {
        self.query(&uid1, &uid2, node_type1, node_type2, Some(allowed_types))
    }
    /// The label of the link from `(uid1, node_type1)` to
    /// `(uid2, node_type2)`, or `None` if either node is missing or no such
    /// link exists.
    pub fn relation_between(&self, uid1: String, uid2: String, node_type1: NodeType, node_type2: NodeType) -> (r:
        Option<RelationType>)
        requires
            self.wf(),
        ensures
            r == self@.relation_of((uid1@, node_type1), (uid2@, node_type2)),
    {
        let src = self.lookup(&uid1, node_type1);
        let dst = self.lookup(&uid2, node_type2);
        if src.is_none() || dst.is_none() {
            return None;
        }
        let a = src.unwrap();
        let b = dst.unwrap();
        let ghost g = self@;
        let row = &self.links[a];
        let mut k: usize = 0;
        while k < row.len()
            invariant
                self.wf(),
                g == self@,
                a < g.nodes.len(),
                g.registered((uid1@, node_type1)),
                g.registered((uid2@, node_type2)),
                g.index_of((uid1@, node_type1)) == a,
                g.index_of((uid2@, node_type2)) == b,
                row@.map_values(|l: Link| (l.to as int, l.relation)) == g.links[a as int],
                k <= row.len(),
                forall|j: int| 0 <= j < k ==> g.links[a as int][j].0 != b,
            decreases row.len() - k,
        {
            if row[k].to == b {
                proof {
                    let ki = k as int;
                    assert(g.links[a as int][ki].0 == b);
                    let d = (uid2@, node_type2);
                    assert(g.has_link(a as int, g.index_of(d)));
                    let c = choose|c: int| 0 <= c < g.links[a as int].len() && g.links[a as int][c].0 == g.index_of(d);
                    if c != ki {
                        assert(g.links[a as int][c].0 != g.links[a as int][ki].0);
                    }
                }
                return Some(row[k].relation);
            }
            k += 1;
        }
        None
    }
}

} // verus!
