//! An immutable dependency graph of labelled nodes, kept with a topological
//! order (leaves first).
use vstd::prelude::*;
use vstd::set_lib::*;

verus! {

/// A node of a dependency graph: it has an identifier and names the
/// identifiers of the nodes it depends on.
pub trait GraphNode {
    spec fn spec_id(&self) -> Seq<char>;

    spec fn spec_child_ids(&self) -> Seq<Seq<char>>;

    fn id(&self) -> (r: &String)
        ensures
            r@ == self.spec_id(),
    ;

    fn child_ids(&self) -> (r: &Vec<String>)
        ensures
            r@.len() == self.spec_child_ids().len(),
            forall|k: int| 0 <= k < r@.len() ==> #[trigger] r@[k]@ == self.spec_child_ids()[k],
    ;
}

#[derive(Debug, Clone, Copy, PartialEq, Eq)]
pub enum DagError {
    /// A node names a child that is not in the graph.
    NoSuchChild,
    /// The dependency relation has a cycle.
    Cycle,
    /// Two nodes share an identifier.
    Duplicate,
}

/// No two nodes share an identifier.
pub open spec fn ids_unique<N: GraphNode>(nodes: Seq<N>) -> bool {
    forall|i: int, j: int|
        0 <= i < nodes.len() && 0 <= j < nodes.len() && i != j ==> #[trigger] nodes[i].spec_id()
            != #[trigger] nodes[j].spec_id()
}

/// Some node carries this identifier.
pub open spec fn has_id<N: GraphNode>(nodes: Seq<N>, id: Seq<char>) -> bool {
    exists|j: int| 0 <= j < nodes.len() && #[trigger] nodes[j].spec_id() == id
}

/// Every child identifier of every node is the identifier of some node.
pub open spec fn children_present<N: GraphNode>(nodes: Seq<N>) -> bool {
    forall|i: int, k: int|
        0 <= i < nodes.len() && 0 <= k < nodes[i].spec_child_ids().len() ==> has_id(
            nodes,
            #[trigger] nodes[i].spec_child_ids()[k],
        )
}

/// Node `i` depends on node `j`.
pub open spec fn depends<N: GraphNode>(nodes: Seq<N>, i: int, j: int) -> bool {
    nodes[i].spec_child_ids().contains(nodes[j].spec_id())
}

/// `order` lists every node exactly once, each after all the nodes it depends on.
pub open spec fn is_topo_order<N: GraphNode>(nodes: Seq<N>, order: Seq<int>) -> bool {
    &&& order.len() == nodes.len()
    &&& forall|k: int| 0 <= k < order.len() ==> 0 <= #[trigger] order[k] < nodes.len()
    &&& forall|i: int| 0 <= i < nodes.len() ==> #[trigger] appears(order, i)
    &&& forall|k1: int, k2: int|
        0 <= k1 < order.len() && 0 <= k2 < order.len() && k1 != k2 ==> #[trigger] order[k1]
            != #[trigger] order[k2]
    &&& forall|k: int, j: int|
        0 <= k < order.len() && 0 <= j < nodes.len() && #[trigger] depends(nodes, order[k], j)
            ==> exists|k2: int| 0 <= k2 < k && #[trigger] order[k2] == j
}

/// `i` is an entry of `order`.
pub open spec fn appears(order: Seq<int>, i: int) -> bool {
    exists|k: int| 0 <= k < order.len() && #[trigger] order[k] == i
}

/// The graph has no cycle: some order puts every node after its dependencies.
pub open spec fn acyclic<N: GraphNode>(nodes: Seq<N>) -> bool {
    exists|order: Seq<int>| is_topo_order(nodes, order)
}

/// A set of nodes none of which can come first: each depends on another member.
pub open spec fn closed_under_deps<N: GraphNode>(nodes: Seq<N>, s: Set<int>) -> bool {
    forall|i: int|
        #[trigger] member(s, i) ==> 0 <= i < nodes.len() && exists|j: int|
            s.contains(j) && depends(nodes, i, j)
}

pub open spec fn member(s: Set<int>, i: int) -> bool {
    s.contains(i)
}

proof fn lemma_order_avoids_closed<N: GraphNode>(
    nodes: Seq<N>,
    order: Seq<int>,
    s: Set<int>,
    k: int,
)
    requires
        is_topo_order(nodes, order),
        closed_under_deps(nodes, s),
        0 <= k < order.len(),
    ensures
        !s.contains(order[k]),
    decreases k,
{
    if s.contains(order[k]) {
        assert(member(s, order[k]));
        let j = choose|j: int| s.contains(j) && depends(nodes, order[k], j);
        assert(member(s, j));
        assert(0 <= j < nodes.len());
        let k2 = choose|k2: int| 0 <= k2 < k && #[trigger] order[k2] == j;
        lemma_order_avoids_closed(nodes, order, s, k2);
    }
}

/// A non-empty set closed under dependencies rules out every topological order.
proof fn lemma_closed_set_means_cycle<N: GraphNode>(nodes: Seq<N>, s: Set<int>, i: int)
    requires
        closed_under_deps(nodes, s),
        s.contains(i),
    ensures
        !acyclic(nodes),
{
    if acyclic(nodes) {
        let order = choose|order: Seq<int>| is_topo_order(nodes, order);
        assert(member(s, i));
        assert(0 <= i < nodes.len());
        assert(appears(order, i));
        let k = choose|k: int| 0 <= k < order.len() && #[trigger] order[k] == i;
        lemma_order_avoids_closed(nodes, order, s, k);
    }
}


proof fn lemma_full_order_len(order: Seq<int>, n: int)
    requires
        0 <= n,
        forall|k: int| 0 <= k < order.len() ==> 0 <= #[trigger] order[k] < n,
        forall|i: int| 0 <= i < n ==> #[trigger] appears(order, i),
        forall|k1: int, k2: int|
            0 <= k1 < order.len() && 0 <= k2 < order.len() && k1 != k2 ==> #[trigger] order[k1]
                != #[trigger] order[k2],
    ensures
        order.len() == n,
{
    assert(order.no_duplicates());
    order.unique_seq_to_set();
    assert forall|i: int| #[trigger] order.to_set().contains(i) <==> set_int_range(0, n).contains(i) by {
        if 0 <= i < n {
            assert(appears(order, i));
        }
    }
    assert(order.to_set() =~= set_int_range(0, n));
    lemma_int_range(0, n);
}

/// `ci[i][k]` is the index of the node that `nodes[i]` names as its `k`-th child.
pub open spec fn resolves<N: GraphNode>(nodes: Seq<N>, ci: Seq<Seq<usize>>) -> bool {
    &&& ci.len() == nodes.len()
    &&& forall|i: int| 0 <= i < nodes.len() ==> #[trigger] ci[i].len() == nodes[i].spec_child_ids().len()
    &&& forall|i: int, k: int|
        0 <= i < nodes.len() && 0 <= k < ci[i].len() ==> #[trigger] ci[i][k] < nodes.len()
            && nodes[ci[i][k] as int].spec_id() == nodes[i].spec_child_ids()[k]
}

fn same_text(a: &String, b: &String) -> (r: bool)
    ensures
        r == (a@ == b@),
{
    a.eq(b)
}

pub open spec fn ints(v: Seq<usize>) -> Seq<int> {
    v.map_values(|x: usize| x as int)
}

pub open spec fn rows(ci: Seq<Vec<usize>>) -> Seq<Seq<usize>> {
    ci.map_values(|r: Vec<usize>| r@)
}

/// A partial leaves-first order: distinct in-range entries, exactly the placed
/// nodes, each after the nodes it depends on.
pub open spec fn placement<N: GraphNode>(nodes: Seq<N>, placed: Seq<bool>, ov: Seq<int>) -> bool {
    &&& forall|k: int| 0 <= k < ov.len() ==> 0 <= #[trigger] ov[k] < nodes.len()
    &&& forall|k1: int, k2: int|
        0 <= k1 < ov.len() && 0 <= k2 < ov.len() && k1 != k2 ==> #[trigger] ov[k1] != #[trigger] ov[k2]
    &&& forall|a: int| 0 <= a < nodes.len() ==> (#[trigger] placed[a] <==> appears(ov, a))
    &&& forall|k: int, j: int|
        0 <= k < ov.len() && 0 <= j < nodes.len() && #[trigger] depends(nodes, ov[k], j)
            ==> exists|k2: int| 0 <= k2 < k && #[trigger] ov[k2] == j
}

/// Every unplaced node has an unplaced child.
pub open spec fn stuck(cis: Seq<Seq<usize>>, placed: Seq<bool>) -> bool {
    forall|a: int| 0 <= a < placed.len() ==> placed[a] || #[trigger] unplaced_child(cis, placed, a)
}

/// Node `a` has a child that is not placed.
pub open spec fn unplaced_child(cis: Seq<Seq<usize>>, placed: Seq<bool>, a: int) -> bool {
    exists|k: int| 0 <= k < cis[a].len() && !placed[cis[a][k] as int]
}

proof fn lemma_order_len_bound(order: Seq<int>, n: int)
    requires
        0 <= n,
        forall|k: int| 0 <= k < order.len() ==> 0 <= #[trigger] order[k] < n,
        forall|k1: int, k2: int|
            0 <= k1 < order.len() && 0 <= k2 < order.len() && k1 != k2 ==> #[trigger] order[k1]
                != #[trigger] order[k2],
    ensures
        order.len() <= n,
{
    assert(order.no_duplicates());
    order.unique_seq_to_set();
    assert(order.to_set().subset_of(set_int_range(0, n)));
    lemma_int_range(0, n);
    lemma_len_subset(order.to_set(), set_int_range(0, n));
}

proof fn lemma_stuck_means_cycle<N: GraphNode>(
    nodes: Seq<N>,
    cis: Seq<Seq<usize>>,
    placed: Seq<bool>,
    w: int,
)
    requires
        resolves(nodes, cis),
        placed.len() == nodes.len(),
        stuck(cis, placed),
        0 <= w < nodes.len(),
        !placed[w],
    ensures
        !acyclic(nodes),
{
    let s = Set::new(|b: int| 0 <= b < nodes.len() && !placed[b]);
    assert(s.contains(w));
    assert forall|b: int| #[trigger] member(s, b) implies 0 <= b < nodes.len() && exists|j: int|
        s.contains(j) && depends(nodes, b, j) by {
        assert(!placed[b]);
        assert(placed[b] || unplaced_child(cis, placed, b));
        let k = choose|k: int| 0 <= k < cis[b].len() && !placed[cis[b][k] as int];
        let j = cis[b][k] as int;
        assert(0 <= j < nodes.len());
        assert(nodes[j].spec_id() == nodes[b].spec_child_ids()[k]);
        assert(s.contains(j));
        assert(depends(nodes, b, j));
    }
    lemma_closed_set_means_cycle(nodes, s, w);
}

/// A dependency graph: nodes in insertion order with a topological order over them.
pub struct Dag<N> {
    nodes: Vec<N>,
    order: Vec<usize>,
}

impl<N: GraphNode> Dag<N> {
    /// The nodes in insertion order.
    pub closed spec fn spec_nodes(&self) -> Seq<N> {
        self.nodes@
    }

    /// The leaves-first order, as indices into `spec_nodes`.
    pub closed spec fn spec_order(&self) -> Seq<int> {
        self.order@.map_values(|x: usize| x as int)
    }

    /// The nodes in leaves-first order.
    pub open spec fn spec_bottom_up(&self) -> Seq<N> {
        self.spec_order().map_values(|k: int| self.spec_nodes()[k])
    }

    pub open spec fn wf(&self) -> bool {
        &&& ids_unique(self.spec_nodes())
        &&& children_present(self.spec_nodes())
        &&& is_topo_order(self.spec_nodes(), self.spec_order())
    }

    pub fn empty() -> (r: Self)
        ensures
            r.wf(),
            r.spec_nodes() == Seq::<N>::empty(),
    {
        let r = Dag { nodes: Vec::new(), order: Vec::new() };
        assert(r.spec_order() =~= Seq::<int>::empty());
        r
    }

    /// Builds the graph; fails on a repeated identifier, then on a child that
    /// is not among the nodes, then on a cycle.
    pub fn new(nodes: Vec<N>) -> (r: Result<Self, DagError>)
        ensures
            r is Err && r->Err_0 == DagError::Duplicate <==> !ids_unique(nodes@),
            r is Err && r->Err_0 == DagError::NoSuchChild <==> ids_unique(nodes@) && !children_present(nodes@),
            r is Err && r->Err_0 == DagError::Cycle <==> ids_unique(nodes@) && children_present(nodes@) && !acyclic(nodes@),
            r is Ok ==> r->Ok_0.wf() && r->Ok_0.spec_nodes() == nodes@,
    {
        let n = nodes.len();
        // Repeated identifiers.
        let mut i: usize = 0;
        while i < n
            invariant
                n == nodes@.len(),
                0 <= i <= n,
                forall|a: int, b: int|
                    0 <= a < i && 0 <= b < i && a != b ==> #[trigger] nodes@[a].spec_id()
                        != #[trigger] nodes@[b].spec_id(),
            decreases n - i,
        {
            let mut j: usize = 0;
            while j < i
                invariant
                    n == nodes@.len(),
                    0 <= j <= i < n,
                    forall|a: int, b: int|
                        0 <= a < i && 0 <= b < i && a != b ==> #[trigger] nodes@[a].spec_id()
                            != #[trigger] nodes@[b].spec_id(),
                    forall|b: int| 0 <= b < j ==> #[trigger] nodes@[b].spec_id() != nodes@[i as int].spec_id(),
                decreases i - j,
            {
                if same_text(nodes[i].id(), nodes[j].id()) {
                    assert(nodes@[j as int].spec_id() == nodes@[i as int].spec_id());
                    return Err(DagError::Duplicate);
                }
                j += 1;
            }
            i += 1;
        }
        // Resolve child identifiers to indices.
        let mut ci: Vec<Vec<usize>> = Vec::new();
        let mut i: usize = 0;
        while i < n
            invariant
                n == nodes@.len(),
                0 <= i <= n,
                ids_unique(nodes@),
                ci@.len() == i,
                forall|a: int| 0 <= a < i ==> #[trigger] ci@[a]@.len() == nodes@[a].spec_child_ids().len(),
                forall|a: int, k: int|
                    0 <= a < i && 0 <= k < ci@[a]@.len() ==> #[trigger] ci@[a]@[k] < n
                        && nodes@[ci@[a]@[k] as int].spec_id() == nodes@[a].spec_child_ids()[k],
            decreases n - i,
        {
            let children = nodes[i].child_ids();
            let mut row: Vec<usize> = Vec::new();
            let mut k: usize = 0;
            while k < children.len()
                invariant
                    n == nodes@.len(),
                    0 <= i < n,
                    children@.len() == nodes@[i as int].spec_child_ids().len(),
                    forall|c: int| 0 <= c < children@.len() ==> #[trigger] children@[c]@ == nodes@[i as int].spec_child_ids()[c],
                    0 <= k <= children@.len(),
                    ids_unique(nodes@),
                    row@.len() == k,
                    forall|c: int| 0 <= c < k ==> #[trigger] row@[c] < n
                        && nodes@[row@[c] as int].spec_id() == nodes@[i as int].spec_child_ids()[c],
                decreases children@.len() - k,
            {
                let mut j: usize = 0;
                let mut at: usize = n;
                while j < n
                    invariant
                        n == nodes@.len(),
                        0 <= j <= n,
                        0 <= k < children@.len(),
                        0 <= i < n,
                        row@.len() == k,
                        children@.len() == nodes@[i as int].spec_child_ids().len(),
                        forall|c: int| 0 <= c < children@.len() ==> #[trigger] children@[c]@ == nodes@[i as int].spec_child_ids()[c],
                        forall|c: int| 0 <= c < k ==> #[trigger] row@[c] < n
                            && nodes@[row@[c] as int].spec_id() == nodes@[i as int].spec_child_ids()[c],
                        at <= n,
                        at == n ==> forall|b: int| 0 <= b < j ==> #[trigger] nodes@[b].spec_id() != children@[k as int]@,
                        at < n ==> nodes@[at as int].spec_id() == children@[k as int]@,
                    decreases n - j,
                {
                    if at == n && same_text(nodes[j].id(), &children[k]) {
                        at = j;
                    }
                    j += 1;
                }
                if at == n {
                    proof {
                        let kk = k as int;
                        assert(!has_id(nodes@, nodes@[i as int].spec_child_ids()[kk]));
                    }
                    return Err(DagError::NoSuchChild);
                }
                assert(nodes@[at as int].spec_id() == nodes@[i as int].spec_child_ids()[k as int]);
                row.push(at);
                assert(row@[k as int] == at);
                k += 1;
            }
            ci.push(row);
            i += 1;
        }
        let ghost cis = rows(ci@);
        assert(resolves(nodes@, cis));
        assert(children_present(nodes@)) by {
            assert forall|a: int, k: int|
                0 <= a < nodes@.len() && 0 <= k < nodes@[a].spec_child_ids().len() implies has_id(
                nodes@,
                #[trigger] nodes@[a].spec_child_ids()[k],
            ) by {
                assert(nodes@[cis[a][k] as int].spec_id() == nodes@[a].spec_child_ids()[k]);
            }
        }
        Self::sort(nodes, ci)
    }

    /// The nodes in leaves-first order; among nodes whose dependencies are met
    /// at once, insertion order decides.
    pub fn bottom_up(&self) -> (r: Vec<&N>)
        requires
            self.wf(),
        ensures
            r@.len() == self.spec_bottom_up().len(),
            forall|k: int| 0 <= k < r@.len() ==> *#[trigger] r@[k] == self.spec_bottom_up()[k],
    {
        let mut r: Vec<&N> = Vec::new();
        let mut k: usize = 0;
        while k < self.order.len()
            invariant
                self.wf(),
                0 <= k <= self.order@.len(),
                r@.len() == k,
                forall|c: int| 0 <= c < k ==> *#[trigger] r@[c] == self.spec_bottom_up()[c],
            decreases self.order@.len() - k,
        {
            assert(0 <= self.spec_order()[k as int] < self.nodes@.len());
            r.push(&self.nodes[self.order[k]]);
            k += 1;
        }
        r
    }

    /// The nodes in roots-first order: the leaves-first order reversed.
    pub fn top_down(&self) -> (r: Vec<&N>)
        requires
            self.wf(),
        ensures
            r@.len() == self.spec_bottom_up().len(),
            forall|k: int| 0 <= k < r@.len() ==> *#[trigger] r@[k] == self.spec_bottom_up()[r@.len() - 1 - k],
    {
        let mut r: Vec<&N> = Vec::new();
        let mut k: usize = self.order.len();
        while k > 0
            invariant
                self.wf(),
                0 <= k <= self.order@.len(),
                r@.len() == self.order@.len() - k,
                forall|c: int| 0 <= c < r@.len() ==> *#[trigger] r@[c] == self.spec_bottom_up()[self.order@.len() - 1 - c],
            decreases k,
        {
            k -= 1;
            assert(0 <= self.spec_order()[k as int] < self.nodes@.len());
            r.push(&self.nodes[self.order[k]]);
        }
        r
    }

    /// The node at position `i` of insertion order.
    pub fn get(&self, i: usize) -> (r: &N)
        requires
            i < self.spec_nodes().len(),
        ensures
            *r == self.spec_nodes()[i as int],
    {
        &self.nodes[i]
    }

    /// The position, in insertion order, of the `k`-th node leaves first.
    pub fn order_at(&self, k: usize) -> (r: usize)
        requires
            self.wf(),
            k < self.spec_nodes().len(),
        ensures
            r == self.spec_order()[k as int],
            r < self.spec_nodes().len(),
    {
        self.order[k]
    }

    /// The position of the node with this identifier, if any.
    pub fn index_of(&self, id: &String) -> (r: Option<usize>)
        ensures
            r is Some <==> has_id(self.spec_nodes(), id@),
            r is Some ==> r->Some_0 < self.spec_nodes().len() && self.spec_nodes()[r->Some_0 as int].spec_id() == id@,
    {
        let mut i: usize = 0;
        while i < self.nodes.len()
            invariant
                0 <= i <= self.nodes@.len(),
                forall|b: int| 0 <= b < i ==> #[trigger] self.nodes@[b].spec_id() != id@,
            decreases self.nodes@.len() - i,
        {
            if same_text(self.nodes[i].id(), id) {
                return Some(i);
            }
            i += 1;
        }
        None
    }

    /// The number of nodes.
    pub fn len(&self) -> (r: usize)
        ensures
            r == self.spec_nodes().len(),
    {
        self.nodes.len()
    }

    /// The node with this identifier, if any.
    pub fn node(&self, id: &String) -> (r: Option<&N>)
        ensures
            r is Some <==> has_id(self.spec_nodes(), id@),
            r is Some ==> (*r->Some_0).spec_id() == id@ && exists|i: int|
                0 <= i < self.spec_nodes().len() && self.spec_nodes()[i] == *r->Some_0,
    {
        let mut i: usize = 0;
        while i < self.nodes.len()
            invariant
                0 <= i <= self.nodes@.len(),
                forall|b: int| 0 <= b < i ==> #[trigger] self.nodes@[b].spec_id() != id@,
            decreases self.nodes@.len() - i,
        {
            if same_text(self.nodes[i].id(), id) {
                return Some(&self.nodes[i]);
            }
            i += 1;
        }
        None
    }

    /// Adds a node whose children are all present already; fails on an
    /// identifier that is present, then on a missing child.
    pub fn with_node(self, n: N) -> (r: Result<Self, DagError>)
        requires
            self.wf(),
        ensures
            r is Err && r->Err_0 == DagError::Duplicate <==> has_id(self.spec_nodes(), n.spec_id()),
            r is Err && r->Err_0 == DagError::NoSuchChild <==> !has_id(self.spec_nodes(), n.spec_id())
                && exists|k: int| 0 <= k < n.spec_child_ids().len() && !has_id(self.spec_nodes(), #[trigger] n.spec_child_ids()[k]),
            r is Err ==> r->Err_0 != DagError::Cycle,
            r is Ok ==> r->Ok_0.wf() && r->Ok_0.spec_nodes() == self.spec_nodes().push(n)
                && r->Ok_0.spec_bottom_up() == self.spec_bottom_up().push(n),
    {
        if self.node(n.id()).is_some() {
            return Err(DagError::Duplicate);
        }
        let children = n.child_ids();
        let mut k: usize = 0;
        while k < children.len()
            invariant
                self.wf(),
                !has_id(self.spec_nodes(), n.spec_id()),
                children@.len() == n.spec_child_ids().len(),
                forall|c: int| 0 <= c < children@.len() ==> #[trigger] children@[c]@ == n.spec_child_ids()[c],
                0 <= k <= children@.len(),
                forall|c: int| 0 <= c < k ==> has_id(self.spec_nodes(), #[trigger] n.spec_child_ids()[c]),
            decreases children@.len() - k,
        {
            if self.node(&children[k]).is_none() {
                assert(!has_id(self.spec_nodes(), n.spec_child_ids()[k as int]));
                return Err(DagError::NoSuchChild);
            }
            k += 1;
        }
        let ghost old_nodes = self.nodes@;
        let ghost old_order = self.spec_order();
        let Dag { mut nodes, mut order } = self;
        let idx = nodes.len();
        nodes.push(n);
        order.push(idx);
        let r = Dag { nodes, order };
        proof {
            let nn = r.nodes@;
            let no = r.spec_order();
            assert(no =~= old_order.push(idx as int));
            assert(nn =~= old_nodes.push(n));
            assert forall|a: int, b: int| 0 <= a < nn.len() && 0 <= b < nn.len() && a != b implies
                #[trigger] nn[a].spec_id() != #[trigger] nn[b].spec_id() by {
                if a == idx {
                    assert(nn[b] == old_nodes[b]);
                } else if b == idx {
                    assert(nn[a] == old_nodes[a]);
                }
            }
            assert forall|i: int, k: int|
                0 <= i < nn.len() && 0 <= k < nn[i].spec_child_ids().len() implies has_id(
                nn, #[trigger] nn[i].spec_child_ids()[k]) by {
                let id = nn[i].spec_child_ids()[k];
                if i < idx {
                    assert(has_id(old_nodes, id));
                } else {
                    assert(has_id(old_nodes, id));
                }
                let j = choose|j: int| 0 <= j < old_nodes.len() && #[trigger] old_nodes[j].spec_id() == id;
                assert(nn[j].spec_id() == id);
            }
            assert forall|i: int| 0 <= i < nn.len() implies #[trigger] appears(no, i) by {
                if i < idx {
                    assert(appears(old_order, i));
                    let k = choose|k: int| 0 <= k < old_order.len() && #[trigger] old_order[k] == i;
                    assert(no[k] == i);
                } else {
                    assert(no[old_order.len() as int] == i);
                }
            }
            assert forall|k: int, j: int|
                0 <= k < no.len() && 0 <= j < nn.len() && #[trigger] depends(nn, no[k], j)
                    implies exists|k2: int| 0 <= k2 < k && #[trigger] no[k2] == j by {
                if k < old_order.len() {
                    if j == idx {
                        // A node that is already present cannot name the new one.
                        let c = choose|c: int| 0 <= c < nn[no[k]].spec_child_ids().len()
                            && nn[no[k]].spec_child_ids()[c] == nn[j].spec_id();
                        let j2 = choose|j2: int| 0 <= j2 < old_nodes.len()
                            && #[trigger] old_nodes[j2].spec_id() == nn[no[k]].spec_child_ids()[c];
                        assert(nn[j2].spec_id() == nn[j].spec_id());
                        assert(false);
                    }
                    assert(depends(old_nodes, old_order[k], j));
                    let k2 = choose|k2: int| 0 <= k2 < k && #[trigger] old_order[k2] == j;
                    assert(no[k2] == j);
                } else {
                    let c = choose|c: int| 0 <= c < n.spec_child_ids().len()
                        && n.spec_child_ids()[c] == nn[j].spec_id();
                    assert(has_id(old_nodes, n.spec_child_ids()[c]));
                    if j == idx {
                        let j2 = choose|j2: int| 0 <= j2 < old_nodes.len()
                            && #[trigger] old_nodes[j2].spec_id() == n.spec_child_ids()[c];
                        assert(nn[j2].spec_id() == nn[j].spec_id());
                        assert(false);
                    }
                    assert(appears(old_order, j));
                    let k2 = choose|k2: int| 0 <= k2 < old_order.len() && #[trigger] old_order[k2] == j;
                    assert(no[k2] == j);
                }
            }
            assert(r.spec_bottom_up() =~= old_order.map_values(|k: int| old_nodes[k]).push(n));
        }
        Ok(r)
    }

    /// One pass: takes, in insertion order, every unplaced node whose children
    /// are all placed.
    fn place_pass(
        nodes: &Vec<N>,
        ci: &Vec<Vec<usize>>,
        placed: &mut Vec<bool>,
        order: &mut Vec<usize>,
    ) -> (progress: bool)
        requires
            ids_unique(nodes@),
            resolves(nodes@, rows(ci@)),
            old(placed)@.len() == nodes@.len(),
            placement(nodes@, old(placed)@, ints(old(order)@)),
        ensures
            final(placed)@.len() == nodes@.len(),
            placement(nodes@, final(placed)@, ints(final(order)@)),
            progress <==> final(order)@.len() > old(order)@.len(),
            !progress ==> final(placed)@ == old(placed)@ && stuck(rows(ci@), final(placed)@),
    {
        let ghost cis = rows(ci@);
        let ghost start_placed = placed@;
        let ghost start_len = order@.len();
        let n = nodes.len();
        let mut progress = false;
        let mut i: usize = 0;
        while i < n
            invariant
                n == nodes@.len(),
                0 <= i <= n,
                ids_unique(nodes@),
                resolves(nodes@, cis),
                cis == rows(ci@),
                placed@.len() == n,
                placement(nodes@, placed@, ints(order@)),
                order@.len() >= start_len,
                progress <==> order@.len() > start_len,
                !progress ==> placed@ == start_placed,
                !progress ==> forall|a: int| 0 <= a < i ==> placed@[a] || #[trigger] unplaced_child(cis, placed@, a),
            decreases n - i,
        {
            if !placed[i] {
                let row = &ci[i];
                assert(row@ == cis[i as int]);
                let mut ready = true;
                let mut k: usize = 0;
                while k < row.len()
                    invariant
                        n == placed@.len(),
                        n == nodes@.len(),
                        0 <= i < n,
                        resolves(nodes@, cis),
                        row@ == cis[i as int],
                        0 <= k <= row@.len(),
                        ready <==> forall|c: int| 0 <= c < k ==> #[trigger] placed@[row@[c] as int],
                    decreases row@.len() - k,
                {
                    if !placed[row[k]] {
                        ready = false;
                    }
                    k += 1;
                }
                if ready {
                    let ghost ov = ints(order@);
                    proof {
                        assert forall|j: int| 0 <= j < n && #[trigger] depends(nodes@, i as int, j)
                            implies appears(ov, j) by {
                            let c = choose|c: int| 0 <= c < nodes@[i as int].spec_child_ids().len()
                                && nodes@[i as int].spec_child_ids()[c] == nodes@[j].spec_id();
                            assert(nodes@[cis[i as int][c] as int].spec_id() == nodes@[j].spec_id());
                            assert(placed@[row@[c] as int]);
                        }
                        assert(!appears(ov, i as int));
                    }
                    placed.set(i, true);
                    order.push(i);
                    proof {
                        let nv = ints(order@);
                        assert(nv =~= ov.push(i as int));
                        assert forall|a: int| 0 <= a < n implies (#[trigger] placed@[a] <==> appears(nv, a)) by {
                            if appears(ov, a) {
                                let k = choose|k: int| 0 <= k < ov.len() && #[trigger] ov[k] == a;
                                assert(nv[k] == a);
                            }
                            if a == i {
                                assert(nv[ov.len() as int] == a);
                            }
                            if appears(nv, a) && a != i {
                                let k = choose|k: int| 0 <= k < nv.len() && #[trigger] nv[k] == a;
                                assert(ov[k] == a);
                            }
                        }
                        assert forall|k: int, j: int|
                            0 <= k < nv.len() && 0 <= j < n && #[trigger] depends(nodes@, nv[k], j)
                                implies exists|k2: int| 0 <= k2 < k && #[trigger] nv[k2] == j by {
                            if k < ov.len() {
                                let k2 = choose|k2: int| 0 <= k2 < k && #[trigger] ov[k2] == j;
                                assert(nv[k2] == j);
                            } else {
                                assert(appears(ov, j));
                                let k2 = choose|k2: int| 0 <= k2 < ov.len() && #[trigger] ov[k2] == j;
                                assert(nv[k2] == j);
                            }
                        }
                    }
                    progress = true;
                } else {
                    proof {
                        let c = choose|c: int| 0 <= c < row@.len() && !#[trigger] placed@[row@[c] as int];
                        assert(0 <= c < cis[i as int].len() && !placed@[cis[i as int][c] as int]);
                        assert(unplaced_child(cis, placed@, i as int));
                    }
                }
            }
            i += 1;
        }
        progress
    }

    fn sort(nodes: Vec<N>, ci: Vec<Vec<usize>>) -> (r: Result<Self, DagError>)
        requires
            ids_unique(nodes@),
            children_present(nodes@),
            resolves(nodes@, rows(ci@)),
        ensures
            r is Err ==> r->Err_0 == DagError::Cycle && !acyclic(nodes@),
            r is Ok ==> r->Ok_0.wf() && r->Ok_0.spec_nodes() == nodes@,
    {
        let ghost cis = rows(ci@);
        let n = nodes.len();
        let mut placed: Vec<bool> = Vec::new();
        let mut i: usize = 0;
        while i < n
            invariant
                0 <= i <= n,
                placed@.len() == i,
                forall|a: int| 0 <= a < i ==> !#[trigger] placed@[a],
            decreases n - i,
        {
            placed.push(false);
            i += 1;
        }
        let mut order: Vec<usize> = Vec::new();
        assert(ints(order@) =~= Seq::<int>::empty());
        loop
            invariant
                n == nodes@.len(),
                ids_unique(nodes@),
                children_present(nodes@),
                resolves(nodes@, cis),
                cis == rows(ci@),
                placed@.len() == n,
                placement(nodes@, placed@, ints(order@)),
            decreases n - order@.len(),
        {
            proof {
                lemma_order_len_bound(ints(order@), n as int);
            }
            let progress = Self::place_pass(&nodes, &ci, &mut placed, &mut order);
            if !progress {
                let mut all = true;
                let mut a: usize = 0;
                while a < n
                    invariant
                        n == placed@.len(),
                        0 <= a <= n,
                        all <==> forall|b: int| 0 <= b < a ==> #[trigger] placed@[b],
                    decreases n - a,
                {
                    if !placed[a] {
                        all = false;
                    }
                    a += 1;
                }
                let ghost ov = ints(order@);
                if all {
                    proof {
                        assert forall|a: int| 0 <= a < n implies #[trigger] appears(ov, a) by {
                            assert(placed@[a]);
                        }
                        lemma_full_order_len(ov, n as int);
                    }
                    let r = Dag { nodes, order };
                    assert(r.spec_order() == ov);
                    return Ok(r);
                } else {
                    proof {
                        let w = choose|b: int| 0 <= b < n && !#[trigger] placed@[b];
                        lemma_stuck_means_cycle(nodes@, cis, placed@, w);
                    }
                    return Err(DagError::Cycle);
                }
            }
            proof {
                lemma_order_len_bound(ints(order@), n as int);
            }
        }
    }
}

} // verus!
