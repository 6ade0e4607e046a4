//! The grid: a directed graph of cells whose neighbour lists are indexed by direction.
//!
//! The graph itself is a `petgraph` graph. Beside it the grid keeps, for
//! every cell, its neighbour slots: one entry for each edge that was created
//! from the cell, the most recent first, where an entry is either the cell
//! the edge leads to or empty (a direction in which the cell has no
//! neighbour). The position of a slot is the direction it stands for.

use crate::wfc_util::{Cell, CellId, DirectionTrait, EdgeId, GraphEdge, GridError};
use petgraph::graph::{EdgeIndex, Graph, NodeIndex};
use petgraph::Directed;
use vstd::prelude::*;

verus! {

/// `petgraph::graph::Graph`, the graph type of the `petgraph` crate. Nothing
/// is known of a graph but what the functions below say of it.
#[verifier::external_type_specification]
#[verifier::external_body]
#[verifier::reject_recursive_types(N)]
#[verifier::reject_recursive_types(E)]
#[verifier::reject_recursive_types(Ty)]
#[verifier::reject_recursive_types(Ix)]
pub struct ExGraph<N, E, Ty, Ix>(Graph<N, E, Ty, Ix>);

/// `petgraph::Directed`, the marker of graphs with directed edges.
#[verifier::external_type_specification]
#[verifier::external_body]
pub struct ExDirected(Directed);

/// The graph type that holds the cells and the edges between them.
pub type WFCGraph = Graph<Cell, GraphEdge, Directed>;

/// The number of nodes of a graph.
pub uninterp spec fn graph_node_count(graph: WFCGraph) -> nat;

/// The edges of a graph as pairs of source and target, in the order in which
/// they were added. The position of an edge is its index.
pub uninterp spec fn graph_edges(graph: WFCGraph) -> Seq<(CellId, CellId)>;

/// The numbers of nodes and of edges that a graph was made to hold: what
/// was asked of `Graph::with_capacity`, and nothing for `Graph::new`.
pub uninterp spec fn graph_reserved(graph: WFCGraph) -> (nat, nat);

/// The targets of the edges that leave `from`, the most recent edge first.
pub open spec fn out_targets(edges: Seq<(CellId, CellId)>, from: CellId) -> Seq<CellId>
    decreases edges.len(),
{
    if edges.len() == 0 {
        Seq::empty()
    } else {
        let rest = out_targets(edges.drop_last(), from);
        if edges.last().0 == from {
            seq![edges.last().1] + rest
        } else {
            rest
        }
    }
}

/// `Graph::new`: a graph without nodes or edges, made to hold none.
#[verifier::external_body]
fn graph_new() -> (graph: WFCGraph)
    ensures
        graph_node_count(graph) == 0,
        graph_edges(graph) == Seq::<(CellId, CellId)>::empty(),
        graph_reserved(graph) == (0nat, 0nat),
{
    Graph::new()
}

/// `Graph::with_capacity`: a graph without nodes or edges, with room reserved.
/// The bounds keep the reservation far below what a vector can be asked for.
#[verifier::external_body]
fn graph_with_capacity(nodes: usize, edges: usize) -> (graph: WFCGraph)
    requires
        nodes <= 0x10_0000,
        edges <= 0x10_0000,
    ensures
        graph_node_count(graph) == 0,
        graph_edges(graph) == Seq::<(CellId, CellId)>::empty(),
        graph_reserved(graph) == (nodes as nat, edges as nat),
{
    Graph::with_capacity(nodes, edges)
}

/// `Graph::node_count`.
#[verifier::external_body]
fn graph_count_nodes(graph: &WFCGraph) -> (count: usize)
    ensures
        count == graph_node_count(*graph),
{
    graph.node_count()
}

/// `Graph::edge_count`.
#[verifier::external_body]
fn graph_count_edges(graph: &WFCGraph) -> (count: usize)
    ensures
        count == graph_edges(*graph).len(),
{
    graph.edge_count()
}

/// `Graph::add_node`: appends a node and returns its index, the former
/// node count. It panics when the index type (32 bits) has no index left,
/// which `requires` rules out. The edges stay as they are.
#[verifier::external_body]
fn graph_add_node(graph: &mut WFCGraph, cell: Cell) -> (index: usize)
    requires
        graph_node_count(*old(graph)) < u32::MAX,
    ensures
        index == graph_node_count(*old(graph)),
        graph_node_count(*final(graph)) == graph_node_count(*old(graph)) + 1,
        graph_edges(*final(graph)) == graph_edges(*old(graph)),
        graph_reserved(*final(graph)) == graph_reserved(*old(graph)),
{
    graph.add_node(cell).index()
}

/// `Graph::add_edge`: appends an edge from `from` to `to` and returns its
/// index, the former edge count. It panics when a node does not exist or
/// when no edge index is left, which `requires` rules out.
#[verifier::external_body]
fn graph_add_edge(graph: &mut WFCGraph, from: CellId, to: CellId, data: GraphEdge) -> (index: usize)
    requires
        from < graph_node_count(*old(graph)),
        to < graph_node_count(*old(graph)),
        graph_node_count(*old(graph)) <= u32::MAX,
        graph_edges(*old(graph)).len() < u32::MAX,
    ensures
        index == graph_edges(*old(graph)).len(),
        graph_edges(*final(graph)) == graph_edges(*old(graph)).push((from, to)),
        graph_node_count(*final(graph)) == graph_node_count(*old(graph)),
        graph_reserved(*final(graph)) == graph_reserved(*old(graph)),
{
    graph.add_edge(NodeIndex::new(from), NodeIndex::new(to), data).index()
}

/// `Graph::find_edge` on a directed graph: the most recent edge from `from`
/// to `to`, if there is one.
#[verifier::external_body]
fn graph_find_edge(graph: &WFCGraph, from: CellId, to: CellId) -> (found: Option<EdgeId>)
    requires
        from < graph_node_count(*graph),
        to < graph_node_count(*graph),
        graph_node_count(*graph) <= u32::MAX,
    ensures
        match found {
            Some(e) => {
                &&& e < graph_edges(*graph).len()
                &&& graph_edges(*graph)[e as int] == (from, to)
                &&& forall|later: int|
                    e < later < graph_edges(*graph).len() ==> graph_edges(*graph)[later] != (
                        from,
                        to,
                    )
            },
            None => forall|e: int|
                0 <= e < graph_edges(*graph).len() ==> graph_edges(*graph)[e] != (from, to),
        },
{
    graph.find_edge(NodeIndex::new(from), NodeIndex::new(to)).map(|e| e.index())
}

/// `Graph::neighbors` on a directed graph: the targets of the edges that
/// leave `from`, in reverse order of their addition.
#[verifier::external_body]
fn graph_neighbors(graph: &WFCGraph, from: CellId) -> (targets: Vec<CellId>)
    requires
        from < graph_node_count(*graph),
        graph_node_count(*graph) <= u32::MAX,
    ensures
        targets@ == out_targets(graph_edges(*graph), from),
{
    graph.neighbors(NodeIndex::new(from)).map(|n| n.index()).collect()
}

/// `Graph::edge_endpoints`: source and target of an edge that exists.
#[verifier::external_body]
fn graph_edge_endpoints(graph: &WFCGraph, edge: EdgeId) -> (ends: Option<(CellId, CellId)>)
    requires
        edge < graph_edges(*graph).len(),
        graph_edges(*graph).len() <= u32::MAX,
    ensures
        ends == Some(graph_edges(*graph)[edge as int]),
{
    graph.edge_endpoints(EdgeIndex::new(edge)).map(|(a, b)| (a.index(), b.index()))
}

/// `Graph::capacity`: how many nodes and edges the graph has room for, which
/// are the capacities of the two vectors that hold them. How much room there
/// is depends on the allocator. There is room for what the graph holds, and
/// for what it was made to hold: a vector holds no more than its capacity,
/// is made with at least the capacity asked for, and gives up none when it
/// grows or is cleared.
#[verifier::external_body]
fn graph_capacity(graph: &WFCGraph) -> (capacity: (usize, usize))
    ensures
        capacity.0 >= graph_node_count(*graph),
        capacity.0 >= graph_reserved(*graph).0,
        capacity.1 >= graph_edges(*graph).len(),
        capacity.1 >= graph_reserved(*graph).1,
{
    graph.capacity()
}

/// `Graph::clear`: removes all nodes and edges. The room stays.
#[verifier::external_body]
fn graph_clear(graph: &mut WFCGraph)
    ensures
        graph_node_count(*final(graph)) == 0,
        graph_edges(*final(graph)) == Seq::<(CellId, CellId)>::empty(),
        graph_reserved(*final(graph)) == graph_reserved(*old(graph)),
{
    graph.clear()
}

/// The cells that a list of neighbour slots names, in order: the empty slots left out.
pub open spec fn present(slots: Seq<Option<CellId>>) -> Seq<CellId>
    decreases slots.len(),
{
    if slots.len() == 0 {
        Seq::empty()
    } else {
        match slots.first() {
            Some(cell) => seq![cell] + present(slots.drop_first()),
            None => present(slots.drop_first()),
        }
    }
}

/// The names given to cells: each name with the cell of its most recent entry.
pub open spec fn names_of(entries: Seq<(String, CellId)>) -> Map<Seq<char>, CellId>
    decreases entries.len(),
{
    if entries.len() == 0 {
        Map::empty()
    } else {
        names_of(entries.drop_last()).insert(entries.last().0@, entries.last().1)
    }
}

/// Whether the slot of `cell` at `position` holds `target`.
pub open spec fn points_to(
    slots: Seq<Seq<Option<CellId>>>,
    cell: int,
    position: usize,
    target: CellId,
) -> bool {
    &&& 0 <= cell < slots.len()
    &&& position < slots[cell].len()
    &&& slots[cell][position as int] == Some(target)
}

/// A builder of grids: it adds the cells and edges of one kind of grid.
///
/// A builder works through the public operations of the grid, which keep
/// the grid well formed.
pub trait GridBuilder {
    /// Adds the cells and edges of the grid to build.
    fn build_grid_system(&mut self, grid: &mut GridSystem) -> (built: Result<(), GridError>)
        requires
            old(grid).wf(),
        ensures
            final(grid).wf(),
    ;

    /// The extent of the grid along each of its axes. A builder that does
    /// not say gives no extent.
    fn get_dimensions(&self) -> (dimensions: Vec<usize>)
        default_ensures
            dimensions@ == Seq::<usize>::empty(),
    {
        Vec::new()
    }

    /// A name for the kind of grid that is built. A builder that does not
    /// say is called a custom grid.
    fn get_grid_type_name(&self) -> (name: &'static str)
        default_ensures
            name@ == "CustomGrid"@,
    {
        "CustomGrid"
    }
}

/// The grid system: cells, the edges between them, and names for cells.
pub struct GridSystem {
    graph: WFCGraph,
    slots: Vec<Vec<Option<CellId>>>,
    names: Vec<(String, CellId)>,
}

impl GridSystem {
    /// The number of cells.
    pub closed spec fn cell_count(&self) -> nat {
        self.slots@.len()
    }

    /// For each cell its neighbour slots: one for each edge created from
    /// the cell, the most recent first.
    pub closed spec fn neighbor_slots(&self) -> Seq<Seq<Option<CellId>>> {
        Seq::new(self.slots@.len(), |c: int| self.slots@[c]@)
    }

    /// The edges between cells, in the order of their creation.
    pub closed spec fn edge_list(&self) -> Seq<(CellId, CellId)> {
        graph_edges(self.graph)
    }

    /// The numbers of cells and of edges that the grid was made to hold.
    pub closed spec fn reserved(&self) -> (nat, nat) {
        graph_reserved(self.graph)
    }

    /// The cells that have a name.
    pub closed spec fn named_cells(&self) -> Map<Seq<char>, CellId> {
        names_of(self.names@)
    }

    /// What ties the graph and the slots together.
    pub closed spec fn graph_matches(&self) -> bool {
        &&& graph_node_count(self.graph) == self.slots@.len()
        &&& forall|c: int|
            0 <= c < self.slots@.len() ==> present(#[trigger] self.slots@[c]@) == out_targets(
                graph_edges(self.graph),
                c as usize,
            )
    }

    /// The grid is well formed: slots and edges name cells of the grid, no
    /// edge leads from a cell to itself, no edge occurs twice, and the
    /// neighbour slots hold the edges of the graph.
    pub open spec fn wf(&self) -> bool {
        &&& self.graph_matches()
        &&& self.cell_count() <= u32::MAX
        &&& self.edge_list().len() <= u32::MAX
        &&& self.neighbor_slots().len() == self.cell_count()
        &&& forall|c: int, k: int|
            0 <= c < self.cell_count() && 0 <= k < self.neighbor_slots()[c].len() ==> (
            #[trigger] self.neighbor_slots()[c][k] matches Some(n) ==> n < self.cell_count() && n
                != c)
        &&& forall|e: int|
            0 <= e < self.edge_list().len() ==> {
                &&& (#[trigger] self.edge_list()[e]).0 < self.cell_count()
                &&& self.edge_list()[e].1 < self.cell_count()
                &&& self.edge_list()[e].0 != self.edge_list()[e].1
            }
        &&& forall|e1: int, e2: int|
            0 <= e1 < e2 < self.edge_list().len() ==> #[trigger] self.edge_list()[e1]
                != #[trigger] self.edge_list()[e2]
        &&& forall|name: Seq<char>| #[trigger]
            self.named_cells().dom().contains(name) ==> self.named_cells()[name]
                < self.cell_count()
    }

    /// An outcome of `create_edge` that leaves the grid as it was.
    pub open spec fn edge_refusal(&self, from: CellId, to: Option<CellId>) -> Option<GridError> {
        if to == Some(from) {
            Some(GridError::SelfLoop)
        } else if from >= self.cell_count() {
            Some(GridError::NodeNotFound)
        } else if to matches Some(t) && t >= self.cell_count() {
            Some(GridError::NodeNotFound)
        } else if to matches Some(t) && self.edge_list().contains((from, t)) {
            Some(GridError::EdgeAlreadyExists)
        } else if to is Some && self.edge_list().len() >= u32::MAX {
            Some(GridError::CapacityExhausted)
        } else {
            None
        }
    }

    /// The cell that `get_cell_by_name` finds.
    pub open spec fn cell_named(&self, name: Seq<char>) -> Option<CellId> {
        if self.named_cells().dom().contains(name) {
            Some(self.named_cells()[name])
        } else {
            None
        }
    }

    /// The neighbour at a position of a cell's slots; none where the cell or the slot does not exist.
    pub open spec fn slot_at(&self, cell_id: CellId, position: usize) -> Option<CellId> {
        if cell_id < self.cell_count() && position < self.neighbor_slots()[cell_id as int].len() {
            self.neighbor_slots()[cell_id as int][position as int]
        } else {
            None
        }
    }

    /// Whether `found` is the first cell whose slot at `position` holds `target`.
    pub open spec fn is_first_pointing(
        &self,
        position: usize,
        target: CellId,
        found: Option<CellId>,
    ) -> bool {
        match found {
            Some(cell) => {
                &&& points_to(self.neighbor_slots(), cell as int, position, target)
                &&& forall|c: int|
                    0 <= c < cell ==> !points_to(self.neighbor_slots(), c, position, target)
            },
            None => forall|c: int|
                0 <= c < self.cell_count() ==> !points_to(
                    self.neighbor_slots(),
                    c,
                    position,
                    target,
                ),
        }
    }

    /// An empty grid.
    pub fn new() -> (grid: Self)
        ensures
            grid.wf(),
            grid.cell_count() == 0,
            grid.neighbor_slots() == Seq::<Seq<Option<CellId>>>::empty(),
            grid.edge_list() == Seq::<(CellId, CellId)>::empty(),
            grid.named_cells() == Map::<Seq<char>, CellId>::empty(),
            grid.reserved() == (0nat, 0nat),
    {
        let grid = GridSystem { graph: graph_new(), slots: Vec::new(), names: Vec::new() };
        assert(grid.neighbor_slots() =~= Seq::<Seq<Option<CellId>>>::empty());
        grid
    }

    /// What `with_capacity` reserves for a hint: the hint, and no more than 2^20.
    pub open spec fn reserved_for(hint: usize) -> nat {
        if hint > 0x10_0000 {
            0x10_0000
        } else {
            hint as nat
        }
    }

    /// An empty grid that is made to hold that many cells and edges, so
    /// that `capacity` reports at least as many. No more than 2^20 of each
    /// are reserved ahead.
    pub fn with_capacity(nodes: usize, edges: usize) -> (grid: Self)
        ensures
            grid.wf(),
            grid.cell_count() == 0,
            grid.neighbor_slots() == Seq::<Seq<Option<CellId>>>::empty(),
            grid.edge_list() == Seq::<(CellId, CellId)>::empty(),
            grid.named_cells() == Map::<Seq<char>, CellId>::empty(),
            grid.reserved() == (Self::reserved_for(nodes), Self::reserved_for(edges)),
    {
        let nodes_ahead: usize = if nodes > 0x10_0000 {
            0x10_0000
        } else {
            nodes
        };
        let edges_ahead: usize = if edges > 0x10_0000 {
            0x10_0000
        } else {
            edges
        };
        let grid = GridSystem {
            graph: graph_with_capacity(nodes_ahead, edges_ahead),
            slots: Vec::new(),
            names: Vec::new(),
        };
        assert(grid.neighbor_slots() =~= Seq::<Seq<Option<CellId>>>::empty());
        grid
    }

    /// Lets a builder add its cells and edges to this grid, and returns
    /// what the builder returns: the grid is left as the builder leaves it.
    pub fn build_with<T: GridBuilder>(&mut self, builder: T) -> (built: Result<(), GridError>)
        requires
            old(self).wf(),
        ensures
            final(self).wf(),
            exists|b: &mut T, g: &mut GridSystem|
                *b == builder && *g == *old(self) && *final(g) == *final(self)
                    && #[trigger] call_ensures(T::build_grid_system, (b, g), built),
    {
        let mut at_work = builder;
        let built = at_work.build_grid_system(self);
        proof {
            assert(exists|b: &mut T, g: &mut GridSystem|
                *b == builder && *g == *old(self) && *final(g) == *self && #[trigger] call_ensures(
                    T::build_grid_system,
                    (b, g),
                    built,
                ));
        }
        built
    }

    /// The grid has no cells, edges or names.
    pub open spec fn is_empty_grid(&self) -> bool {
        &&& self.wf()
        &&& self.cell_count() == 0
        &&& self.neighbor_slots() == Seq::<Seq<Option<CellId>>>::empty()
        &&& self.edge_list() == Seq::<(CellId, CellId)>::empty()
        &&& self.named_cells() == Map::<Seq<char>, CellId>::empty()
    }

    /// What `from_builder` gives, where the builder gives `outcome` and
    /// leaves the grid `after`: the grid where the builder succeeds, and
    /// the builder's error where it fails.
    pub open spec fn built_from(outcome: Result<(), GridError>, after: GridSystem) -> Result<
        GridSystem,
        GridError,
    > {
        match outcome {
            Ok(()) => Ok(after),
            Err(error) => Err(error),
        }
    }

    /// Builds a grid from nothing with a builder: the builder is set to
    /// work on an empty grid. Gives the grid as the builder leaves it where
    /// the builder succeeds, and the builder's error where it fails.
    pub fn from_builder<T: GridBuilder>(builder: T) -> (built: Result<Self, GridError>)
        ensures
            built matches Ok(grid) ==> grid.wf(),
            exists|b: &mut T, g: &mut GridSystem, outcome: Result<(), GridError>|
                *b == builder && g.is_empty_grid() && #[trigger] call_ensures(
                    T::build_grid_system,
                    (b, g),
                    outcome,
                ) && built == Self::built_from(outcome, *final(g)),
    {
        let mut at_work = builder;
        let mut grid = GridSystem::new();
        let ghost before = grid;
        let outcome = at_work.build_grid_system(&mut grid);
        proof {
            assert(exists|b: &mut T, g: &mut GridSystem|
                *b == builder && *g == before && *final(g) == grid && #[trigger] call_ensures(
                    T::build_grid_system,
                    (b, g),
                    outcome,
                ));
        }
        match outcome {
            Ok(()) => Ok(grid),
            Err(e) => Err(e),
        }
    }

    /// Adds a cell and returns its handle. The new cell has no neighbour slots.
    pub fn add_cell(&mut self, cell_data: Cell) -> (cell_id: CellId)
        requires
            old(self).wf(),
            old(self).cell_count() < u32::MAX,
        ensures
            final(self).wf(),
            cell_id == old(self).cell_count(),
            final(self).cell_count() == old(self).cell_count() + 1,
            final(self).neighbor_slots() == old(self).neighbor_slots().push(Seq::empty()),
            final(self).edge_list() == old(self).edge_list(),
            final(self).named_cells() == old(self).named_cells(),
            final(self).reserved() == old(self).reserved(),
    {
        let cell_id = graph_add_node(&mut self.graph, cell_data);
        self.slots.push(Vec::new());
        proof {
            assert(final(self).neighbor_slots() =~= old(self).neighbor_slots().push(Seq::empty()));
            lemma_out_targets_in_range(graph_edges(self.graph), cell_id, old(self).cell_count());
            assert forall|c: int| 0 <= c < self.slots@.len() implies present(
                #[trigger] self.slots@[c]@,
            ) == out_targets(graph_edges(self.graph), c as usize) by {
                if c < old(self).slots@.len() {
                    assert(self.slots@[c] == old(self).slots@[c]);
                }
            }
            assert(self.named_cells() == old(self).named_cells());
            assert forall|name: Seq<char>| #[trigger]
                self.named_cells().dom().contains(name) implies self.named_cells()[name]
                < self.cell_count() by {
                assert(old(self).named_cells().dom().contains(name));
            }
        }
        cell_id
    }

    /// Adds a cell and gives it a name. A name that was in use now names the new cell.
    pub fn add_cell_with_name(&mut self, cell_data: Cell, name: String) -> (cell_id: CellId)
        requires
            old(self).wf(),
            old(self).cell_count() < u32::MAX,
        ensures
            final(self).wf(),
            cell_id == old(self).cell_count(),
            final(self).cell_count() == old(self).cell_count() + 1,
            final(self).neighbor_slots() == old(self).neighbor_slots().push(Seq::empty()),
            final(self).edge_list() == old(self).edge_list(),
            final(self).named_cells() == old(self).named_cells().insert(name@, cell_id),
            final(self).reserved() == old(self).reserved(),
    {
        let cell_id = self.add_cell(cell_data);
        let ghost added = *self;
        self.names.push((name, cell_id));
        proof {
            assert(self.names@.drop_last() =~= added.names@);
            assert(self.named_cells() == added.named_cells().insert(name@, cell_id));
            assert(self.slots == added.slots && self.graph == added.graph);
            assert(self.neighbor_slots() == added.neighbor_slots());
            assert(self.graph_matches());
        }
        cell_id
    }

    /// The cell that carries this name, if there is one.
    pub fn get_cell_by_name(&self, name: &str) -> (found: Option<CellId>)
        ensures
            found == self.cell_named(name@),
    {
        let wanted = name.to_owned();
        let mut i: usize = self.names.len();
        proof {
            assert(self.names@.take(i as int) =~= self.names@);
        }
        while i > 0
            invariant
                i <= self.names.len(),
                wanted@ == name@,
                names_of(self.names@).dom().contains(name@) == names_of(
                    self.names@.take(i as int),
                ).dom().contains(name@),
                names_of(self.names@).dom().contains(name@) ==> names_of(self.names@)[name@]
                    == names_of(self.names@.take(i as int))[name@],
            decreases i,
        {
            proof {
                assert(self.names@.take(i as int).drop_last() =~= self.names@.take(i - 1));
            }
            i -= 1;
            if self.names[i].0 == wanted {
                return Some(self.names[i].1);
            }
        }
        proof {
            assert(self.names@.take(0) =~= Seq::<(String, CellId)>::empty());
        }
        None
    }

    /// The names that cells have, each once with the cell that it names,
    /// the name given last first.
    pub fn get_named_cells(&self) -> (named: Vec<(String, CellId)>)
        ensures
            forall|i: int|
                0 <= i < named.len() ==> self.cell_named((#[trigger] named[i]).0@) == Some(
                    named[i].1,
                ),
            forall|name: Seq<char>| #[trigger]
                self.named_cells().dom().contains(name) ==> is_listed(named@, name),
            forall|i: int, j: int|
                0 <= i < j < named.len() ==> (#[trigger] named[i]).0@ != (#[trigger] named[j]).0@,
    {
        let mut named: Vec<(String, CellId)> = Vec::new();
        let ghost mut at: Seq<int> = Seq::empty();
        let mut j: usize = self.names.len();
        while j > 0
            invariant
                j <= self.names.len(),
                at.len() == named.len(),
                forall|i: int|
                    0 <= i < named.len() ==> {
                        &&& j <= #[trigger] at[i] < self.names.len()
                        &&& self.names[at[i]].0@ == named[i].0@
                        &&& self.names[at[i]].1 == named[i].1
                        &&& forall|q: int|
                            at[i] < q < self.names.len() ==> (#[trigger] self.names[q]).0@
                                != named[i].0@
                    },
                forall|p: int|
                    j <= p < self.names.len() ==> is_listed(named@, (#[trigger] self.names[p]).0@),
                forall|a: int, b: int|
                    0 <= a < b < named.len() ==> (#[trigger] named[a]).0@ != (
                    #[trigger] named[b]).0@,
            decreases j,
        {
            j -= 1;
            let ghost listed = named@;
            let seen = has_name(&named, &self.names[j].0);
            if !seen {
                let name = self.names[j].0.clone();
                named.push((name, self.names[j].1));
                proof {
                    at = at.push(j as int);
                    assert(named@[listed.len() as int].0@ == self.names[j as int].0@);
                    assert forall|q: int| j < q < self.names.len() implies (
                    #[trigger] self.names[q]).0@ != self.names[j as int].0@ by {
                        if self.names[q].0@ == self.names[j as int].0@ {
                            assert(is_listed(listed, self.names[q].0@));
                        }
                    }
                }
            }
            proof {
                assert forall|p: int| j <= p < self.names.len() implies is_listed(
                    named@,
                    (#[trigger] self.names[p]).0@,
                ) by {
                    let wanted = self.names[p].0@;
                    if p > j || seen {
                        assert(is_listed(listed, wanted));
                        let i = choose|i: int| 0 <= i < listed.len() && listed[i].0@ == wanted;
                        assert(named@[i].0@ == wanted);
                    } else {
                        assert(named@[listed.len() as int].0@ == wanted);
                    }
                }
            }
        }
        proof {
            assert forall|i: int| 0 <= i < named.len() implies self.cell_named(
                (#[trigger] named[i]).0@,
            ) == Some(named[i].1) by {
                lemma_names_of_last(self.names@, at[i]);
            }
            assert forall|name: Seq<char>| #[trigger]
                self.named_cells().dom().contains(name) implies is_listed(named@, name) by {
                lemma_names_of_dom(self.names@, name);
                let p = choose|p: int| 0 <= p < self.names.len() && self.names[p].0@ == name;
                assert(is_listed(named@, self.names[p].0@));
            }
        }
        named
    }

    /// Creates an edge from `from`: to the cell `to`, or to nowhere where
    /// `to` is `None` (a direction in which `from` has no neighbour). Either
    /// way `from` gets a new neighbour slot in front of its others. Returns
    /// the handle of the edge that was added to the graph, if one was.
    ///
    /// Refused, with the grid unchanged: an edge from a cell to itself, an
    /// end that is no cell of the grid, an edge that exists already, and
    /// an edge beyond the 2^32 - 1 that the graph can number.
    pub fn create_edge(&mut self, from: CellId, to: Option<CellId>) -> (created: Result<
        Option<EdgeId>,
        GridError,
    >)
        requires
            old(self).wf(),
        ensures
            final(self).wf(),
            final(self).cell_count() == old(self).cell_count(),
            final(self).named_cells() == old(self).named_cells(),
            final(self).reserved() == old(self).reserved(),
            match old(self).edge_refusal(from, to) {
                Some(error) => {
                    &&& created == Err::<Option<EdgeId>, GridError>(error)
                    &&& final(self).neighbor_slots() == old(self).neighbor_slots()
                    &&& final(self).edge_list() == old(self).edge_list()
                },
                None => {
                    &&& final(self).neighbor_slots() == old(self).neighbor_slots().update(
                        from as int,
                        seq![to] + old(self).neighbor_slots()[from as int],
                    )
                    &&& match to {
                        Some(t) => {
                            &&& created == Ok::<Option<EdgeId>, GridError>(
                                Some(old(self).edge_list().len() as usize),
                            )
                            &&& final(self).edge_list() == old(self).edge_list().push((from, t))
                        },
                        None => {
                            &&& created == Ok::<Option<EdgeId>, GridError>(None)
                            &&& final(self).edge_list() == old(self).edge_list()
                        },
                    }
                },
            },
    {
        if let Some(t) = to {
            if t == from {
                return Err(GridError::SelfLoop);
            }
        }
        let count = graph_count_nodes(&self.graph);
        if from >= count {
            return Err(GridError::NodeNotFound);
        }
        let mut created: Option<EdgeId> = None;
        if let Some(t) = to {
            if t >= count {
                return Err(GridError::NodeNotFound);
            }
            if graph_find_edge(&self.graph, from, t).is_some() {
                return Err(GridError::EdgeAlreadyExists);
            }
            if graph_count_edges(&self.graph) >= 0xffff_ffff {
                return Err(GridError::CapacityExhausted);
            }
            proof {
                lemma_out_targets_push(graph_edges(self.graph), (from, t));
            }
            let edge = graph_add_edge(&mut self.graph, from, t, GraphEdge::new());
            created = Some(edge);
        }
        let ghost before = self.slots@[from as int]@;
        let ghost edges_before = graph_edges(old(self).graph);
        self.slots[from].insert(0, to);
        proof {
            let edges_now = graph_edges(self.graph);
            assert(self.slots@[from as int]@ =~= seq![to] + before);
            assert((seq![to] + before).drop_first() =~= before);
            assert(final(self).neighbor_slots() =~= old(self).neighbor_slots().update(
                from as int,
                seq![to] + old(self).neighbor_slots()[from as int],
            ));
            assert(present(before) == out_targets(edges_before, from)) by {
                assert(before == old(self).slots@[from as int]@);
            }
            assert forall|c: int| 0 <= c < self.slots@.len() implies present(
                #[trigger] self.slots@[c]@,
            ) == out_targets(edges_now, c as usize) by {
                if c != from {
                    assert(self.slots@[c] == old(self).slots@[c]);
                    assert(present(old(self).slots@[c]@) == out_targets(edges_before, c as usize));
                    if to is Some {
                        assert(out_targets(edges_now, c as usize) == out_targets(
                            edges_before,
                            c as usize,
                        ));
                    }
                }
            }
            assert(self.graph_matches());
            assert forall|c: int, k: int|
                0 <= c < self.cell_count() && 0 <= k < self.neighbor_slots()[c].len() implies (
            #[trigger] self.neighbor_slots()[c][k] matches Some(n) ==> n < self.cell_count() && n
                != c) by {
                if c == from {
                    if k > 0 {
                        assert(self.neighbor_slots()[c][k] == old(self).neighbor_slots()[c][k - 1]);
                    }
                } else {
                    assert(self.neighbor_slots()[c][k] == old(self).neighbor_slots()[c][k]);
                }
            }
            assert(self.named_cells() == old(self).named_cells());
        }
        Ok(created)
    }

    /// The neighbours of a cell: the cells in its neighbour slots, in slot
    /// order, the empty slots left out. None for a handle that names no cell.
    pub fn get_neighbors(&self, cell_id: CellId) -> (neighbors: Vec<CellId>)
        requires
            self.wf(),
        ensures
            cell_id < self.cell_count() ==> neighbors@ == present(
                self.neighbor_slots()[cell_id as int],
            ),
            cell_id >= self.cell_count() ==> neighbors@ == Seq::<CellId>::empty(),
    {
        if cell_id < graph_count_nodes(&self.graph) {
            graph_neighbors(&self.graph, cell_id)
        } else {
            Vec::new()
        }
    }

    /// The neighbour slots of a cell, by position; none for a handle that names no cell.
    pub fn get_neighbor_slots(&self, cell_id: CellId) -> (slots: Vec<Option<CellId>>)
        ensures
            cell_id < self.cell_count() ==> slots@ == self.neighbor_slots()[cell_id as int],
            cell_id >= self.cell_count() ==> slots@ == Seq::<Option<CellId>>::empty(),
    {
        let mut slots: Vec<Option<CellId>> = Vec::new();
        if cell_id < self.slots.len() {
            let mut k: usize = 0;
            while k < self.slots[cell_id].len()
                invariant
                    cell_id < self.slots.len(),
                    k <= self.slots[cell_id as int].len(),
                    slots@ == self.slots[cell_id as int]@.take(k as int),
                decreases self.slots[cell_id as int].len() - k,
            {
                slots.push(self.slots[cell_id][k]);
                proof {
                    assert(self.slots[cell_id as int]@.take(k + 1) =~= self.slots[cell_id as int]@.take(
                        k as int,
                    ).push(self.slots[cell_id as int]@[k as int]));
                }
                k += 1;
            }
            proof {
                assert(self.slots[cell_id as int]@.take(k as int) =~= self.slots[cell_id as int]@);
            }
        }
        slots
    }

    /// The edge from one cell to another, if there is one.
    pub fn find_edge(&self, from: CellId, to: CellId) -> (found: Option<EdgeId>)
        requires
            self.wf(),
        ensures
            match found {
                Some(e) => e < self.edge_list().len() && self.edge_list()[e as int] == (from, to),
                None => !self.edge_list().contains((from, to)),
            },
    {
        let count = graph_count_nodes(&self.graph);
        if from < count && to < count {
            graph_find_edge(&self.graph, from, to)
        } else {
            None
        }
    }

    /// The handles of all cells, in the order in which the cells were added.
    pub fn get_all_cells(&self) -> (cells: Vec<CellId>)
        ensures
            cells@ == Seq::new(self.cell_count(), |i: int| i as usize),
    {
        let mut cells: Vec<CellId> = Vec::new();
        let mut i: usize = 0;
        while i < self.slots.len()
            invariant
                i <= self.slots.len(),
                cells@ == Seq::new(i as nat, |k: int| k as usize),
            decreases self.slots.len() - i,
        {
            cells.push(i);
            i += 1;
        }
        cells
    }

    /// The number of cells.
    pub fn get_cells_count(&self) -> (count: usize)
        ensures
            count == self.cell_count(),
    {
        self.slots.len()
    }

    /// The number of edges between cells.
    pub fn get_edges_count(&self) -> (count: usize)
        ensures
            count == self.edge_list().len(),
    {
        graph_count_edges(&self.graph)
    }

    /// The neighbour of a cell in a direction.
    ///
    /// Where the direction has a position, the neighbour is what the
    /// cell's slot at that position holds. Where it has none, the neighbour
    /// is the first cell that has this cell in the slot of the opposite
    /// direction; none where the direction has no opposite, or the opposite
    /// no position.
    pub fn get_neighbor_by_direction<D: DirectionTrait>(&self, cell_id: CellId, direction: D) -> (neighbor:
        Option<CellId>)
        ensures
            exists|index: Option<usize>| #[trigger]
                call_ensures(D::to_neighbor_index, (&direction,), index) && match index {
                    Some(position) => neighbor == self.slot_at(cell_id, position),
                    None => self.is_incoming_neighbor(cell_id, direction, neighbor),
                },
    {
        match direction.to_neighbor_index() {
            Some(position) => {
                if cell_id < self.slots.len() && position < self.slots[cell_id].len() {
                    self.slots[cell_id][position]
                } else {
                    None
                }
            },
            None => self.find_incoming_neighbor_by_direction(cell_id, direction),
        }
    }

    /// What `find_incoming_neighbor_by_direction` may return, given what the direction answers.
    pub open spec fn is_incoming_neighbor<D: DirectionTrait>(
        &self,
        cell_id: CellId,
        direction: D,
        neighbor: Option<CellId>,
    ) -> bool {
        exists|opposite: Option<D>| #[trigger]
            call_ensures(D::opposite, (&direction,), opposite) && match opposite {
                None => neighbor is None,
                Some(back) => exists|index: Option<usize>| #[trigger]
                    call_ensures(D::to_neighbor_index, (&back,), index) && match index {
                        None => neighbor is None,
                        Some(position) => self.is_first_pointing(position, cell_id, neighbor),
                    },
            }
    }

    /// Looks for the cell that has `cell_id` as its neighbour in the direction opposite to `direction`.
    pub fn find_incoming_neighbor_by_direction<D: DirectionTrait>(
        &self,
        cell_id: CellId,
        direction: D,
    ) -> (neighbor: Option<CellId>)
        ensures
            self.is_incoming_neighbor(cell_id, direction, neighbor),
    {
        let opposite = direction.opposite();
        assert(call_ensures(D::opposite, (&direction,), opposite));
        match opposite {
            None => None,
            Some(back) => {
                let index = back.to_neighbor_index();
                assert(call_ensures(D::to_neighbor_index, (&back,), index));
                match index {
                    None => None,
                    Some(position) => self.first_pointing(position, cell_id),
                }
            },
        }
    }

    /// The first cell, in the order of the handles, whose slot at `position` holds `target`.
    pub fn first_pointing(&self, position: usize, target: CellId) -> (found: Option<CellId>)
        ensures
            self.is_first_pointing(position, target, found),
    {
        let mut node: usize = 0;
        while node < self.slots.len()
            invariant
                node <= self.slots.len(),
                forall|c: int|
                    0 <= c < node ==> !points_to(self.neighbor_slots(), c, position, target),
            decreases self.slots.len() - node,
        {
            if position < self.slots[node].len() {
                let slot = self.slots[node][position];
                if let Some(cell) = slot {
                    if cell == target {
                        assert(points_to(self.neighbor_slots(), node as int, position, target));
                        return Some(node);
                    }
                }
            }
            node += 1;
        }
        None
    }

    /// The neighbour of a cell in a direction, as a list of one or no cell.
    pub fn get_neighbors_by_direction<D: DirectionTrait>(&self, cell_id: CellId, direction: D) -> (neighbors:
        Vec<CellId>)
        ensures
            neighbors.len() <= 1,
            exists|index: Option<usize>| #[trigger]
                call_ensures(D::to_neighbor_index, (&direction,), index) && {
                    let neighbor = if neighbors.len() == 1 {
                        Some(neighbors[0])
                    } else {
                        None
                    };
                    match index {
                        Some(position) => neighbor == self.slot_at(cell_id, position),
                        None => self.is_incoming_neighbor(cell_id, direction, neighbor),
                    }
                },
    {
        let mut neighbors: Vec<CellId> = Vec::new();
        if let Some(neighbor) = self.get_neighbor_by_direction(cell_id, direction) {
            neighbors.push(neighbor);
        }
        neighbors
    }

    /// Whether the handle names a cell of the grid.
    pub fn contains_cell(&self, cell_id: CellId) -> (present: bool)
        ensures
            present == (cell_id < self.cell_count()),
    {
        cell_id < self.slots.len()
    }

    /// Whether there is an edge from one cell to another.
    pub fn contains_edge(&self, from: CellId, to: CellId) -> (present: bool)
        requires
            self.wf(),
        ensures
            present == self.edge_list().contains((from, to)),
    {
        self.find_edge(from, to).is_some()
    }

    /// The number of cells and of edges that the grid has room for
    /// before it must grow: at least as many as it holds, and as many as
    /// it was made to hold.
    pub fn capacity(&self) -> (room: (usize, usize))
        ensures
            self.wf() ==> room.0 >= self.cell_count(),
            room.0 >= self.reserved().0,
            room.1 >= self.edge_list().len(),
            room.1 >= self.reserved().1,
    {
        graph_capacity(&self.graph)
    }

    /// Removes all cells, edges and names.
    pub fn clear(&mut self)
        ensures
            final(self).wf(),
            final(self).cell_count() == 0,
            final(self).neighbor_slots() == Seq::<Seq<Option<CellId>>>::empty(),
            final(self).edge_list() == Seq::<(CellId, CellId)>::empty(),
            final(self).named_cells() == Map::<Seq<char>, CellId>::empty(),
            final(self).reserved() == old(self).reserved(),
    {
        graph_clear(&mut self.graph);
        self.slots.clear();
        self.names.clear();
        proof {
            assert(final(self).neighbor_slots() =~= Seq::<Seq<Option<CellId>>>::empty());
        }
    }

    /// The number of neighbours of a cell.
    pub fn get_cell_degree(&self, cell_id: CellId) -> (degree: usize)
        requires
            self.wf(),
        ensures
            cell_id < self.cell_count() ==> degree == present(
                self.neighbor_slots()[cell_id as int],
            ).len(),
            cell_id >= self.cell_count() ==> degree == 0,
    {
        self.get_neighbors(cell_id).len()
    }

    /// Checks that both ends of every edge are cells of the grid. A well
    /// formed grid passes.
    pub fn validate_structure(&self) -> (checked: Result<(), GridError>)
        requires
            self.wf(),
        ensures
            checked is Ok,
    {
        let edges = graph_count_edges(&self.graph);
        let mut edge: usize = 0;
        while edge < edges
            invariant
                self.wf(),
                edges == self.edge_list().len(),
                edge <= edges,
            decreases edges - edge,
        {
            if let Some((source, target)) = graph_edge_endpoints(&self.graph, edge) {
                if !self.contains_cell(source) {
                    return Err(GridError::NodeNotFound);
                }
                if !self.contains_cell(target) {
                    return Err(GridError::NodeNotFound);
                }
            }
            edge += 1;
        }
        Ok(())
    }
}

/// Whether the list holds an entry for the name.
pub open spec fn is_listed(named: Seq<(String, CellId)>, name: Seq<char>) -> bool {
    exists|i: int| 0 <= i < named.len() && (#[trigger] named[i]).0@ == name
}

/// Whether the list holds an entry for the name.
pub fn has_name(named: &Vec<(String, CellId)>, name: &String) -> (found: bool)
    ensures
        found == is_listed(named@, name@),
{
    let mut i: usize = 0;
    while i < named.len()
        invariant
            i <= named.len(),
            forall|k: int| 0 <= k < i ==> (#[trigger] named[k]).0@ != name@,
        decreases named.len() - i,
    {
        if named[i].0 == *name {
            return true;
        }
        i += 1;
    }
    false
}

/// A name names the cell of its last entry.
pub proof fn lemma_names_of_last(entries: Seq<(String, CellId)>, last: int)
    requires
        0 <= last < entries.len(),
        forall|q: int| last < q < entries.len() ==> (#[trigger] entries[q]).0@ != entries[last].0@,
    ensures
        names_of(entries).dom().contains(entries[last].0@),
        names_of(entries)[entries[last].0@] == entries[last].1,
    decreases entries.len(),
{
    if last < entries.len() - 1 {
        let rest = entries.drop_last();
        assert(entries[entries.len() - 1].0@ != entries[last].0@);
        assert forall|q: int| last < q < rest.len() implies (#[trigger] rest[q]).0@
            != rest[last].0@ by {
            assert(rest[q] == entries[q]);
        }
        lemma_names_of_last(rest, last);
    }
}

/// A name that names a cell has an entry.
pub proof fn lemma_names_of_dom(entries: Seq<(String, CellId)>, name: Seq<char>)
    requires
        names_of(entries).dom().contains(name),
    ensures
        exists|p: int| 0 <= p < entries.len() && (#[trigger] entries[p]).0@ == name,
    decreases entries.len(),
{
    if entries.len() > 0 {
        if entries.last().0@ == name {
            assert(entries[entries.len() - 1].0@ == name);
        } else {
            lemma_names_of_dom(entries.drop_last(), name);
            let p = choose|p: int|
                0 <= p < entries.drop_last().len() && (#[trigger] entries.drop_last()[p]).0@
                    == name;
            assert(entries[p].0@ == name);
        }
    }
}

/// Adding an edge puts its target in front of the targets of its source
/// and leaves the targets of every other cell as they were.
pub proof fn lemma_out_targets_push(edges: Seq<(CellId, CellId)>, edge: (CellId, CellId))
    ensures
        out_targets(edges.push(edge), edge.0) == seq![edge.1] + out_targets(edges, edge.0),
        forall|c: CellId| c != edge.0 ==> out_targets(edges.push(edge), c) == out_targets(edges, c),
{
    assert(edges.push(edge).drop_last() =~= edges);
}

/// A cell beyond all sources of the edges has no targets.
pub proof fn lemma_out_targets_in_range(edges: Seq<(CellId, CellId)>, from: CellId, count: nat)
    requires
        forall|e: int| 0 <= e < edges.len() ==> (#[trigger] edges[e]).0 < count,
        from >= count,
    ensures
        out_targets(edges, from) == Seq::<CellId>::empty(),
    decreases edges.len(),
{
    if edges.len() > 0 {
        lemma_out_targets_in_range(edges.drop_last(), from, count);
    }
}

} // verus!
