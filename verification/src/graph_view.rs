//! Where the UI draws the nodes of a graph structure: each node in the
//! column of its depth (sources at 0, one more than the deepest of its
//! inputs otherwise, found by a fixed number of passes; on an acyclic
//! structure this is the longest chain of inputs leading to the node), one
//! row after another within a column.
use vstd::prelude::*;

use crate::graph::{
    has_key, insert_param, keys_sorted, lemma_params_map_sorted_contains, params_map, GraphStructure,
    InputLink, NodeId, NodeSummary,
};
use crate::text::string_eq;

verus! {

/// One more than the deepest known depth among the first `n` connected
/// inputs; 0 when none is known.
pub open spec fn link_depth(links: Seq<InputLink>, known: Map<Seq<char>, usize>, n: int) -> int
    decreases n,
{
    if n <= 0 {
        0
    } else {
        let rest = link_depth(links, known, n - 1);
        match links[n - 1].from {
            Some(id) => if known.contains_key(id@) && known[id@] + 1 > rest {
                known[id@] + 1
            } else {
                rest
            },
            None => rest,
        }
    }
}

/// A node's depth from what is known.
pub open spec fn node_depth(node: NodeSummary, known: Map<Seq<char>, usize>) -> int {
    link_depth(node.inputs@, known, node.inputs@.len() as int)
}

/// One pass over nodes `i..` in order, each updated in place; whether any
/// depth changed.
pub open spec fn pass_from(nodes: Seq<NodeSummary>, i: int, known: Map<Seq<char>, usize>, changed: bool) -> (
    Map<Seq<char>, usize>,
    bool,
)
    decreases nodes.len() - i,
{
    if i < 0 || i >= nodes.len() {
        (known, changed)
    } else {
        let d = node_depth(nodes[i], known);
        let id = nodes[i].id@;
        if known.contains_key(id) && known[id] == d {
            pass_from(nodes, i + 1, known, changed)
        } else {
            pass_from(nodes, i + 1, known.insert(id, d as usize), true)
        }
    }
}

/// Up to `passes` more passes, stopping after one that changes nothing.
pub open spec fn depths_after(nodes: Seq<NodeSummary>, passes: nat, known: Map<Seq<char>, usize>) -> Map<Seq<char>, usize>
    decreases passes,
{
    if passes == 0 {
        known
    } else {
        let (next, changed) = pass_from(nodes, 0, known, false);
        if changed {
            depths_after(nodes, (passes - 1) as nat, next)
        } else {
            next
        }
    }
}

/// Depth of every node of a structure, by id: as many passes as there are
/// nodes (at least one), from nothing known. On an acyclic structure this is
/// the longest chain of inputs ([`law_depths_are_longest_paths`]).
pub open spec fn depths_spec(nodes: Seq<NodeSummary>) -> Map<Seq<char>, usize> {
    depths_after(nodes, if nodes.len() == 0 { 1 } else { nodes.len() }, Map::empty())
}

/// Every known depth is at most `b`.
pub open spec fn bounded_by(known: Map<Seq<char>, usize>, b: int) -> bool {
    forall|k: Seq<char>| #[trigger] known.contains_key(k) ==> known[k] <= b
}

proof fn lemma_link_depth_bound(links: Seq<InputLink>, known: Map<Seq<char>, usize>, n: int, b: int)
    requires
        bounded_by(known, b),
        b >= 0,
    ensures
        0 <= link_depth(links, known, n) <= b + 1,
    decreases n,
{
    if n > 0 {
        lemma_link_depth_bound(links, known, n - 1, b);
    }
}

/// The value stored for `key` in a sorted list, if any.
fn sorted_get(pairs: &Vec<(String, usize)>, key: &String) -> (r: Option<usize>)
    requires
        keys_sorted(pairs@),
    ensures
        match r {
            Some(v) => params_map(pairs@).contains_key(key@) && params_map(pairs@)[key@] == v,
            None => !params_map(pairs@).contains_key(key@),
        },
{
    proof {
        lemma_params_map_sorted_contains(pairs@, key@);
    }
    let mut i: usize = 0;
    while i < pairs.len()
        invariant
            i <= pairs.len(),
            keys_sorted(pairs@),
            forall|j: int| 0 <= j < i ==> pairs@[j].0@ != key@,
        decreases pairs.len() - i,
    {
        if string_eq(&pairs[i].0, key) {
            proof {
                lemma_params_map_sorted_contains(pairs@, key@);
                assert(has_key(pairs@, key@));
                assert(params_map(pairs@)[pairs@[i as int].0@] == pairs@[i as int].1);
            }
            return Some(pairs[i].1);
        }
        i = i + 1;
    }
    proof {
        lemma_params_map_sorted_contains(pairs@, key@);
    }
    None
}

fn node_depth_exec(node: &NodeSummary, known: &Vec<(String, usize)>, Ghost(b): Ghost<int>) -> (d: usize)
    requires
        keys_sorted(known@),
        bounded_by(params_map(known@), b),
        0 <= b < usize::MAX,
    ensures
        d == node_depth(*node, params_map(known@)),
{
    let ghost m = params_map(known@);
    let mut best: usize = 0;
    let mut k: usize = 0;
    while k < node.inputs.len()
        invariant
            k <= node.inputs.len(),
            keys_sorted(known@),
            m == params_map(known@),
            bounded_by(m, b),
            0 <= b < usize::MAX,
            best == link_depth(node.inputs@, m, k as int),
        decreases node.inputs.len() - k,
    {
        proof {
            lemma_link_depth_bound(node.inputs@, m, k as int, b);
        }
        match &node.inputs[k].from {
            Some(id) => match sorted_get(known, &id.0) {
                Some(v) => {
                    assert(m.contains_key(id@));
                    if v + 1 > best {
                        best = v + 1;
                    }
                },
                None => {},
            },
            None => {},
        }
        k = k + 1;
    }
    best
}

/// Depth of every node of a structure, keyed by id and sorted by it.
pub fn structure_depths(graph: &GraphStructure) -> (r: Vec<(String, usize)>)
    requires
        graph.nodes@.len() * graph.nodes@.len() < usize::MAX,
    ensures
        keys_sorted(r@),
        params_map(r@) == depths_spec(graph.nodes@),
{
    let ghost nodes = graph.nodes@;
    let n = graph.nodes.len();
    let passes: usize = if n == 0 {
        1
    } else {
        n
    };
    let mut known: Vec<(String, usize)> = Vec::new();
    assert(params_map(known@) =~= Map::<Seq<char>, usize>::empty());
    let mut p: usize = 0;
    let ghost mut updates: int = 0;
    while p < passes
        invariant
            nodes == graph.nodes@,
            n == nodes.len(),
            n * n < usize::MAX,
            passes == (if n == 0 { 1 } else { n }),
            p <= passes,
            keys_sorted(known@),
            0 <= updates <= p * n,
            bounded_by(params_map(known@), updates),
            depths_spec(nodes) == depths_after(nodes, (passes - p) as nat, params_map(known@)),
        decreases passes - p,
    {
        let ghost start = params_map(known@);
        let mut changed = false;
        let mut i: usize = 0;
        while i < n
            invariant
                nodes == graph.nodes@,
                n == nodes.len(),
                n * n < usize::MAX,
                passes == (if n == 0 { 1 } else { n }),
                p < passes,
                i <= n,
                keys_sorted(known@),
                0 <= updates <= p * n + i,
                bounded_by(params_map(known@), updates),
                pass_from(nodes, 0, start, false) == pass_from(nodes, i as int, params_map(known@), changed),
            decreases n - i,
        {
            proof {
                assert(p * n + i < n * n) by (nonlinear_arith)
                    requires
                        p < passes,
                        passes == (if n == 0 { 1 } else { n }),
                        i < n,
                ;
            }
            let node = &graph.nodes[i];
            let d = node_depth_exec(node, &known, Ghost(updates));
            proof {
                lemma_link_depth_bound(node.inputs@, params_map(known@), node.inputs@.len() as int, updates);
            }
            let same = match sorted_get(&known, &node.id.0) {
                Some(v) => v == d,
                None => false,
            };
            if !same {
                insert_param(&mut known, node.id.0.clone(), d);
                changed = true;
                proof {
                    updates = updates + 1;
                    let m = params_map(known@);
                    assert forall|k: Seq<char>| #[trigger] m.contains_key(k) implies m[k] <= updates by {}
                }
            }
            i = i + 1;
        }
        let ghost after = params_map(known@);
        proof {
            assert(updates <= (p + 1) * n) by (nonlinear_arith)
                requires
                    updates <= p * n + n,
            ;
        }
        if !changed {
            assert(pass_from(nodes, 0, start, false) == (after, false));
            return known;
        }
        p = p + 1;
    }
    known
}

/// Where a node is drawn.
#[derive(Clone, Debug)]
pub struct GridCell {
    pub id: NodeId,
    pub col: usize,
    pub row: usize,
}

/// Placement of every node, and the size of the grid.
#[derive(Clone, Debug)]
pub struct GraphGrid {
    /// One cell per node, in graph order.
    pub cells: Vec<GridCell>,
    /// Columns in use (at least one).
    pub cols: usize,
    /// Rows of the fullest column (at least one).
    pub rows: usize,
}

/// A node's column: its depth, 0 when it has none.
pub open spec fn col_of(depths: Map<Seq<char>, usize>, node: NodeSummary) -> int {
    if depths.contains_key(node.id@) {
        depths[node.id@] as int
    } else {
        0
    }
}

/// How many of the first `i` nodes sit in column `c`.
pub open spec fn count_in_col(nodes: Seq<NodeSummary>, depths: Map<Seq<char>, usize>, i: int, c: int) -> int
    decreases i,
{
    if i <= 0 {
        0
    } else {
        count_in_col(nodes, depths, i - 1, c) + if col_of(depths, nodes[i - 1]) == c {
            1int
        } else {
            0
        }
    }
}

/// The largest value of `f` over `0..n`, or `floor` when it is larger.
pub open spec fn max_over(f: spec_fn(int) -> int, n: int, floor: int) -> int
    decreases n,
{
    if n <= 0 {
        floor
    } else {
        let m = max_over(f, n - 1, floor);
        if f(n - 1) > m {
            f(n - 1)
        } else {
            m
        }
    }
}

/// The grid for a structure given the depths of its nodes.
pub open spec fn grid_is(g: GraphGrid, nodes: Seq<NodeSummary>, depths: Map<Seq<char>, usize>) -> bool {
    let n = nodes.len() as int;
    &&& g.cells@.len() == n
    &&& forall|i: int|
        0 <= i < n ==> {
            &&& (#[trigger] g.cells@[i]).id == nodes[i].id
            &&& g.cells@[i].col == col_of(depths, nodes[i])
            &&& g.cells@[i].row == count_in_col(nodes, depths, i, col_of(depths, nodes[i]))
        }
    &&& g.cols == (if n == 0 { 1 } else { max_over(|i: int| col_of(depths, nodes[i]), n, 0) + 1 })
    &&& g.rows == (if n == 0 { 1 } else { max_over(|i: int| count_in_col(nodes, depths, i, col_of(depths, nodes[i])) + 1, n, 0) })
}

proof fn lemma_count_mono(nodes: Seq<NodeSummary>, depths: Map<Seq<char>, usize>, i: int, j: int, c: int)
    requires
        0 <= i <= j,
    ensures
        count_in_col(nodes, depths, i, c) <= count_in_col(nodes, depths, j, c),
    decreases j - i,
{
    if i < j {
        lemma_count_mono(nodes, depths, i, j - 1, c);
    }
}

proof fn lemma_max_over_bound(f: spec_fn(int) -> int, n: int, floor: int, i: int)
    requires
        0 <= i < n,
    ensures
        f(i) <= max_over(f, n, floor),
        floor <= max_over(f, n, floor),
    decreases n,
{
    if i < n - 1 {
        lemma_max_over_bound(f, n - 1, floor, i);
    } else if n > 1 {
        lemma_max_over_bound(f, n - 1, floor, 0);
    } else {
        assert(max_over(f, 0, floor) == floor);
    }
}

/// No two nodes share a cell, and every cell lies within the grid.
pub proof fn law_cells_are_distinct_and_inside(g: GraphGrid, nodes: Seq<NodeSummary>, depths: Map<Seq<char>, usize>)
    requires
        grid_is(g, nodes, depths),
    ensures
        forall|i: int, j: int|
            0 <= i < j < nodes.len() ==> (#[trigger] g.cells@[i]).col != (#[trigger] g.cells@[j]).col
                || g.cells@[i].row != g.cells@[j].row,
        forall|i: int| 0 <= i < nodes.len() ==> (#[trigger] g.cells@[i]).col < g.cols && g.cells@[i].row < g.rows,
{
    let n = nodes.len() as int;
    assert forall|i: int, j: int| 0 <= i < j < n implies (#[trigger] g.cells@[i]).col != (
    #[trigger] g.cells@[j]).col || g.cells@[i].row != g.cells@[j].row by {
        let c = col_of(depths, nodes[i]);
        if col_of(depths, nodes[j]) == c {
            lemma_count_mono(nodes, depths, i + 1, j, c);
        }
    }
    assert forall|i: int| 0 <= i < n implies (#[trigger] g.cells@[i]).col < g.cols && g.cells@[i].row < g.rows by {
        lemma_max_over_bound(|k: int| col_of(depths, nodes[k]), n, 0, i);
        lemma_max_over_bound(|k: int| count_in_col(nodes, depths, k, col_of(depths, nodes[k])) + 1, n, 0, i);
    }
}

proof fn lemma_count_bound(nodes: Seq<NodeSummary>, depths: Map<Seq<char>, usize>, i: int, c: int)
    requires
        0 <= i,
    ensures
        0 <= count_in_col(nodes, depths, i, c) <= i,
    decreases i,
{
    if i > 0 {
        lemma_count_bound(nodes, depths, i - 1, c);
    }
}

/// Place every node of a structure: column by depth, rows in graph order.
pub fn graph_grid(graph: &GraphStructure, depths: &Vec<(String, usize)>) -> (g: GraphGrid)
    requires
        keys_sorted(depths@),
        forall|k: Seq<char>| #[trigger] params_map(depths@).contains_key(k) ==> params_map(depths@)[k] < usize::MAX,
    ensures
        grid_is(g, graph.nodes@, params_map(depths@)),
{
    let ghost nodes = graph.nodes@;
    let ghost dm = params_map(depths@);
    let ghost colf = |i: int| col_of(dm, nodes[i]);
    let ghost rowf = |i: int| count_in_col(nodes, dm, i, col_of(dm, nodes[i])) + 1;
    let n = graph.nodes.len();
    let mut cols_of: Vec<usize> = Vec::new();
    let mut cells: Vec<GridCell> = Vec::new();
    let mut max_col: usize = 0;
    let mut max_rows: usize = 0;
    let mut i: usize = 0;
    while i < n
        invariant
            nodes == graph.nodes@,
            n == nodes.len(),
            dm == params_map(depths@),
            keys_sorted(depths@),
            forall|k: Seq<char>| #[trigger] dm.contains_key(k) ==> dm[k] < usize::MAX,
            colf == (|i: int| col_of(dm, nodes[i])),
            rowf == (|i: int| count_in_col(nodes, dm, i, col_of(dm, nodes[i])) + 1),
            i <= n,
            cols_of@.len() == i,
            cells@.len() == i,
            forall|j: int| 0 <= j < i ==> #[trigger] cols_of@[j] == col_of(dm, nodes[j]),
            forall|j: int|
                0 <= j < i ==> {
                    &&& (#[trigger] cells@[j]).id == nodes[j].id
                    &&& cells@[j].col == col_of(dm, nodes[j])
                    &&& cells@[j].row == count_in_col(nodes, dm, j, col_of(dm, nodes[j]))
                },
            max_col == max_over(colf, i as int, 0),
            max_col < usize::MAX,
            max_rows == max_over(rowf, i as int, 0),
            max_rows <= i,
        decreases n - i,
    {
        let node = &graph.nodes[i];
        let col: usize = match sorted_get(depths, &node.id.0) {
            Some(v) => v,
            None => 0,
        };
        assert(col == col_of(dm, nodes[i as int]));
        // Rows already taken in this column.
        let mut row: usize = 0;
        let mut j: usize = 0;
        while j < i
            invariant
                j <= i,
                i < n,
                cols_of@.len() == i,
                forall|m: int| 0 <= m < i ==> #[trigger] cols_of@[m] == col_of(dm, nodes[m]),
                row == count_in_col(nodes, dm, j as int, col as int),
                row <= j,
            decreases i - j,
        {
            if cols_of[j] == col {
                row = row + 1;
            }
            j = j + 1;
        }
        proof {
            lemma_count_bound(nodes, dm, i as int, col as int);
        }
        cells.push(GridCell { id: node.id.copy(), col, row });
        cols_of.push(col);
        if col > max_col {
            max_col = col;
        }
        if row + 1 > max_rows {
            max_rows = row + 1;
        }
        proof {
            assert(colf(i as int) == col);
            assert(rowf(i as int) == row + 1);
            assert forall|m: int| 0 <= m < i + 1 implies #[trigger] cols_of@[m] == col_of(dm, nodes[m]) by {}
        }
        i = i + 1;
    }
    let cols = if n == 0 {
        1
    } else {
        assert(max_col < usize::MAX);
        max_col + 1
    };
    let rows = if n == 0 {
        1
    } else {
        max_rows
    };
    GraphGrid { cells, cols, rows }
}

// ---------------------------------------------------------------------------
// Depths of an acyclic structure
// ---------------------------------------------------------------------------
/// The connected input `k` of node `i` names node `j`.
pub open spec fn feeds(nodes: Seq<NodeSummary>, i: int, k: int, j: int) -> bool {
    nodes[i].inputs@[k].from matches Some(id) && id@ == nodes[j].id@
}

/// `level` numbers the nodes below their count so that every node that feeds
/// another has a lower number than it.
pub open spec fn levels_ok(nodes: Seq<NodeSummary>, level: Seq<int>) -> bool {
    &&& level.len() == nodes.len()
    &&& forall|i: int| 0 <= i < nodes.len() ==> 0 <= #[trigger] level[i] < nodes.len()
    &&& forall|i: int, k: int, j: int|
        0 <= i < nodes.len() && 0 <= k < nodes[i].inputs@.len() && 0 <= j < nodes.len() && #[trigger] feeds(
            nodes,
            i,
            k,
            j,
        ) ==> level[j] < level[i]
}

/// No chain of connected inputs between the nodes of a structure runs in a
/// circle.
pub open spec fn acyclic(nodes: Seq<NodeSummary>) -> bool {
    exists|level: Seq<int>| levels_ok(nodes, level)
}

/// No two nodes of a structure share an id.
pub open spec fn summary_ids_distinct(nodes: Seq<NodeSummary>) -> bool {
    forall|i: int, j: int| 0 <= i < j < nodes.len() ==> #[trigger] nodes[i].id@ != #[trigger] nodes[j].id@
}

/// Every key of `m` is the id of a node.
pub open spec fn keys_are_ids(m: Map<Seq<char>, usize>, nodes: Seq<NodeSummary>) -> bool {
    forall|k: Seq<char>| #[trigger] m.contains_key(k) ==> exists|i: int| 0 <= i < nodes.len() && nodes[i].id@ == k
}

/// Node `j` has a depth in `m`, one more than the deepest of its connected
/// inputs there (0 when none is known).
pub open spec fn settled(nodes: Seq<NodeSummary>, m: Map<Seq<char>, usize>, j: int) -> bool {
    m.contains_key(nodes[j].id@) && m[nodes[j].id@] == node_depth(nodes[j], m)
}

proof fn lemma_link_depth_agree(links: Seq<InputLink>, a: Map<Seq<char>, usize>, b: Map<Seq<char>, usize>, n: int)
    requires
        n <= links.len(),
        forall|k: int|
            0 <= k < n && (#[trigger] links[k]).from is Some ==> {
                let id = links[k].from->0@;
                &&& a.contains_key(id) == b.contains_key(id)
                &&& a.contains_key(id) ==> a[id] == b[id]
            },
    ensures
        link_depth(links, a, n) == link_depth(links, b, n),
    decreases n,
{
    if n > 0 {
        lemma_link_depth_agree(links, a, b, n - 1);
        if links[n - 1].from is Some {
            let id = links[n - 1].from->0@;
            assert(a.contains_key(id) == b.contains_key(id));
        }
    }
}

proof fn lemma_link_depth_le(links: Seq<InputLink>, m: Map<Seq<char>, usize>, n: int, b: int)
    requires
        n <= links.len(),
        0 <= b,
        forall|k: int|
            0 <= k < n && (#[trigger] links[k]).from is Some && m.contains_key(links[k].from->0@) ==> m[links[k].from->0@]
                + 1 <= b,
    ensures
        0 <= link_depth(links, m, n) <= b,
    decreases n,
{
    if n > 0 {
        lemma_link_depth_le(links, m, n - 1, b);
        if links[n - 1].from is Some {
            let id = links[n - 1].from->0@;
            if m.contains_key(id) {
                assert(m[id] + 1 <= b);
            }
        }
    }
}

proof fn lemma_link_depth_unconnected(links: Seq<InputLink>, m: Map<Seq<char>, usize>, n: int)
    requires
        n <= links.len(),
        forall|k: int| 0 <= k < n ==> (#[trigger] links[k]).from is None,
    ensures
        link_depth(links, m, n) == 0,
    decreases n,
{
    if n > 0 {
        lemma_link_depth_unconnected(links, m, n - 1);
    }
}

/// Two maps that agree on the nodes below level `r` give the same depth to
/// a node at level `r` or below.
proof fn lemma_node_depth_agree(
    nodes: Seq<NodeSummary>,
    level: Seq<int>,
    a: Map<Seq<char>, usize>,
    b: Map<Seq<char>, usize>,
    i: int,
    r: int,
)
    requires
        levels_ok(nodes, level),
        keys_are_ids(a, nodes),
        keys_are_ids(b, nodes),
        0 <= i < nodes.len(),
        level[i] <= r,
        forall|j: int|
            0 <= j < nodes.len() && level[j] < r ==> a.contains_key(#[trigger] nodes[j].id@) && b.contains_key(
                nodes[j].id@,
            ) && a[nodes[j].id@] == b[nodes[j].id@],
    ensures
        node_depth(nodes[i], a) == node_depth(nodes[i], b),
{
    let links = nodes[i].inputs@;
    assert forall|k: int| 0 <= k < links.len() && (#[trigger] links[k]).from is Some implies {
        let id = links[k].from->0@;
        &&& a.contains_key(id) == b.contains_key(id)
        &&& a.contains_key(id) ==> a[id] == b[id]
    } by {
        let id = links[k].from->0@;
        if exists|j: int| 0 <= j < nodes.len() && nodes[j].id@ == id {
            let j = choose|j: int| 0 <= j < nodes.len() && nodes[j].id@ == id;
            assert(feeds(nodes, i, k, j));
            assert(level[j] < level[i]);
        } else {
            if a.contains_key(id) {
                assert(exists|j: int| 0 <= j < nodes.len() && nodes[j].id@ == id);
            }
            if b.contains_key(id) {
                assert(exists|j: int| 0 <= j < nodes.len() && nodes[j].id@ == id);
            }
        }
    }
    lemma_link_depth_agree(links, a, b, links.len() as int);
}

/// A node's depth is at most its level when every node below it has a depth
/// at most its own level.
proof fn lemma_node_depth_le(nodes: Seq<NodeSummary>, level: Seq<int>, m: Map<Seq<char>, usize>, i: int)
    requires
        levels_ok(nodes, level),
        keys_are_ids(m, nodes),
        0 <= i < nodes.len(),
        forall|j: int|
            0 <= j < nodes.len() && level[j] < level[i] && m.contains_key(#[trigger] nodes[j].id@) ==> m[nodes[j].id@]
                <= level[j],
    ensures
        0 <= node_depth(nodes[i], m) <= level[i],
{
    let links = nodes[i].inputs@;
    assert forall|k: int|
        0 <= k < links.len() && (#[trigger] links[k]).from is Some && m.contains_key(links[k].from->0@) implies m[links[k].from->0@]
        + 1 <= level[i] by {
        let id = links[k].from->0@;
        assert(exists|j: int| 0 <= j < nodes.len() && nodes[j].id@ == id);
        let j = choose|j: int| 0 <= j < nodes.len() && nodes[j].id@ == id;
        assert(feeds(nodes, i, k, j));
    }
    lemma_link_depth_le(links, m, links.len() as int, level[i]);
}

proof fn lemma_pass_keeps_changed(nodes: Seq<NodeSummary>, i: int, known: Map<Seq<char>, usize>)
    ensures
        pass_from(nodes, i, known, true).1,
    decreases nodes.len() - i,
{
    if 0 <= i < nodes.len() {
        let d = node_depth(nodes[i], known);
        let id = nodes[i].id@;
        if known.contains_key(id) && known[id] == d {
            lemma_pass_keeps_changed(nodes, i + 1, known);
        } else {
            lemma_pass_keeps_changed(nodes, i + 1, known.insert(id, d as usize));
        }
    }
}

/// A pass that changes nothing leaves the map as it was, with every node it
/// went over settled.
proof fn lemma_pass_unchanged(nodes: Seq<NodeSummary>, i: int, known: Map<Seq<char>, usize>)
    requires
        0 <= i,
    ensures
        !pass_from(nodes, i, known, false).1 ==> {
            &&& pass_from(nodes, i, known, false).0 == known
            &&& forall|j: int| i <= j < nodes.len() ==> #[trigger] settled(nodes, known, j)
        },
    decreases nodes.len() - i,
{
    if i < nodes.len() {
        let d = node_depth(nodes[i], known);
        let id = nodes[i].id@;
        if known.contains_key(id) && known[id] == d {
            lemma_pass_unchanged(nodes, i + 1, known);
        } else {
            lemma_pass_keeps_changed(nodes, i + 1, known.insert(id, d as usize));
        }
    }
}

/// One pass from `start`, at node `i` with the map at `cur`: if every node
/// below level `r` was settled in `start`, the pass leaves those nodes as
/// they were and gives each node at level `r` its depth from `start`.
proof fn lemma_pass(
    nodes: Seq<NodeSummary>,
    level: Seq<int>,
    r: int,
    start: Map<Seq<char>, usize>,
    i: int,
    cur: Map<Seq<char>, usize>,
    ch: bool,
)
    requires
        levels_ok(nodes, level),
        summary_ids_distinct(nodes),
        nodes.len() <= usize::MAX,
        0 <= i <= nodes.len(),
        0 <= r,
        keys_are_ids(start, nodes),
        keys_are_ids(cur, nodes),
        forall|j: int|
            0 <= j < nodes.len() && level[j] < r ==> #[trigger] settled(nodes, start, j) && start[nodes[j].id@]
                <= level[j],
        forall|j: int|
            0 <= j < nodes.len() && level[j] < r ==> cur.contains_key(#[trigger] nodes[j].id@)
                && cur[nodes[j].id@] == start[nodes[j].id@],
        forall|j: int|
            0 <= j < i && level[j] == r ==> cur.contains_key(#[trigger] nodes[j].id@) && cur[nodes[j].id@]
                == node_depth(nodes[j], start),
    ensures
        keys_are_ids(pass_from(nodes, i, cur, ch).0, nodes),
        forall|j: int|
            0 <= j < nodes.len() && level[j] < r ==> pass_from(nodes, i, cur, ch).0.contains_key(
                #[trigger] nodes[j].id@,
            ) && pass_from(nodes, i, cur, ch).0[nodes[j].id@] == start[nodes[j].id@],
        forall|j: int|
            0 <= j < nodes.len() && level[j] == r ==> pass_from(nodes, i, cur, ch).0.contains_key(
                #[trigger] nodes[j].id@,
            ) && pass_from(nodes, i, cur, ch).0[nodes[j].id@] == node_depth(nodes[j], start),
    decreases nodes.len() - i,
{
    if i < nodes.len() {
        let d = node_depth(nodes[i], cur);
        let id = nodes[i].id@;
        assert forall|j: int| 0 <= j < nodes.len() && j != i implies #[trigger] nodes[j].id@ != id by {
            if j < i {
                assert(nodes[j].id@ != nodes[i].id@);
            } else {
                assert(nodes[i].id@ != nodes[j].id@);
            }
        }
        if level[i] <= r {
            assert forall|j: int| 0 <= j < nodes.len() && level[j] < r implies cur.contains_key(
                #[trigger] nodes[j].id@,
            ) && start.contains_key(nodes[j].id@) && cur[nodes[j].id@] == start[nodes[j].id@] by {
                assert(settled(nodes, start, j));
            }
            lemma_node_depth_agree(nodes, level, cur, start, i, r);
        }
        if level[i] == r {
            assert forall|j: int|
                0 <= j < nodes.len() && level[j] < level[i] && start.contains_key(#[trigger] nodes[j].id@) implies start[nodes[j].id@]
                <= level[j] by {
                assert(settled(nodes, start, j));
            }
            lemma_node_depth_le(nodes, level, start, i);
        }
        if level[i] < r {
            assert(settled(nodes, start, i));
        }
        if cur.contains_key(id) && cur[id] == d {
            lemma_pass(nodes, level, r, start, i + 1, cur, ch);
        } else {
            let next = cur.insert(id, d as usize);
            assert(keys_are_ids(next, nodes)) by {
                assert forall|k: Seq<char>| #[trigger] next.contains_key(k) implies exists|x: int|
                    0 <= x < nodes.len() && nodes[x].id@ == k by {
                    if k == id {
                        assert(nodes[i].id@ == k);
                    } else {
                        assert(cur.contains_key(k));
                    }
                }
            }
            lemma_pass(nodes, level, r, start, i + 1, next, true);
        }
    }
}

/// Running `passes` more passes from a map in which every node below level
/// `r` is settled, where `r + passes` reaches the number of nodes, ends with
/// every node settled.
proof fn lemma_passes_settle(
    nodes: Seq<NodeSummary>,
    level: Seq<int>,
    passes: nat,
    known: Map<Seq<char>, usize>,
    r: int,
)
    requires
        levels_ok(nodes, level),
        summary_ids_distinct(nodes),
        nodes.len() <= usize::MAX,
        0 <= r,
        r + passes >= nodes.len(),
        keys_are_ids(known, nodes),
        forall|j: int|
            0 <= j < nodes.len() && level[j] < r ==> #[trigger] settled(nodes, known, j) && known[nodes[j].id@]
                <= level[j],
    ensures
        keys_are_ids(depths_after(nodes, passes, known), nodes),
        forall|j: int| 0 <= j < nodes.len() ==> #[trigger] settled(nodes, depths_after(nodes, passes, known), j),
    decreases passes,
{
    if passes == 0 {
        assert forall|j: int| 0 <= j < nodes.len() implies #[trigger] settled(nodes, known, j) by {
            assert(level[j] < r);
        }
    } else {
        let (next, changed) = pass_from(nodes, 0, known, false);
        if changed {
            assert forall|j: int| 0 <= j < nodes.len() && level[j] < r implies known.contains_key(
                #[trigger] nodes[j].id@,
            ) && known[nodes[j].id@] == known[nodes[j].id@] by {
                assert(settled(nodes, known, j));
            }
            lemma_pass(nodes, level, r, known, 0, known, false);
            assert forall|j: int| 0 <= j < nodes.len() && level[j] < r + 1 implies #[trigger] settled(
                nodes,
                next,
                j,
            ) && next[nodes[j].id@] <= level[j] by {
                assert forall|x: int| 0 <= x < nodes.len() && level[x] < r implies next.contains_key(
                    #[trigger] nodes[x].id@,
                ) && known.contains_key(nodes[x].id@) && next[nodes[x].id@] == known[nodes[x].id@] by {
                    assert(settled(nodes, known, x));
                }
                lemma_node_depth_agree(nodes, level, next, known, j, r);
                if level[j] < r {
                    assert(settled(nodes, known, j));
                } else {
                    assert forall|x: int|
                        0 <= x < nodes.len() && level[x] < level[j] && known.contains_key(#[trigger] nodes[x].id@) implies known[nodes[x].id@]
                        <= level[x] by {
                        assert(settled(nodes, known, x));
                    }
                    lemma_node_depth_le(nodes, level, known, j);
                }
            }
            lemma_passes_settle(nodes, level, (passes - 1) as nat, next, r + 1);
        } else {
            lemma_pass_unchanged(nodes, 0, known);
        }
    }
}

/// On an acyclic structure with distinct ids, the depths have exactly the
/// node ids as keys, and each node's depth is 0 when it has no connected
/// input that names a node, and otherwise one more than the deepest of
/// those inputs: the longest chain of inputs leading to it.
pub proof fn law_depths_are_longest_paths(nodes: Seq<NodeSummary>)
    requires
        acyclic(nodes),
        summary_ids_distinct(nodes),
        nodes.len() <= usize::MAX,
    ensures
        forall|k: Seq<char>|
            #[trigger] depths_spec(nodes).contains_key(k) <==> exists|i: int| 0 <= i < nodes.len() && nodes[i].id@ == k,
        forall|i: int|
            0 <= i < nodes.len() ==> #[trigger] depths_spec(nodes)[nodes[i].id@] == node_depth(nodes[i], depths_spec(nodes)),
        forall|i: int|
            0 <= i < nodes.len() && (forall|k: int| 0 <= k < nodes[i].inputs@.len() ==> (#[trigger] nodes[i].inputs@[k]).from is None)
                ==> #[trigger] depths_spec(nodes)[nodes[i].id@] == 0,
{
    let level = choose|level: Seq<int>| levels_ok(nodes, level);
    let passes: nat = if nodes.len() == 0 {
        1
    } else {
        nodes.len()
    };
    lemma_passes_settle(nodes, level, passes, Map::empty(), 0);
    let m = depths_spec(nodes);
    assert forall|k: Seq<char>| #[trigger] m.contains_key(k) <==> exists|i: int| 0 <= i < nodes.len() && nodes[i].id@ == k by {
        if exists|i: int| 0 <= i < nodes.len() && nodes[i].id@ == k {
            let i = choose|i: int| 0 <= i < nodes.len() && nodes[i].id@ == k;
            assert(settled(nodes, m, i));
        }
    }
    assert forall|i: int| 0 <= i < nodes.len() implies #[trigger] m[nodes[i].id@] == node_depth(nodes[i], m) by {
        assert(settled(nodes, m, i));
    }
    assert forall|i: int|
        0 <= i < nodes.len() && (forall|k: int| 0 <= k < nodes[i].inputs@.len() ==> (#[trigger] nodes[i].inputs@[k]).from is None)
            implies #[trigger] m[nodes[i].id@] == 0 by {
        assert(settled(nodes, m, i));
        lemma_link_depth_unconnected(nodes[i].inputs@, m, nodes[i].inputs@.len() as int);
    }
}

proof fn lemma_fixpoints_agree_below(
    nodes: Seq<NodeSummary>,
    level: Seq<int>,
    a: Map<Seq<char>, usize>,
    b: Map<Seq<char>, usize>,
    r: int,
)
    requires
        levels_ok(nodes, level),
        keys_are_ids(a, nodes),
        keys_are_ids(b, nodes),
        forall|i: int| 0 <= i < nodes.len() ==> #[trigger] settled(nodes, a, i),
        forall|i: int| 0 <= i < nodes.len() ==> #[trigger] settled(nodes, b, i),
        0 <= r,
    ensures
        forall|j: int|
            0 <= j < nodes.len() && level[j] < r ==> a.contains_key(#[trigger] nodes[j].id@) && b.contains_key(
                nodes[j].id@,
            ) && a[nodes[j].id@] == b[nodes[j].id@],
    decreases r,
{
    if r > 0 {
        lemma_fixpoints_agree_below(nodes, level, a, b, r - 1);
        assert forall|j: int| 0 <= j < nodes.len() && level[j] < r implies a.contains_key(#[trigger] nodes[j].id@)
            && b.contains_key(nodes[j].id@) && a[nodes[j].id@] == b[nodes[j].id@] by {
            assert(settled(nodes, a, j) && settled(nodes, b, j));
            if level[j] == r - 1 {
                lemma_node_depth_agree(nodes, level, a, b, j, r - 1);
            }
        }
    }
}

/// On an acyclic structure with distinct ids there is only one such map:
/// any map whose keys are exactly the node ids and that gives each node one
/// more than the deepest of its connected inputs (0 for none) is the one the
/// passes compute.
pub proof fn law_depths_are_unique(nodes: Seq<NodeSummary>, m: Map<Seq<char>, usize>)
    requires
        acyclic(nodes),
        summary_ids_distinct(nodes),
        nodes.len() <= usize::MAX,
        forall|k: Seq<char>| #[trigger] m.contains_key(k) <==> exists|i: int| 0 <= i < nodes.len() && nodes[i].id@ == k,
        forall|i: int| 0 <= i < nodes.len() ==> #[trigger] m[nodes[i].id@] == node_depth(nodes[i], m),
    ensures
        m == depths_spec(nodes),
{
    let level = choose|level: Seq<int>| levels_ok(nodes, level);
    law_depths_are_longest_paths(nodes);
    let d = depths_spec(nodes);
    assert forall|i: int| 0 <= i < nodes.len() implies #[trigger] settled(nodes, m, i) by {
        assert(m.contains_key(nodes[i].id@));
    }
    assert forall|i: int| 0 <= i < nodes.len() implies #[trigger] settled(nodes, d, i) by {
        assert(d.contains_key(nodes[i].id@));
        assert(d[nodes[i].id@] == node_depth(nodes[i], d));
    }
    assert(keys_are_ids(d, nodes)) by {
        assert forall|k: Seq<char>| #[trigger] d.contains_key(k) implies exists|i: int| 0 <= i < nodes.len() && nodes[i].id@ == k by {}
    }
    lemma_fixpoints_agree_below(nodes, level, m, d, nodes.len() as int);
    assert forall|k: Seq<char>| #[trigger] m.contains_key(k) implies m[k] == d[k] by {
        let i = choose|i: int| 0 <= i < nodes.len() && nodes[i].id@ == k;
        assert(level[i] < nodes.len());
        assert(m[nodes[i].id@] == d[nodes[i].id@]);
    }
    assert(m =~= d);
}

} // verus!
