//! The parameters of a graph: which ones exist, where a node stores a value
//! for one, and storing a value. What a value is, and how it is brought into
//! its declared type, is up to the value type.
use vstd::prelude::*;

use crate::graph::{
    find_node, find_node_exec, keys_sorted, kind_def, lemma_params_map_sorted_contains, node_index_from,
    param_spec_result, params_map, Graph, GraphError, GraphFault, NodeId, NodeKind, NodeSpec, ParamPath,
};
use crate::node_def::{vec_replace, NodeDef, NodeLibrary};
use crate::params::ParamSpec;
use crate::text::{chars_eq, chars_of_string, string_eq};

verus! {

/// Index of the first stored value at or after `i` named `name`, or -1.
pub open spec fn stored_from<V>(params: Seq<(String, V)>, name: Seq<char>, i: int) -> int
    decreases params.len() - i,
{
    if i < 0 || i >= params.len() {
        -1
    } else if params[i].0@ == name {
        i
    } else {
        stored_from(params, name, i + 1)
    }
}

proof fn lemma_stored_from_bounds<V>(params: Seq<(String, V)>, name: Seq<char>, i: int)
    ensures
        stored_from(params, name, i) == -1 || (0 <= i <= stored_from(params, name, i) < params.len()
            && params[stored_from(params, name, i)].0@ == name),
    decreases params.len() - i,
{
    if 0 <= i < params.len() && params[i].0@ != name {
        lemma_stored_from_bounds(params, name, i + 1);
    }
}

/// The value the node called `node` stores for `param`, if that node exists
/// and stores one.
pub open spec fn stored_value<V>(nodes: Seq<NodeSpec<V>>, node: Seq<char>, param: Seq<char>) -> Option<V> {
    let i = find_node(nodes, node);
    if 0 <= i < nodes.len() {
        let s = stored_from(nodes[i].params@, param, 0);
        if s >= 0 {
            Some(nodes[i].params@[s].1)
        } else {
            None
        }
    } else {
        None
    }
}

/// In a list sorted by name, the first entry called `name` holds what the
/// list maps `name` to.
proof fn lemma_stored_is_mapped<V>(params: Seq<(String, V)>, name: Seq<char>)
    requires
        keys_sorted(params),
    ensures
        stored_from(params, name, 0) >= 0 <==> params_map(params).contains_key(name),
        stored_from(params, name, 0) >= 0 ==> params[stored_from(params, name, 0)].1 == params_map(params)[name],
{
    lemma_stored_from_bounds(params, name, 0);
    lemma_params_map_sorted_contains(params, name);
    if params_map(params).contains_key(name) {
        let j = choose|j: int| 0 <= j < params.len() && params[j].0@ == name;
        lemma_stored_from_finds(params, name, 0, j);
    }
}

proof fn lemma_stored_from_finds<V>(params: Seq<(String, V)>, name: Seq<char>, i: int, j: int)
    requires
        0 <= i <= j < params.len(),
        params[j].0@ == name,
    ensures
        stored_from(params, name, i) >= 0,
    decreases j - i,
{
    if params[i].0@ != name {
        lemma_stored_from_finds(params, name, i + 1, j);
    }
}

proof fn lemma_same_ids_same_index<V>(a: Seq<NodeSpec<V>>, b: Seq<NodeSpec<V>>, id: Seq<char>, i: int)
    requires
        a.len() == b.len(),
        forall|j: int| 0 <= j < a.len() ==> #[trigger] a[j].id == b[j].id,
    ensures
        node_index_from(a, id, i) == node_index_from(b, id, i),
    decreases a.len() - i,
{
    if 0 <= i < a.len() {
        assert(a[i].id == b[i].id);
        lemma_same_ids_same_index(a, b, id, i + 1);
    }
}

/// Reading after writing: once the value at `node.param` is replaced by
/// `value` (as [`Graph::set_param`] does), `value` is what is stored there,
/// and every other stored value is what it was.
pub proof fn law_read_after_write<V>(
    before: Seq<NodeSpec<V>>,
    after: Seq<NodeSpec<V>>,
    node: Seq<char>,
    param: Seq<char>,
    value: V,
)
    requires
        forall|j: int| 0 <= j < before.len() ==> keys_sorted(#[trigger] before[j].params@),
        forall|j: int| 0 <= j < after.len() ==> keys_sorted(#[trigger] after[j].params@),
        0 <= find_node(before, node) < before.len(),
        after.len() == before.len(),
        forall|j: int| 0 <= j < before.len() && j != find_node(before, node) ==> after[j] == before[j],
        after[find_node(before, node)].id == before[find_node(before, node)].id,
        params_map(after[find_node(before, node)].params@) == params_map(
            before[find_node(before, node)].params@,
        ).insert(param, value),
    ensures
        stored_value(after, node, param) == Some(value),
        forall|n: Seq<char>, p: Seq<char>|
            !(n == node && p == param) ==> #[trigger] stored_value(after, n, p) == stored_value(before, n, p),
{
    let i = find_node(before, node);
    assert forall|j: int| 0 <= j < after.len() implies #[trigger] after[j].id == before[j].id by {
        if j != i {
            assert(after[j] == before[j]);
        }
    }
    assert forall|n: Seq<char>| #[trigger] find_node(after, n) == find_node(before, n) by {
        lemma_same_ids_same_index(after, before, n, 0);
    }
    lemma_stored_is_mapped(after[i].params@, param);
    assert forall|n: Seq<char>, p: Seq<char>|
        !(n == node && p == param) implies #[trigger] stored_value(after, n, p) == stored_value(before, n, p) by {
        let k = find_node(before, n);
        assert(find_node(after, n) == k);
        if 0 <= k < before.len() {
            if k == i {
                lemma_stored_is_mapped(after[i].params@, p);
                lemma_stored_is_mapped(before[i].params@, p);
                assert(before[k].id@ == n) by {
                    crate::graph::lemma_node_index_bounds(before, n, 0);
                }
                assert(before[i].id@ == node) by {
                    crate::graph::lemma_node_index_bounds(before, node, 0);
                }
                assert(p != param);
            } else {
                assert(after[k] == before[k]);
            }
        }
    }
}

/// Where node `i` stores a value for `name`: the first entry so named.
fn stored_index<V>(params: &Vec<(String, V)>, name: &String) -> (r: Option<usize>)
    ensures
        match r {
            Some(k) => k as int == stored_from(params@, name@, 0) && k < params@.len(),
            None => stored_from(params@, name@, 0) == -1,
        },
{
    proof {
        lemma_stored_from_bounds(params@, name@, 0);
    }
    let mut k: usize = 0;
    while k < params.len()
        invariant
            k <= params.len(),
            stored_from(params@, name@, 0) == stored_from(params@, name@, k as int),
        decreases params.len() - k,
    {
        if string_eq(&params[k].0, name) {
            return Some(k);
        }
        k = k + 1;
    }
    None
}

/// The (node, parameter) index pairs of node `i`: one per parameter its
/// kind's definition declares.
pub open spec fn node_entries<V>(nodes: Seq<NodeSpec<V>>, lib: Seq<NodeDef>, i: int) -> Seq<(int, int)> {
    match kind_def(nodes[i].kind, lib) {
        Some(d) => Seq::new(d.params@.len(), |k: int| (i, k)),
        None => Seq::empty(),
    }
}

/// The (node, parameter) index pairs of the first `n` nodes, in graph order.
pub open spec fn entries_upto<V>(nodes: Seq<NodeSpec<V>>, lib: Seq<NodeDef>, n: int) -> Seq<(int, int)>
    decreases n,
{
    if n <= 0 {
        Seq::empty()
    } else {
        entries_upto(nodes, lib, n - 1) + node_entries(nodes, lib, n - 1)
    }
}

/// One addressable parameter of a graph.
pub struct ParamEntry<'l> {
    /// `node.param`.
    pub path: ParamPath,
    /// The name of the node's kind.
    pub node_kind: String,
    /// The parameter's declaration.
    pub spec: &'l ParamSpec,
    /// The node's position in the graph.
    pub node: usize,
    /// Where the node stores a value for it, if it does.
    pub stored: Option<usize>,
}

/// `e` describes parameter `k` of node `i`.
pub open spec fn describes<V>(e: ParamEntry, nodes: Seq<NodeSpec<V>>, lib: Seq<NodeDef>, i: int, k: int) -> bool {
    match kind_def(nodes[i].kind, lib) {
        Some(d) => {
            let p = d.params@[k];
            let s = stored_from(nodes[i].params@, p.name@, 0);
            &&& e.node == i
            &&& e.path.node@ == nodes[i].id@
            &&& e.path.param@ == p.name@
            &&& e.node_kind@ == d.name@
            &&& *e.spec == p
            &&& e.stored == if s >= 0 {
                Some(s as usize)
            } else {
                None
            }
        },
        None => false,
    }
}

impl<V> Graph<V> {
    /// Every addressable parameter: for each node whose kind has a
    /// definition, in graph order, each parameter it declares.
    pub fn describe_params<'l>(&self, library: &'l NodeLibrary) -> (r: Vec<ParamEntry<'l>>)
        ensures
            r@.len() == entries_upto(self.nodes@, library@, self.nodes@.len() as int).len(),
            forall|e: int|
                0 <= e < r@.len() ==> {
                    let (i, k) = entries_upto(self.nodes@, library@, self.nodes@.len() as int)[e];
                    describes(#[trigger] r@[e], self.nodes@, library@, i, k)
                },
    {
        let ghost nodes = self.nodes@;
        let ghost lib = library@;
        let mut out: Vec<ParamEntry<'l>> = Vec::new();
        let mut i: usize = 0;
        while i < self.nodes.len()
            invariant
                i <= self.nodes.len(),
                nodes == self.nodes@,
                lib == library@,
                out@.len() == entries_upto(nodes, lib, i as int).len(),
                forall|e: int|
                    0 <= e < out@.len() ==> {
                        let (a, k) = entries_upto(nodes, lib, i as int)[e];
                        describes(#[trigger] out@[e], nodes, lib, a, k)
                    },
            decreases self.nodes.len() - i,
        {
            let node = &self.nodes[i];
            let ghost before = entries_upto(nodes, lib, i as int);
            let ghost mine = node_entries(nodes, lib, i as int);
            assert(entries_upto(nodes, lib, i + 1) == before + mine);
            match node.kind.def(library) {
                None => {
                    assert(mine =~= Seq::<(int, int)>::empty());
                    assert(before + mine =~= before);
                },
                Some(d) => {
                    assert(kind_def(nodes[i as int].kind, lib) == Some(*d));
                    let mut k: usize = 0;
                    while k < d.params.len()
                        invariant
                            i < self.nodes.len(),
                            nodes == self.nodes@,
                            lib == library@,
                            *node == nodes[i as int],
                            kind_def(nodes[i as int].kind, lib) == Some(*d),
                            before == entries_upto(nodes, lib, i as int),
                            mine == node_entries(nodes, lib, i as int),
                            k <= d.params.len(),
                            out@.len() == before.len() + k,
                            forall|e: int|
                                0 <= e < out@.len() ==> {
                                    let (a, j) = (before + mine)[e];
                                    describes(#[trigger] out@[e], nodes, lib, a, j)
                                },
                        decreases d.params.len() - k,
                    {
                        let spec = &d.params[k];
                        let stored = stored_index(&node.params, &spec.name);
                        let entry = ParamEntry {
                            path: ParamPath { node: node.id.copy(), param: spec.name.clone() },
                            node_kind: d.name.clone(),
                            spec,
                            node: i,
                            stored,
                        };
                        let ghost old_out = out@;
                        out.push(entry);
                        proof {
                            assert((before + mine)[before.len() + k] == (i as int, k as int));
                            assert forall|e: int| 0 <= e < out@.len() implies {
                                let (a, j) = (before + mine)[e];
                                describes(#[trigger] out@[e], nodes, lib, a, j)
                            } by {
                                if e < old_out.len() {
                                    assert(out@[e] == old_out[e]);
                                }
                            }
                        }
                        k = k + 1;
                    }
                    assert(mine.len() == d.params@.len());
                },
            }
            i = i + 1;
        }
        out
    }

    /// The declaration of the parameter at `path` and the value its node
    /// stores for it, if any.
    pub fn param_value<'l>(&self, library: &'l NodeLibrary, path: &ParamPath) -> (r: Result<(&'l ParamSpec, Option<&V>), GraphError>)
        ensures
            match r {
                Ok((p, v)) => {
                    let i = find_node(self.nodes@, path.node@);
                    let s = stored_from(self.nodes@[i].params@, path.param@, 0);
                    &&& param_spec_result(self.nodes@, library@, path.node@, path.param@) == Ok::<ParamSpec, GraphFault>(*p)
                    &&& 0 <= i < self.nodes@.len()
                    &&& v == if s >= 0 {
                        Some(&self.nodes@[i].params@[s].1)
                    } else {
                        None
                    }
                    &&& match v {
                        Some(x) => stored_value(self.nodes@, path.node@, path.param@) == Some(*x),
                        None => stored_value(self.nodes@, path.node@, path.param@) is None,
                    }
                },
                Err(e) => param_spec_result(self.nodes@, library@, path.node@, path.param@) == Err::<ParamSpec, GraphFault>(e@),
            },
    {
        let spec = match self.param_spec(library, path) {
            Err(e) => return Err(e),
            Ok(p) => p,
        };
        let i = match find_node_exec(&self.nodes, &path.node) {
            Some(i) => i,
            None => {
                // `param_spec` found the node.
                return Err(GraphError::UnknownNode(path.node.copy()));
            },
        };
        let node = &self.nodes[i];
        proof {
            lemma_stored_from_bounds(node.params@, path.param@, 0);
        }
        match stored_index(&node.params, &path.param) {
            Some(k) => Ok((spec, Some(&node.params[k].1))),
            None => Ok((spec, None)),
        }
    }

    /// Store `value` as the base value of the parameter at `path`, which must
    /// be declared; the node's other values stay.
    pub fn set_param(&mut self, library: &NodeLibrary, path: &ParamPath, value: V) -> (r: Result<(), GraphError>)
        requires
            forall|i: int| 0 <= i < old(self).nodes@.len() ==> keys_sorted(#[trigger] old(self).nodes@[i].params@),
        ensures
            final(self).name == old(self).name,
            final(self).output == old(self).output,
            forall|i: int| 0 <= i < final(self).nodes@.len() ==> keys_sorted(#[trigger] final(self).nodes@[i].params@),
            match r {
                Ok(()) => {
                    let i = find_node(old(self).nodes@, path.node@);
                    let before = old(self).nodes@[i];
                    let after = final(self).nodes@[i];
                    &&& param_spec_result(old(self).nodes@, library@, path.node@, path.param@) is Ok
                    &&& 0 <= i < old(self).nodes@.len()
                    &&& final(self).nodes@.len() == old(self).nodes@.len()
                    &&& forall|j: int| 0 <= j < old(self).nodes@.len() && j != i ==> final(self).nodes@[j] == old(self).nodes@[j]
                    &&& after.id == before.id && after.kind == before.kind && after.inputs == before.inputs
                    &&& after.enabled == before.enabled
                    &&& params_map(after.params@) == params_map(before.params@).insert(path.param@, value)
                },
                Err(e) => {
                    &&& param_spec_result(old(self).nodes@, library@, path.node@, path.param@) == Err::<ParamSpec, GraphFault>(e@)
                    &&& final(self).nodes@ == old(self).nodes@
                },
            },
    {
        match self.param_spec(library, path) {
            Err(e) => return Err(e),
            Ok(_) => {},
        }
        let i = match find_node_exec(&self.nodes, &path.node) {
            Some(i) => i,
            None => return Err(GraphError::UnknownNode(path.node.copy())),
        };
        let placeholder: NodeSpec<V> = NodeSpec {
            id: NodeId(String::new()),
            kind: NodeKind::Camera { device: 0 },
            inputs: Vec::new(),
            params: Vec::new(),
            enabled: true,
        };
        let ghost before = self.nodes@;
        let node = vec_replace(&mut self.nodes, i, placeholder);
        assert(keys_sorted(node.params@));
        let node = node.with_param(path.param.as_str(), value);
        let _ = vec_replace(&mut self.nodes, i, node);
        proof {
            assert forall|j: int| 0 <= j < self.nodes@.len() implies keys_sorted(#[trigger] self.nodes@[j].params@) by {
                if j != i {
                    assert(self.nodes@[j] == before[j]);
                }
            }
        }
        Ok(())
    }
}

} // verus!
