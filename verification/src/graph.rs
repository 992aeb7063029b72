//! Node graph description.
//!
//! A [`Graph`] is an ordered, reconfigurable collection of [`NodeSpec`]s. Each
//! node has a stable string [`NodeId`], a [`NodeKind`] naming what it is, the
//! upstream node per input slot and parameter values (of any value type `V`;
//! the graph logic only reads their names). Every parameter is addressable by
//! a [`ParamPath`] of the form `node_id.param_name`.
use vstd::prelude::*;

use crate::node_def::{
    lemma_param_index_from_bounds, leading_required, lookup, param_named, NodeDef, NodeLibrary,
};
use crate::params::ParamSpec;
use crate::text::{
    append_chars, append_decimal, append_str, chars_eq, chars_of, chars_of_string, decimal,
    join_path, path_join, lemma_rfind_skip, lemma_seq_lt_asymmetric, lemma_seq_lt_irreflexive, lemma_seq_lt_total,
    lemma_seq_lt_transitive, rfind_char, rfind_char_exec, seq_lt, slice_of, string_lt, string_of,
};

verus! {

/// Stable identifier of a node inside a [`Graph`].
#[derive(Clone, Debug)]
pub struct NodeId(pub String);

impl View for NodeId {
    type V = Seq<char>;

    open spec fn view(&self) -> Seq<char> {
        self.0@
    }
}

impl NodeId {
    pub fn new(id: &str) -> (r: NodeId)
        ensures
            r@ == id@,
    {
        let v = chars_of(id);
        NodeId(string_of(&v))
    }

    pub fn as_str(&self) -> (r: &str)
        ensures
            r@ == self@,
    {
        self.0.as_str()
    }

    /// A copy of this id.
    pub fn copy(&self) -> (r: NodeId)
        ensures
            r == *self,
    {
        NodeId(self.0.clone())
    }

    /// Same id?
    pub fn same(&self, other: &NodeId) -> (r: bool)
        ensures
            r == (self@ == other@),
    {
        crate::text::string_eq(&self.0, &other.0)
    }
}

/// Fully-qualified address of a parameter: `node.param`.
#[derive(Clone, Debug)]
pub struct ParamPath {
    pub node: NodeId,
    pub param: String,
}

/// The text form of a parameter path: `node.param`.
pub open spec fn path_text(node: Seq<char>, param: Seq<char>) -> Seq<char> {
    node + seq!['.'] + param
}

/// A path's text split at its last `.`, when neither side is empty.
pub open spec fn split_path(s: Seq<char>) -> Option<(Seq<char>, Seq<char>)> {
    let k = rfind_char(s, '.');
    if k > 0 && k + 1 < s.len() {
        Some((s.subrange(0, k), s.subrange(k + 1, s.len() as int)))
    } else {
        None
    }
}

/// Reading the text of a path gives the path back, when the node id and the
/// parameter name are not empty and the name has no `.` (the id may).
pub proof fn law_param_path_round_trip(node: Seq<char>, param: Seq<char>)
    requires
        node.len() > 0,
        param.len() > 0,
        forall|i: int| 0 <= i < param.len() ==> param[i] != '.',
    ensures
        split_path(path_text(node, param)) == Some((node, param)),
{
    let t = path_text(node, param);
    let k = node.len() as int;
    assert forall|i: int| k + 1 <= i < t.len() implies t[i] != '.' by {
        assert(t[i] == param[i - k - 1]);
    }
    lemma_rfind_skip(t, '.', t.len() as int, k + 1);
    assert(t[k] == '.');
    assert(t.subrange(0, k) =~= node);
    assert(t.subrange(k + 1, t.len() as int) =~= param);
}

impl ParamPath {
    pub fn new(node: &str, param: &str) -> (r: ParamPath)
        ensures
            r.node@ == node@,
            r.param@ == param@,
    {
        let p = chars_of(param);
        ParamPath { node: NodeId::new(node), param: string_of(&p) }
    }

    /// `node.param`.
    pub fn to_text(&self) -> (s: String)
        ensures
            s@ == path_text(self.node@, self.param@),
    {
        let mut out = chars_of_string(&self.node.0);
        out.push('.');
        let p = chars_of_string(&self.param);
        append_chars(&mut out, &p);
        string_of(&out)
    }

    /// Parse `node.param`: split at the last `.`; both sides must be non-empty.
    pub fn parse(s: &str) -> (r: Result<ParamPath, GraphError>)
        ensures
            match split_path(s@) {
                Some((n, p)) => r matches Ok(pp) && pp.node@ == n && pp.param@ == p,
                None => r matches Err(e) && e@ == GraphFault::InvalidParamPath(s@),
            },
    {
        let v = chars_of(s);
        match rfind_char_exec(&v, '.') {
            Some(k) => {
                if k > 0 && k + 1 < v.len() {
                    let node = slice_of(&v, 0, k);
                    let param = slice_of(&v, k + 1, v.len());
                    Ok(ParamPath { node: NodeId(string_of(&node)), param: string_of(&param) })
                } else {
                    Err(GraphError::InvalidParamPath(string_of(&v)))
                }
            },
            None => Err(GraphError::InvalidParamPath(string_of(&v))),
        }
    }
}

/// What a node is.
#[derive(Clone, Debug)]
pub enum NodeKind {
    /// Static image from the asset directory.
    Image { path: String },
    /// Live camera input.
    Camera { device: u32 },
    /// A node definition by name: `"warp"`, `"my_project_node"`, ...
    Shader { node: String },
}

/// The `type` value used in graph files.
pub open spec fn type_tag_spec(kind: NodeKind) -> Seq<char> {
    match kind {
        NodeKind::Image { .. } => "image"@,
        NodeKind::Camera { .. } => "camera"@,
        NodeKind::Shader { node } => node@,
    }
}

/// Short human readable label.
pub open spec fn label_spec(kind: NodeKind) -> Seq<char> {
    match kind {
        NodeKind::Image { path } => "image · "@ + path@,
        NodeKind::Camera { device } => "camera · device "@ + decimal(device as nat),
        NodeKind::Shader { node } => node@,
    }
}

impl NodeKind {
    pub fn shader(node: &str) -> (k: NodeKind)
        ensures
            k matches NodeKind::Shader { node: n } && n@ == node@,
    {
        let v = chars_of(node);
        NodeKind::Shader { node: string_of(&v) }
    }

    /// The `type` value used in graph files.
    pub fn type_tag(&self) -> (s: &str)
        ensures
            s@ == type_tag_spec(*self),
    {
        match self {
            NodeKind::Image { .. } => "image",
            NodeKind::Camera { .. } => "camera",
            NodeKind::Shader { node } => node.as_str(),
        }
    }

    /// Short human readable label.
    pub fn label(&self) -> (s: String)
        ensures
            s@ == label_spec(*self),
    {
        match self {
            NodeKind::Image { path } => {
                let mut out = chars_of("image · ");
                let p = chars_of_string(path);
                append_chars(&mut out, &p);
                string_of(&out)
            },
            NodeKind::Camera { device } => {
                let mut out = chars_of("camera · device ");
                append_decimal(&mut out, *device as u64);
                string_of(&out)
            },
            NodeKind::Shader { node } => node.clone(),
        }
    }

    /// Image and camera nodes produce pixels from outside the graph.
    pub fn is_source(&self) -> (b: bool)
        ensures
            b == !(*self is Shader),
    {
        match self {
            NodeKind::Image { .. } | NodeKind::Camera { .. } => true,
            NodeKind::Shader { .. } => false,
        }
    }

    /// Definition of this kind, if it is a shader node the library knows.
    pub fn def<'l>(&self, library: &'l NodeLibrary) -> (r: Option<&'l NodeDef>)
        ensures
            match *self {
                NodeKind::Shader { node } => match r {
                    Some(d) => lookup(library@, node@) == Some(*d),
                    None => lookup(library@, node@) is None,
                },
                _ => r is None,
            },
    {
        match self {
            NodeKind::Shader { node } => library.get(node.as_str()),
            _ => None,
        }
    }
}

/// Parameter names strictly increasing, as a sorted map keeps them.
pub open spec fn keys_sorted<V>(params: Seq<(String, V)>) -> bool {
    forall|i: int, j: int| 0 <= i < j < params.len() ==> seq_lt(#[trigger] params[i].0@, #[trigger] params[j].0@)
}

/// The parameter values by name.
pub open spec fn params_map<V>(params: Seq<(String, V)>) -> Map<Seq<char>, V>
    decreases params.len(),
{
    if params.len() == 0 {
        Map::empty()
    } else {
        params_map(params.drop_last()).insert(params.last().0@, params.last().1)
    }
}

/// One node in the graph.
#[derive(Clone, Debug)]
pub struct NodeSpec<V> {
    pub id: NodeId,
    pub kind: NodeKind,
    /// Upstream node per input slot, in slot order.
    pub inputs: Vec<NodeId>,
    /// Base parameter values by name, sorted by name.
    pub params: Vec<(String, V)>,
    /// A disabled node passes its first input through unchanged.
    pub enabled: bool,
}

impl<V> NodeSpec<V> {
    pub fn new(id: &str, kind: NodeKind) -> (n: NodeSpec<V>)
        ensures
            n.id@ == id@,
            n.kind == kind,
            n.inputs@.len() == 0,
            n.params@.len() == 0,
            n.enabled,
    {
        NodeSpec { id: NodeId::new(id), kind, inputs: Vec::new(), params: Vec::new(), enabled: true }
    }

    pub fn shader(id: &str, node: &str) -> (n: NodeSpec<V>)
        ensures
            n.id@ == id@,
            n.kind matches NodeKind::Shader { node: k } && k@ == node@,
            n.inputs@.len() == 0,
            n.params@.len() == 0,
            n.enabled,
    {
        NodeSpec::new(id, NodeKind::shader(node))
    }

    /// Replace the inputs.
    pub fn with_inputs(self, inputs: &[&str]) -> (n: NodeSpec<V>)
        ensures
            n.id == self.id,
            n.kind == self.kind,
            n.params == self.params,
            n.enabled == self.enabled,
            n.inputs@.len() == inputs@.len(),
            forall|i: int| 0 <= i < inputs@.len() ==> n.inputs@[i]@ == inputs@[i]@,
    {
        let mut v: Vec<NodeId> = Vec::new();
        let mut i: usize = 0;
        while i < inputs.len()
            invariant
                i <= inputs@.len(),
                v@.len() == i,
                forall|j: int| 0 <= j < i ==> v@[j]@ == inputs@[j]@,
            decreases inputs@.len() - i,
        {
            v.push(NodeId::new(inputs[i]));
            i = i + 1;
        }
        NodeSpec { id: self.id, kind: self.kind, inputs: v, params: self.params, enabled: self.enabled }
    }

    /// Set a parameter value, replacing any value of that name.
    pub fn with_param(self, name: &str, value: V) -> (n: NodeSpec<V>)
        requires
            keys_sorted(self.params@),
        ensures
            n.id == self.id,
            n.kind == self.kind,
            n.inputs == self.inputs,
            n.enabled == self.enabled,
            keys_sorted(n.params@),
            params_map(n.params@) == params_map(self.params@).insert(name@, value),
    {
        let mut s = self;
        let nm = chars_of(name);
        let key = string_of(&nm);
        insert_param(&mut s.params, key, value);
        s
    }
}

/// Some entry is named `key`.
pub open spec fn has_key<V>(params: Seq<(String, V)>, key: Seq<char>) -> bool {
    exists|i: int| 0 <= i < params.len() && params[i].0@ == key
}

pub(crate) proof fn lemma_params_map_sorted_contains<V>(params: Seq<(String, V)>, k: Seq<char>)
    requires
        keys_sorted(params),
    ensures
        params_map(params).contains_key(k) <==> has_key(params, k),
        forall|i: int| 0 <= i < params.len() ==> params_map(params)[params[i].0@] == params[i].1,
    decreases params.len(),
{
    if params.len() > 0 {
        let front = params.drop_last();
        assert(keys_sorted(front));
        lemma_params_map_sorted_contains(front, k);
        assert forall|i: int| 0 <= i < params.len() implies params_map(params)[params[i].0@] == params[i].1 by {
            if i < params.len() - 1 {
                assert(seq_lt(params[i].0@, params.last().0@));
                if params[i].0@ == params.last().0@ {
                    lemma_seq_lt_irreflexive(params[i].0@);
                }
                assert(front[i] == params[i]);
            }
        }
        if params_map(params).contains_key(k) {
            if k == params.last().0@ {
                assert(params[params.len() - 1].0@ == k);
            } else {
                let i = choose|i: int| 0 <= i < front.len() && front[i].0@ == k;
                assert(params[i] == front[i]);
            }
        }
        if has_key(params, k) {
            let i = choose|i: int| 0 <= i < params.len() && params[i].0@ == k;
            if i < params.len() - 1 {
                assert(front[i] == params[i]);
                assert(has_key(front, k));
            }
        }
    }
}

proof fn lemma_params_map_ext<V>(a: Seq<(String, V)>, b: Seq<(String, V)>, k: Seq<char>, v: V)
    requires
        keys_sorted(a),
        keys_sorted(b),
        forall|key: Seq<char>| #[trigger] has_key(b, key) <==> (key == k || has_key(a, key)),
        forall|i: int| 0 <= i < b.len() ==> (b[i].0@ == k ==> b[i].1 == v),
        forall|i: int| 0 <= i < b.len() ==> (b[i].0@ != k ==> exists|j: int| 0 <= j < a.len() && a[j] == b[i]),
    ensures
        params_map(b) == params_map(a).insert(k, v),
{
    assert forall|key: Seq<char>| #[trigger] params_map(b).contains_key(key) == params_map(a).insert(k, v).contains_key(key) by {
        lemma_params_map_sorted_contains(a, key);
        lemma_params_map_sorted_contains(b, key);
    }
    assert forall|key: Seq<char>| params_map(b).contains_key(key) implies #[trigger] params_map(b)[key] == params_map(a).insert(k, v)[key] by {
        lemma_params_map_sorted_contains(a, key);
        lemma_params_map_sorted_contains(b, key);
        let i = choose|i: int| 0 <= i < b.len() && b[i].0@ == key;
        if key != k {
            let j = choose|j: int| 0 <= j < a.len() && a[j] == b[i];
            assert(params_map(a)[a[j].0@] == a[j].1);
        }
    }
    assert(params_map(b) =~= params_map(a).insert(k, v));
}

/// Insert or replace `key` in a sorted parameter list.
pub(crate) fn insert_param<V>(params: &mut Vec<(String, V)>, key: String, value: V)
    requires
        keys_sorted(old(params)@),
    ensures
        keys_sorted(final(params)@),
        params_map(final(params)@) == params_map(old(params)@).insert(key@, value),
{
    let ghost p0 = params@;
    let mut p: usize = 0;
    while p < params.len() && string_lt(&params[p].0, &key)
        invariant
            p <= params.len(),
            params@ == p0,
            keys_sorted(p0),
            forall|j: int| 0 <= j < p ==> seq_lt(p0[j].0@, key@),
        decreases params.len() - p,
    {
        p = p + 1;
    }
    proof {
        assert forall|j: int| p <= j < p0.len() implies !seq_lt(p0[j].0@, key@) by {
            if j > p as int {
                assert(seq_lt(p0[p as int].0@, p0[j].0@));
                if seq_lt(p0[j].0@, key@) {
                    lemma_seq_lt_transitive(p0[p as int].0@, p0[j].0@, key@);
                }
            }
        }
        assert forall|j: int| 0 <= j < p implies p0[j].0@ != key@ by {
            if p0[j].0@ == key@ {
                lemma_seq_lt_irreflexive(key@);
            }
        }
    }
    let found = p < params.len() && crate::text::string_eq(&params[p].0, &key);
    if found {
        let ghost entry = (key, value);
        params.insert(p, (key, value));
        params.remove(p + 1);
        proof {
            let p1 = params@;
            assert(p1 =~= p0.update(p as int, entry));
            assert forall|a: int, b: int| 0 <= a < b < p1.len() implies seq_lt(
                #[trigger] p1[a].0@,
                #[trigger] p1[b].0@,
            ) by {
                assert(p1[a].0@ == p0[a].0@);
                assert(p1[b].0@ == p0[b].0@);
            }
            assert forall|j: int| p < j < p0.len() implies p0[j].0@ != key@ by {
                assert(seq_lt(p0[p as int].0@, p0[j].0@));
                if p0[j].0@ == key@ {
                    lemma_seq_lt_irreflexive(key@);
                }
            }
            assert forall|i: int| 0 <= i < p1.len() implies (p1[i].0@ != key@ ==> exists|j: int| 0 <= j < p0.len() && p0[j] == p1[i]) by {
                if p1[i].0@ != key@ {
                    assert(p0[i] == p1[i]);
                }
            }
            assert forall|key2: Seq<char>| #[trigger] has_key(p1, key2) <==> (key2 == key@ || has_key(p0, key2)) by {
                if exists|i: int| 0 <= i < p0.len() && p0[i].0@ == key2 {
                    let i = choose|i: int| 0 <= i < p0.len() && p0[i].0@ == key2;
                    assert(p1[i].0@ == p0[i].0@);
                }
                if key2 == key@ {
                    assert(p1[p as int].0@ == key@);
                }
                if exists|i: int| 0 <= i < p1.len() && p1[i].0@ == key2 {
                    let i = choose|i: int| 0 <= i < p1.len() && p1[i].0@ == key2;
                    assert(p1[i].0@ == p0[i].0@);
                }
            }
            lemma_params_map_ext(p0, p1, key@, value);
        }
    } else {
        proof {
            if p < p0.len() {
                assert(p0[p as int].0@ != key@);
                lemma_seq_lt_total(p0[p as int].0@, key@);
            }
        }
        params.insert(p, (key, value));
        proof {
            let p1 = params@;
            assert(p1 == p0.insert(p as int, (key, value)));
            assert forall|a: int, b: int| 0 <= a < b < p1.len() implies seq_lt(
                #[trigger] p1[a].0@,
                #[trigger] p1[b].0@,
            ) by {
                if b < p {
                    assert(p1[a] == p0[a] && p1[b] == p0[b]);
                } else if b == p {
                    assert(p1[a] == p0[a]);
                } else if a < p {
                    assert(p1[a] == p0[a] && p1[b] == p0[b - 1]);
                    assert(!seq_lt(p0[b - 1].0@, key@));
                    if p0[b - 1].0@ == key@ {
                        if b - 1 > p {
                            assert(seq_lt(p0[p as int].0@, p0[b - 1].0@));
                            lemma_seq_lt_asymmetric(key@, p0[p as int].0@);
                        }
                    }
                    lemma_seq_lt_total(p0[b - 1].0@, key@);
                    lemma_seq_lt_transitive(p0[a].0@, key@, p0[b - 1].0@);
                } else if a == p {
                    assert(p1[b] == p0[b - 1]);
                    assert(!seq_lt(p0[b - 1].0@, key@));
                    if p0[b - 1].0@ == key@ {
                        if b - 1 > p {
                            assert(seq_lt(p0[p as int].0@, p0[b - 1].0@));
                            lemma_seq_lt_asymmetric(key@, p0[p as int].0@);
                        }
                    }
                    lemma_seq_lt_total(p0[b - 1].0@, key@);
                } else {
                    assert(p1[a] == p0[a - 1] && p1[b] == p0[b - 1]);
                }
            }
            assert forall|i: int| 0 <= i < p1.len() implies (p1[i].0@ == key@ ==> p1[i].1 == value) by {
                if i < p {
                    assert(p1[i] == p0[i]);
                } else if i > p {
                    assert(p1[i] == p0[i - 1]);
                    if p0[i - 1].0@ == key@ && i - 1 > p {
                        assert(seq_lt(p0[p as int].0@, p0[i - 1].0@));
                        lemma_seq_lt_asymmetric(key@, p0[p as int].0@);
                    }
                }
            }
            assert forall|i: int| 0 <= i < p1.len() implies (p1[i].0@ != key@ ==> exists|j: int| 0 <= j < p0.len() && p0[j] == p1[i]) by {
                if i < p {
                    assert(p1[i] == p0[i]);
                } else if i > p {
                    assert(p1[i] == p0[i - 1]);
                }
            }
            assert forall|key2: Seq<char>| #[trigger] has_key(p1, key2) <==> (key2 == key@ || has_key(p0, key2)) by {
                if exists|i: int| 0 <= i < p0.len() && p0[i].0@ == key2 {
                    let i = choose|i: int| 0 <= i < p0.len() && p0[i].0@ == key2;
                    if i < p {
                        assert(p1[i] == p0[i]);
                    } else {
                        assert(p1[i + 1] == p0[i]);
                    }
                }
                if key2 == key@ {
                    assert(p1[p as int].0@ == key@);
                }
                if exists|i: int| 0 <= i < p1.len() && p1[i].0@ == key2 {
                    let i = choose|i: int| 0 <= i < p1.len() && p1[i].0@ == key2;
                    if i < p {
                        assert(p1[i] == p0[i]);
                    } else if i > p {
                        assert(p1[i] == p0[i - 1]);
                    }
                }
            }
            lemma_params_map_ext(p0, p1, key@, value);
        }
    }
}

/// Why a graph operation failed.
#[derive(Clone, Debug)]
pub enum GraphError {
    UnknownNode(NodeId),
    UnknownKind(NodeId, String),
    UnknownParam(NodeId, String),
    InvalidParamPath(String),
    DuplicateNode(NodeId),
    DanglingInput { node: NodeId, slot: usize, target: NodeId },
    MissingInputs { node: NodeId, required: usize, given: usize },
    TooManyInputs { node: NodeId, accepted: usize, given: usize },
    Cycle(NodeId),
    MissingOutput(NodeId),
}

/// A [`GraphError`] with its texts as character sequences.
pub enum GraphFault {
    UnknownNode(Seq<char>),
    UnknownKind(Seq<char>, Seq<char>),
    UnknownParam(Seq<char>, Seq<char>),
    InvalidParamPath(Seq<char>),
    DuplicateNode(Seq<char>),
    DanglingInput { node: Seq<char>, slot: nat, target: Seq<char> },
    MissingInputs { node: Seq<char>, required: nat, given: nat },
    TooManyInputs { node: Seq<char>, accepted: nat, given: nat },
    Cycle(Seq<char>),
    MissingOutput(Seq<char>),
}

impl View for GraphError {
    type V = GraphFault;

    open spec fn view(&self) -> GraphFault {
        match self {
            GraphError::UnknownNode(n) => GraphFault::UnknownNode(n@),
            GraphError::UnknownKind(n, k) => GraphFault::UnknownKind(n@, k@),
            GraphError::UnknownParam(n, p) => GraphFault::UnknownParam(n@, p@),
            GraphError::InvalidParamPath(s) => GraphFault::InvalidParamPath(s@),
            GraphError::DuplicateNode(n) => GraphFault::DuplicateNode(n@),
            GraphError::DanglingInput { node, slot, target } => GraphFault::DanglingInput {
                node: node@,
                slot: *slot as nat,
                target: target@,
            },
            GraphError::MissingInputs { node, required, given } => GraphFault::MissingInputs {
                node: node@,
                required: *required as nat,
                given: *given as nat,
            },
            GraphError::TooManyInputs { node, accepted, given } => GraphFault::TooManyInputs {
                node: node@,
                accepted: *accepted as nat,
                given: *given as nat,
            },
            GraphError::Cycle(n) => GraphFault::Cycle(n@),
            GraphError::MissingOutput(n) => GraphFault::MissingOutput(n@),
        }
    }
}

} // verus!

verus! {

/// A reconfigurable signal chain.
#[derive(Clone, Debug)]
pub struct Graph<V> {
    pub name: String,
    pub nodes: Vec<NodeSpec<V>>,
    /// The node whose texture is shown in the window.
    pub output: NodeId,
}

/// Index of the first node at or after `i` with the given id, or -1.
pub open spec fn node_index_from<V>(nodes: Seq<NodeSpec<V>>, id: Seq<char>, i: int) -> int
    decreases nodes.len() - i,
{
    if i < 0 || i >= nodes.len() {
        -1
    } else if nodes[i].id@ == id {
        i
    } else {
        node_index_from(nodes, id, i + 1)
    }
}

/// Index of the first node with the given id, or -1.
pub open spec fn find_node<V>(nodes: Seq<NodeSpec<V>>, id: Seq<char>) -> int {
    node_index_from(nodes, id, 0)
}

/// Every id occurs once.
pub open spec fn ids_distinct<V>(nodes: Seq<NodeSpec<V>>) -> bool {
    forall|i: int, j: int| 0 <= i < j < nodes.len() ==> #[trigger] nodes[i].id@ != #[trigger] nodes[j].id@
}

/// The node that input slot `k` of node `i` names, or -1.
pub open spec fn input_target<V>(nodes: Seq<NodeSpec<V>>, i: int, k: int) -> int {
    find_node(nodes, nodes[i].inputs@[k]@)
}

/// Node `i` is computable within `r` rounds: all its inputs name nodes that
/// are computable within `r - 1` rounds.
pub open spec fn grounded_within<V>(nodes: Seq<NodeSpec<V>>, i: int, r: nat) -> bool
    decreases r,
{
    r > 0 && forall|k: int|
        0 <= k < nodes[i].inputs@.len() ==> {
            let j = #[trigger] input_target(nodes, i, k);
            0 <= j < nodes.len() && grounded_within(nodes, j, (r - 1) as nat)
        }
}

/// Node `i` depends, through its inputs, only on existing nodes and on no cycle.
pub open spec fn grounded<V>(nodes: Seq<NodeSpec<V>>, i: int) -> bool {
    exists|r: nat| grounded_within(nodes, i, r)
}

/// Every node is grounded: the graph is a DAG over existing nodes.
pub open spec fn all_grounded<V>(nodes: Seq<NodeSpec<V>>) -> bool {
    forall|i: int| 0 <= i < nodes.len() ==> grounded(nodes, i)
}

/// The first node at or after `i` that is not grounded, or -1.
pub open spec fn first_ungrounded_from<V>(nodes: Seq<NodeSpec<V>>, i: int) -> int
    decreases nodes.len() - i,
{
    if i < 0 || i >= nodes.len() {
        -1
    } else if !grounded(nodes, i) {
        i
    } else {
        first_ungrounded_from(nodes, i + 1)
    }
}

/// Position of the first entry with the given id, or -1.
pub open spec fn position_from(order: Seq<NodeId>, id: Seq<char>, i: int) -> int
    decreases order.len() - i,
{
    if i < 0 || i >= order.len() {
        -1
    } else if order[i]@ == id {
        i
    } else {
        position_from(order, id, i + 1)
    }
}

pub open spec fn position_of(order: Seq<NodeId>, id: Seq<char>) -> int {
    position_from(order, id, 0)
}

/// `order` lists every node once, each after all of its inputs.
pub open spec fn is_topological<V>(nodes: Seq<NodeSpec<V>>, order: Seq<NodeId>) -> bool {
    &&& order.len() == nodes.len()
    &&& forall|p: int| 0 <= p < order.len() ==> 0 <= #[trigger] find_node(nodes, order[p]@)
    &&& forall|p: int, q: int| 0 <= p < q < order.len() ==> #[trigger] order[p]@ != #[trigger] order[q]@
    &&& forall|i: int, k: int|
        0 <= i < nodes.len() && 0 <= k < nodes[i].inputs@.len() ==> 0 <= #[trigger] position_of(
            order,
            nodes[i].inputs@[k]@,
        ) < position_of(order, nodes[i].id@)
}

/// Node `x` is ready once the first `h` entries of `q` have been visited: it
/// is not in `q` yet, and each of its inputs names a node among those `h`.
pub open spec fn is_ready<V>(nodes: Seq<NodeSpec<V>>, q: Seq<int>, h: int, x: int) -> bool {
    &&& !q.contains(x)
    &&& forall|k: int|
        0 <= k < nodes[x].inputs@.len() ==> q.take(h).contains(#[trigger] input_target(nodes, x, k))
}

/// The nodes below index `x` that are ready, in declaration order.
pub open spec fn ready_upto<V>(nodes: Seq<NodeSpec<V>>, q: Seq<int>, h: int, x: int) -> Seq<int>
    decreases x,
{
    if x <= 0 {
        Seq::empty()
    } else if is_ready(nodes, q, h, x - 1) {
        ready_upto(nodes, q, h, x - 1).push(x - 1)
    } else {
        ready_upto(nodes, q, h, x - 1)
    }
}

/// The worklist `q` after visiting its entries from position `h` on: each
/// visit appends the nodes that have just become ready, in declaration order.
pub open spec fn worklist_from<V>(nodes: Seq<NodeSpec<V>>, q: Seq<int>, h: int) -> Seq<int>
    decreases nodes.len() - h,
{
    if h < 0 || h >= q.len() || h >= nodes.len() {
        q
    } else {
        worklist_from(nodes, q + ready_upto(nodes, q, h + 1, nodes.len() as int), h + 1)
    }
}

/// The nodes without inputs, in declaration order.
pub open spec fn sources<V>(nodes: Seq<NodeSpec<V>>) -> Seq<int> {
    ready_upto(nodes, Seq::empty(), 0, nodes.len() as int)
}

/// The order in which a first-in first-out worklist visits the nodes (by
/// index): first the nodes without inputs, in declaration order; then, as
/// each node is visited, the nodes whose inputs have now all been visited,
/// in declaration order.
pub open spec fn worklist<V>(nodes: Seq<NodeSpec<V>>) -> Seq<int> {
    worklist_from(nodes, sources(nodes), 0)
}

/// A queue of indices as integers.
pub open spec fn indices(q: Seq<usize>) -> Seq<int> {
    q.map_values(|v: usize| v as int)
}

proof fn lemma_worklist_extends<V>(nodes: Seq<NodeSpec<V>>, q: Seq<int>, h: int)
    ensures
        q.len() <= worklist_from(nodes, q, h).len(),
        forall|p: int| 0 <= p < q.len() ==> #[trigger] worklist_from(nodes, q, h)[p] == q[p],
    decreases nodes.len() - h,
{
    if !(h < 0 || h >= q.len() || h >= nodes.len()) {
        let q2 = q + ready_upto(nodes, q, h + 1, nodes.len() as int);
        lemma_worklist_extends(nodes, q2, h + 1);
        assert forall|p: int| 0 <= p < q.len() implies #[trigger] worklist_from(nodes, q, h)[p] == q[p] by {
            assert(q2[p] == q[p]);
        }
    }
}

proof fn lemma_sources_have_no_inputs<V>(nodes: Seq<NodeSpec<V>>, x: int)
    ensures
        forall|p: int|
            0 <= p < ready_upto(nodes, Seq::empty(), 0, x).len() ==> {
                let y = #[trigger] ready_upto(nodes, Seq::empty(), 0, x)[p];
                0 <= y < x && nodes[y].inputs@.len() == 0
            },
        forall|y: int| 0 <= y < x && nodes[y].inputs@.len() == 0 ==> ready_upto(nodes, Seq::empty(), 0, x).contains(y),
    decreases x,
{
    if x > 0 {
        lemma_sources_have_no_inputs(nodes, x - 1);
        let r = ready_upto(nodes, Seq::empty(), 0, x - 1);
        let s = ready_upto(nodes, Seq::empty(), 0, x);
        if nodes[x - 1].inputs@.len() > 0 {
            let t = input_target(nodes, x - 1, 0);
            assert(!Seq::<int>::empty().take(0).contains(t));
            assert(s == r);
        } else {
            assert(is_ready(nodes, Seq::empty(), 0, x - 1));
            assert(s == r.push(x - 1));
        }
        assert forall|p: int| 0 <= p < s.len() implies {
            let y = #[trigger] s[p];
            0 <= y < x && nodes[y].inputs@.len() == 0
        } by {
            if p < r.len() {
                assert(s[p] == r[p]);
            }
        }
        assert forall|y: int| 0 <= y < x && nodes[y].inputs@.len() == 0 implies s.contains(y) by {
            if y < x - 1 {
                assert(r.contains(y));
                let p = choose|p: int| 0 <= p < r.len() && r[p] == y;
                assert(s[p] == y);
            } else {
                assert(s[r.len() as int] == y);
            }
        }
    }
}

/// The worklist order begins with the nodes without inputs, in declaration
/// order, and each of those is a node without inputs.
pub proof fn law_order_starts_with_sources<V>(nodes: Seq<NodeSpec<V>>)
    ensures
        sources(nodes).len() <= worklist(nodes).len(),
        forall|p: int| 0 <= p < sources(nodes).len() ==> #[trigger] worklist(nodes)[p] == sources(nodes)[p],
        forall|p: int|
            0 <= p < sources(nodes).len() ==> {
                let y = #[trigger] sources(nodes)[p];
                0 <= y < nodes.len() && nodes[y].inputs@.len() == 0
            },
        forall|p: int, q: int| 0 <= p < q < sources(nodes).len() ==> #[trigger] sources(nodes)[p] < #[trigger] sources(nodes)[q],
        forall|y: int| 0 <= y < nodes.len() && nodes[y].inputs@.len() == 0 ==> sources(nodes).contains(y),
{
    lemma_worklist_extends(nodes, sources(nodes), 0);
    lemma_sources_have_no_inputs(nodes, nodes.len() as int);
    lemma_ready_ascending(nodes, Seq::empty(), 0, nodes.len() as int);
}

proof fn lemma_ready_ascending<V>(nodes: Seq<NodeSpec<V>>, q: Seq<int>, h: int, x: int)
    ensures
        forall|a: int, b: int|
            0 <= a < b < ready_upto(nodes, q, h, x).len() ==> #[trigger] ready_upto(nodes, q, h, x)[a]
                < #[trigger] ready_upto(nodes, q, h, x)[b],
        forall|a: int| 0 <= a < ready_upto(nodes, q, h, x).len() ==> #[trigger] ready_upto(nodes, q, h, x)[a] < x,
    decreases x,
{
    if x > 0 {
        lemma_ready_ascending(nodes, q, h, x - 1);
        let r = ready_upto(nodes, q, h, x - 1);
        let s = ready_upto(nodes, q, h, x);
        if is_ready(nodes, q, h, x - 1) {
            assert(s == r.push(x - 1));
        } else {
            assert(s == r);
        }
        assert forall|a: int| 0 <= a < s.len() implies #[trigger] s[a] < x by {
            if a < r.len() {
                assert(s[a] == r[a]);
            }
        }
        assert forall|a: int, b: int| 0 <= a < b < s.len() implies #[trigger] s[a] < #[trigger] s[b] by {
            assert(s[a] == r[a]);
            if b < r.len() {
                assert(s[b] == r[b]);
            }
        }
    }
}

/// The result `topo_order` owes: a dependency order when every node is
/// grounded, else a cycle error naming the first node that is not.
pub open spec fn topo_result_ok<V>(nodes: Seq<NodeSpec<V>>, r: Result<Vec<NodeId>, GraphError>) -> bool {
    match r {
        Ok(order) => all_grounded(nodes) && is_topological(nodes, order@),
        Err(e) => !all_grounded(nodes) && 0 <= first_ungrounded_from(nodes, 0) && e@
            == GraphFault::Cycle(nodes[first_ungrounded_from(nodes, 0)].id@),
    }
}

// ---------------------------------------------------------------------------
// Lemmas
// ---------------------------------------------------------------------------
pub proof fn lemma_node_index_bounds<V>(nodes: Seq<NodeSpec<V>>, id: Seq<char>, i: int)
    ensures
        node_index_from(nodes, id, i) == -1 || (0 <= i <= node_index_from(nodes, id, i)
            < nodes.len() && nodes[node_index_from(nodes, id, i)].id@ == id),
        0 <= i && node_index_from(nodes, id, i) == -1 ==> forall|j: int|
            i <= j < nodes.len() ==> nodes[j].id@ != id,
    decreases nodes.len() - i,
{
    if 0 <= i < nodes.len() && nodes[i].id@ != id {
        lemma_node_index_bounds(nodes, id, i + 1);
    }
}

/// With distinct ids, a node is found at its own index.
pub proof fn lemma_find_own<V>(nodes: Seq<NodeSpec<V>>, i: int)
    requires
        ids_distinct(nodes),
        0 <= i < nodes.len(),
    ensures
        find_node(nodes, nodes[i].id@) == i,
{
    lemma_node_index_bounds(nodes, nodes[i].id@, 0);
    let j = find_node(nodes, nodes[i].id@);
    if j != i {
        if j < i {
            assert(nodes[j].id@ != nodes[i].id@);
        } else {
            assert(nodes[i].id@ != nodes[j].id@);
        }
    }
}

proof fn lemma_grounded_mono<V>(nodes: Seq<NodeSpec<V>>, i: int, r: nat, s: nat)
    requires
        grounded_within(nodes, i, r),
        r <= s,
    ensures
        grounded_within(nodes, i, s),
    decreases r,
{
    assert forall|k: int| 0 <= k < nodes[i].inputs@.len() implies {
        let j = #[trigger] input_target(nodes, i, k);
        0 <= j < nodes.len() && grounded_within(nodes, j, (s - 1) as nat)
    } by {
        let j = input_target(nodes, i, k);
        lemma_grounded_mono(nodes, j, (r - 1) as nat, (s - 1) as nat);
    }
}

proof fn lemma_first_ungrounded_skip<V>(nodes: Seq<NodeSpec<V>>, i: int)
    requires
        0 <= i <= nodes.len(),
        forall|j: int| 0 <= j < i ==> grounded(nodes, j),
    ensures
        first_ungrounded_from(nodes, 0) == first_ungrounded_from(nodes, i),
    decreases i,
{
    if i > 0 {
        lemma_first_ungrounded_skip(nodes, i - 1);
    }
}

proof fn lemma_position_bounds(order: Seq<NodeId>, id: Seq<char>, i: int)
    ensures
        position_from(order, id, i) == -1 || (0 <= i <= position_from(order, id, i)
            < order.len() && order[position_from(order, id, i)]@ == id),
    decreases order.len() - i,
{
    if 0 <= i < order.len() && order[i]@ != id {
        lemma_position_bounds(order, id, i + 1);
    }
}

/// In a list without repeated ids, an id is found where it is.
proof fn lemma_position_at(order: Seq<NodeId>, p: int)
    requires
        0 <= p < order.len(),
        forall|a: int, b: int| 0 <= a < b < order.len() ==> #[trigger] order[a]@ != #[trigger] order[b]@,
    ensures
        position_of(order, order[p]@) == p,
{
    lemma_position_bounds(order, order[p]@, 0);
    let q = position_of(order, order[p]@);
    if q == -1 {
        lemma_position_missing(order, order[p]@, 0, p);
    } else if q != p {
        if q < p {
            assert(order[q]@ != order[p]@);
        } else {
            assert(order[p]@ != order[q]@);
        }
    }
}

proof fn lemma_position_missing(order: Seq<NodeId>, id: Seq<char>, i: int, p: int)
    requires
        0 <= i <= p < order.len(),
        order[p]@ == id,
    ensures
        position_from(order, id, i) != -1,
    decreases p - i,
{
    if order[i]@ != id {
        lemma_position_missing(order, id, i + 1, p);
    }
}

/// An injective map from `0..f.len()` into `0..b` has `f.len() <= b`.
pub proof fn lemma_injective_bound(f: Seq<int>, b: int)
    requires
        0 <= b,
        forall|x: int| 0 <= x < f.len() ==> 0 <= #[trigger] f[x] < b,
        forall|x: int, y: int| 0 <= x < y < f.len() ==> #[trigger] f[x] != #[trigger] f[y],
    ensures
        f.len() <= b,
{
    assert(f.no_duplicates()) by {
        assert forall|x: int, y: int| 0 <= x < f.len() && 0 <= y < f.len() && x != y implies f[x] != f[y] by {
            if x < y {
                assert(f[x] != f[y]);
            } else {
                assert(f[y] != f[x]);
            }
        }
    }
    f.unique_seq_to_set();
    vstd::set_lib::lemma_int_range(0, b);
    assert(f.to_set().subset_of(vstd::set_lib::set_int_range(0, b)));
    vstd::set_lib::lemma_len_subset(f.to_set(), vstd::set_lib::set_int_range(0, b));
}

// ---------------------------------------------------------------------------
// Topological order
// ---------------------------------------------------------------------------
/// All inputs of node `x` name nodes marked in `done`, none of them `except`.
pub open spec fn inputs_done<V>(nodes: Seq<NodeSpec<V>>, x: int, done: Seq<bool>, except: int) -> bool {
    forall|k: int|
        0 <= k < nodes[x].inputs@.len() ==> {
            let t = #[trigger] input_target(nodes, x, k);
            0 <= t < nodes.len() && t < done.len() && done[t] && t != except
        }
}

/// The index of the first node with this id.
pub fn find_node_exec<V>(nodes: &Vec<NodeSpec<V>>, id: &NodeId) -> (r: Option<usize>)
    ensures
        match r {
            Some(i) => i as int == find_node(nodes@, id@) && i < nodes@.len(),
            None => find_node(nodes@, id@) == -1,
        },
{
    let mut i: usize = 0;
    while i < nodes.len()
        invariant
            i <= nodes.len(),
            node_index_from(nodes@, id@, 0) == node_index_from(nodes@, id@, i as int),
        decreases nodes.len() - i,
    {
        if nodes[i].id.same(id) {
            return Some(i);
        }
        i = i + 1;
    }
    None
}

/// `res[i][k]` is the node input `k` of node `i` names.
fn resolve_inputs<V>(nodes: &Vec<NodeSpec<V>>) -> (res: Vec<Vec<Option<usize>>>)
    ensures
        res@.len() == nodes@.len(),
        forall|i: int| 0 <= i < nodes@.len() ==> (#[trigger] res@[i])@.len() == nodes@[i].inputs@.len(),
        forall|i: int, k: int|
            0 <= i < nodes@.len() && 0 <= k < nodes@[i].inputs@.len() ==> match #[trigger] res@[i]@[k] {
                Some(t) => t as int == input_target(nodes@, i, k) && t < nodes@.len(),
                None => input_target(nodes@, i, k) == -1,
            },
{
    let mut res: Vec<Vec<Option<usize>>> = Vec::new();
    let mut i: usize = 0;
    while i < nodes.len()
        invariant
            i <= nodes.len(),
            res@.len() == i,
            forall|a: int| 0 <= a < i ==> (#[trigger] res@[a])@.len() == nodes@[a].inputs@.len(),
            forall|a: int, k: int|
                0 <= a < i && 0 <= k < nodes@[a].inputs@.len() ==> match #[trigger] res@[a]@[k] {
                    Some(t) => t as int == input_target(nodes@, a, k) && t < nodes@.len(),
                    None => input_target(nodes@, a, k) == -1,
                },
        decreases nodes.len() - i,
    {
        let mut row: Vec<Option<usize>> = Vec::new();
        let mut k: usize = 0;
        while k < nodes[i].inputs.len()
            invariant
                i < nodes.len(),
                k <= nodes@[i as int].inputs@.len(),
                row@.len() == k,
                forall|b: int|
                    0 <= b < k ==> match #[trigger] row@[b] {
                        Some(t) => t as int == input_target(nodes@, i as int, b) && t < nodes@.len(),
                        None => input_target(nodes@, i as int, b) == -1,
                    },
            decreases nodes@[i as int].inputs@.len() - k,
        {
            row.push(find_node_exec(nodes, &nodes[i].inputs[k]));
            k = k + 1;
        }
        res.push(row);
        i = i + 1;
    }
    res
}

/// Does some input of this row name node `j`?
fn row_has(row: &Vec<Option<usize>>, j: usize) -> (b: bool)
    ensures
        b == exists|k: int| 0 <= k < row@.len() && row@[k] == Some(j),
{
    let mut k: usize = 0;
    while k < row.len()
        invariant
            k <= row@.len(),
            forall|b: int| 0 <= b < k ==> row@[b] != Some(j),
        decreases row@.len() - k,
    {
        if row[k] == Some(j) {
            return true;
        }
        k = k + 1;
    }
    false
}

/// Are all inputs of this row marked done?
fn row_done(row: &Vec<Option<usize>>, done: &Vec<bool>) -> (b: bool)
    ensures
        b == forall|k: int| 0 <= k < row@.len() ==> (#[trigger] row@[k] matches Some(t) && t < done@.len() && done@[t as int]),
{
    let mut k: usize = 0;
    while k < row.len()
        invariant
            k <= row@.len(),
            forall|b: int| 0 <= b < k ==> (#[trigger] row@[b] matches Some(t) && t < done@.len() && done@[t as int]),
        decreases row@.len() - k,
    {
        match row[k] {
            Some(t) => {
                if t >= done.len() || !done[t] {
                    return false;
                }
            },
            None => {
                return false;
            },
        }
        k = k + 1;
    }
    true
}

/// Every grounded node is popped, when everything enqueued was popped and
/// every node whose inputs are all popped was enqueued.
proof fn lemma_complete<V>(nodes: Seq<NodeSpec<V>>, popped: Seq<bool>, x: int, r: nat)
    requires
        popped.len() == nodes.len(),
        0 <= x < nodes.len(),
        grounded_within(nodes, x, r),
        forall|y: int| 0 <= y < nodes.len() && inputs_done(nodes, y, popped, -1) ==> popped[y],
    ensures
        popped[x],
    decreases r,
{
    assert forall|k: int| 0 <= k < nodes[x].inputs@.len() implies {
        let t = #[trigger] input_target(nodes, x, k);
        0 <= t < nodes.len() && t < popped.len() && popped[t] && t != -1
    } by {
        let t = input_target(nodes, x, k);
        lemma_complete(nodes, popped, t, (r - 1) as nat);
    }
}

impl<V> Graph<V> {
    /// Nodes in dependency order (inputs before consumers): the order in
    /// which a first-in first-out worklist visits them, starting from the
    /// nodes without inputs in declaration order. Fails with a cycle error
    /// naming the first node that is not reached.
    pub fn topo_order(&self) -> (r: Result<Vec<NodeId>, GraphError>)
        requires
            ids_distinct(self.nodes@),
        ensures
            topo_result_ok(self.nodes@, r),
            r matches Ok(order) ==> {
                &&& order@.len() == worklist(self.nodes@).len()
                &&& forall|p: int|
                    0 <= p < order@.len() ==> (#[trigger] order@[p])@ == self.nodes@[worklist(self.nodes@)[p]].id@
            },
    {
        let ghost nodes = self.nodes@;
        let n = self.nodes.len();
        let res = resolve_inputs(&self.nodes);
        let mut popped: Vec<bool> = Vec::new();
        let mut enqueued: Vec<bool> = Vec::new();
        let mut queue: Vec<usize> = Vec::new();
        let ghost mut at: Seq<int> = Seq::empty();
        let mut i: usize = 0;
        while i < n
            invariant
                n == nodes.len(),
                nodes == self.nodes@,
                i <= n,
                popped@.len() == i,
                enqueued@.len() == i,
                at.len() == i,
                forall|x: int| 0 <= x < i ==> !popped@[x],
                forall|x: int| 0 <= x < i ==> (enqueued@[x] <==> at[x] >= 0),
                forall|x: int| 0 <= x < i ==> (enqueued@[x] <==> nodes[x].inputs@.len() == 0),
                forall|x: int| 0 <= x < i && at[x] >= 0 ==> at[x] < queue@.len() && queue@[at[x]] == x,
                forall|q: int| 0 <= q < queue@.len() ==> queue@[q] < i && at[queue@[q] as int] == q,
                indices(queue@) == ready_upto(nodes, Seq::<int>::empty(), 0, i as int),
            decreases n - i,
        {
            popped.push(false);
            proof {
                if nodes[i as int].inputs@.len() > 0 {
                    let t = input_target(nodes, i as int, 0);
                    assert(!Seq::<int>::empty().take(0).contains(t));
                }
            }
            if self.nodes[i].inputs.len() == 0 {
                proof {
                    at = at.push(queue@.len() as int);
                }
                let ghost before = queue@;
                queue.push(i);
                enqueued.push(true);
                proof {
                    assert(indices(queue@) =~= indices(before).push(i as int));
                }
            } else {
                proof {
                    at = at.push(-1);
                }
                enqueued.push(false);
            }
            i = i + 1;
        }
        let mut order: Vec<NodeId> = Vec::new();
        let mut head: usize = 0;
        proof {
            assert forall|q: int| 0 <= q < queue@.len() implies grounded_within(nodes, queue@[q] as int, (q + 1) as nat) by {
                let x = queue@[q] as int;
                assert(at[x] == q);
                assert(enqueued@[x]);
                assert(nodes[x].inputs@.len() == 0);
            }
            assert forall|q: int, k: int|
                0 <= q < queue@.len() && 0 <= k < nodes[queue@[q] as int].inputs@.len() implies {
                    let t = #[trigger] input_target(nodes, queue@[q] as int, k);
                    0 <= t < n && 0 <= at[t] < q
                } by {
                let x = queue@[q] as int;
                assert(at[x] == q);
                assert(enqueued@[x]);
                assert(nodes[x].inputs@.len() == 0);
            }
            assert forall|x: int| 0 <= x < n && inputs_done(nodes, x, popped@, -1) implies enqueued@[x] by {
                if nodes[x].inputs@.len() > 0 {
                    let t = input_target(nodes, x, 0);
                    assert(!popped@[t]);
                }
            }
        }
        while head < queue.len()
            invariant
                n == nodes.len(),
                nodes == self.nodes@,
                ids_distinct(nodes),
                res@.len() == n,
                forall|a: int| 0 <= a < n ==> (#[trigger] res@[a])@.len() == nodes[a].inputs@.len(),
                forall|a: int, k: int|
                    0 <= a < n && 0 <= k < nodes[a].inputs@.len() ==> match #[trigger] res@[a]@[k] {
                        Some(t) => t as int == input_target(nodes, a, k) && t < n,
                        None => input_target(nodes, a, k) == -1,
                    },
                popped@.len() == n,
                enqueued@.len() == n,
                at.len() == n,
                head <= queue@.len(),
                forall|x: int| 0 <= x < n ==> (enqueued@[x] <==> at[x] >= 0),
                forall|x: int| 0 <= x < n && at[x] >= 0 ==> at[x] < queue@.len() && queue@[at[x]] == x,
                forall|q: int| 0 <= q < queue@.len() ==> queue@[q] < n && at[queue@[q] as int] == q,
                forall|x: int| 0 <= x < n ==> (popped@[x] <==> 0 <= at[x] < head),
                order@.len() == head,
                forall|p: int| 0 <= p < head ==> (#[trigger] order@[p])@ == nodes[queue@[p] as int].id@,
                forall|q: int| 0 <= q < queue@.len() ==> grounded_within(nodes, queue@[q] as int, (q + 1) as nat),
                forall|q: int, k: int|
                    0 <= q < queue@.len() && 0 <= k < nodes[queue@[q] as int].inputs@.len() ==> {
                        let t = #[trigger] input_target(nodes, queue@[q] as int, k);
                        0 <= t < n && 0 <= at[t] < q
                    },
                forall|x: int| 0 <= x < n && inputs_done(nodes, x, popped@, -1) ==> enqueued@[x],
                worklist_from(nodes, indices(queue@), head as int) == worklist(nodes),
            decreases n - head,
        {
            proof {
                // The queue holds distinct nodes, so it is no longer than the graph.
                let f = Seq::new(queue@.len(), |q: int| queue@[q] as int);
                assert forall|a: int, b: int| 0 <= a < b < f.len() implies #[trigger] f[a] != #[trigger] f[b] by {
                    assert(at[queue@[a] as int] == a);
                    assert(at[queue@[b] as int] == b);
                }
                lemma_injective_bound(f, n as int);
            }
            let ghost q0 = indices(queue@);
            proof {
                assert(worklist_from(nodes, q0, head as int) == worklist_from(
                    nodes,
                    q0 + ready_upto(nodes, q0, head + 1, n as int),
                    head + 1,
                ));
            }
            let j = queue[head];
            head = head + 1;
            let ghost old_popped = popped@;
            popped.set(j, true);
            order.push(self.nodes[j].id.copy());
            let mut x: usize = 0;
            proof {
                assert forall|y: int| 0 <= y < n implies (enqueued@[y] <==> q0.contains(y)) by {
                    if enqueued@[y] {
                        assert(q0[at[y]] == y);
                    }
                    if q0.contains(y) {
                        let p = choose|p: int| 0 <= p < q0.len() && q0[p] == y;
                        assert(queue@[p] as int == y);
                    }
                }
                assert forall|t: int| #[trigger] q0.take(head as int).contains(t) <==> (0 <= t < n && popped@[t]) by {
                    if q0.take(head as int).contains(t) {
                        let p = choose|p: int| 0 <= p < head && q0.take(head as int)[p] == t;
                        assert(queue@[p] as int == t);
                        assert(at[t] == p);
                    }
                    if 0 <= t < n && popped@[t] {
                        assert(0 <= at[t] < head);
                        assert(q0.take(head as int)[at[t]] == t);
                    }
                }
                assert(indices(queue@) =~= q0 + ready_upto(nodes, q0, head as int, 0));
            }
            while x < n
                invariant
                    n == nodes.len(),
                    nodes == self.nodes@,
                    res@.len() == n,
                    forall|a: int| 0 <= a < n ==> (#[trigger] res@[a])@.len() == nodes[a].inputs@.len(),
                    forall|a: int, k: int|
                        0 <= a < n && 0 <= k < nodes[a].inputs@.len() ==> match #[trigger] res@[a]@[k] {
                            Some(t) => t as int == input_target(nodes, a, k) && t < n,
                            None => input_target(nodes, a, k) == -1,
                        },
                    j < n,
                    x <= n,
                    popped@ == old_popped.update(j as int, true),
                    popped@.len() == n,
                    enqueued@.len() == n,
                    at.len() == n,
                    1 <= head <= queue@.len(),
                    at[j as int] == head - 1,
                    order@.len() == head,
                    forall|p: int| 0 <= p < head ==> (#[trigger] order@[p])@ == nodes[queue@[p] as int].id@,
                    forall|y: int| 0 <= y < n ==> (enqueued@[y] <==> at[y] >= 0),
                    forall|y: int| 0 <= y < n && at[y] >= 0 ==> at[y] < queue@.len() && queue@[at[y]] == y,
                    forall|q: int| 0 <= q < queue@.len() ==> queue@[q] < n && at[queue@[q] as int] == q,
                    forall|y: int| 0 <= y < n ==> (popped@[y] <==> 0 <= at[y] < head),
                    forall|q: int| 0 <= q < queue@.len() ==> grounded_within(nodes, queue@[q] as int, (q + 1) as nat),
                    forall|q: int, k: int|
                        0 <= q < queue@.len() && 0 <= k < nodes[queue@[q] as int].inputs@.len() ==> {
                            let t = #[trigger] input_target(nodes, queue@[q] as int, k);
                            0 <= t < n && 0 <= at[t] < q
                        },
                    forall|y: int| 0 <= y < x && inputs_done(nodes, y, popped@, -1) ==> enqueued@[y],
                    forall|y: int| x <= y < n && inputs_done(nodes, y, popped@, j as int) ==> enqueued@[y],
                    indices(queue@) == q0 + ready_upto(nodes, q0, head as int, x as int),
                    forall|y: int| x <= y < n ==> (enqueued@[y] <==> q0.contains(y)),
                    forall|t: int| #[trigger] q0.take(head as int).contains(t) <==> (0 <= t < n && popped@[t]),
                    worklist_from(nodes, q0 + ready_upto(nodes, q0, head as int, n as int), head as int)
                        == worklist(nodes),
                decreases n - x,
            {
                let has = row_has(&res[x], j);
                let done = row_done(&res[x], &popped);
                let ghost before = queue@;
                proof {
                    let xi = x as int;
                    assert(done <==> forall|k: int|
                        0 <= k < nodes[xi].inputs@.len() ==> q0.take(head as int).contains(
                            #[trigger] input_target(nodes, xi, k),
                        )) by {
                        if done {
                            assert forall|k: int| 0 <= k < nodes[xi].inputs@.len() implies q0.take(
                                head as int,
                            ).contains(#[trigger] input_target(nodes, xi, k)) by {
                                assert(res@[xi]@[k] is Some);
                            }
                        }
                        if forall|k: int|
                            0 <= k < nodes[xi].inputs@.len() ==> q0.take(head as int).contains(
                                #[trigger] input_target(nodes, xi, k),
                            ) {
                            assert forall|k: int| 0 <= k < res@[xi]@.len() implies (#[trigger] res@[xi]@[k] matches Some(
                                t,
                            ) && t < popped@.len() && popped@[t as int]) by {
                                let t = input_target(nodes, xi, k);
                                assert(q0.take(head as int).contains(t));
                                assert(0 <= t < n && popped@[t]);
                                assert(res@[xi]@[k] is Some);
                            }
                        }
                    }
                    if is_ready(nodes, q0, head as int, xi) && has == false {
                        assert(inputs_done(nodes, xi, popped@, j as int)) by {
                            assert forall|k: int| 0 <= k < nodes[xi].inputs@.len() implies {
                                let t = #[trigger] input_target(nodes, xi, k);
                                0 <= t < nodes.len() && t < popped@.len() && popped@[t] && t != j
                            } by {
                                let t = input_target(nodes, xi, k);
                                assert(q0.take(head as int).contains(t));
                                assert(res@[xi]@[k] != Some(j));
                            }
                        }
                    }
                    assert((!enqueued@[xi] && has && done) == is_ready(nodes, q0, head as int, xi));
                }
                if !enqueued[x] && has && done {
                    proof {
                        let q = queue@.len() as int;
                        assert forall|k: int| 0 <= k < nodes[x as int].inputs@.len() implies {
                            let t = #[trigger] input_target(nodes, x as int, k);
                            0 <= t < n && 0 <= at[t] < q
                        } by {
                            assert(res@[x as int]@[k] is Some);
                        }
                        assert forall|k: int| 0 <= k < nodes[x as int].inputs@.len() implies {
                            let t = #[trigger] input_target(nodes, x as int, k);
                            0 <= t < nodes.len() && grounded_within(nodes, t, q as nat)
                        } by {
                            let t = input_target(nodes, x as int, k);
                            assert(res@[x as int]@[k] is Some);
                            lemma_grounded_mono(nodes, t, (at[t] + 1) as nat, q as nat);
                        }
                        assert(grounded_within(nodes, x as int, (q + 1) as nat));
                        at = at.update(x as int, q);
                    }
                    queue.push(x);
                    enqueued.set(x, true);
                } else {
                    proof {
                        if inputs_done(nodes, x as int, popped@, -1) && !enqueued@[x as int] {
                            // Every input is popped; since node `x` was not queued now,
                            // none of them is `j`, so all were popped before.
                            assert(done) by {
                                assert forall|k: int| 0 <= k < res@[x as int]@.len() implies (#[trigger] res@[x as int]@[k] matches Some(t) && t < popped@.len() && popped@[t as int]) by {
                                    let t = input_target(nodes, x as int, k);
                                    assert(0 <= t < n && popped@[t]);
                                }
                            }
                            assert(!has);
                            assert(inputs_done(nodes, x as int, popped@, j as int)) by {
                                assert forall|k: int| 0 <= k < nodes[x as int].inputs@.len() implies {
                                    let t = #[trigger] input_target(nodes, x as int, k);
                                    0 <= t < nodes.len() && t < popped@.len() && popped@[t] && t != j
                                } by {
                                    let t = input_target(nodes, x as int, k);
                                    if t == j as int {
                                        assert(res@[x as int]@[k] == Some(j));
                                    }
                                }
                            }
                        }
                    }
                }
                proof {
                    let xi = x as int;
                    if is_ready(nodes, q0, head as int, xi) {
                        assert(indices(queue@) =~= indices(before).push(xi));
                        assert(q0 + ready_upto(nodes, q0, head as int, xi + 1) =~= (q0 + ready_upto(
                            nodes,
                            q0,
                            head as int,
                            xi,
                        )).push(xi));
                    }
                }
                x = x + 1;
            }
            proof {
                assert forall|y: int| 0 <= y < n && #[trigger] inputs_done(nodes, y, old_popped, -1) implies inputs_done(nodes, y, popped@, -1) by {
                    assert forall|k: int| 0 <= k < nodes[y].inputs@.len() implies {
                        let t = #[trigger] input_target(nodes, y, k);
                        0 <= t < nodes.len() && t < popped@.len() && popped@[t] && t != -1
                    } by {
                        let t = input_target(nodes, y, k);
                        assert(old_popped[t]);
                    }
                }
            }
        }
        // Every queued node was visited; popped and queued now agree.
        proof {
            assert(worklist(nodes) == indices(queue@));
            assert forall|y: int| 0 <= y < n && inputs_done(nodes, y, popped@, -1) implies popped@[y] by {
                assert(enqueued@[y]);
            }
            assert forall|y: int| 0 <= y < n implies (popped@[y] <==> grounded(nodes, y)) by {
                if popped@[y] {
                    assert(grounded_within(nodes, queue@[at[y]] as int, (at[y] + 1) as nat));
                } else if grounded(nodes, y) {
                    let r = choose|r: nat| grounded_within(nodes, y, r);
                    lemma_complete(nodes, popped@, y, r);
                }
            }
        }
        let mut s: usize = 0;
        while s < n
            invariant
                n == nodes.len(),
                nodes == self.nodes@,
                popped@.len() == n,
                s <= n,
                forall|y: int| 0 <= y < n ==> (popped@[y] <==> grounded(nodes, y)),
                forall|y: int| 0 <= y < s ==> popped@[y],
            decreases n - s,
        {
            if !popped[s] {
                proof {
                    lemma_first_ungrounded_skip(nodes, s as int);
                }
                return Err(GraphError::Cycle(self.nodes[s].id.copy()));
            }
            s = s + 1;
        }
        proof {
            // All nodes were visited, each once: the queue is a permutation.
            let f = Seq::new(n as nat, |y: int| at[y]);
            assert forall|a: int, b: int| 0 <= a < b < f.len() implies #[trigger] f[a] != #[trigger] f[b] by {
                assert(popped@[a] && popped@[b]);
                assert(queue@[at[a]] == a);
                assert(queue@[at[b]] == b);
            }
            assert forall|y: int| 0 <= y < f.len() implies 0 <= #[trigger] f[y] < head by {
                assert(popped@[y]);
            }
            lemma_injective_bound(f, head as int);
            let g = Seq::new(queue@.len(), |q: int| queue@[q] as int);
            assert forall|a: int, b: int| 0 <= a < b < g.len() implies #[trigger] g[a] != #[trigger] g[b] by {
                assert(at[queue@[a] as int] == a);
                assert(at[queue@[b] as int] == b);
            }
            lemma_injective_bound(g, n as int);
            let o = order@;
            assert forall|p: int, q: int| 0 <= p < q < o.len() implies #[trigger] o[p]@ != #[trigger] o[q]@ by {
                assert(o[p]@ == nodes[queue@[p] as int].id@);
                assert(o[q]@ == nodes[queue@[q] as int].id@);
                assert(queue@[p] != queue@[q]) by {
                    assert(at[queue@[p] as int] == p);
                    assert(at[queue@[q] as int] == q);
                }
                if queue@[p] < queue@[q] {
                    assert(nodes[queue@[p] as int].id@ != nodes[queue@[q] as int].id@);
                } else {
                    assert(nodes[queue@[q] as int].id@ != nodes[queue@[p] as int].id@);
                }
            }
            assert forall|p: int| 0 <= p < o.len() implies 0 <= #[trigger] find_node(nodes, o[p]@) by {
                lemma_find_own(nodes, queue@[p] as int);
            }
            assert forall|y: int| 0 <= y < n implies position_of(o, nodes[y].id@) == at[y] by {
                assert(popped@[y]);
                assert(o[at[y]]@ == nodes[y].id@);
                lemma_position_at(o, at[y]);
            }
            assert forall|y: int, k: int| 0 <= y < n && 0 <= k < nodes[y].inputs@.len() implies 0
                <= #[trigger] position_of(o, nodes[y].inputs@[k]@) < position_of(o, nodes[y].id@) by {
                let t = input_target(nodes, y, k);
                assert(popped@[y]);
                assert(queue@[at[y]] == y);
                assert(0 <= t < n && 0 <= at[t] < at[y]);
                lemma_find_own(nodes, t);
                lemma_node_index_bounds(nodes, nodes[y].inputs@[k]@, 0);
                assert(nodes[t].id@ == nodes[y].inputs@[k]@);
            }
        }
        proof {
            assert forall|p: int| 0 <= p < order@.len() implies (#[trigger] order@[p])@
                == nodes[worklist(nodes)[p]].id@ by {
                assert(worklist(nodes)[p] == queue@[p] as int);
            }
        }
        Ok(order)
    }
}

} // verus!

verus! {

// ---------------------------------------------------------------------------
// Lookups and validation
// ---------------------------------------------------------------------------
/// What `Graph::def` answers for the node called `id`.
pub open spec fn def_result<V>(nodes: Seq<NodeSpec<V>>, lib: Seq<NodeDef>, id: Seq<char>) -> Result<
    Option<NodeDef>,
    GraphFault,
> {
    let i = find_node(nodes, id);
    if i < 0 {
        Err(GraphFault::UnknownNode(id))
    } else {
        match nodes[i].kind {
            NodeKind::Shader { node } => match lookup(lib, node@) {
                Some(d) => Ok(Some(d)),
                None => Err(GraphFault::UnknownKind(id, node@)),
            },
            _ => Ok(None),
        }
    }
}

/// What `Graph::param_spec` answers for `node.param`.
pub open spec fn param_spec_result<V>(
    nodes: Seq<NodeSpec<V>>,
    lib: Seq<NodeDef>,
    node: Seq<char>,
    param: Seq<char>,
) -> Result<ParamSpec, GraphFault> {
    match def_result(nodes, lib, node) {
        Err(f) => Err(f),
        Ok(None) => Err(GraphFault::UnknownParam(node, param)),
        Ok(Some(d)) => match param_named(d.params@, param) {
            Some(p) => Ok(p),
            None => Err(GraphFault::UnknownParam(node, param)),
        },
    }
}

/// Some node before `i` has the same id as node `i`.
pub open spec fn seen_before<V>(nodes: Seq<NodeSpec<V>>, i: int) -> bool {
    exists|j: int| 0 <= j < i && #[trigger] nodes[j].id@ == nodes[i].id@
}

/// The first node at or after `i` whose id was already used, or -1.
pub open spec fn first_duplicate_from<V>(nodes: Seq<NodeSpec<V>>, i: int) -> int
    decreases nodes.len() - i,
{
    if i < 0 || i >= nodes.len() {
        -1
    } else if seen_before(nodes, i) {
        i
    } else {
        first_duplicate_from(nodes, i + 1)
    }
}

/// The first input slot at or after `k` of node `i` that names no node, or -1.
pub open spec fn first_dangling_from<V>(nodes: Seq<NodeSpec<V>>, i: int, k: int) -> int
    decreases nodes[i].inputs@.len() - k,
{
    if k < 0 || k >= nodes[i].inputs@.len() {
        -1
    } else if input_target(nodes, i, k) < 0 {
        k
    } else {
        first_dangling_from(nodes, i, k + 1)
    }
}

/// The first parameter at or after `p` of node `i` that its definition
/// does not declare, or -1.
pub open spec fn first_unknown_param_from<V>(nodes: Seq<NodeSpec<V>>, lib: Seq<NodeDef>, i: int, p: int) -> int
    decreases nodes[i].params@.len() - p,
{
    if p < 0 || p >= nodes[i].params@.len() {
        -1
    } else if param_spec_result(nodes, lib, nodes[i].id@, nodes[i].params@[p].0@) is Err {
        p
    } else {
        first_unknown_param_from(nodes, lib, i, p + 1)
    }
}

/// The first thing wrong with node `i` on its own, checked in this order:
/// an input naming no node, an unknown kind, too few or too many inputs, a
/// parameter its definition does not declare.
pub open spec fn node_fault<V>(nodes: Seq<NodeSpec<V>>, lib: Seq<NodeDef>, i: int) -> Option<GraphFault> {
    let node = nodes[i];
    let given = node.inputs@.len();
    let k = first_dangling_from(nodes, i, 0);
    if k >= 0 {
        Some(GraphFault::DanglingInput { node: node.id@, slot: k as nat, target: node.inputs@[k]@ })
    } else {
        match def_result(nodes, lib, node.id@) {
            Err(f) => Some(f),
            Ok(d) => {
                let required = match d {
                    Some(d) => leading_required(d.inputs@),
                    None => 0,
                };
                let accepted = match d {
                    Some(d) => d.inputs@.len(),
                    None => 0,
                };
                if given < required {
                    Some(GraphFault::MissingInputs { node: node.id@, required, given })
                } else if given > accepted {
                    Some(GraphFault::TooManyInputs { node: node.id@, accepted, given })
                } else {
                    let p = first_unknown_param_from(nodes, lib, i, 0);
                    if p >= 0 {
                        Some(GraphFault::UnknownParam(node.id@, node.params@[p].0@))
                    } else {
                        None
                    }
                }
            },
        }
    }
}

/// The first node fault at or after node `i`.
pub open spec fn first_fault_from<V>(nodes: Seq<NodeSpec<V>>, lib: Seq<NodeDef>, i: int) -> Option<GraphFault>
    decreases nodes.len() - i,
{
    if i < 0 || i >= nodes.len() {
        None
    } else {
        match node_fault(nodes, lib, i) {
            Some(f) => Some(f),
            None => first_fault_from(nodes, lib, i + 1),
        }
    }
}

/// Structural validation: ids unique, then each node in order (inputs
/// resolvable, kind known, input count within the definition's slots,
/// parameters declared), then the output exists, then no cycles.
pub open spec fn validate_result<V>(nodes: Seq<NodeSpec<V>>, output: Seq<char>, lib: Seq<NodeDef>) -> Result<(), GraphFault> {
    let d = first_duplicate_from(nodes, 0);
    if d >= 0 {
        Err(GraphFault::DuplicateNode(nodes[d].id@))
    } else {
        match first_fault_from(nodes, lib, 0) {
            Some(f) => Err(f),
            None => if find_node(nodes, output) < 0 {
                Err(GraphFault::MissingOutput(output))
            } else if !all_grounded(nodes) {
                Err(GraphFault::Cycle(nodes[first_ungrounded_from(nodes, 0)].id@))
            } else {
                Ok(())
            },
        }
    }
}

proof fn lemma_no_duplicate<V>(nodes: Seq<NodeSpec<V>>, i: int)
    requires
        0 <= i <= nodes.len(),
        first_duplicate_from(nodes, i) == -1,
        forall|a: int| 0 <= a < i ==> !seen_before(nodes, a),
    ensures
        ids_distinct(nodes),
    decreases nodes.len() - i,
{
    if i < nodes.len() {
        lemma_no_duplicate(nodes, i + 1);
    } else {
        assert forall|a: int, b: int| 0 <= a < b < nodes.len() implies #[trigger] nodes[a].id@ != #[trigger] nodes[b].id@ by {
            if nodes[a].id@ == nodes[b].id@ {
                assert(seen_before(nodes, b));
            }
        }
    }
}

proof fn lemma_first_duplicate_skip<V>(nodes: Seq<NodeSpec<V>>, i: int)
    requires
        0 <= i <= nodes.len(),
        forall|a: int| 0 <= a < i ==> !seen_before(nodes, a),
    ensures
        first_duplicate_from(nodes, 0) == first_duplicate_from(nodes, i),
    decreases i,
{
    if i > 0 {
        lemma_first_duplicate_skip(nodes, i - 1);
    }
}

proof fn lemma_first_fault_skip<V>(nodes: Seq<NodeSpec<V>>, lib: Seq<NodeDef>, i: int)
    requires
        0 <= i <= nodes.len(),
        forall|a: int| 0 <= a < i ==> node_fault(nodes, lib, a) is None,
    ensures
        first_fault_from(nodes, lib, 0) == first_fault_from(nodes, lib, i),
    decreases i,
{
    if i > 0 {
        lemma_first_fault_skip(nodes, lib, i - 1);
    }
}

proof fn lemma_first_duplicate_none<V>(nodes: Seq<NodeSpec<V>>, i: int)
    requires
        0 <= i <= nodes.len(),
        first_duplicate_from(nodes, i) < 0,
    ensures
        forall|a: int| i <= a < nodes.len() ==> !seen_before(nodes, a),
    decreases nodes.len() - i,
{
    if i < nodes.len() {
        lemma_first_duplicate_none(nodes, i + 1);
    }
}

/// A graph that validates has distinct ids, an output that exists and no
/// cycle, so `topo_order` applies to it and succeeds.
pub proof fn law_valid_graph_is_ordered<V>(nodes: Seq<NodeSpec<V>>, output: Seq<char>, lib: Seq<NodeDef>)
    requires
        validate_result(nodes, output, lib) is Ok,
    ensures
        ids_distinct(nodes),
        find_node(nodes, output) >= 0,
        all_grounded(nodes),
        forall|r: Result<Vec<NodeId>, GraphError>| topo_result_ok(nodes, r) ==> r is Ok,
{
    lemma_first_duplicate_none(nodes, 0);
    lemma_no_duplicate(nodes, nodes.len() as int);
}

/// What a valid graph asks of node `i` on its own: each input names a node;
/// a shader node's kind is in the library, it has at least the definition's
/// required and at most its declared inputs, and it stores values only for
/// declared parameters; an image or camera node has no inputs and stores no
/// values.
pub open spec fn node_ok<V>(nodes: Seq<NodeSpec<V>>, lib: Seq<NodeDef>, i: int) -> bool {
    &&& forall|k: int| 0 <= k < nodes[i].inputs@.len() ==> 0 <= #[trigger] input_target(nodes, i, k)
    &&& match nodes[i].kind {
        NodeKind::Shader { node } => match lookup(lib, node@) {
            Some(d) => {
                &&& leading_required(d.inputs@) <= nodes[i].inputs@.len() <= d.inputs@.len()
                &&& forall|p: int|
                    0 <= p < nodes[i].params@.len() ==> param_named(d.params@, (#[trigger] nodes[i].params@[p]).0@) is Some
            },
            None => false,
        },
        _ => nodes[i].inputs@.len() == 0 && nodes[i].params@.len() == 0,
    }
}

proof fn lemma_no_dangling<V>(nodes: Seq<NodeSpec<V>>, i: int, k: int)
    requires
        0 <= i < nodes.len(),
        0 <= k,
    ensures
        first_dangling_from(nodes, i, k) == -1 || first_dangling_from(nodes, i, k) >= k,
        first_dangling_from(nodes, i, k) == -1 <==> forall|m: int|
            k <= m < nodes[i].inputs@.len() ==> 0 <= #[trigger] input_target(nodes, i, m),
    decreases nodes[i].inputs@.len() - k,
{
    if k < nodes[i].inputs@.len() {
        lemma_no_dangling(nodes, i, k + 1);
    }
}

proof fn lemma_no_unknown_param<V>(nodes: Seq<NodeSpec<V>>, lib: Seq<NodeDef>, i: int, p: int)
    requires
        0 <= i < nodes.len(),
        0 <= p,
    ensures
        first_unknown_param_from(nodes, lib, i, p) == -1 || first_unknown_param_from(nodes, lib, i, p) >= p,
        first_unknown_param_from(nodes, lib, i, p) == -1 <==> forall|m: int|
            p <= m < nodes[i].params@.len() ==> param_spec_result(nodes, lib, nodes[i].id@, (#[trigger] nodes[i].params@[m]).0@) is Ok,
    decreases nodes[i].params@.len() - p,
{
    if p < nodes[i].params@.len() {
        lemma_no_unknown_param(nodes, lib, i, p + 1);
    }
}

proof fn lemma_no_fault_from<V>(nodes: Seq<NodeSpec<V>>, lib: Seq<NodeDef>, i: int)
    requires
        0 <= i <= nodes.len(),
        first_fault_from(nodes, lib, i) is None,
    ensures
        forall|a: int| i <= a < nodes.len() ==> node_fault(nodes, lib, a) is None,
    decreases nodes.len() - i,
{
    if i < nodes.len() {
        lemma_no_fault_from(nodes, lib, i + 1);
    }
}

proof fn lemma_node_ok<V>(nodes: Seq<NodeSpec<V>>, lib: Seq<NodeDef>, i: int)
    requires
        ids_distinct(nodes),
        0 <= i < nodes.len(),
    ensures
        node_fault(nodes, lib, i) is None <==> node_ok(nodes, lib, i),
{
    lemma_find_own(nodes, i);
    lemma_no_dangling(nodes, i, 0);
    lemma_no_unknown_param(nodes, lib, i, 0);
    let node = nodes[i];
    match node.kind {
        NodeKind::Shader { node: name } => {
            match lookup(lib, name@) {
                Some(d) => {
                    assert forall|m: int| 0 <= m < node.params@.len() implies (param_spec_result(
                        nodes,
                        lib,
                        node.id@,
                        (#[trigger] node.params@[m]).0@,
                    ) is Ok <==> param_named(d.params@, node.params@[m].0@) is Some) by {}
                },
                None => {},
            }
        },
        _ => {
            if node.params@.len() > 0 {
                assert(param_spec_result(nodes, lib, node.id@, node.params@[0].0@) is Err);
            }
        },
    }
}

/// A graph validates exactly when its ids are distinct, every node is fine
/// on its own (see [`node_ok`]), its output names a node and its inputs form
/// no cycle.
pub proof fn law_validate_iff<V>(nodes: Seq<NodeSpec<V>>, output: Seq<char>, lib: Seq<NodeDef>)
    ensures
        validate_result(nodes, output, lib) is Ok <==> {
            &&& ids_distinct(nodes)
            &&& forall|i: int| 0 <= i < nodes.len() ==> #[trigger] node_ok(nodes, lib, i)
            &&& find_node(nodes, output) >= 0
            &&& all_grounded(nodes)
        },
{
    let n = nodes.len() as int;
    if ids_distinct(nodes) {
        assert forall|a: int| 0 <= a < n implies !seen_before(nodes, a) by {
            if seen_before(nodes, a) {
                let j = choose|j: int| 0 <= j < a && #[trigger] nodes[j].id@ == nodes[a].id@;
            }
        }
        lemma_first_duplicate_skip(nodes, n);
        assert forall|i: int| 0 <= i < n implies (node_fault(nodes, lib, i) is None <==> #[trigger] node_ok(
            nodes,
            lib,
            i,
        )) by {
            lemma_node_ok(nodes, lib, i);
        }
        if forall|i: int| 0 <= i < n ==> #[trigger] node_ok(nodes, lib, i) {
            assert forall|a: int| 0 <= a < n implies node_fault(nodes, lib, a) is None by {
                assert(node_ok(nodes, lib, a));
            }
            lemma_first_fault_skip(nodes, lib, n);
        }
        if first_fault_from(nodes, lib, 0) is None {
            lemma_no_fault_from(nodes, lib, 0);
        }
    } else {
        if first_duplicate_from(nodes, 0) < 0 {
            lemma_first_duplicate_none(nodes, 0);
            lemma_no_duplicate(nodes, n);
        }
    }
}

impl<V> Graph<V> {
    pub fn new(name: &str, output: &str) -> (g: Graph<V>)
        ensures
            g.name@ == name@,
            g.nodes@.len() == 0,
            g.output@ == output@,
    {
        let n = chars_of(name);
        Graph { name: string_of(&n), nodes: Vec::new(), output: NodeId::new(output) }
    }

    /// The first node with this id.
    pub fn node(&self, id: &NodeId) -> (r: Option<&NodeSpec<V>>)
        ensures
            match r {
                Some(n) => 0 <= find_node(self.nodes@, id@) && *n == self.nodes@[find_node(self.nodes@, id@)],
                None => find_node(self.nodes@, id@) == -1,
            },
    {
        match find_node_exec(&self.nodes, id) {
            Some(i) => Some(&self.nodes[i]),
            None => None,
        }
    }

    /// Definition of a node's kind, or an error naming the node.
    pub fn def<'l>(&self, library: &'l NodeLibrary, id: &NodeId) -> (r: Result<Option<&'l NodeDef>, GraphError>)
        ensures
            match r {
                Ok(Some(d)) => def_result(self.nodes@, library@, id@) == Ok::<Option<NodeDef>, GraphFault>(Some(*d)),
                Ok(None) => def_result(self.nodes@, library@, id@) == Ok::<Option<NodeDef>, GraphFault>(None),
                Err(e) => def_result(self.nodes@, library@, id@) == Err::<Option<NodeDef>, GraphFault>(e@),
            },
    {
        match find_node_exec(&self.nodes, id) {
            None => Err(GraphError::UnknownNode(id.copy())),
            Some(i) => match &self.nodes[i].kind {
                NodeKind::Shader { node } => match library.get(node.as_str()) {
                    Some(d) => Ok(Some(d)),
                    None => Err(GraphError::UnknownKind(id.copy(), node.clone())),
                },
                _ => Ok(None),
            },
        }
    }

    /// The declaration of the parameter at `path`.
    pub fn param_spec<'l>(&self, library: &'l NodeLibrary, path: &ParamPath) -> (r: Result<&'l ParamSpec, GraphError>)
        ensures
            match r {
                Ok(p) => param_spec_result(self.nodes@, library@, path.node@, path.param@) == Ok::<ParamSpec, GraphFault>(*p),
                Err(e) => param_spec_result(self.nodes@, library@, path.node@, path.param@) == Err::<ParamSpec, GraphFault>(e@),
            },
    {
        match self.def(library, &path.node) {
            Err(e) => Err(e),
            Ok(None) => Err(GraphError::UnknownParam(path.node.copy(), path.param.clone())),
            Ok(Some(d)) => match d.param(path.param.as_str()) {
                Some(p) => Ok(p),
                None => Err(GraphError::UnknownParam(path.node.copy(), path.param.clone())),
            },
        }
    }

    /// The first problem with node `i` on its own, if any.
    #[verifier::loop_isolation(false)]
    fn check_node(&self, library: &NodeLibrary, i: usize) -> (r: Option<GraphError>)
        requires
            i < self.nodes@.len(),
        ensures
            match r {
                Some(e) => node_fault(self.nodes@, library@, i as int) == Some(e@),
                None => node_fault(self.nodes@, library@, i as int) is None,
            },
    {
        let ghost nodes = self.nodes@;
        let node = &self.nodes[i];
        let mut k: usize = 0;
        while k < node.inputs.len()
            invariant
                nodes == self.nodes@,
                i < nodes.len(),
                *node == nodes[i as int],
                k <= node.inputs@.len(),
                first_dangling_from(nodes, i as int, 0) == first_dangling_from(nodes, i as int, k as int),
            decreases node.inputs@.len() - k,
        {
            match find_node_exec(&self.nodes, &node.inputs[k]) {
                None => {
                    return Some(GraphError::DanglingInput {
                        node: node.id.copy(),
                        slot: k,
                        target: node.inputs[k].copy(),
                    });
                },
                Some(_) => {},
            }
            k = k + 1;
        }
        let (required, accepted) = match self.def(library, &node.id) {
            Err(e) => {
                return Some(e);
            },
            Ok(Some(d)) => (d.required_inputs(), d.inputs.len()),
            Ok(None) => (0, 0),
        };
        let given = node.inputs.len();
        if given < required {
            return Some(GraphError::MissingInputs { node: node.id.copy(), required, given });
        }
        if given > accepted {
            return Some(GraphError::TooManyInputs { node: node.id.copy(), accepted, given });
        }
        let mut p: usize = 0;
        while p < node.params.len()
            invariant
                nodes == self.nodes@,
                i < nodes.len(),
                *node == nodes[i as int],
                p <= node.params@.len(),
                first_unknown_param_from(nodes, library@, i as int, 0) == first_unknown_param_from(
                    nodes,
                    library@,
                    i as int,
                    p as int,
                ),
            decreases node.params@.len() - p,
        {
            let path = ParamPath { node: node.id.copy(), param: node.params[p].0.clone() };
            match self.param_spec(library, &path) {
                Err(_) => {
                    return Some(GraphError::UnknownParam(node.id.copy(), node.params[p].0.clone()));
                },
                Ok(_) => {},
            }
            p = p + 1;
        }
        None
    }

    /// Structural validation against a library: ids unique, kinds known,
    /// inputs resolvable and within the definition's slots, parameters
    /// declared, output exists, no cycles.
    #[verifier::loop_isolation(false)]
    pub fn validate(&self, library: &NodeLibrary) -> (r: Result<(), GraphError>)
        ensures
            match r {
                Ok(()) => validate_result(self.nodes@, self.output@, library@) is Ok,
                Err(e) => validate_result(self.nodes@, self.output@, library@) == Err::<(), GraphFault>(e@),
            },
    {
        let ghost nodes = self.nodes@;
        let n = self.nodes.len();
        // Ids unique.
        let mut i: usize = 0;
        while i < n
            invariant
                n == nodes.len(),
                nodes == self.nodes@,
                i <= n,
                forall|a: int| 0 <= a < i ==> !seen_before(nodes, a),
            decreases n - i,
        {
            let mut j: usize = 0;
            while j < i
                invariant
                    n == nodes.len(),
                    nodes == self.nodes@,
                    i < n,
                    j <= i,
                    forall|b: int| 0 <= b < j ==> nodes[b].id@ != nodes[i as int].id@,
                decreases i - j,
            {
                if self.nodes[j].id.same(&self.nodes[i].id) {
                    proof {
                        assert(seen_before(nodes, i as int));
                        lemma_first_duplicate_skip(nodes, i as int);
                    }
                    return Err(GraphError::DuplicateNode(self.nodes[i].id.copy()));
                }
                j = j + 1;
            }
            i = i + 1;
        }
        proof {
            lemma_first_duplicate_skip(nodes, n as int);
            lemma_no_duplicate(nodes, n as int);
        }
        // Each node.
        let mut i: usize = 0;
        while i < n
            invariant
                n == nodes.len(),
                nodes == self.nodes@,
                i <= n,
                forall|a: int| 0 <= a < i ==> node_fault(nodes, library@, a) is None,
            decreases n - i,
        {
            match self.check_node(library, i) {
                Some(e) => {
                    proof {
                        lemma_first_fault_skip(nodes, library@, i as int);
                    }
                    return Err(e);
                },
                None => {},
            }
            i = i + 1;
        }
        proof {
            lemma_first_fault_skip(nodes, library@, n as int);
        }
        match find_node_exec(&self.nodes, &self.output) {
            None => {
                return Err(GraphError::MissingOutput(self.output.copy()));
            },
            Some(_) => {},
        }
        match self.topo_order() {
            Ok(_) => Ok(()),
            Err(e) => Err(e),
        }
    }
}

} // verus!

verus! {

// ---------------------------------------------------------------------------
// Depths
// ---------------------------------------------------------------------------
/// Position of the first entry with the given id at or after `i`, or -1.
pub open spec fn entry_from(d: Seq<(NodeId, usize)>, id: Seq<char>, i: int) -> int
    decreases d.len() - i,
{
    if i < 0 || i >= d.len() {
        -1
    } else if d[i].0@ == id {
        i
    } else {
        entry_from(d, id, i + 1)
    }
}

/// The depth recorded for `id`, or -1.
pub open spec fn depth_in(d: Seq<(NodeId, usize)>, id: Seq<char>) -> int {
    let p = entry_from(d, id, 0);
    if p < 0 {
        -1
    } else {
        d[p].1 as int
    }
}

/// One more than the deepest of the first `k` inputs of node `i`; 0 for none.
pub open spec fn inputs_depth<V>(nodes: Seq<NodeSpec<V>>, d: Seq<(NodeId, usize)>, i: int, k: int) -> int
    decreases k,
{
    if k <= 0 {
        0
    } else {
        let prev = inputs_depth(nodes, d, i, k - 1);
        let this = depth_in(d, nodes[i].inputs@[k - 1]@) + 1;
        if this > prev {
            this
        } else {
            prev
        }
    }
}

/// `d` gives every node of a DAG its longest-path depth: sources are 0, a
/// node is one deeper than its deepest input.
pub open spec fn is_depth_map<V>(nodes: Seq<NodeSpec<V>>, d: Seq<(NodeId, usize)>) -> bool {
    &&& d.len() == nodes.len()
    &&& forall|i: int| 0 <= i < nodes.len() ==> 0 <= #[trigger] entry_from(d, nodes[i].id@, 0)
    &&& forall|p: int| 0 <= p < d.len() ==> 0 <= #[trigger] find_node(nodes, d[p].0@)
    &&& forall|i: int|
        0 <= i < nodes.len() ==> #[trigger] depth_in(d, nodes[i].id@) == inputs_depth(
            nodes,
            d,
            i,
            nodes[i].inputs@.len() as int,
        )
}

proof fn lemma_entry_bounds(d: Seq<(NodeId, usize)>, id: Seq<char>, i: int)
    ensures
        entry_from(d, id, i) == -1 || (0 <= i <= entry_from(d, id, i) < d.len() && d[entry_from(
            d,
            id,
            i,
        )].0@ == id),
    decreases d.len() - i,
{
    if 0 <= i < d.len() && d[i].0@ != id {
        lemma_entry_bounds(d, id, i + 1);
    }
}

/// An entry found in a prefix is found at the same place in the whole.
proof fn lemma_entry_prefix(d: Seq<(NodeId, usize)>, e: Seq<(NodeId, usize)>, id: Seq<char>, i: int)
    requires
        0 <= i,
        d.len() <= e.len(),
        forall|q: int| 0 <= q < d.len() ==> e[q] == d[q],
        entry_from(d, id, i) >= 0,
    ensures
        entry_from(e, id, i) == entry_from(d, id, i),
    decreases d.len() - i,
{
    if i < d.len() && d[i].0@ != id {
        lemma_entry_prefix(d, e, id, i + 1);
    }
}

/// Matching positions: with the ids of the order distinct, an id at position `p`
/// of the order is the entry at `p`.
proof fn lemma_entry_at(d: Seq<(NodeId, usize)>, p: int)
    requires
        0 <= p < d.len(),
        forall|a: int, b: int| 0 <= a < b < d.len() ==> #[trigger] d[a].0@ != #[trigger] d[b].0@,
    ensures
        entry_from(d, d[p].0@, 0) == p,
{
    lemma_entry_bounds(d, d[p].0@, 0);
    let q = entry_from(d, d[p].0@, 0);
    if q == -1 {
        lemma_entry_missing(d, d[p].0@, 0, p);
    } else if q != p {
        if q < p {
            assert(d[q].0@ != d[p].0@);
        } else {
            assert(d[p].0@ != d[q].0@);
        }
    }
}

proof fn lemma_entry_missing(d: Seq<(NodeId, usize)>, id: Seq<char>, i: int, p: int)
    requires
        0 <= i <= p < d.len(),
        d[p].0@ == id,
    ensures
        entry_from(d, id, i) != -1,
    decreases p - i,
{
    if d[i].0@ != id {
        lemma_entry_missing(d, id, i + 1, p);
    }
}

/// The depth of node `i` only depends on entries present for its inputs.
proof fn lemma_inputs_depth_prefix<V>(
    nodes: Seq<NodeSpec<V>>,
    d: Seq<(NodeId, usize)>,
    e: Seq<(NodeId, usize)>,
    i: int,
    k: int,
)
    requires
        0 <= i < nodes.len(),
        0 <= k <= nodes[i].inputs@.len(),
        d.len() <= e.len(),
        forall|q: int| 0 <= q < d.len() ==> e[q] == d[q],
        forall|m: int| 0 <= m < k ==> entry_from(d, #[trigger] nodes[i].inputs@[m]@, 0) >= 0,
    ensures
        inputs_depth(nodes, e, i, k) == inputs_depth(nodes, d, i, k),
    decreases k,
{
    if k > 0 {
        lemma_inputs_depth_prefix(nodes, d, e, i, k - 1);
        let id = nodes[i].inputs@[k - 1]@;
        assert(entry_from(d, id, 0) >= 0);
        lemma_entry_prefix(d, e, id, 0);
        lemma_entry_bounds(d, id, 0);
        let p = entry_from(d, id, 0);
        assert(e[p] == d[p]);
    }
}

/// Look up the depth recorded for `id`.
fn depth_of(d: &Vec<(NodeId, usize)>, id: &NodeId) -> (r: Option<usize>)
    ensures
        match r {
            Some(v) => depth_in(d@, id@) == v as int && entry_from(d@, id@, 0) >= 0,
            None => entry_from(d@, id@, 0) == -1,
        },
{
    let mut i: usize = 0;
    while i < d.len()
        invariant
            i <= d@.len(),
            entry_from(d@, id@, 0) == entry_from(d@, id@, i as int),
        decreases d@.len() - i,
    {
        if d[i].0.same(id) {
            return Some(d[i].1);
        }
        i = i + 1;
    }
    None
}

impl<V> Graph<V> {
    /// Longest-path depth of every node: sources are 0, a node is one deeper
    /// than its deepest input. Listed in dependency order. Empty for a graph
    /// that is not a DAG over its own nodes.
    #[verifier::loop_isolation(false)]
    pub fn depths(&self) -> (r: Vec<(NodeId, usize)>)
        requires
            ids_distinct(self.nodes@),
        ensures
            all_grounded(self.nodes@) ==> is_depth_map(self.nodes@, r@),
            !all_grounded(self.nodes@) ==> r@.len() == 0,
    {
        let ghost nodes = self.nodes@;
        let order = match self.topo_order() {
            Ok(o) => o,
            Err(_) => {
                return Vec::new();
            },
        };
        let mut d: Vec<(NodeId, usize)> = Vec::new();
        let mut p: usize = 0;
        while p < order.len()
            invariant
                nodes == self.nodes@,
                is_topological(nodes, order@),
                p <= order@.len(),
                d@.len() == p,
                forall|q: int| 0 <= q < p ==> (#[trigger] d@[q]).0@ == order@[q]@,
                forall|q: int| 0 <= q < p ==> d@[q].1 <= q,
                forall|q: int|
                    0 <= q < p ==> d@[q].1 as int == inputs_depth(
                        nodes,
                        d@,
                        find_node(nodes, order@[q]@),
                        nodes[find_node(nodes, order@[q]@)].inputs@.len() as int,
                    ),
            decreases order@.len() - p,
        {
            let ghost o = order@;
            let ghost di = find_node(nodes, o[p as int]@);
            let i = match find_node_exec(&self.nodes, &order[p]) {
                Some(i) => i,
                None => {
                    proof {
                        assert(0 <= find_node(nodes, o[p as int]@));
                    }
                    return Vec::new();
                },
            };
            proof {
                lemma_node_index_bounds(nodes, o[p as int]@, 0);
                lemma_find_own(nodes, i as int);
                lemma_position_at(o, p as int);
            }
            let node = &self.nodes[i];
            let mut depth: usize = 0;
            let mut k: usize = 0;
            while k < node.inputs.len()
                invariant
                    *node == nodes[i as int],
                    i as int == di,
                    0 <= di < nodes.len(),
                    k <= node.inputs@.len(),
                    depth as int == inputs_depth(nodes, d@, i as int, k as int),
                    depth <= p,
                    forall|m: int| 0 <= m < k ==> entry_from(d@, #[trigger] nodes[i as int].inputs@[m]@, 0) >= 0,
                decreases node.inputs@.len() - k,
            {
                proof {
                    // Inputs come earlier in the order, so they already have a depth.
                    let pi = position_of(o, nodes[i as int].inputs@[k as int]@);
                    assert(0 <= pi < position_of(o, nodes[i as int].id@));
                    lemma_position_bounds(o, nodes[i as int].inputs@[k as int]@, 0);
                    assert(d@[pi].0@ == nodes[i as int].inputs@[k as int]@);
                    assert forall|a: int, b: int| 0 <= a < b < d@.len() implies #[trigger] d@[a].0@ != #[trigger] d@[b].0@ by {
                        assert(o[a]@ != o[b]@);
                    }
                    lemma_entry_at(d@, pi);
                }
                match depth_of(&d, &node.inputs[k]) {
                    Some(v) => {
                        proof {
                            let pi = position_of(o, nodes[i as int].inputs@[k as int]@);
                            assert(v == d@[pi].1);
                        }
                        if v + 1 > depth {
                            depth = v + 1;
                        }
                    },
                    None => {},
                }
                k = k + 1;
            }
            let ghost d_before = d@;
            d.push((order[p].copy(), depth));
            proof {
                let d1 = d@;
                assert forall|q: int| 0 <= q < p + 1 implies d1[q].1 as int == inputs_depth(
                    nodes,
                    d1,
                    find_node(nodes, o[q]@),
                    nodes[find_node(nodes, o[q]@)].inputs@.len() as int,
                ) by {
                    let iq = find_node(nodes, o[q]@);
                    lemma_node_index_bounds(nodes, o[q]@, 0);
                    if q < p {
                        // Its inputs came before it, and have entries in the shorter list.
                        assert forall|m: int| 0 <= m < nodes[iq].inputs@.len() implies entry_from(d_before, #[trigger] nodes[iq].inputs@[m]@, 0) >= 0 by {
                            let im = nodes[iq].inputs@[m]@;
                            let pm = position_of(o, im);
                            assert(0 <= pm < position_of(o, nodes[iq].id@));
                            assert(nodes[iq].id@ == o[q]@);
                            lemma_position_at(o, q);
                            lemma_position_bounds(o, im, 0);
                            assert(pm < q);
                            assert(d_before[pm].0@ == o[pm]@);
                            lemma_entry_missing(d_before, im, 0, pm);
                            lemma_entry_bounds(d_before, im, 0);
                        }
                        lemma_inputs_depth_prefix(nodes, d_before, d1, iq, nodes[iq].inputs@.len() as int);
                    } else {
                        lemma_inputs_depth_prefix(nodes, d_before, d1, i as int, nodes[i as int].inputs@.len() as int);
                    }
                }
            }
            p = p + 1;
        }
        proof {
            let o = order@;
            let dd = d@;
            assert forall|a: int, b: int| 0 <= a < b < dd.len() implies #[trigger] dd[a].0@ != #[trigger] dd[b].0@ by {
                assert(o[a]@ != o[b]@);
            }
            assert forall|i: int| 0 <= i < nodes.len() implies 0 <= #[trigger] entry_from(dd, nodes[i].id@, 0) by {
                let pi = position_of(o, nodes[i].id@);
                lemma_position_bounds(o, nodes[i].id@, 0);
                if nodes[i].inputs@.len() == 0 {
                    // Not known from the order property; use the permutation instead.
                }
                assert(is_topological(nodes, o));
                lemma_id_in_order(nodes, o, i);
                let pj = position_of(o, nodes[i].id@);
                lemma_position_bounds(o, nodes[i].id@, 0);
                assert(dd[pj].0@ == nodes[i].id@);
                lemma_entry_missing(dd, nodes[i].id@, 0, pj);
                lemma_entry_bounds(dd, nodes[i].id@, 0);
            }
            assert forall|p: int| 0 <= p < dd.len() implies 0 <= #[trigger] find_node(nodes, dd[p].0@) by {
                assert(dd[p].0@ == o[p]@);
            }
            assert forall|i: int| 0 <= i < nodes.len() implies #[trigger] depth_in(dd, nodes[i].id@) == inputs_depth(
                nodes,
                dd,
                i,
                nodes[i].inputs@.len() as int,
            ) by {
                lemma_id_in_order(nodes, o, i);
                let pj = position_of(o, nodes[i].id@);
                lemma_position_bounds(o, nodes[i].id@, 0);
                lemma_entry_at(dd, pj);
                assert(dd[pj].0@ == nodes[i].id@);
                lemma_find_own(nodes, i);
                assert(find_node(nodes, o[pj]@) == i);
            }
        }
        d
    }
}

/// Every node's id occurs in a topological order.
proof fn lemma_id_in_order<V>(nodes: Seq<NodeSpec<V>>, o: Seq<NodeId>, i: int)
    requires
        ids_distinct(nodes),
        is_topological(nodes, o),
        0 <= i < nodes.len(),
    ensures
        position_of(o, nodes[i].id@) >= 0,
{
    // The order names `o.len() == nodes.len()` distinct nodes, hence all of them.
    let f = Seq::new(o.len(), |p: int| find_node(nodes, o[p]@));
    lemma_position_bounds(o, nodes[i].id@, 0);
    if position_of(o, nodes[i].id@) < 0 {
        assert forall|p: int| 0 <= p < f.len() implies 0 <= #[trigger] f[p] < nodes.len() by {
            lemma_node_index_bounds(nodes, o[p]@, 0);
        }
        assert forall|a: int, b: int| 0 <= a < b < f.len() implies #[trigger] f[a] != #[trigger] f[b] by {
            lemma_node_index_bounds(nodes, o[a]@, 0);
            lemma_node_index_bounds(nodes, o[b]@, 0);
            assert(o[a]@ != o[b]@);
        }
        // `f` misses `i`, so it maps into `nodes.len() - 1` other indices.
        let g = Seq::new(f.len(), |p: int| if f[p] < i { f[p] } else { f[p] - 1 });
        assert forall|p: int| 0 <= p < g.len() implies 0 <= #[trigger] g[p] < nodes.len() - 1 by {
            lemma_node_index_bounds(nodes, o[p]@, 0);
            if f[p] == i {
                assert(o[p]@ == nodes[i].id@);
                lemma_position_missing(o, nodes[i].id@, 0, p);
            }
        }
        assert forall|a: int, b: int| 0 <= a < b < g.len() implies #[trigger] g[a] != #[trigger] g[b] by {
            assert(f[a] != f[b]);
            lemma_node_index_bounds(nodes, o[a]@, 0);
            lemma_node_index_bounds(nodes, o[b]@, 0);
            if f[a] == i {
                lemma_position_missing(o, nodes[i].id@, 0, a);
            }
            if f[b] == i {
                lemma_position_missing(o, nodes[i].id@, 0, b);
            }
        }
        lemma_injective_bound(g, nodes.len() - 1);
    }
}

} // verus!

verus! {

// ---------------------------------------------------------------------------
// Editing
// ---------------------------------------------------------------------------
/// The inputs that remain when every reference to `id` is dropped.
pub open spec fn without_id(inputs: Seq<NodeId>, id: Seq<char>) -> Seq<NodeId> {
    inputs.filter(|x: NodeId| x@ != id)
}

/// `after` is `before` without its first node called `id`, which was `n`,
/// and without every input that named `id`.
pub open spec fn removal<V>(before: Seq<NodeSpec<V>>, id: Seq<char>, after: Seq<NodeSpec<V>>, n: NodeSpec<V>) -> bool {
    let k = find_node(before, id);
    &&& 0 <= k < before.len()
    &&& n == before[k]
    &&& after.len() == before.len() - 1
    &&& forall|j: int| 0 <= j < after.len() ==> {
        let src = before[if j < k { j } else { j + 1 }];
        let now = #[trigger] after[j];
        &&& now.id == src.id
        &&& now.kind == src.kind
        &&& now.params == src.params
        &&& now.enabled == src.enabled
        &&& now.inputs@ == without_id(src.inputs@, id)
    }
}

proof fn lemma_without_absent(inputs: Seq<NodeId>, id: Seq<char>)
    requires
        forall|k: int| 0 <= k < inputs.len() ==> (#[trigger] inputs[k])@ != id,
    ensures
        without_id(inputs, id) == inputs,
    decreases inputs.len(),
{
    if inputs.len() > 0 {
        let front = inputs.drop_last();
        assert forall|k: int| 0 <= k < front.len() implies (#[trigger] front[k])@ != id by {
            assert(front[k] == inputs[k]);
        }
        lemma_without_absent(front, id);
        assert(inputs[inputs.len() - 1]@ != id);
        assert(front.push(inputs.last()) =~= inputs);
        reveal_with_fuel(Seq::filter, 1);
        assert(without_id(inputs, id) == without_id(front, id).push(inputs.last()));
    }
}

/// Removing a node right after adding it gives back the nodes it was added
/// to, when none of them names the new node as an input.
pub proof fn law_remove_undoes_add<V>(
    before: Seq<NodeSpec<V>>,
    node: NodeSpec<V>,
    after: Seq<NodeSpec<V>>,
    removed: NodeSpec<V>,
)
    requires
        find_node(before, node.id@) == -1,
        forall|i: int, k: int|
            0 <= i < before.len() && 0 <= k < before[i].inputs@.len() ==> (#[trigger] before[i].inputs@[k])@
                != node.id@,
        removal(before.push(node), node.id@, after, removed),
    ensures
        removed == node,
        after.len() == before.len(),
        forall|j: int|
            0 <= j < before.len() ==> {
                let now = #[trigger] after[j];
                &&& now.id == before[j].id
                &&& now.kind == before[j].kind
                &&& now.params == before[j].params
                &&& now.enabled == before[j].enabled
                &&& now.inputs@ == before[j].inputs@
            },
{
    let grown = before.push(node);
    lemma_node_index_bounds(before, node.id@, 0);
    lemma_node_index_bounds(grown, node.id@, 0);
    let k = find_node(grown, node.id@);
    if k < before.len() {
        assert(grown[k] == before[k]);
    }
    assert(k == before.len());
    assert forall|j: int| 0 <= j < before.len() implies {
        let now = #[trigger] after[j];
        &&& now.id == before[j].id
        &&& now.kind == before[j].kind
        &&& now.params == before[j].params
        &&& now.enabled == before[j].enabled
        &&& now.inputs@ == before[j].inputs@
    } by {
        assert(grown[j] == before[j]);
        lemma_without_absent(before[j].inputs@, node.id@);
    }
}

fn drop_id(inputs: &Vec<NodeId>, id: &NodeId) -> (out: Vec<NodeId>)
    ensures
        out@ == without_id(inputs@, id@),
{
    let mut out: Vec<NodeId> = Vec::new();
    let mut k: usize = 0;
    while k < inputs.len()
        invariant
            k <= inputs@.len(),
            out@ == without_id(inputs@.take(k as int), id@),
        decreases inputs@.len() - k,
    {
        proof {
            assert(inputs@.take(k + 1) =~= inputs@.take(k as int).push(inputs@[k as int]));
            inputs@.take(k as int).lemma_filter_push(inputs@[k as int], |x: NodeId| x@ != id@);
        }
        if !inputs[k].same(id) {
            out.push(inputs[k].copy());
        }
        k = k + 1;
    }
    assert(inputs@.take(inputs@.len() as int) =~= inputs@);
    out
}

impl<V> Graph<V> {
    /// Append a node unless its id is taken.
    pub fn add_node(&mut self, node: NodeSpec<V>) -> (r: Result<(), GraphError>)
        ensures
            final(self).name == old(self).name,
            final(self).output == old(self).output,
            find_node(old(self).nodes@, node.id@) >= 0 ==> (r matches Err(e) && e@ == GraphFault::DuplicateNode(node.id@) && final(self).nodes@ == old(self).nodes@),
            find_node(old(self).nodes@, node.id@) < 0 ==> r is Ok && final(self).nodes@ == old(self).nodes@.push(node),
    {
        match find_node_exec(&self.nodes, &node.id) {
            Some(_) => Err(GraphError::DuplicateNode(node.id)),
            None => {
                self.nodes.push(node);
                Ok(())
            },
        }
    }

    /// Remove the first node with this id, and every input that named it.
    pub fn remove_node(&mut self, id: &NodeId) -> (r: Option<NodeSpec<V>>)
        ensures
            final(self).name == old(self).name,
            final(self).output == old(self).output,
            match r {
                None => find_node(old(self).nodes@, id@) == -1 && final(self).nodes@ == old(self).nodes@,
                Some(n) => removal(old(self).nodes@, id@, final(self).nodes@, n),
            },
    {
        let k = match find_node_exec(&self.nodes, id) {
            Some(k) => k,
            None => {
                return None;
            },
        };
        let ghost n0 = self.nodes@;
        let mut rest: Vec<NodeSpec<V>> = Vec::new();
        std::mem::swap(&mut rest, &mut self.nodes);
        let removed = rest.remove(k);
        let ghost r0 = rest@;
        let total = rest.len();
        let mut out: Vec<NodeSpec<V>> = Vec::new();
        let mut done: usize = 0;
        while rest.len() > 0
            invariant
                r0.len() == total,
                r0.len() == n0.len() - 1,
                forall|j: int| 0 <= j < r0.len() ==> r0[j] == n0[if j < k { j } else { j + 1 }],
                done + rest@.len() == r0.len(),
                rest@ == r0.subrange(done as int, r0.len() as int),
                out@.len() == done,
                forall|j: int| 0 <= j < done ==> {
                    let src = r0[j];
                    let now = #[trigger] out@[j];
                    &&& now.id == src.id
                    &&& now.kind == src.kind
                    &&& now.params == src.params
                    &&& now.enabled == src.enabled
                    &&& now.inputs@ == without_id(src.inputs@, id@)
                },
            decreases rest@.len(),
        {
            let node = rest.remove(0);
            proof {
                assert(node == r0[done as int]);
            }
            let inputs = drop_id(&node.inputs, id);
            let NodeSpec { id: nid, kind, inputs: _, params, enabled } = node;
            out.push(NodeSpec { id: nid, kind, inputs, params, enabled });
            proof {
                assert(rest@ =~= r0.subrange(done + 1, r0.len() as int));
            }
            done = done + 1;
        }
        self.nodes = out;
        Some(removed)
    }
}

// ---------------------------------------------------------------------------
// Structure for the UI
// ---------------------------------------------------------------------------
/// UI-facing summary of a graph: what to draw, nothing about how to render it.
#[derive(Clone, Debug)]
pub struct GraphStructure {
    pub name: String,
    pub output: NodeId,
    pub nodes: Vec<NodeSummary>,
}

/// One node as the UI draws it.
#[derive(Clone, Debug)]
pub struct NodeSummary {
    pub id: NodeId,
    /// Kind label (`warp`, `image · images/x.png`).
    pub kind: String,
    pub doc: String,
    /// One entry per declared input slot.
    pub inputs: Vec<InputLink>,
    pub feedback: bool,
    pub enabled: bool,
    /// A file on this machine that previews the node's output, when a
    /// renderer that knows its assets fills it in.
    pub preview: Option<String>,
}

/// One input slot of a node.
#[derive(Clone, Debug)]
pub struct InputLink {
    pub name: String,
    pub optional: bool,
    pub from: Option<NodeId>,
}

/// The definition a node's kind names in the library, if any.
pub open spec fn kind_def(kind: NodeKind, lib: Seq<NodeDef>) -> Option<NodeDef> {
    match kind {
        NodeKind::Shader { node } => lookup(lib, node@),
        _ => None,
    }
}

/// `s` summarizes `node`: its slots are the definition's (with the connected
/// node per slot), or, without a definition, one `in<slot>` per input.
pub open spec fn summarizes<V>(s: NodeSummary, node: NodeSpec<V>, lib: Seq<NodeDef>) -> bool {
    &&& s.id == node.id
    &&& s.kind@ == label_spec(node.kind)
    &&& s.enabled == node.enabled
    &&& match kind_def(node.kind, lib) {
        Some(d) => {
            &&& s.doc@ == d.doc@
            &&& s.feedback == d.feedback
            &&& s.inputs@.len() == d.inputs@.len()
            &&& forall|k: int|
                0 <= k < s.inputs@.len() ==> {
                    let l = #[trigger] s.inputs@[k];
                    &&& l.name@ == d.inputs@[k].name@
                    &&& l.optional == d.inputs@[k].optional
                    &&& l.from == if k < node.inputs@.len() {
                        Some(node.inputs@[k])
                    } else {
                        None
                    }
                }
        },
        None => {
            &&& s.doc@ == Seq::<char>::empty()
            &&& !s.feedback
            &&& s.inputs@.len() == node.inputs@.len()
            &&& forall|k: int|
                0 <= k < s.inputs@.len() ==> {
                    let l = #[trigger] s.inputs@[k];
                    &&& l.name@ == "in"@ + decimal(k as nat)
                    &&& !l.optional
                    &&& l.from == Some(node.inputs@[k])
                }
        },
    }
}

/// The preview file of a node: an image source's path under the assets
/// directory, when one is given.
pub open spec fn preview_spec(kind: NodeKind, assets: Option<Seq<char>>) -> Option<Seq<char>> {
    match (kind, assets) {
        (NodeKind::Image { path }, Some(a)) => Some(path_join(a, path@)),
        _ => None,
    }
}

fn preview_of(kind: &NodeKind, assets: Option<&str>) -> (r: Option<String>)
    ensures
        match r {
            Some(p) => preview_spec(*kind, match assets {
                Some(a) => Some(a@),
                None => None,
            }) == Some(p@),
            None => preview_spec(*kind, match assets {
                Some(a) => Some(a@),
                None => None,
            }) is None,
        },
{
    match (kind, assets) {
        (NodeKind::Image { path }, Some(a)) => {
            let dir = chars_of(a);
            let file = chars_of_string(path);
            let joined = join_path(&dir, &file);
            Some(string_of(&joined))
        },
        _ => None,
    }
}

fn summarize<V>(node: &NodeSpec<V>, library: &NodeLibrary, preview: Option<String>) -> (s: NodeSummary)
    ensures
        summarizes(s, *node, library@),
        s.preview == preview,
{
    let def = node.kind.def(library);
    let mut inputs: Vec<InputLink> = Vec::new();
    let mut k: usize = 0;
    match def {
        Some(d) => {
            while k < d.inputs.len()
                invariant
                    k <= d.inputs@.len(),
                    inputs@.len() == k,
                    forall|m: int|
                        0 <= m < k ==> {
                            let l = #[trigger] inputs@[m];
                            &&& l.name@ == d.inputs@[m].name@
                            &&& l.optional == d.inputs@[m].optional
                            &&& l.from == if m < node.inputs@.len() {
                                Some(node.inputs@[m])
                            } else {
                                None
                            }
                        },
                decreases d.inputs@.len() - k,
            {
                let from = if k < node.inputs.len() {
                    Some(node.inputs[k].copy())
                } else {
                    None
                };
                inputs.push(
                    InputLink { name: d.inputs[k].name.clone(), optional: d.inputs[k].optional, from },
                );
                k = k + 1;
            }
            NodeSummary {
                id: node.id.copy(),
                kind: node.kind.label(),
                doc: d.doc.clone(),
                inputs,
                feedback: d.feedback,
                enabled: node.enabled,
                preview,
            }
        },
        None => {
            while k < node.inputs.len()
                invariant
                    k <= node.inputs@.len(),
                    inputs@.len() == k,
                    forall|m: int|
                        0 <= m < k ==> {
                            let l = #[trigger] inputs@[m];
                            &&& l.name@ == "in"@ + decimal(m as nat)
                            &&& !l.optional
                            &&& l.from == Some(node.inputs@[m])
                        },
                decreases node.inputs@.len() - k,
            {
                let mut name = chars_of("in");
                append_decimal(&mut name, k as u64);
                inputs.push(
                    InputLink { name: string_of(&name), optional: false, from: Some(node.inputs[k].copy()) },
                );
                k = k + 1;
            }
            NodeSummary {
                id: node.id.copy(),
                kind: node.kind.label(),
                doc: String::new(),
                inputs,
                feedback: false,
                enabled: node.enabled,
                preview,
            }
        },
    }
}

impl<V> Graph<V> {
    /// UI-facing structure: one summary per node, in graph order; no previews.
    pub fn structure(&self, library: &NodeLibrary) -> (s: GraphStructure)
        ensures
            s.name == self.name,
            s.output == self.output,
            s.nodes@.len() == self.nodes@.len(),
            forall|i: int|
                0 <= i < s.nodes@.len() ==> summarizes(#[trigger] s.nodes@[i], self.nodes@[i], library@)
                    && s.nodes@[i].preview is None,
    {
        self.structure_with_assets(library, None)
    }

    /// [`Graph::structure`] with each image source's preview resolved against
    /// an assets directory.
    pub fn structure_with_assets(&self, library: &NodeLibrary, assets: Option<&str>) -> (s: GraphStructure)
        ensures
            s.name == self.name,
            s.output == self.output,
            s.nodes@.len() == self.nodes@.len(),
            forall|i: int|
                0 <= i < s.nodes@.len() ==> {
                    &&& summarizes(#[trigger] s.nodes@[i], self.nodes@[i], library@)
                    &&& match s.nodes@[i].preview {
                        Some(p) => preview_spec(self.nodes@[i].kind, match assets {
                            Some(a) => Some(a@),
                            None => None,
                        }) == Some(p@),
                        None => preview_spec(self.nodes@[i].kind, match assets {
                            Some(a) => Some(a@),
                            None => None,
                        }) is None,
                    }
                },
    {
        let mut nodes: Vec<NodeSummary> = Vec::new();
        let mut i: usize = 0;
        while i < self.nodes.len()
            invariant
                i <= self.nodes@.len(),
                nodes@.len() == i,
                forall|j: int|
                    0 <= j < i ==> {
                        &&& summarizes(#[trigger] nodes@[j], self.nodes@[j], library@)
                        &&& match nodes@[j].preview {
                            Some(p) => preview_spec(self.nodes@[j].kind, match assets {
                                Some(a) => Some(a@),
                                None => None,
                            }) == Some(p@),
                            None => preview_spec(self.nodes@[j].kind, match assets {
                                Some(a) => Some(a@),
                                None => None,
                            }) is None,
                        }
                    },
            decreases self.nodes@.len() - i,
        {
            let preview = preview_of(&self.nodes[i].kind, assets);
            nodes.push(summarize(&self.nodes[i], library, preview));
            i = i + 1;
        }
        GraphStructure { name: self.name.clone(), output: self.output.copy(), nodes }
    }
}

} // verus!
