//! Node definitions: the closed vocabulary of what a node may declare.
//!
//! A [`NodeDef`] is one fullscreen pass: a WGSL fragment body, named texture
//! inputs, an optional feedback tap and a list of typed parameters. A
//! [`NodeLibrary`] holds definitions by name.
use vstd::prelude::*;

use crate::graph::{insert_param, keys_sorted, params_map};
use crate::params::{ParamDefault, ParamModel, ParamSpec};
use crate::text::{
    chars_eq, chars_of, chars_of_string, seq_lt, lemma_seq_lt_asymmetric, lemma_seq_lt_irreflexive,
    lemma_seq_lt_total, lemma_seq_lt_transitive, string_lt,
};

verus! {

/// Most texture inputs one node may declare.
pub const MAX_INPUTS: usize = 4;

/// Size of the per-node parameter uniform buffer in bytes.
pub const UNIFORM_BYTES: usize = 256;

/// One declared texture input.
#[derive(Clone, Debug)]
pub struct InputDef {
    pub name: String,
    /// Optional inputs may stay unconnected; the shader sees black.
    pub optional: bool,
}

/// Where a definition came from; informational.
#[derive(Clone, Debug)]
pub enum NodeOrigin {
    Builtin,
    /// A file, by its path.
    File(String),
    Rust(String),
}

/// One node kind: a single fullscreen pass.
#[derive(Clone, Debug)]
pub struct NodeDef {
    pub name: String,
    pub doc: String,
    pub inputs: Vec<InputDef>,
    /// Bind last frame's output of this node as `previous`.
    pub feedback: bool,
    pub params: Vec<ParamSpec>,
    /// WGSL fragment body (imports allowed, no bindings; those are generated).
    pub source: String,
    pub origin: NodeOrigin,
}

/// Why a node header was refused.
#[derive(Clone, Debug)]
pub enum HeaderError {
    Syntax { line: usize, message: String },
    TooManyInputs(usize),
    UniformTooLarge(usize),
    DuplicateParam(String),
    DuplicateInput(String),
    Reserved(String),
    ImportCollision(String),
    Io(String),
}

/// What a [`HeaderError`] says, as plain values.
pub enum HeaderFault {
    Syntax { line: int, message: Seq<char> },
    TooManyInputs(int),
    UniformTooLarge(int),
    DuplicateParam(Seq<char>),
    DuplicateInput(Seq<char>),
    Reserved(Seq<char>),
    ImportCollision(Seq<char>),
    Io(Seq<char>),
}

impl View for HeaderError {
    type V = HeaderFault;

    open spec fn view(&self) -> HeaderFault {
        match self {
            HeaderError::Syntax { line, message } => HeaderFault::Syntax { line: *line as int, message: message@ },
            HeaderError::TooManyInputs(n) => HeaderFault::TooManyInputs(*n as int),
            HeaderError::UniformTooLarge(n) => HeaderFault::UniformTooLarge(*n as int),
            HeaderError::DuplicateParam(s) => HeaderFault::DuplicateParam(s@),
            HeaderError::DuplicateInput(s) => HeaderFault::DuplicateInput(s@),
            HeaderError::Reserved(s) => HeaderFault::Reserved(s@),
            HeaderError::ImportCollision(s) => HeaderFault::ImportCollision(s@),
            HeaderError::Io(s) => HeaderFault::Io(s@),
        }
    }
}

impl View for InputDef {
    type V = (Seq<char>, bool);

    open spec fn view(&self) -> (Seq<char>, bool) {
        (self.name@, self.optional)
    }
}

/// What a [`NodeDef`] declares, as plain values (its origin aside).
#[verifier::ext_equal]
pub struct NodeModel {
    pub name: Seq<char>,
    pub doc: Seq<char>,
    /// Name and whether the input is optional.
    pub inputs: Seq<(Seq<char>, bool)>,
    pub feedback: bool,
    pub params: Seq<ParamModel>,
    pub source: Seq<char>,
}

impl View for NodeDef {
    type V = NodeModel;

    open spec fn view(&self) -> NodeModel {
        NodeModel {
            name: self.name@,
            doc: self.doc@,
            inputs: self.inputs@.map_values(|i: InputDef| i@),
            feedback: self.feedback,
            params: self.params@.map_values(|p: ParamSpec| p@),
            source: self.source@,
        }
    }
}

/// Index of the first parameter at or after `i` named `name`, or -1.
pub open spec fn param_index_from(params: Seq<ParamSpec>, name: Seq<char>, i: int) -> int
    decreases params.len() - i,
{
    if i < 0 || i >= params.len() {
        -1
    } else if params[i].name@ == name {
        i
    } else {
        param_index_from(params, name, i + 1)
    }
}

/// The first parameter named `name`.
pub open spec fn param_named(params: Seq<ParamSpec>, name: Seq<char>) -> Option<ParamSpec> {
    let k = param_index_from(params, name, 0);
    if k < 0 {
        None
    } else {
        Some(params[k])
    }
}

/// Each parameter's default by name; a later declaration of a name replaces
/// an earlier one.
pub open spec fn defaults_map(params: Seq<ParamSpec>) -> Map<Seq<char>, ParamDefault>
    decreases params.len(),
{
    if params.len() == 0 {
        Map::empty()
    } else {
        defaults_map(params.drop_last()).insert(params.last().name@, params.last().default)
    }
}

/// Number of inputs before the first optional one.
pub open spec fn leading_required(inputs: Seq<InputDef>) -> nat
    decreases inputs.len(),
{
    if inputs.len() == 0 || inputs[0].optional {
        0
    } else {
        1 + leading_required(inputs.drop_first())
    }
}

/// The required inputs are exactly those before the first optional one:
/// every input before that count is required, and the input at that count,
/// if any, is optional. With no optional input, every input is required.
pub proof fn law_required_inputs_lead(inputs: Seq<InputDef>)
    ensures
        leading_required(inputs) <= inputs.len(),
        forall|k: int| 0 <= k < leading_required(inputs) ==> !(#[trigger] inputs[k]).optional,
        leading_required(inputs) < inputs.len() ==> inputs[leading_required(inputs) as int].optional,
        (forall|k: int| 0 <= k < inputs.len() ==> !(#[trigger] inputs[k]).optional) ==> leading_required(
            inputs,
        ) == inputs.len(),
    decreases inputs.len(),
{
    if inputs.len() > 0 && !inputs[0].optional {
        let rest = inputs.drop_first();
        law_required_inputs_lead(rest);
        assert forall|k: int| 0 <= k < leading_required(inputs) implies !(#[trigger] inputs[k]).optional by {
            if k > 0 {
                assert(inputs[k] == rest[k - 1]);
            }
        }
        if leading_required(inputs) < inputs.len() {
            assert(inputs[leading_required(inputs) as int] == rest[leading_required(rest) as int]);
        }
        if forall|k: int| 0 <= k < inputs.len() ==> !(#[trigger] inputs[k]).optional {
            assert forall|k: int| 0 <= k < rest.len() implies !(#[trigger] rest[k]).optional by {
                assert(rest[k] == inputs[k + 1]);
            }
        }
    }
}

pub proof fn lemma_param_index_from_bounds(params: Seq<ParamSpec>, name: Seq<char>, i: int)
    ensures
        param_index_from(params, name, i) == -1 || (0 <= i <= param_index_from(params, name, i)
            < params.len() && params[param_index_from(params, name, i)].name@ == name),
    decreases params.len() - i,
{
    if 0 <= i < params.len() && params[i].name@ != name {
        lemma_param_index_from_bounds(params, name, i + 1);
    }
}

impl NodeDef {
    /// The parameter called `name`, if declared.
    pub fn param(&self, name: &str) -> (r: Option<&ParamSpec>)
        ensures
            match r {
                Some(p) => param_named(self.params@, name@) == Some(*p),
                None => param_named(self.params@, name@) is None,
            },
    {
        let n = chars_of(name);
        let mut i: usize = 0;
        while i < self.params.len()
            invariant
                i <= self.params.len(),
                n@ == name@,
                param_index_from(self.params@, name@, 0) == param_index_from(
                    self.params@,
                    name@,
                    i as int,
                ),
            decreases self.params.len() - i,
        {
            let pn = chars_of_string(&self.params[i].name);
            if chars_eq(&pn, &n) {
                return Some(&self.params[i]);
            }
            i = i + 1;
        }
        None
    }

    /// Each parameter's default, by name, sorted by name; where a name is
    /// declared twice the later declaration wins.
    pub fn defaults(&self) -> (out: Vec<(String, ParamDefault)>)
        ensures
            keys_sorted(out@),
            params_map(out@) == defaults_map(self.params@),
    {
        let mut out: Vec<(String, ParamDefault)> = Vec::new();
        let mut i: usize = 0;
        while i < self.params.len()
            invariant
                i <= self.params.len(),
                keys_sorted(out@),
                params_map(out@) == defaults_map(self.params@.take(i as int)),
            decreases self.params.len() - i,
        {
            let p = &self.params[i];
            insert_param(&mut out, p.name.clone(), p.default.copy());
            proof {
                assert(self.params@.take(i + 1).drop_last() =~= self.params@.take(i as int));
            }
            i = i + 1;
        }
        proof {
            assert(self.params@.take(i as int) =~= self.params@);
        }
        out
    }

    /// Names of the declared inputs, in order.
    pub fn input_names(&self) -> (r: Vec<String>)
        ensures
            r@.len() == self.inputs@.len(),
            forall|i: int| 0 <= i < r@.len() ==> r@[i]@ == self.inputs@[i].name@,
    {
        let mut r: Vec<String> = Vec::new();
        let mut i: usize = 0;
        while i < self.inputs.len()
            invariant
                i <= self.inputs.len(),
                r@.len() == i,
                forall|j: int| 0 <= j < i ==> r@[j]@ == self.inputs@[j].name@,
            decreases self.inputs.len() - i,
        {
            r.push(self.inputs[i].name.clone());
            i = i + 1;
        }
        r
    }

    /// How many inputs must be connected: those before the first optional one.
    pub fn required_inputs(&self) -> (n: usize)
        ensures
            n == leading_required(self.inputs@),
    {
        let mut i: usize = 0;
        assert(self.inputs@.subrange(0, self.inputs.len() as int) =~= self.inputs@);
        while i < self.inputs.len() && !self.inputs[i].optional
            invariant
                i <= self.inputs.len(),
                leading_required(self.inputs@) == i + leading_required(
                    self.inputs@.subrange(i as int, self.inputs.len() as int),
                ),
            decreases self.inputs.len() - i,
        {
            proof {
                let rest = self.inputs@.subrange(i as int, self.inputs.len() as int);
                assert(rest.drop_first() =~= self.inputs@.subrange(i + 1, self.inputs.len() as int));
            }
            i = i + 1;
        }
        proof {
            let rest = self.inputs@.subrange(i as int, self.inputs.len() as int);
            if i < self.inputs.len() {
                assert(rest[0] == self.inputs@[i as int]);
            }
        }
        i
    }
}

// ---------------------------------------------------------------------------
// Library
// ---------------------------------------------------------------------------
/// Names strictly increasing.
pub open spec fn names_sorted(defs: Seq<NodeDef>) -> bool {
    forall|i: int, j: int| 0 <= i < j < defs.len() ==> seq_lt(#[trigger] defs[i].name@, #[trigger] defs[j].name@)
}

/// Index of the first definition at or after `i` named `name`, or -1.
pub open spec fn def_index_from(defs: Seq<NodeDef>, name: Seq<char>, i: int) -> int
    decreases defs.len() - i,
{
    if i < 0 || i >= defs.len() {
        -1
    } else if defs[i].name@ == name {
        i
    } else {
        def_index_from(defs, name, i + 1)
    }
}

pub proof fn lemma_def_index_from_bounds(defs: Seq<NodeDef>, name: Seq<char>, i: int)
    ensures
        def_index_from(defs, name, i) == -1 || (0 <= i <= def_index_from(defs, name, i)
            < defs.len() && defs[def_index_from(defs, name, i)].name@ == name),
        0 <= i && def_index_from(defs, name, i) == -1 ==> forall|j: int|
            i <= j < defs.len() ==> defs[j].name@ != name,
        0 <= i ==> forall|j: int| i <= j < def_index_from(defs, name, i) ==> defs[j].name@ != name,
    decreases defs.len() - i,
{
    if 0 <= i < defs.len() && defs[i].name@ != name {
        lemma_def_index_from_bounds(defs, name, i + 1);
    }
}

/// All node kinds a renderer knows, by name.
pub struct NodeLibrary {
    defs: Vec<NodeDef>,
}

impl View for NodeLibrary {
    type V = Seq<NodeDef>;

    closed spec fn view(&self) -> Seq<NodeDef> {
        self.defs@
    }
}

/// The definition called `name` in a library's sequence of definitions.
pub open spec fn lookup(defs: Seq<NodeDef>, name: Seq<char>) -> Option<NodeDef> {
    let k = def_index_from(defs, name, 0);
    if k < 0 {
        None
    } else {
        Some(defs[k])
    }
}

/// Number of definitions whose name sorts before `name`.
pub open spec fn insert_position(defs: Seq<NodeDef>, name: Seq<char>) -> int {
    defs.filter(|d: NodeDef| seq_lt(d.name@, name)).len() as int
}

/// The definitions after `def` is added: it replaces the one of the same
/// name in place, or goes where its name sorts.
pub open spec fn inserted(defs: Seq<NodeDef>, def: NodeDef) -> Seq<NodeDef> {
    let k = def_index_from(defs, def.name@, 0);
    if k >= 0 {
        defs.update(k, def)
    } else {
        defs.insert(insert_position(defs, def.name@), def)
    }
}

/// The first definition called `name` is at `k`.
proof fn lemma_first_named(defs: Seq<NodeDef>, name: Seq<char>, k: int)
    requires
        0 <= k < defs.len(),
        defs[k].name@ == name,
        forall|j: int| 0 <= j < k ==> defs[j].name@ != name,
    ensures
        def_index_from(defs, name, 0) == k,
{
    lemma_def_index_skip(defs, name, k);
}

/// After adding `def`, looking up its name finds it, and looking up any
/// other name finds what it found before.
pub proof fn law_insert_then_get(defs: Seq<NodeDef>, def: NodeDef, name: Seq<char>)
    ensures
        lookup(inserted(defs, def), def.name@) == Some(def),
        name != def.name@ ==> lookup(inserted(defs, def), name) == lookup(defs, name),
{
    let n = def.name@;
    let k = def_index_from(defs, n, 0);
    let after = inserted(defs, def);
    lemma_def_index_from_bounds(defs, n, 0);
    lemma_def_index_from_bounds(defs, name, 0);
    let j = def_index_from(defs, name, 0);
    if k >= 0 {
        assert forall|i: int| 0 <= i < k implies after[i].name@ != n by {
            assert(after[i] == defs[i]);
        }
        lemma_first_named(after, n, k);
        if name != n {
            if j >= 0 {
                assert forall|i: int| 0 <= i < j implies after[i].name@ != name by {
                    if i != k {
                        assert(after[i] == defs[i]);
                    }
                }
                lemma_first_named(after, name, j);
            } else {
                assert forall|i: int| 0 <= i < after.len() implies after[i].name@ != name by {}
                lemma_def_index_none(after, name);
            }
        }
    } else {
        let p = insert_position(defs, n);
        let f = |d: NodeDef| seq_lt(d.name@, n);
        defs.lemma_filter_len(f);
        assert(0 <= p <= defs.len());
        lemma_first_named(after, n, p);
        if name != n {
            if j >= 0 {
                let jj = if j < p { j } else { j + 1 };
                assert(after[jj] == defs[j]);
                assert forall|i: int| 0 <= i < jj implies after[i].name@ != name by {
                    if i < p {
                        assert(after[i] == defs[i]);
                    } else if i > p {
                        assert(after[i] == defs[i - 1]);
                    }
                }
                lemma_first_named(after, name, jj);
            } else {
                assert forall|i: int| 0 <= i < after.len() implies after[i].name@ != name by {
                    if i < p {
                        assert(after[i] == defs[i]);
                    } else if i > p {
                        assert(after[i] == defs[i - 1]);
                    }
                }
                lemma_def_index_none(after, name);
            }
        }
    }
}

impl NodeLibrary {
    #[verifier::type_invariant]
    closed spec fn sorted(self) -> bool {
        names_sorted(self.defs@)
    }

    /// A library with no definitions.
    pub fn empty() -> (lib: NodeLibrary)
        ensures
            lib@ == Seq::<NodeDef>::empty(),
    {
        NodeLibrary { defs: Vec::new() }
    }

    /// The definition called `name`.
    pub fn get(&self, name: &str) -> (r: Option<&NodeDef>)
        ensures
            match r {
                Some(d) => lookup(self@, name@) == Some(*d),
                None => lookup(self@, name@) is None,
            },
    {
        let n = chars_of(name);
        let mut i: usize = 0;
        while i < self.defs.len()
            invariant
                i <= self.defs.len(),
                n@ == name@,
                def_index_from(self.defs@, name@, 0) == def_index_from(self.defs@, name@, i as int),
            decreases self.defs.len() - i,
        {
            let dn = chars_of_string(&self.defs[i].name);
            if chars_eq(&dn, &n) {
                return Some(&self.defs[i]);
            }
            i = i + 1;
        }
        None
    }

    /// Is a definition called `name` present?
    pub fn contains(&self, name: &str) -> (b: bool)
        ensures
            b == (lookup(self@, name@) is Some),
    {
        match self.get(name) {
            Some(_) => true,
            None => false,
        }
    }

    /// Names of all definitions, in ascending order.
    pub fn names(&self) -> (r: Vec<String>)
        ensures
            r@.len() == self@.len(),
            forall|i: int| 0 <= i < r@.len() ==> r@[i]@ == self@[i].name@,
            forall|i: int, j: int| 0 <= i < j < r@.len() ==> seq_lt(r@[i]@, r@[j]@),
    {
        proof {
            use_type_invariant(self);
        }
        let mut r: Vec<String> = Vec::new();
        let mut i: usize = 0;
        while i < self.defs.len()
            invariant
                i <= self.defs.len(),
                r@.len() == i,
                forall|j: int| 0 <= j < i ==> r@[j]@ == self.defs@[j].name@,
            decreases self.defs.len() - i,
        {
            r.push(self.defs[i].name.clone());
            i = i + 1;
        }
        proof {
            assert forall|a: int, b: int| 0 <= a < b < r@.len() implies seq_lt(r@[a]@, r@[b]@) by {
                assert(seq_lt(self.defs@[a].name@, self.defs@[b].name@));
            }
        }
        r
    }

    /// All definitions, in ascending order of name.
    pub fn iter(&self) -> (r: &Vec<NodeDef>)
        ensures
            r@ == self@,
    {
        &self.defs
    }

    /// Add or replace the definition of `def.name`; returns the one replaced.
    pub fn insert(&mut self, def: NodeDef) -> (old_def: Option<NodeDef>)
        ensures
            final(self)@ == inserted(old(self)@, def),
            old_def == lookup(old(self)@, def.name@),
    {
        proof {
            use_type_invariant(&*self);
        }
        let mut defs: Vec<NodeDef> = Vec::new();
        std::mem::swap(&mut defs, &mut self.defs);
        let ghost d0 = defs@;
        let name = def.name.clone();
        // First position whose name is not below `name`.
        let mut p: usize = 0;
        while p < defs.len() && string_lt(&defs[p].name, &name)
            invariant
                p <= defs.len(),
                defs@ == d0,
                names_sorted(d0),
                name@ == def.name@,
                forall|j: int| 0 <= j < p ==> seq_lt(d0[j].name@, name@),
            decreases defs.len() - p,
        {
            p = p + 1;
        }
        proof {
            // Everything from `p` on is not below `name`.
            assert forall|j: int| p <= j < d0.len() implies !seq_lt(d0[j].name@, name@) by {
                if j > p as int {
                    assert(seq_lt(d0[p as int].name@, d0[j].name@));
                    if seq_lt(d0[j].name@, name@) {
                        lemma_seq_lt_transitive(d0[p as int].name@, d0[j].name@, name@);
                    }
                }
            }
            lemma_filter_prefix(d0, name@, p as int);
            lemma_def_index_from_bounds(d0, name@, 0);
            // Names before `p` differ from `name`; if `name` occurs it is at `p`.
            assert forall|j: int| 0 <= j < p implies d0[j].name@ != name@ by {
                if d0[j].name@ == name@ {
                    lemma_seq_lt_irreflexive(name@);
                }
            }
        }
        let found = p < defs.len() && string_eq_def(&defs[p].name, &name);
        if found {
            proof {
                lemma_def_index_skip(d0, name@, p as int);
            }
            let mut d = def;
            // Swap the new definition into place, getting the old one back.
            let old = vec_replace(&mut defs, p, d);
            proof {
                assert forall|a: int, b: int| 0 <= a < b < defs@.len() implies seq_lt(
                    #[trigger] defs@[a].name@,
                    #[trigger] defs@[b].name@,
                ) by {
                    assert(defs@[a].name@ == d0[a].name@);
                    assert(defs@[b].name@ == d0[b].name@);
                }
            }
            self.defs = defs;
            Some(old)
        } else {
            proof {
                if p < d0.len() {
                    assert(d0[p as int].name@ != name@);
                    lemma_seq_lt_total(d0[p as int].name@, name@);
                }
                assert forall|j: int| 0 <= j < d0.len() implies d0[j].name@ != name@ by {
                    if j >= p && d0[j].name@ == name@ {
                        if j > p {
                            assert(seq_lt(d0[p as int].name@, d0[j].name@));
                            lemma_seq_lt_asymmetric(name@, d0[p as int].name@);
                        }
                    }
                }
                lemma_def_index_none(d0, name@);
            }
            defs.insert(p, def);
            proof {
                let d1 = defs@;
                assert(d1 == d0.insert(p as int, def));
                assert forall|a: int, b: int| 0 <= a < b < d1.len() implies seq_lt(
                    #[trigger] d1[a].name@,
                    #[trigger] d1[b].name@,
                ) by {
                    if b < p {
                        assert(d1[a] == d0[a] && d1[b] == d0[b]);
                    } else if b == p {
                        assert(d1[a] == d0[a]);
                    } else if a < p {
                        assert(d1[a] == d0[a] && d1[b] == d0[b - 1]);
                        assert(!seq_lt(d0[b - 1].name@, name@));
                        assert(d0[b - 1].name@ != name@);
                        lemma_seq_lt_total(d0[b - 1].name@, name@);
                        lemma_seq_lt_transitive(d0[a].name@, name@, d0[b - 1].name@);
                    } else if a == p {
                        assert(d1[b] == d0[b - 1]);
                        assert(!seq_lt(d0[b - 1].name@, name@));
                        assert(d0[b - 1].name@ != name@);
                        lemma_seq_lt_total(d0[b - 1].name@, name@);
                    } else {
                        assert(d1[a] == d0[a - 1] && d1[b] == d0[b - 1]);
                    }
                }
            }
            self.defs = defs;
            None
        }
    }
}

fn string_eq_def(a: &String, b: &String) -> (r: bool)
    ensures
        r == (a@ == b@),
{
    crate::text::string_eq(a, b)
}

/// Puts `x` at `i` and hands back what was there.
pub(crate) fn vec_replace<T>(v: &mut Vec<T>, i: usize, x: T) -> (old_x: T)
    requires
        i < old(v).len(),
    ensures
        final(v)@ == old(v)@.update(i as int, x),
        old_x == old(v)@[i as int],
{
    v.push(x);
    let old_x = v.swap_remove(i);
    proof {
        assert(v@ =~= old(v)@.update(i as int, x));
    }
    old_x
}

proof fn lemma_def_index_skip(defs: Seq<NodeDef>, name: Seq<char>, i: int)
    requires
        0 <= i <= defs.len(),
        forall|j: int| 0 <= j < i ==> defs[j].name@ != name,
    ensures
        def_index_from(defs, name, 0) == def_index_from(defs, name, i),
    decreases i,
{
    if i > 0 {
        lemma_def_index_skip(defs, name, i - 1);
    }
}

proof fn lemma_def_index_none(defs: Seq<NodeDef>, name: Seq<char>)
    requires
        forall|j: int| 0 <= j < defs.len() ==> defs[j].name@ != name,
    ensures
        def_index_from(defs, name, 0) == -1,
{
    lemma_def_index_skip(defs, name, defs.len() as int);
}

/// When the names below `name` are exactly the first `p`, the filter has `p` elements.
proof fn lemma_filter_prefix(defs: Seq<NodeDef>, name: Seq<char>, p: int)
    requires
        0 <= p <= defs.len(),
        forall|j: int| 0 <= j < p ==> seq_lt(defs[j].name@, name),
        forall|j: int| p <= j < defs.len() ==> !seq_lt(defs[j].name@, name),
    ensures
        defs.filter(|d: NodeDef| seq_lt(d.name@, name)).len() == p,
    decreases defs.len(),
{
    let f = |d: NodeDef| seq_lt(d.name@, name);
    if defs.len() == 0 {
    } else {
        let last = defs.last();
        let front = defs.drop_last();
        assert(defs =~= front.push(last));
        front.lemma_filter_push(last, f);
        if p == defs.len() {
            lemma_filter_prefix(front, name, p - 1);
        } else {
            lemma_filter_prefix(front, name, p);
        }
    }
}

} // verus!
