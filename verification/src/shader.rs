//! The complete WGSL a node compiles to: hoisted imports, the generated
//! parameter struct, the frame uniform, input bindings with their sampling
//! helpers, the feedback tap, then the author's body.
use vstd::prelude::*;

use crate::layout::{
    input_bindings, input_bindings_spec, kinds_of, layout_fits, layout_of, lemma_layout_views,
    lemma_members_fit, model_kinds, previous_bindings, wgsl_struct_text,
};
use crate::node_def::{NodeDef, NodeModel, MAX_INPUTS};
use crate::params::ParamSpec;
use crate::text::{
    append_chars, append_decimal, append_str, chars_of_string, contains_str, decimal, find_str,
    lemma_decimal_injective,
    lines, lines_exec, slice_of, starts_with, starts_with_str, string_of, trim_start,
    trim_start_exec,
};

verus! {

/// A line that `#import`s or declares an import path.
pub open spec fn is_import_line(line: Seq<char>) -> bool {
    starts_with(trim_start(line), "#import"@) || starts_with(trim_start(line), "#define_import_path"@)
}

/// Each line followed by a newline.
pub open spec fn line_block(ls: Seq<Seq<char>>) -> Seq<char>
    decreases ls.len(),
{
    if ls.len() == 0 {
        Seq::empty()
    } else {
        line_block(ls.drop_last()) + ls.last() + "\n"@
    }
}

/// The lines joined with newlines between them.
pub open spec fn join_lines(ls: Seq<Seq<char>>) -> Seq<char>
    decreases ls.len(),
{
    if ls.len() == 0 {
        Seq::empty()
    } else if ls.len() == 1 {
        ls[0]
    } else {
        join_lines(ls.drop_last()) + "\n"@ + ls.last()
    }
}

/// The texture and sampler bindings of input number `i`.
pub open spec fn input_binding_lines(i: int) -> Seq<char> {
    let (tex, smp) = input_bindings_spec(i as usize);
    let n = decimal(i as nat);
    "@group(#{MATERIAL_BIND_GROUP}) @binding("@ + decimal(tex as nat) + ") var zygote_in"@ + n
        + "_tex: texture_2d<f32>;\n"@ + "@group(#{MATERIAL_BIND_GROUP}) @binding("@ + decimal(
        smp as nat,
    ) + ") var zygote_in"@ + n + "_smp: sampler;\n"@
}

/// The function that samples input number `i`, named after it.
pub open spec fn input_sample_fn(i: int, name: Seq<char>) -> Seq<char> {
    let n = decimal(i as nat);
    "fn "@ + name + "(uv: vec2<f32>) -> vec4<f32> {\n    return textureSample(zygote_in"@ + n
        + "_tex, zygote_in"@ + n + "_smp, uv);\n}\n"@
}

/// `has_NAME`: whether input number `i` is connected.
pub open spec fn input_has_fn(i: int, name: Seq<char>) -> Seq<char> {
    "fn has_"@ + name + "() -> bool {\n    return (frame.connected & (1u << "@ + decimal(i as nat)
        + "u)) != 0u;\n}\n"@
}

/// The declarations for input number `i`, called `name`: its bindings, a
/// sampling function named after it, and `has_NAME`.
pub open spec fn input_block(i: int, name: Seq<char>) -> Seq<char> {
    input_binding_lines(i) + input_sample_fn(i, name) + input_has_fn(i, name)
}

/// The declarations of all inputs, in order.
pub open spec fn input_blocks(names: Seq<Seq<char>>) -> Seq<char>
    decreases names.len(),
{
    if names.len() == 0 {
        Seq::empty()
    } else {
        input_blocks(names.drop_last()) + input_block(names.len() - 1, names.last())
    }
}

/// The name of the texture bound for input number `i`.
pub open spec fn input_texture(i: int) -> Seq<char> {
    "zygote_in"@ + decimal(i as nat) + "_tex"@
}

/// The name of the sampler bound for input number `i`.
pub open spec fn input_sampler(i: int) -> Seq<char> {
    "zygote_in"@ + decimal(i as nat) + "_smp"@
}

/// A binding declaration: variable `var` of type `ty` at binding `slot`.
pub open spec fn binding_decl(slot: nat, var: Seq<char>, ty: Seq<char>) -> Seq<char> {
    "@group(#{MATERIAL_BIND_GROUP}) @binding("@ + decimal(slot) + ") var "@ + var + ": "@ + ty + ";\n"@
}

/// Input number `i` is sampled through its own bindings: its bindings
/// declare texture [`input_texture`]`(i)` and sampler
/// [`input_sampler`]`(i)`, the function named after the input samples
/// exactly that texture with that sampler, and no two inputs share a texture
/// or a sampler.
pub proof fn law_input_samples_its_own_texture(i: int, j: int, name: Seq<char>)
    requires
        0 <= i,
        0 <= j,
    ensures
        input_binding_lines(i) == binding_decl(
            input_bindings_spec(i as usize).0 as nat,
            input_texture(i),
            "texture_2d<f32>"@,
        ) + binding_decl(input_bindings_spec(i as usize).1 as nat, input_sampler(i), "sampler"@),
        input_sample_fn(i, name) == "fn "@ + name + "(uv: vec2<f32>) -> vec4<f32> {\n    return textureSample("@
            + input_texture(i) + ", "@ + input_sampler(i) + ", uv);\n}\n"@,
        i != j ==> input_texture(i) != input_texture(j) && input_sampler(i) != input_sampler(j),
{
    reveal_strlit("@group(#{MATERIAL_BIND_GROUP}) @binding(");
    reveal_strlit(") var zygote_in");
    reveal_strlit(") var ");
    reveal_strlit("zygote_in");
    reveal_strlit("_tex: texture_2d<f32>;\n");
    reveal_strlit("_smp: sampler;\n");
    reveal_strlit("_tex");
    reveal_strlit("_smp");
    reveal_strlit(": ");
    reveal_strlit("texture_2d<f32>");
    reveal_strlit("sampler");
    reveal_strlit(";\n");
    reveal_strlit("(uv: vec2<f32>) -> vec4<f32> {\n    return textureSample(zygote_in");
    reveal_strlit("(uv: vec2<f32>) -> vec4<f32> {\n    return textureSample(");
    reveal_strlit("_tex, zygote_in");
    reveal_strlit(", ");
    reveal_strlit("_smp, uv);\n}\n");
    reveal_strlit(", uv);\n}\n");
    let (tex, smp) = input_bindings_spec(i as usize);
    assert(") var zygote_in"@ =~= ") var "@ + "zygote_in"@);
    assert("_tex: texture_2d<f32>;\n"@ =~= "_tex"@ + ": "@ + "texture_2d<f32>"@ + ";\n"@);
    assert("_smp: sampler;\n"@ =~= "_smp"@ + ": "@ + "sampler"@ + ";\n"@);
    assert(input_binding_lines(i) =~= binding_decl(tex as nat, input_texture(i), "texture_2d<f32>"@)
        + binding_decl(smp as nat, input_sampler(i), "sampler"@));
    assert("(uv: vec2<f32>) -> vec4<f32> {\n    return textureSample(zygote_in"@
        =~= "(uv: vec2<f32>) -> vec4<f32> {\n    return textureSample("@ + "zygote_in"@);
    assert("_tex, zygote_in"@ =~= "_tex"@ + ", "@ + "zygote_in"@);
    assert("_smp, uv);\n}\n"@ =~= "_smp"@ + ", uv);\n}\n"@);
    assert(input_sample_fn(i, name) =~= "fn "@ + name + "(uv: vec2<f32>) -> vec4<f32> {\n    return textureSample("@
        + input_texture(i) + ", "@ + input_sampler(i) + ", uv);\n}\n"@);
    if i != j {
        lemma_name_holds_decimal(i, "_tex"@);
        lemma_name_holds_decimal(j, "_tex"@);
        lemma_name_holds_decimal(i, "_smp"@);
        lemma_name_holds_decimal(j, "_smp"@);
        if input_texture(i) == input_texture(j) {
            lemma_decimal_injective(i as nat, j as nat);
        }
        if input_sampler(i) == input_sampler(j) {
            lemma_decimal_injective(i as nat, j as nat);
        }
    }
}

/// Every binding slot is used once: slots 0 and 1 hold the two uniforms,
/// each input below [`MAX_INPUTS`] has a texture and a sampler slot of its
/// own after them, and the feedback tap's two slots come after every input's.
pub proof fn law_binding_slots_are_distinct(i: int, j: int)
    requires
        0 <= i < MAX_INPUTS,
        0 <= j < MAX_INPUTS,
    ensures
        2 <= input_bindings_spec(i as usize).0 < input_bindings_spec(i as usize).1 < 2 + 2 * MAX_INPUTS,
        i != j ==> {
            &&& input_bindings_spec(i as usize).0 != input_bindings_spec(j as usize).0
            &&& input_bindings_spec(i as usize).0 != input_bindings_spec(j as usize).1
            &&& input_bindings_spec(i as usize).1 != input_bindings_spec(j as usize).1
        },
{
}

/// Where the block of input number `k` stands among the blocks of all
/// inputs: the text before it and the text after it.
proof fn lemma_block_within(names: Seq<Seq<char>>, k: int) -> (pq: (Seq<char>, Seq<char>))
    requires
        0 <= k < names.len(),
    ensures
        input_blocks(names) == pq.0 + input_block(k, names[k]) + pq.1,
    decreases names.len(),
{
    let last = input_block(names.len() - 1, names.last());
    if k == names.len() - 1 {
        assert(input_blocks(names) =~= input_blocks(names.drop_last()) + input_block(k, names[k]) + Seq::empty());
        (input_blocks(names.drop_last()), Seq::empty())
    } else {
        let (p, q) = lemma_block_within(names.drop_last(), k);
        assert(names.drop_last()[k] == names[k]);
        assert(input_blocks(names) =~= p + input_block(k, names[k]) + (q + last));
        (p, q + last)
    }
}

/// The WGSL of a definition declares every one of its inputs: for input
/// number `k` it holds that input's bindings, the sampling function named
/// after it and its `has_` function, as [`input_block`] gives them.
pub proof fn law_source_declares_each_input(m: NodeModel, k: int)
    requires
        0 <= k < m.inputs.len(),
    ensures
        exists|p: Seq<char>, q: Seq<char>| wgsl_source_text(m) == p + input_block(k, m.inputs[k].0) + q,
{
    let names = m.inputs.map_values(|i: (Seq<char>, bool)| i.0);
    let (p, q) = lemma_block_within(names, k);
    assert(names[k] == m.inputs[k].0);
    let ls = lines(m.source);
    let imports = ls.filter(|l: Seq<char>| is_import_line(l));
    let body = ls.filter(|l: Seq<char>| !is_import_line(l));
    let has_io = exists|j: int| 0 <= j < imports.len() && find_str(imports[j], "bevy_pbr::forward_io"@) >= 0;
    let head = (if has_io {
        Seq::empty()
    } else {
        "#import bevy_pbr::forward_io::VertexOutput\n"@
    }) + line_block(imports) + "\n"@ + wgsl_struct_text(layout_of(m.params), "ZygoteParams"@)
        + frame_block();
    let tail = (if m.feedback {
        previous_block()
    } else {
        Seq::empty()
    }) + "\n"@ + join_lines(body) + "\n"@;
    let blk = input_block(k, m.inputs[k].0);
    assert(wgsl_source_text(m) =~= head + input_blocks(names) + tail);
    assert(head + (p + blk + q) + tail =~= (head + p) + blk + (q + tail));
    assert(wgsl_source_text(m) == (head + p) + blk + (q + tail));
}

/// The number inside a binding name can be read back from it.
proof fn lemma_name_holds_decimal(i: int, tail: Seq<char>)
    requires
        0 <= i,
    ensures
        ("zygote_in"@ + decimal(i as nat) + tail).subrange(9, 9 + decimal(i as nat).len() as int)
            == decimal(i as nat),
        ("zygote_in"@ + decimal(i as nat) + tail).len() == 9 + decimal(i as nat).len() + tail.len(),
{
    reveal_strlit("zygote_in");
    assert(("zygote_in"@ + decimal(i as nat) + tail).subrange(9, 9 + decimal(i as nat).len() as int)
        =~= decimal(i as nat));
}

/// The declarations of the feedback tap `previous`.
pub open spec fn previous_block() -> Seq<char> {
    "@group(#{MATERIAL_BIND_GROUP}) @binding("@ + decimal((2 + 2 * MAX_INPUTS) as nat)
        + ") var zygote_prev_tex: texture_2d<f32>;\n"@ + "@group(#{MATERIAL_BIND_GROUP}) @binding("@
        + decimal((3 + 2 * MAX_INPUTS) as nat) + ") var zygote_prev_smp: sampler;\n"@
        + "fn previous(uv: vec2<f32>) -> vec4<f32> {\n    return textureSample(zygote_prev_tex, zygote_prev_smp, uv);\n}\n"@
}

/// The frame uniform's struct and the two uniform bindings.
pub open spec fn frame_block() -> Seq<char> {
    "struct ZygoteFrame {\n    time: f32,\n    dt: f32,\n    aspect: f32,\n    index: f32,\n    connected: u32,\n    _r0: u32,\n    _r1: u32,\n    _r2: u32,\n}\n\n"@
        + "@group(#{MATERIAL_BIND_GROUP}) @binding(0) var<uniform> params: ZygoteParams;\n"@
        + "@group(#{MATERIAL_BIND_GROUP}) @binding(1) var<uniform> frame: ZygoteFrame;\n"@
}

/// The complete WGSL for a definition. Import lines are hoisted; the mesh
/// vertex output is imported unless an import already names
/// `bevy_pbr::forward_io`.
pub open spec fn wgsl_source_text(m: NodeModel) -> Seq<char> {
    let ls = lines(m.source);
    let imports = ls.filter(|l: Seq<char>| is_import_line(l));
    let body = ls.filter(|l: Seq<char>| !is_import_line(l));
    let has_io = exists|j: int| 0 <= j < imports.len() && find_str(imports[j], "bevy_pbr::forward_io"@) >= 0;
    (if has_io {
        Seq::empty()
    } else {
        "#import bevy_pbr::forward_io::VertexOutput\n"@
    }) + line_block(imports) + "\n"@ + wgsl_struct_text(layout_of(m.params), "ZygoteParams"@)
        + frame_block() + input_blocks(m.inputs.map_values(|i: (Seq<char>, bool)| i.0)) + (if m.feedback {
        previous_block()
    } else {
        Seq::empty()
    }) + "\n"@ + join_lines(body) + "\n"@
}

fn push_input_bindings(out: &mut Vec<char>, i: usize)
    requires
        i < 0x7fff_ffff,
    ensures
        final(out)@ == old(out)@ + input_binding_lines(i as int),
{
    assert(i as u32 == i);
    let (tex, smp) = input_bindings(i);
    let ghost start = out@;
    append_str(out, "@group(#{MATERIAL_BIND_GROUP}) @binding(");
    append_decimal(out, tex as u64);
    append_str(out, ") var zygote_in");
    append_decimal(out, i as u64);
    append_str(out, "_tex: texture_2d<f32>;\n");
    let ghost mid = out@;
    append_str(out, "@group(#{MATERIAL_BIND_GROUP}) @binding(");
    append_decimal(out, smp as u64);
    append_str(out, ") var zygote_in");
    append_decimal(out, i as u64);
    append_str(out, "_smp: sampler;\n");
    assert(out@ =~= start + input_binding_lines(i as int));
}

fn push_input_fns(out: &mut Vec<char>, i: usize, name: &String)
    ensures
        final(out)@ == old(out)@ + input_sample_fn(i as int, name@) + input_has_fn(i as int, name@),
{
    let nm = chars_of_string(name);
    let ghost start = out@;
    append_str(out, "fn ");
    append_chars(out, &nm);
    append_str(out, "(uv: vec2<f32>) -> vec4<f32> {\n    return textureSample(zygote_in");
    append_decimal(out, i as u64);
    append_str(out, "_tex, zygote_in");
    append_decimal(out, i as u64);
    append_str(out, "_smp, uv);\n}\n");
    assert(out@ =~= start + input_sample_fn(i as int, name@));
    let ghost mid = out@;
    append_str(out, "fn has_");
    append_chars(out, &nm);
    append_str(out, "() -> bool {\n    return (frame.connected & (1u << ");
    append_decimal(out, i as u64);
    append_str(out, "u)) != 0u;\n}\n");
    assert(out@ =~= mid + input_has_fn(i as int, name@));
}

fn push_input_block(out: &mut Vec<char>, i: usize, name: &String)
    requires
        i < 0x7fff_ffff,
    ensures
        final(out)@ == old(out)@ + input_block(i as int, name@),
{
    let ghost start = out@;
    push_input_bindings(out, i);
    push_input_fns(out, i, name);
    assert(out@ =~= start + input_block(i as int, name@));
}

fn push_previous_block(out: &mut Vec<char>)
    ensures
        final(out)@ == old(out)@ + previous_block(),
{
    let (tex, smp) = previous_bindings();
    let ghost start = out@;
    append_str(out, "@group(#{MATERIAL_BIND_GROUP}) @binding(");
    append_decimal(out, tex as u64);
    append_str(out, ") var zygote_prev_tex: texture_2d<f32>;\n");
    append_str(out, "@group(#{MATERIAL_BIND_GROUP}) @binding(");
    append_decimal(out, smp as u64);
    append_str(out, ") var zygote_prev_smp: sampler;\n");
    append_str(
        out,
        "fn previous(uv: vec2<f32>) -> vec4<f32> {\n    return textureSample(zygote_prev_tex, zygote_prev_smp, uv);\n}\n",
    );
    assert(out@ =~= start + previous_block());
}

fn push_frame_block(out: &mut Vec<char>)
    ensures
        final(out)@ == old(out)@ + frame_block(),
{
    let ghost start = out@;
    append_str(
        out,
        "struct ZygoteFrame {\n    time: f32,\n    dt: f32,\n    aspect: f32,\n    index: f32,\n    connected: u32,\n    _r0: u32,\n    _r1: u32,\n    _r2: u32,\n}\n\n",
    );
    append_str(out, "@group(#{MATERIAL_BIND_GROUP}) @binding(0) var<uniform> params: ZygoteParams;\n");
    append_str(out, "@group(#{MATERIAL_BIND_GROUP}) @binding(1) var<uniform> frame: ZygoteFrame;\n");
    assert(out@ =~= start + frame_block());
}

/// Import lines and body lines of a source, each in order.
fn split_imports(ls: &Vec<Vec<char>>) -> (r: (Vec<Vec<char>>, Vec<Vec<char>>))
    ensures
        r.0@.map_values(|v: Vec<char>| v@) == ls@.map_values(|v: Vec<char>| v@).filter(
            |l: Seq<char>| is_import_line(l),
        ),
        r.1@.map_values(|v: Vec<char>| v@) == ls@.map_values(|v: Vec<char>| v@).filter(
            |l: Seq<char>| !is_import_line(l),
        ),
{
    let ghost lv = ls@.map_values(|v: Vec<char>| v@);
    let ghost fi = |l: Seq<char>| is_import_line(l);
    let ghost fb = |l: Seq<char>| !is_import_line(l);
    let mut imports: Vec<Vec<char>> = Vec::new();
    let mut body: Vec<Vec<char>> = Vec::new();
    let mut k: usize = 0;
    assert(lv.take(0).filter(fi) =~= Seq::<Seq<char>>::empty());
    assert(lv.take(0).filter(fb) =~= Seq::<Seq<char>>::empty());
    while k < ls.len()
        invariant
            k <= ls.len(),
            lv == ls@.map_values(|v: Vec<char>| v@),
            fi == (|l: Seq<char>| is_import_line(l)),
            fb == (|l: Seq<char>| !is_import_line(l)),
            imports@.map_values(|v: Vec<char>| v@) == lv.take(k as int).filter(fi),
            body@.map_values(|v: Vec<char>| v@) == lv.take(k as int).filter(fb),
        decreases ls.len() - k,
    {
        let line = slice_of(&ls[k], 0, ls[k].len());
        assert(line@ =~= lv[k as int]);
        let t = trim_start_exec(&line);
        let imp = starts_with_str(&t, "#import") || starts_with_str(&t, "#define_import_path");
        proof {
            assert(lv.take(k + 1) =~= lv.take(k as int).push(lv[k as int]));
            lv.take(k as int).lemma_filter_push(lv[k as int], fi);
            lv.take(k as int).lemma_filter_push(lv[k as int], fb);
        }
        if imp {
            let ghost before = imports@;
            imports.push(line);
            assert(imports@.map_values(|v: Vec<char>| v@) =~= before.map_values(|v: Vec<char>| v@).push(
                lv[k as int],
            ));
        } else {
            let ghost before = body@;
            body.push(line);
            assert(body@.map_values(|v: Vec<char>| v@) =~= before.map_values(|v: Vec<char>| v@).push(
                lv[k as int],
            ));
        }
        k = k + 1;
    }
    assert(lv.take(ls.len() as int) =~= lv);
    (imports, body)
}

impl NodeDef {
    /// The complete WGSL the GPU compiles for this node.
    pub fn wgsl_source(&self) -> (out: String)
        requires
            layout_fits(kinds_of(self.params@)),
            self.inputs.len() < 0x8000_0000,
        ensures
            out@ == wgsl_source_text(self@),
    {
        let ghost m = self@;
        let src = chars_of_string(&self.source);
        let ls = lines_exec(&src);
        let (imports, body) = split_imports(&ls);
        let ghost iv = imports@.map_values(|v: Vec<char>| v@);
        let ghost bv = body@.map_values(|v: Vec<char>| v@);
        let mut out: Vec<char> = Vec::new();
        // Is the vertex output imported already?
        let mut has_io = false;
        let mut k: usize = 0;
        while k < imports.len()
            invariant
                k <= imports.len(),
                iv == imports@.map_values(|v: Vec<char>| v@),
                has_io == exists|j: int| 0 <= j < k && find_str(iv[j], "bevy_pbr::forward_io"@) >= 0,
            decreases imports.len() - k,
        {
            assert(iv[k as int] == imports@[k as int]@);
            if contains_str(&imports[k], "bevy_pbr::forward_io") {
                has_io = true;
            }
            k = k + 1;
        }
        if !has_io {
            append_str(&mut out, "#import bevy_pbr::forward_io::VertexOutput\n");
        }
        let ghost prefix = out@;
        let mut k: usize = 0;
        assert(iv.take(0) =~= Seq::<Seq<char>>::empty());
        while k < imports.len()
            invariant
                k <= imports.len(),
                iv == imports@.map_values(|v: Vec<char>| v@),
                out@ == prefix + line_block(iv.take(k as int)),
            decreases imports.len() - k,
        {
            append_chars(&mut out, &imports[k]);
            append_str(&mut out, "\n");
            proof {
                assert(iv.take(k + 1).drop_last() =~= iv.take(k as int));
                assert(iv.take(k + 1).last() == imports@[k as int]@);
                assert(out@ =~= prefix + line_block(iv.take(k + 1)));
            }
            k = k + 1;
        }
        assert(iv.take(imports.len() as int) =~= iv);
        append_str(&mut out, "\n");
        proof {
            let ms = self.params@.map_values(|p: ParamSpec| p@);
            assert(model_kinds(ms) =~= kinds_of(self.params@));
            lemma_members_fit(ms, 0, 0);
        }
        let layout = self.uniform_layout();
        proof {
            lemma_layout_views(layout.fields@, self.params@);
        }
        let st = layout.wgsl_struct("ZygoteParams");
        let stc = chars_of_string(&st);
        append_chars(&mut out, &stc);
        push_frame_block(&mut out);
        let ghost names = m.inputs.map_values(|i: (Seq<char>, bool)| i.0);
        let ghost before_inputs = out@;
        let mut i: usize = 0;
        assert(names.take(0) =~= Seq::<Seq<char>>::empty());
        while i < self.inputs.len()
            invariant
                i <= self.inputs.len(),
                self.inputs.len() < 0x8000_0000,
                m == self@,
                names == m.inputs.map_values(|i: (Seq<char>, bool)| i.0),
                out@ == before_inputs + input_blocks(names.take(i as int)),
            decreases self.inputs.len() - i,
        {
            push_input_block(&mut out, i, &self.inputs[i].name);
            proof {
                assert(names[i as int] == self.inputs@[i as int].name@);
                assert(names.take(i + 1).drop_last() =~= names.take(i as int));
                assert(out@ =~= before_inputs + input_blocks(names.take(i + 1)));
            }
            i = i + 1;
        }
        assert(names.take(self.inputs.len() as int) =~= names);
        if self.feedback {
            push_previous_block(&mut out);
        }
        append_str(&mut out, "\n");
        let ghost before_body = out@;
        let mut k: usize = 0;
        assert(bv.take(0) =~= Seq::<Seq<char>>::empty());
        while k < body.len()
            invariant
                k <= body.len(),
                bv == body@.map_values(|v: Vec<char>| v@),
                out@ == before_body + join_lines(bv.take(k as int)),
            decreases body.len() - k,
        {
            if k > 0 {
                append_str(&mut out, "\n");
            }
            append_chars(&mut out, &body[k]);
            proof {
                assert(bv.take(k + 1).drop_last() =~= bv.take(k as int));
                assert(bv.take(k + 1).last() == body@[k as int]@);
                if k == 0 {
                    assert(join_lines(bv.take(1)) == bv.take(1)[0]);
                }
                assert(out@ =~= before_body + join_lines(bv.take(k + 1)));
            }
            k = k + 1;
        }
        assert(bv.take(body.len() as int) =~= bv);
        append_str(&mut out, "\n");
        proof {
            assert(lines(m.source) == ls@.map_values(|v: Vec<char>| v@));
        }
        assert(out@ =~= wgsl_source_text(m));
        string_of(&out)
    }
}

} // verus!
