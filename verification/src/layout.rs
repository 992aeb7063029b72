//! The parameter uniform: where each parameter sits in the buffer the shader
//! reads, and the WGSL struct that declares it.
//!
//! The layout is std140-compatible: scalars take 4 bytes aligned to 4, `vec2`
//! 8 aligned to 8, colors (`vec4`) 16 aligned to 16; the total is rounded up
//! to 16.
use vstd::prelude::*;

use crate::node_def::MAX_INPUTS;
use crate::params::{ParamKind, ParamModel, ParamSpec};
use crate::text::{append_chars, append_decimal, append_str, chars_of_string, decimal, string_of};

verus! {

/// Bytes a parameter of kind `k` takes.
pub open spec fn kind_size(k: ParamKind) -> int {
    match k {
        ParamKind::Float | ParamKind::Bool | ParamKind::Choice => 4,
        ParamKind::Vec2 => 8,
        ParamKind::Color => 16,
    }
}

/// Alignment of a parameter of kind `k`.
pub open spec fn kind_align(k: ParamKind) -> int {
    kind_size(k)
}

/// The WGSL type of a parameter of kind `k`.
pub open spec fn kind_wgsl(k: ParamKind) -> Seq<char> {
    match k {
        ParamKind::Float => "f32"@,
        ParamKind::Bool | ParamKind::Choice => "u32"@,
        ParamKind::Vec2 => "vec2<f32>"@,
        ParamKind::Color => "vec4<f32>"@,
    }
}

/// The least multiple of `a` not below `c`.
pub open spec fn align_up(c: int, a: int) -> int {
    if c % a == 0 {
        c
    } else {
        c - c % a + a
    }
}

/// The kinds of a list of parameters.
pub open spec fn kinds_of(params: Seq<ParamSpec>) -> Seq<ParamKind> {
    params.map_values(|p: ParamSpec| p.ty.spec_kind())
}

/// Bytes used by the first `n` parameters.
pub open spec fn cursor_after(kinds: Seq<ParamKind>, n: int) -> int
    decreases n,
{
    if n <= 0 {
        0
    } else {
        align_up(cursor_after(kinds, n - 1), kind_align(kinds[n - 1])) + kind_size(kinds[n - 1])
    }
}

/// Offset of parameter `i`.
pub open spec fn field_offset(kinds: Seq<ParamKind>, i: int) -> int {
    align_up(cursor_after(kinds, i), kind_align(kinds[i]))
}

/// Size of the whole uniform: what the parameters use, rounded up to 16.
pub open spec fn layout_size(kinds: Seq<ParamKind>) -> int {
    align_up(cursor_after(kinds, kinds.len() as int), 16)
}

/// The layout's size is a `usize`.
pub open spec fn layout_fits(kinds: Seq<ParamKind>) -> bool {
    layout_size(kinds) <= usize::MAX
}

/// One field of the generated uniform struct.
#[derive(Clone, Debug)]
pub struct FieldLayout {
    pub name: String,
    pub offset: usize,
    pub size: usize,
    pub wgsl_type: &'static str,
}

/// What a [`FieldLayout`] says, as plain values.
pub struct FieldModel {
    pub name: Seq<char>,
    pub offset: int,
    pub size: int,
    pub wgsl_type: Seq<char>,
}

impl View for FieldLayout {
    type V = FieldModel;

    open spec fn view(&self) -> FieldModel {
        FieldModel {
            name: self.name@,
            offset: self.offset as int,
            size: self.size as int,
            wgsl_type: self.wgsl_type@,
        }
    }
}

/// The views of a list of fields.
pub open spec fn field_views(fields: Seq<FieldLayout>) -> Seq<FieldModel> {
    fields.map_values(|f: FieldLayout| f@)
}

/// The kinds of declared parameters.
pub open spec fn model_kinds(params: Seq<ParamModel>) -> Seq<ParamKind> {
    params.map_values(|p: ParamModel| p.ty.kind())
}

/// The fields of the layout of `params`, in declaration order.
pub open spec fn layout_of(params: Seq<ParamModel>) -> Seq<FieldModel> {
    let kinds = model_kinds(params);
    Seq::new(
        params.len(),
        |i: int|
            FieldModel {
                name: params[i].name,
                offset: field_offset(kinds, i),
                size: kind_size(kinds[i]),
                wgsl_type: kind_wgsl(kinds[i]),
            },
    )
}

/// Where each parameter sits in the uniform buffer.
#[derive(Clone, Debug)]
pub struct UniformLayout {
    pub fields: Vec<FieldLayout>,
    /// Bytes used, rounded up to 16.
    pub size: usize,
}

/// `f` is the field of parameter `j`, called `name`.
pub open spec fn field_matches(f: FieldLayout, name: Seq<char>, kinds: Seq<ParamKind>, j: int) -> bool {
    &&& f.name@ == name
    &&& f.offset == field_offset(kinds, j)
    &&& f.size == kind_size(kinds[j])
    &&& f.wgsl_type@ == kind_wgsl(kinds[j])
}

/// The fields are those of `params`, in order, at the std140 offsets.
pub open spec fn is_layout_of(fields: Seq<FieldLayout>, params: Seq<ParamSpec>) -> bool {
    &&& fields.len() == params.len()
    &&& forall|i: int|
        0 <= i < fields.len() ==> #[trigger] field_matches(fields[i], params[i].name@, kinds_of(params), i)
}

pub proof fn lemma_align_up(c: int, a: int)
    requires
        c >= 0,
        a == 4 || a == 8 || a == 16,
    ensures
        c <= align_up(c, a) <= c + a - 1,
        align_up(c, a) % a == 0,
{
}

/// Each parameter adds at most 31 bytes.
pub proof fn lemma_cursor_bound(kinds: Seq<ParamKind>, n: int)
    requires
        0 <= n <= kinds.len(),
    ensures
        0 <= cursor_after(kinds, n) <= 31 * n,
    decreases n,
{
    if n > 0 {
        lemma_cursor_bound(kinds, n - 1);
        lemma_align_up(cursor_after(kinds, n - 1), kind_align(kinds[n - 1]));
    }
}

/// Cursors only grow.
proof fn lemma_cursor_mono(kinds: Seq<ParamKind>, i: int, j: int)
    requires
        0 <= i <= j <= kinds.len(),
    ensures
        cursor_after(kinds, i) <= cursor_after(kinds, j),
    decreases j - i,
{
    if i < j {
        lemma_cursor_mono(kinds, i, j - 1);
        lemma_cursor_bound(kinds, j - 1);
        lemma_align_up(cursor_after(kinds, j - 1), kind_align(kinds[j - 1]));
    }
}

/// A layout of at most `usize::MAX / 32` parameters fits.
pub proof fn lemma_layout_fits(kinds: Seq<ParamKind>)
    requires
        kinds.len() <= usize::MAX / 32,
    ensures
        layout_fits(kinds),
{
    lemma_cursor_bound(kinds, kinds.len() as int);
    lemma_align_up(cursor_after(kinds, kinds.len() as int), 16);
}

/// Fields are packed in declaration order: each starts at the least
/// multiple of its size at or after the end of the field before it (0 for
/// the first), and the whole layout is the end of the last field rounded up
/// to the least multiple of 16.
pub proof fn law_fields_pack_in_order(kinds: Seq<ParamKind>)
    ensures
        forall|i: int|
            0 <= i < kinds.len() ==> {
                let end = cursor_after(kinds, i);
                &&& #[trigger] field_offset(kinds, i) % kind_size(kinds[i]) == 0
                &&& end <= field_offset(kinds, i) < end + kind_size(kinds[i])
                &&& i == 0 ==> end == 0
                &&& i > 0 ==> end == field_offset(kinds, i - 1) + kind_size(kinds[i - 1])
            },
        layout_size(kinds) % 16 == 0,
        cursor_after(kinds, kinds.len() as int) <= layout_size(kinds) < cursor_after(kinds, kinds.len() as int)
            + 16,
{
    assert forall|i: int| 0 <= i < kinds.len() implies {
        let end = cursor_after(kinds, i);
        &&& #[trigger] field_offset(kinds, i) % kind_size(kinds[i]) == 0
        &&& end <= field_offset(kinds, i) < end + kind_size(kinds[i])
        &&& i == 0 ==> end == 0
        &&& i > 0 ==> end == field_offset(kinds, i - 1) + kind_size(kinds[i - 1])
    } by {
        lemma_cursor_bound(kinds, i);
        lemma_align_up(cursor_after(kinds, i), kind_align(kinds[i]));
    }
    lemma_cursor_bound(kinds, kinds.len() as int);
    lemma_align_up(cursor_after(kinds, kinds.len() as int), 16);
}

/// The layout follows the std140 rules: each field starts at a multiple of
/// its alignment, fields follow one another without overlapping, all lie
/// within the total size, and the total is a multiple of 16.
pub proof fn law_layout_is_std140(kinds: Seq<ParamKind>)
    ensures
        forall|i: int| 0 <= i < kinds.len() ==> #[trigger] field_offset(kinds, i) % kind_align(kinds[i]) == 0,
        forall|i: int| 0 <= i < kinds.len() ==> 0 <= #[trigger] field_offset(kinds, i),
        forall|i: int|
            0 <= i < kinds.len() - 1 ==> #[trigger] field_offset(kinds, i) + kind_size(kinds[i])
                <= field_offset(kinds, i + 1),
        forall|i: int|
            0 <= i < kinds.len() ==> #[trigger] field_offset(kinds, i) + kind_size(kinds[i]) <= layout_size(
                kinds,
            ),
        layout_size(kinds) % 16 == 0,
{
    let n = kinds.len() as int;
    assert forall|i: int| 0 <= i < n implies #[trigger] field_offset(kinds, i) % kind_align(kinds[i]) == 0
        && 0 <= field_offset(kinds, i) && field_offset(kinds, i) + kind_size(kinds[i]) <= layout_size(kinds) by {
        lemma_cursor_bound(kinds, i);
        lemma_align_up(cursor_after(kinds, i), kind_align(kinds[i]));
        lemma_cursor_mono(kinds, i + 1, n);
        lemma_cursor_bound(kinds, n);
        lemma_align_up(cursor_after(kinds, n), 16);
    }
    assert forall|i: int| 0 <= i < n - 1 implies #[trigger] field_offset(kinds, i) + kind_size(kinds[i])
        <= field_offset(kinds, i + 1) by {
        lemma_cursor_bound(kinds, i + 1);
        lemma_align_up(cursor_after(kinds, i + 1), kind_align(kinds[i + 1]));
    }
    lemma_cursor_bound(kinds, n);
    lemma_align_up(cursor_after(kinds, n), 16);
}

impl UniformLayout {
    /// The std140-compatible layout of `params`, in declaration order.
    pub fn for_params(params: &[ParamSpec]) -> (l: UniformLayout)
        requires
            layout_fits(kinds_of(params@)),
        ensures
            is_layout_of(l.fields@, params@),
            l.size == layout_size(kinds_of(params@)),
    {
        let ghost kinds = kinds_of(params@);
        let mut fields: Vec<FieldLayout> = Vec::new();
        let mut cursor: usize = 0;
        let mut i: usize = 0;
        proof {
            lemma_cursor_bound(kinds, kinds.len() as int);
            lemma_align_up(cursor_after(kinds, kinds.len() as int), 16);
        }
        while i < params.len()
            invariant
                i <= params.len(),
                kinds == kinds_of(params@),
                kinds.len() == params.len(),
                layout_fits(kinds),
                cursor == cursor_after(kinds, i as int),
                fields@.len() == i,
                forall|j: int|
                    0 <= j < i ==> #[trigger] field_matches(fields@[j], params@[j].name@, kinds, j),
            decreases params.len() - i,
        {
            let k = params[i].ty.kind();
            assert(k == kinds[i as int]);
            let (size, align, wgsl_type): (usize, usize, &'static str) = match k {
                ParamKind::Float => (4, 4, "f32"),
                ParamKind::Bool | ParamKind::Choice => (4, 4, "u32"),
                ParamKind::Vec2 => (8, 8, "vec2<f32>"),
                ParamKind::Color => (16, 16, "vec4<f32>"),
            };
            proof {
                lemma_cursor_mono(kinds, i + 1, kinds.len() as int);
                lemma_align_up(cursor_after(kinds, kinds.len() as int), 16);
                lemma_align_up(cursor_after(kinds, i as int), align as int);
            }
            let rem = cursor % align;
            if rem != 0 {
                cursor = cursor - rem + align;
            }
            let ghost old_fields = fields@;
            fields.push(
                FieldLayout {
                    name: params[i].name.clone(),
                    offset: cursor,
                    size,
                    wgsl_type,
                },
            );
            cursor = cursor + size;
            proof {
                assert(field_matches(fields@[i as int], params@[i as int].name@, kinds, i as int));
                assert forall|j: int| 0 <= j < i + 1 implies #[trigger] field_matches(
                    fields@[j],
                    params@[j].name@,
                    kinds,
                    j,
                ) by {
                    if j < i {
                        assert(fields@[j] == old_fields[j]);
                    }
                }
                assert(cursor == cursor_after(kinds, i + 1));
            }
            i = i + 1;
        }
        proof {
            lemma_align_up(cursor as int, 16);
        }
        let rem = cursor % 16;
        let size = if rem != 0 {
            cursor - rem + 16
        } else {
            cursor
        };
        UniformLayout { fields, size }
    }
}

/// Padding lines from `cursor` up to `offset`, numbered from `pad`.
pub open spec fn pads(cursor: int, offset: int, pad: int) -> Seq<char>
    decreases (if cursor < offset { offset - cursor } else { 0 }),
{
    if cursor < offset {
        "    _pad"@ + decimal(pad as nat) + ": f32,\n"@ + pads(cursor + 4, offset, pad + 1)
    } else {
        Seq::empty()
    }
}

/// How many padding lines lead from `cursor` up to `offset`.
pub open spec fn pad_count(cursor: int, offset: int) -> int
    decreases (if cursor < offset { offset - cursor } else { 0 }),
{
    if cursor < offset {
        1 + pad_count(cursor + 4, offset)
    } else {
        0
    }
}

/// The member lines of fields `i..`, with the cursor and padding counter
/// reached before field `i`.
pub open spec fn member_lines(fields: Seq<FieldModel>, i: int, cursor: int, pad: int) -> Seq<char>
    decreases fields.len() - i,
{
    if i < 0 || i >= fields.len() {
        Seq::empty()
    } else {
        let f = fields[i];
        pads(cursor, f.offset, pad) + "    "@ + f.name + ": "@ + f.wgsl_type + ",\n"@
            + member_lines(fields, i + 1, f.offset + f.size, pad + pad_count(cursor, f.offset))
    }
}

/// The counters of the struct writer stay within `usize` for fields `i..`.
pub open spec fn members_fit(fields: Seq<FieldModel>, i: int, cursor: int, pad: int) -> bool
    decreases fields.len() - i,
{
    if i < 0 || i >= fields.len() {
        true
    } else {
        let f = fields[i];
        let n = pad_count(cursor, f.offset);
        &&& cursor + 4 * n <= usize::MAX
        &&& pad + n <= usize::MAX
        &&& f.offset + f.size <= usize::MAX
        &&& members_fit(fields, i + 1, f.offset + f.size, pad + n)
    }
}

/// The WGSL declaration of a uniform struct named `name`, padded so that
/// each member sits at its offset.
pub open spec fn wgsl_struct_text(fields: Seq<FieldModel>, name: Seq<char>) -> Seq<char> {
    "struct "@ + name + " {\n"@ + member_lines(fields, 0, 0, 0) + (if fields.len() == 0 {
        "    _unused: vec4<f32>,\n"@
    } else {
        Seq::empty()
    }) + "}\n\n"@
}

/// Bind group slots of input `i`: texture and sampler.
pub open spec fn input_bindings_spec(i: usize) -> (u32, u32) {
    ((2 + 2 * (i as u32)) as u32, (3 + 2 * (i as u32)) as u32)
}

/// Bind group slots of input `i`: `(texture, sampler)`.
pub fn input_bindings(i: usize) -> (r: (u32, u32))
    requires
        2 * (i as u32) + 3 <= u32::MAX,
    ensures
        r == input_bindings_spec(i),
{
    let j = i as u32;
    (2 + 2 * j, 3 + 2 * j)
}

/// Bind group slots of the feedback tap: the two after the last input's.
pub fn previous_bindings() -> (r: (u32, u32))
    ensures
        r == ((2 + 2 * MAX_INPUTS) as u32, (3 + 2 * MAX_INPUTS) as u32),
{
    let base: u32 = 2 + 2 * (MAX_INPUTS as u32);
    (base, base + 1)
}

proof fn lemma_pad_count(cursor: int, offset: int)
    ensures
        0 <= pad_count(cursor, offset),
        cursor < offset ==> pad_count(cursor, offset) <= offset - cursor,
        cursor < offset ==> cursor + 4 * pad_count(cursor, offset) <= offset + 3,
    decreases (if cursor < offset { offset - cursor } else { 0 }),
{
    if cursor < offset {
        lemma_pad_count(cursor + 4, offset);
    }
}

/// The layout of a list of parameters, as plain values.
pub proof fn lemma_layout_views(fields: Seq<FieldLayout>, params: Seq<ParamSpec>)
    requires
        is_layout_of(fields, params),
    ensures
        field_views(fields) == layout_of(params.map_values(|p: ParamSpec| p@)),
{
    let ms = params.map_values(|p: ParamSpec| p@);
    assert(model_kinds(ms) =~= kinds_of(params));
    assert forall|i: int| 0 <= i < fields.len() implies #[trigger] field_views(fields)[i] == layout_of(ms)[i] by {
        assert(field_matches(fields[i], params[i].name@, kinds_of(params), i));
    }
    assert(field_views(fields) =~= layout_of(ms));
}

/// The struct writer's counters fit for the layout of parameters that fit.
pub proof fn lemma_members_fit(params: Seq<ParamModel>, i: int, pad: int)
    requires
        layout_fits(model_kinds(params)),
        0 <= i <= params.len(),
        0 <= pad <= cursor_after(model_kinds(params), i),
    ensures
        members_fit(layout_of(params), i, cursor_after(model_kinds(params), i), pad),
    decreases params.len() - i,
{
    let kinds = model_kinds(params);
    let fields = layout_of(params);
    if i < params.len() {
        let c = cursor_after(kinds, i);
        let f = fields[i];
        lemma_cursor_bound(kinds, i);
        lemma_align_up(c, kind_align(kinds[i]));
        lemma_pad_count(c, f.offset);
        lemma_cursor_mono(kinds, i + 1, kinds.len() as int);
        lemma_align_up(cursor_after(kinds, kinds.len() as int), 16);
        assert(f.offset + f.size == cursor_after(kinds, i + 1));
        lemma_members_fit(params, i + 1, pad + pad_count(c, f.offset));
    }
}

impl UniformLayout {
    /// WGSL declaration of this layout as a struct named `name`, with explicit
    /// padding so that offsets match exactly.
    pub fn wgsl_struct(&self, name: &str) -> (out: String)
        requires
            members_fit(field_views(self.fields@), 0, 0, 0),
        ensures
            out@ == wgsl_struct_text(field_views(self.fields@), name@),
    {
        let mut out: Vec<char> = Vec::new();
        append_str(&mut out, "struct ");
        append_str(&mut out, name);
        append_str(&mut out, " {\n");
        let ghost head = out@;
        let ghost fv = field_views(self.fields@);
        let mut cursor: usize = 0;
        let mut pad: usize = 0;
        let mut i: usize = 0;
        while i < self.fields.len()
            invariant
                i <= self.fields.len(),
                fv == field_views(self.fields@),
                members_fit(fv, i as int, cursor as int, pad as int),
                out@ + member_lines(fv, i as int, cursor as int, pad as int) == head
                    + member_lines(fv, 0, 0, 0),
            decreases self.fields.len() - i,
        {
            let ghost start = out@;
            let ghost c0 = cursor as int;
            let ghost p0 = pad as int;
            let offset = self.fields[i].offset;
            assert(fv[i as int] == self.fields@[i as int]@);
            while cursor < offset
                invariant
                    c0 <= cursor,
                    p0 <= pad,
                    offset == self.fields@[i as int].offset,
                    cursor + 4 * pad_count(cursor as int, offset as int) == c0 + 4 * pad_count(c0, offset as int),
                    pad + pad_count(cursor as int, offset as int) == p0 + pad_count(c0, offset as int),
                    c0 + 4 * pad_count(c0, offset as int) <= usize::MAX,
                    p0 + pad_count(c0, offset as int) <= usize::MAX,
                    out@ + pads(cursor as int, offset as int, pad as int) == start + pads(c0, offset as int, p0),
                decreases offset + 3 - cursor,
            {
                proof {
                    lemma_pad_count(cursor + 4, offset as int);
                }
                let ghost before = out@;
                append_str(&mut out, "    _pad");
                append_decimal(&mut out, pad as u64);
                append_str(&mut out, ": f32,\n");
                assert(out@ + pads(cursor + 4, offset as int, pad + 1) =~= before + pads(
                    cursor as int,
                    offset as int,
                    pad as int,
                ));
                pad = pad + 1;
                cursor = cursor + 4;
            }
            assert(pads(cursor as int, offset as int, pad as int) =~= Seq::<char>::empty());
            let f = &self.fields[i];
            let ghost mid = out@;
            append_str(&mut out, "    ");
            let fname = chars_of_string(&f.name);
            append_chars(&mut out, &fname);
            append_str(&mut out, ": ");
            append_str(&mut out, f.wgsl_type);
            append_str(&mut out, ",\n");
            assert(out@ =~= mid + "    "@ + f.name@ + ": "@ + f.wgsl_type@ + ",\n"@);
            cursor = f.offset + f.size;
            i = i + 1;
        }
        if self.fields.len() == 0 {
            append_str(&mut out, "    _unused: vec4<f32>,\n");
        }
        append_str(&mut out, "}\n\n");
        assert(out@ =~= wgsl_struct_text(fv, name@));
        string_of(&out)
    }
}

} // verus!
