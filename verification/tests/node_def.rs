use zygote_core::header::{imported_items, parse_param, split_doc};
use zygote_core::layout::{input_bindings, previous_bindings, UniformLayout};
use zygote_core::node_def::{HeaderError, NodeDef, NodeLibrary, NodeOrigin, MAX_INPUTS};
use zygote_core::params::{ParamDefault, ParamKind, ParamSpec, ParamType};

const SAMPLE: &str = r#"
//! node: kaleido
//! doc: Mirror the input into wedges
//! input source
//! input mask optional
//! feedback
//! param segments: float = 6 in 1..24 "Number of wedges"
//! param mode: choice = screen [multiply, screen, add, alpha] "Operator"
//! param invert: bool = false
//! param tint: color = #ff8040
//! param offset: vec2 = 0, 0.5 in -1..1
#import zygote::common::{rotate2}

@fragment
fn fragment(in: VertexOutput) -> @location(0) vec4<f32> {
    return source(in.uv) * params.tint;
}
"#;

fn chars(s: &str) -> Vec<char> {
    s.chars().collect()
}

fn text(v: &[char]) -> String {
    v.iter().collect()
}

fn assert_float(spec: &ParamSpec, name: &str, min: &str, max: &str, default: &str, doc: &str) {
    assert_eq!(spec.name, name);
    match &spec.ty {
        ParamType::Float { min: a, max: b } => {
            assert_eq!(a, min);
            assert_eq!(b, max);
        }
        other => panic!("not a float: {other:?}"),
    }
    match &spec.default {
        ParamDefault::Float(v) => assert_eq!(v, default),
        other => panic!("not a float default: {other:?}"),
    }
    assert_eq!(spec.doc, doc);
}

#[test]
fn parses_header() {
    let def = NodeDef::parse_wgsl("file_stem", SAMPLE, NodeOrigin::Builtin).unwrap();
    assert_eq!(def.name, "kaleido");
    assert_eq!(def.doc, "Mirror the input into wedges");
    assert_eq!(def.input_names(), vec!["source".to_string(), "mask".to_string()]);
    assert_eq!(def.required_inputs(), 1);
    assert!(def.feedback);
    assert_eq!(def.params.len(), 5);
    assert_float(&def.params[0], "segments", "1", "24", "6", "Number of wedges");
    match &def.params[1].ty {
        ParamType::Choice { options } => assert_eq!(
            options,
            &vec!["multiply".to_string(), "screen".to_string(), "add".to_string(), "alpha".to_string()]
        ),
        other => panic!("not a choice: {other:?}"),
    }
    assert!(matches!(&def.params[1].default, ParamDefault::Choice(c) if c == "screen"));
    assert!(matches!(def.params[2].default, ParamDefault::Bool(false)));
    assert!(matches!(def.params[3].ty, ParamType::Color));
    assert!(matches!(&def.params[4].default, ParamDefault::Vec2(x, y) if x == "0" && y == "0.5"));
    assert!(matches!(&def.params[4].ty, ParamType::Vec2 { min, max } if min == "-1" && max == "1"));
}

#[test]
fn layout_follows_std140_rules() {
    let def = NodeDef::parse_wgsl("k", SAMPLE, NodeOrigin::Builtin).unwrap();
    let layout = def.uniform_layout();
    let offsets: Vec<usize> = layout.fields.iter().map(|f| f.offset).collect();
    // f32 @0, u32 @4, u32 @8, vec4 @16 (aligned), vec2 @32
    assert_eq!(offsets, vec![0, 4, 8, 16, 32]);
    assert_eq!(layout.size, 48);
    let wgsl = layout.wgsl_struct("P");
    assert!(wgsl.contains("_pad0: f32"), "{wgsl}");
    assert!(wgsl.contains("tint: vec4<f32>"), "{wgsl}");
}

#[test]
fn generated_wgsl_declares_bindings_and_helpers() {
    let def = NodeDef::parse_wgsl("k", SAMPLE, NodeOrigin::Builtin).unwrap();
    let wgsl = def.wgsl_source();
    let first_code_line = wgsl.lines().find(|l| !l.trim().is_empty()).unwrap();
    assert!(first_code_line.starts_with("#import"), "imports hoisted: {first_code_line}");
    assert!(wgsl.contains("#import zygote::common::{rotate2}"));
    assert!(wgsl.contains("struct ZygoteParams"));
    assert!(wgsl.contains("@binding(0) var<uniform> params: ZygoteParams"));
    assert!(wgsl.contains("@binding(2) var zygote_in0_tex"));
    assert!(wgsl.contains("fn source(uv: vec2<f32>) -> vec4<f32>"));
    assert!(wgsl.contains("fn mask(uv: vec2<f32>)"));
    assert!(wgsl.contains("fn has_mask() -> bool"));
    assert!(wgsl.contains("connected: u32"));
    assert!(wgsl.contains("fn previous(uv: vec2<f32>)"));
    assert!(wgsl.contains("@binding(10) var zygote_prev_tex"));
}

#[test]
fn header_errors_are_specific() {
    let bad = "//! param x: float = abc\n";
    assert!(matches!(
        NodeDef::parse_wgsl("b", bad, NodeOrigin::Builtin),
        Err(HeaderError::Syntax { line: 1, .. })
    ));
    let dup = "//! param x: float = 0\n//! param x: float = 1\n";
    assert!(matches!(
        NodeDef::parse_wgsl("b", dup, NodeOrigin::Builtin),
        Err(HeaderError::DuplicateParam(n)) if n == "x"
    ));
    let reserved = "//! input previous\n";
    assert!(matches!(
        NodeDef::parse_wgsl("b", reserved, NodeOrigin::Builtin),
        Err(HeaderError::Reserved(n)) if n == "previous"
    ));
    let many = "//! input a\n//! input b\n//! input c\n//! input d\n//! input e\n";
    assert!(matches!(
        NodeDef::parse_wgsl("b", many, NodeOrigin::Builtin),
        Err(HeaderError::TooManyInputs(5))
    ));
}

#[test]
fn param_colliding_with_an_import_is_rejected() {
    let src = "//! param palette: float = 0\n#import zygote::common::{luma, palette}\n";
    assert!(matches!(
        NodeDef::parse_wgsl("b", src, NodeOrigin::Builtin),
        Err(HeaderError::ImportCollision(n)) if n == "palette"
    ));
    assert_eq!(
        imported_items("#import zygote::common::{a, b as c}\n#import x::y::z\n#import p::q"),
        vec!["a", "c", "z", "q"]
    );
}

// ---------------------------------------------------------------------------
// Further cases of the header grammar
// ---------------------------------------------------------------------------

fn syntax_message(src: &str) -> (usize, String) {
    match NodeDef::parse_wgsl("n", src, NodeOrigin::Builtin) {
        Err(HeaderError::Syntax { line, message }) => (line, message),
        other => panic!("expected a syntax error, got {other:?}"),
    }
}

#[test]
fn param_error_messages_name_the_problem() {
    assert_eq!(syntax_message("//! param x float = 1\n").1, "expected `name: type = default`");
    assert_eq!(syntax_message("//! param 9-x: float = 1\n").1, "`9-x` is not a valid parameter name");
    assert_eq!(syntax_message("//! param time: float = 1\n").1, "`time` is reserved");
    assert_eq!(syntax_message("//! param x: float 1\n").1, "expected `= default`");
    assert_eq!(syntax_message("//! param x: choice = a [a, b\n").1, "unclosed `[`");
    assert_eq!(syntax_message("//! param x: float = 1 in 0-1\n").1, "range must look like `in min..max`");
    assert_eq!(syntax_message("//! param x: float = 1 in a ..1\n").1, "bad range start `a `");
    assert_eq!(syntax_message("//! param x: float = 1 in 0.. b\n").1, "bad range end ` b`");
    assert_eq!(syntax_message("//! param x: bool = maybe\n").1, "bad bool default `maybe`");
    assert_eq!(syntax_message("//! param x: choice = a\n").1, "choice needs `[option, option, ...]`");
    assert_eq!(
        syntax_message("//! param x: choice = c [a, b]\n").1,
        "default `c` is not one of the options"
    );
    assert_eq!(syntax_message("//! param x: color = red\n").1, "bad color default `red` (use #rrggbb)");
    assert_eq!(syntax_message("//! param x: vec2 = 1\n").1, "bad vec2 default `1` (use `x, y`)");
    assert_eq!(syntax_message("//! param x: vec2 = 1, y\n").1, "bad number `y`");
    assert_eq!(syntax_message("//! param x: int = 1\n").1, "unknown parameter type `int`");
    assert_eq!(syntax_message("\n\n//! frobnicate\n"), (3, "unknown header keyword `frobnicate`".to_string()));
    assert_eq!(syntax_message("//! input\n").1, "input needs a name");
    assert_eq!(syntax_message("//! input a maybe\n").1, "unexpected `maybe` after input name");
}

#[test]
fn duplicate_inputs_are_refused() {
    assert!(matches!(
        NodeDef::parse_wgsl("n", "//! input a\n//! input a optional\n", NodeOrigin::Builtin),
        Err(HeaderError::DuplicateInput(n)) if n == "a"
    ));
}

#[test]
fn header_defaults_and_words() {
    // Without a `node:` line the given name stands; bool words; f32 accepts an exponent.
    let src = "//! param on: bool = on\n//! param off: bool = 0\n//! param big: f32 = 1e3\n//! param tiny: float = -.5e-2 in -1..1\n";
    let def = NodeDef::parse_wgsl("given", src, NodeOrigin::Builtin).unwrap();
    assert_eq!(def.name, "given");
    assert!(matches!(def.params[0].default, ParamDefault::Bool(true)));
    assert!(matches!(def.params[1].default, ParamDefault::Bool(false)));
    assert_float(&def.params[2], "big", "0", "1", "1e3", "");
    assert_float(&def.params[3], "tiny", "-1", "1", "-.5e-2", "");
    assert_eq!(def.required_inputs(), 0);
    assert!(!def.feedback);
}

#[test]
fn colors_take_six_or_eight_hex_digits() {
    let def = NodeDef::parse_wgsl(
        "c",
        "//! param a: color = #ff8040\n//! param b: color = #01020304\n",
        NodeOrigin::Builtin,
    )
    .unwrap();
    assert!(matches!(def.params[0].default, ParamDefault::Color([255, 128, 64, 255])));
    assert!(matches!(def.params[1].default, ParamDefault::Color([1, 2, 3, 4])));
}

#[test]
fn uniform_overflow_is_reported() {
    let mut src = String::new();
    for i in 0..17 {
        src.push_str(&format!("//! param c{i}: color = #ffffff\n"));
    }
    // 17 colors of 16 bytes: 272 bytes.
    assert!(matches!(
        NodeDef::parse_wgsl("big", &src, NodeOrigin::Builtin),
        Err(HeaderError::UniformTooLarge(272))
    ));
}

#[test]
fn doc_string_is_split_off() {
    let (rest, doc) = split_doc(&chars("x: float = 1 \"Some doc\"  "));
    assert_eq!(text(&rest), "x: float = 1");
    assert_eq!(text(&doc), "Some doc");
    let (rest, doc) = split_doc(&chars("x: float = 1"));
    assert_eq!(text(&rest), "x: float = 1");
    assert_eq!(text(&doc), "");
    let spec = parse_param(&chars("mix: float = 0.25 in 0..2 \"How much\"")).unwrap();
    assert_float(&spec, "mix", "0", "2", "0.25", "How much");
}

#[test]
fn layout_of_every_kind() {
    let specs = vec![
        ParamSpec::bool("b", true, ""),
        ParamSpec::vec2("v", "0", "1", "0", "0", ""),
        ParamSpec::float("f", "0", "1", "0", ""),
        ParamSpec::color("c", [0, 0, 0, 255], ""),
    ];
    let layout = UniformLayout::for_params(&specs);
    let fields: Vec<(usize, usize, &str)> =
        layout.fields.iter().map(|f| (f.offset, f.size, f.wgsl_type)).collect();
    assert_eq!(fields, vec![(0, 4, "u32"), (8, 8, "vec2<f32>"), (16, 4, "f32"), (32, 16, "vec4<f32>")]);
    assert_eq!(layout.size, 48);
    assert_eq!(
        layout.wgsl_struct("P"),
        "struct P {\n    b: u32,\n    _pad0: f32,\n    v: vec2<f32>,\n    f: f32,\n    _pad1: f32,\n    _pad2: f32,\n    _pad3: f32,\n    c: vec4<f32>,\n}\n\n"
    );
    let empty = UniformLayout::for_params(&[]);
    assert_eq!(empty.size, 0);
    assert_eq!(empty.wgsl_struct("E"), "struct E {\n    _unused: vec4<f32>,\n}\n\n");
}

#[test]
fn binding_slots() {
    assert_eq!(input_bindings(0), (2, 3));
    assert_eq!(input_bindings(3), (8, 9));
    assert_eq!(previous_bindings(), (2 + 2 * MAX_INPUTS as u32, 3 + 2 * MAX_INPUTS as u32));
}

#[test]
fn generated_wgsl_exact_for_a_minimal_node() {
    let def = NodeDef::parse_wgsl("m", "//! input src\nbody();\n", NodeOrigin::Builtin).unwrap();
    let expected = [
        "#import bevy_pbr::forward_io::VertexOutput\n",
        "\n",
        "struct ZygoteParams {\n    _unused: vec4<f32>,\n}\n\n",
        "struct ZygoteFrame {\n    time: f32,\n    dt: f32,\n    aspect: f32,\n    index: f32,\n    connected: u32,\n    _r0: u32,\n    _r1: u32,\n    _r2: u32,\n}\n\n",
        "@group(#{MATERIAL_BIND_GROUP}) @binding(0) var<uniform> params: ZygoteParams;\n",
        "@group(#{MATERIAL_BIND_GROUP}) @binding(1) var<uniform> frame: ZygoteFrame;\n",
        "@group(#{MATERIAL_BIND_GROUP}) @binding(2) var zygote_in0_tex: texture_2d<f32>;\n",
        "@group(#{MATERIAL_BIND_GROUP}) @binding(3) var zygote_in0_smp: sampler;\n",
        "fn src(uv: vec2<f32>) -> vec4<f32> {\n    return textureSample(zygote_in0_tex, zygote_in0_smp, uv);\n}\n",
        "fn has_src() -> bool {\n    return (frame.connected & (1u << 0u)) != 0u;\n}\n",
        "\n",
        "//! input src\nbody();",
        "\n",
    ]
    .concat();
    assert_eq!(def.wgsl_source(), expected);
}

#[test]
fn existing_vertex_import_is_not_repeated() {
    let def = NodeDef::parse_wgsl(
        "m",
        "  #import bevy_pbr::forward_io::VertexOutput\n#define_import_path x\n",
        NodeOrigin::Builtin,
    )
    .unwrap();
    let wgsl = def.wgsl_source();
    assert!(wgsl.starts_with("  #import bevy_pbr::forward_io::VertexOutput\n#define_import_path x\n\n"));
    assert_eq!(wgsl.matches("forward_io").count(), 1);
}

fn def_named(name: &str, src: &str) -> NodeDef {
    NodeDef::parse_wgsl(name, src, NodeOrigin::Builtin).unwrap()
}

#[test]
fn library_insert_then_get() {
    let mut lib = NodeLibrary::empty();
    assert!(lib.insert(def_named("warp", "//! input source\n")).is_none());
    assert!(lib.insert(def_named("blend", "//! input a\n")).is_none());
    assert!(lib.insert(def_named("noise", "")).is_none());
    assert_eq!(lib.names(), vec!["blend", "noise", "warp"]);
    assert!(lib.contains("noise"));
    assert!(!lib.contains("nope"));
    let replaced = lib.insert(def_named("warp", "//! input a\n//! input b\n")).unwrap();
    assert_eq!(replaced.input_names(), vec!["source"]);
    assert_eq!(lib.get("warp").unwrap().input_names(), vec!["a", "b"]);
    assert_eq!(lib.iter().len(), 3);
    assert_eq!(
        lib.get("blend").unwrap().param("x").map(|p| p.name.clone()),
        None
    );
}

#[test]
fn param_lookup_by_name() {
    let def = def_named("k", SAMPLE);
    assert_eq!(def.param("mode").unwrap().ty.kind(), ParamKind::Choice);
    assert!(def.param("nope").is_none());
}

#[test]
fn checked_parse_refuses_what_would_not_slice() {
    assert!(NodeDef::parse_wgsl_checked("x", "//! param x: choice = a ]x[\n", NodeOrigin::Builtin).is_none());
    let ok = NodeDef::parse_wgsl_checked("x", "//! param x: float = 0.5\n", NodeOrigin::Builtin);
    assert!(matches!(ok, Some(Ok(d)) if d.name == "x" && d.params.len() == 1));
    let err = NodeDef::parse_wgsl_checked("x", "//! input\n", NodeOrigin::Builtin);
    assert!(matches!(err, Some(Err(HeaderError::Syntax { line: 1, .. }))));
}

#[test]
fn defaults_are_keyed_by_name() {
    let def = NodeDef::parse_wgsl(
        "n",
        "//! param zoom: float = 1.5\n//! param mode: choice = b [a, b]\n//! param on: bool = true\n",
        NodeOrigin::Builtin,
    )
    .unwrap();
    let d = def.defaults();
    let names: Vec<&str> = d.iter().map(|(k, _)| k.as_str()).collect();
    assert_eq!(names, vec!["mode", "on", "zoom"]);
    assert!(matches!(&d[0].1, ParamDefault::Choice(c) if c == "b"));
    assert!(matches!(&d[1].1, ParamDefault::Bool(true)));
    assert!(matches!(&d[2].1, ParamDefault::Float(v) if v == "1.5"));
}
