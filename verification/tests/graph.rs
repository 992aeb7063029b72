use zygote_core::graph::{
    Graph, GraphError, GraphStructure, InputLink, NodeId, NodeKind, NodeSpec, NodeSummary, ParamPath,
};
use zygote_core::graph_view::{graph_grid, structure_depths};
use zygote_core::params::{ParamDefault, ParamType};
use zygote_core::node_def::{NodeDef, NodeLibrary, NodeOrigin};

/// A library with the node kinds the example graphs use.
fn lib() -> NodeLibrary {
    let mut lib = NodeLibrary::empty();
    for (name, src) in [
        (
            "warp",
            "//! input source\n//! input displacement optional\n//! param amount: float = 0.1 in 0..1\n//! param scale: float = 1 in 0.1..10\n",
        ),
        (
            "feedback",
            "//! feedback\n//! input source\n//! param decay: float = 0.9\n//! param zoom: float = 1 in 0.9..1.1\n",
        ),
        ("noise", "//! param scale: float = 4 in 0.1..32\n"),
        (
            "blend",
            "//! input a\n//! input b optional\n//! param mode: choice = screen [multiply, screen, add, alpha]\n//! param mix: float = 0.5\n",
        ),
        (
            "color_grade",
            "//! input source\n//! param saturation: float = 1 in 0..2\n//! param preset: choice = neutral [neutral, warm, cold]\n//! param palette_mix: float = 0\n",
        ),
    ] {
        lib.insert(NodeDef::parse_wgsl(name, src, NodeOrigin::Builtin).unwrap());
    }
    lib
}

fn f(v: &str) -> ParamDefault {
    ParamDefault::Float(v.to_owned())
}

fn image(id: &str) -> NodeSpec<ParamDefault> {
    NodeSpec::new(id, NodeKind::Image { path: "images/sample.png".to_owned() })
}

/// image → warp → feedback → output.
fn first_pass() -> Graph<ParamDefault> {
    let mut graph = Graph::new("first-pass", "feedback");
    graph.nodes.push(image("image"));
    graph.nodes.push(
        NodeSpec::shader("warp", "warp")
            .with_inputs(&["image"])
            .with_param("amount", f("0.12"))
            .with_param("scale", f("2.5")),
    );
    graph.nodes.push(
        NodeSpec::shader("feedback", "feedback")
            .with_inputs(&["warp"])
            .with_param("decay", f("0.9"))
            .with_param("zoom", f("1.012")),
    );
    graph
}

fn showcase() -> Graph<ParamDefault> {
    let mut graph = Graph::new("showcase", "grade");
    graph.nodes.push(image("image"));
    graph.nodes.push(NodeSpec::shader("noise", "noise").with_param("scale", f("2.0")));
    graph.nodes.push(
        NodeSpec::shader("warp", "warp")
            .with_inputs(&["image", "noise"])
            .with_param("amount", f("0.08")),
    );
    graph.nodes.push(
        NodeSpec::shader("blend", "blend")
            .with_inputs(&["warp", "noise"])
            .with_param("mode", ParamDefault::Choice("screen".to_owned()))
            .with_param("mix", f("0.25")),
    );
    graph.nodes.push(NodeSpec::shader("feedback", "feedback").with_inputs(&["blend"]));
    graph.nodes.push(
        NodeSpec::shader("grade", "color_grade")
            .with_inputs(&["feedback"])
            .with_param("saturation", f("1.2"))
            .with_param("preset", ParamDefault::Choice("warm".to_owned()))
            .with_param("palette_mix", f("0.3")),
    );
    graph
}

fn ids(v: &[NodeId]) -> Vec<&str> {
    v.iter().map(|i| i.as_str()).collect()
}

fn index_of(graph: &Graph<ParamDefault>, id: &str) -> usize {
    graph.nodes.iter().position(|n| n.id.as_str() == id).unwrap()
}

#[test]
fn param_path_roundtrip() {
    let path = ParamPath::parse("warp.amount").unwrap();
    assert_eq!(path.node.as_str(), "warp");
    assert_eq!(path.param, "amount");
    assert_eq!(path.to_text(), "warp.amount");
    assert!(ParamPath::parse("noparam").is_err());
}

#[test]
fn param_paths_split_at_the_last_dot() {
    let path = ParamPath::parse("nodes.kaleido.mode").unwrap();
    assert_eq!(path.node.as_str(), "nodes.kaleido");
    assert_eq!(path.param, "mode");
    assert!(matches!(ParamPath::parse(".x"), Err(GraphError::InvalidParamPath(s)) if s == ".x"));
    assert!(matches!(ParamPath::parse("x."), Err(GraphError::InvalidParamPath(s)) if s == "x."));
    let p = ParamPath::new("a.b", "c");
    let back = ParamPath::parse(&p.to_text()).unwrap();
    assert_eq!(back.node.as_str(), "a.b");
    assert_eq!(back.param, "c");
}

#[test]
fn first_pass_is_valid_and_ordered() {
    let graph = first_pass();
    graph.validate(&lib()).unwrap();
    assert_eq!(ids(&graph.topo_order().unwrap()), vec!["image", "warp", "feedback"]);
}

#[test]
fn showcase_is_valid_and_describes_typed_params() {
    let graph = showcase();
    graph.validate(&lib()).unwrap();
    let library = lib();
    let params = graph.describe_params(&library);
    let mode = params
        .iter()
        .find(|p| p.path.node.as_str() == "blend" && p.path.param == "mode")
        .unwrap();
    let stored = &graph.nodes[mode.node].params[mode.stored.unwrap()].1;
    assert!(matches!(stored, ParamDefault::Choice(c) if c == "screen"));
    assert!(matches!(mode.spec.ty, ParamType::Choice { .. }));
    let depths = graph.depths();
    let grade = depths.iter().find(|(id, _)| id.as_str() == "grade").unwrap();
    assert_eq!(grade.1, 4);
}

#[test]
fn validation_errors() {
    let library = lib();

    let mut graph = first_pass();
    let warp = index_of(&graph, "warp");
    graph.nodes[warp].inputs = vec![NodeId::new("feedback")];
    assert!(matches!(graph.validate(&library), Err(GraphError::Cycle(_))));

    let mut graph = first_pass();
    graph.nodes[warp].inputs = vec![NodeId::new("nope")];
    assert!(matches!(graph.validate(&library), Err(GraphError::DanglingInput { .. })));

    let mut graph = first_pass();
    graph.nodes[warp].kind = NodeKind::shader("bogus");
    assert!(matches!(
        graph.validate(&library),
        Err(GraphError::UnknownKind(id, kind)) if id.as_str() == "warp" && kind == "bogus"
    ));

    let mut graph = first_pass();
    let feedback = index_of(&graph, "feedback");
    graph.nodes[feedback].inputs = vec![NodeId::new("warp"), NodeId::new("image")];
    assert!(matches!(graph.validate(&library), Err(GraphError::TooManyInputs { .. })));

    let mut graph = first_pass();
    graph.nodes[warp] = graph.nodes[warp].clone().with_param("bogus", f("1.0"));
    assert!(matches!(graph.validate(&library), Err(GraphError::UnknownParam(..))));
}

#[test]
fn more_validation_errors() {
    let library = lib();
    let mut graph = first_pass();
    graph.output = NodeId::new("missing");
    assert!(matches!(graph.validate(&library), Err(GraphError::MissingOutput(id)) if id.as_str() == "missing"));

    let mut graph = first_pass();
    graph.nodes.push(image("image"));
    assert!(matches!(graph.validate(&library), Err(GraphError::DuplicateNode(id)) if id.as_str() == "image"));

    let mut graph = first_pass();
    let warp = index_of(&graph, "warp");
    graph.nodes[warp].inputs.clear();
    assert!(matches!(
        graph.validate(&library),
        Err(GraphError::MissingInputs { required: 1, given: 0, .. })
    ));
}

#[test]
fn structure_previews_image_sources_only_with_assets() {
    let graph = showcase();
    let library = lib();
    let plain = graph.structure(&library);
    assert!(plain.nodes.iter().all(|n| n.preview.is_none()));
    let s = graph.structure_with_assets(&library, Some("/nonexistent/assets"));
    let image = s
        .nodes
        .iter()
        .find(|n| n.kind.starts_with("image"))
        .expect("showcase has an image source");
    assert_eq!(image.preview.as_deref(), Some("/nonexistent/assets/images/sample.png"));
    assert!(s.nodes.iter().filter(|n| !n.kind.starts_with("image")).all(|n| n.preview.is_none()));
}

#[test]
fn structure_names_slots() {
    let s = showcase().structure(&lib());
    let warp = s.nodes.iter().find(|n| n.id.as_str() == "warp").unwrap();
    assert_eq!(warp.inputs[0].name, "source");
    assert_eq!(warp.inputs[1].from.as_ref().map(|i| i.as_str()), Some("noise"));
    assert!(warp.inputs[1].optional);
    assert!(s.nodes.iter().find(|n| n.id.as_str() == "feedback").unwrap().feedback);
    let image = s.nodes.iter().find(|n| n.id.as_str() == "image").unwrap();
    assert_eq!(image.kind, "image · images/sample.png");
    assert!(image.inputs.is_empty());
}

#[test]
fn slots_without_a_definition_are_numbered() {
    let mut graph = first_pass();
    graph.nodes[0] = NodeSpec::new("image", NodeKind::Camera { device: 2 }).with_inputs(&["x", "y"]);
    let s = graph.structure(&lib());
    assert_eq!(s.nodes[0].kind, "camera · device 2");
    let names: Vec<&str> = s.nodes[0].inputs.iter().map(|l| l.name.as_str()).collect();
    assert_eq!(names, vec!["in0", "in1"]);
}

#[test]
fn cycle_error_names_the_first_stuck_node() {
    let mut graph: Graph<ParamDefault> = Graph::new("loop", "a");
    graph.nodes.push(image("src"));
    graph.nodes.push(NodeSpec::shader("a", "warp").with_inputs(&["b"]));
    graph.nodes.push(NodeSpec::shader("b", "warp").with_inputs(&["a"]));
    assert!(matches!(graph.topo_order(), Err(GraphError::Cycle(id)) if id.as_str() == "a"));
    assert!(graph.depths().is_empty());
}

#[test]
fn add_and_remove_nodes() {
    let mut graph = first_pass();
    assert!(matches!(graph.add_node(image("image")), Err(GraphError::DuplicateNode(_))));
    assert!(graph.add_node(image("second")).is_ok());
    assert_eq!(graph.nodes.len(), 4);
    let removed = graph.remove_node(&NodeId::new("warp")).unwrap();
    assert_eq!(removed.id.as_str(), "warp");
    assert_eq!(graph.nodes.len(), 3);
    let feedback = index_of(&graph, "feedback");
    assert!(graph.nodes[feedback].inputs.is_empty());
    assert!(graph.remove_node(&NodeId::new("warp")).is_none());
}

#[test]
fn lookups_by_id_and_path() {
    let graph = first_pass();
    let library = lib();
    assert!(graph.node(&NodeId::new("warp")).is_some());
    assert!(graph.node(&NodeId::new("nope")).is_none());
    assert!(graph.def(&library, &NodeId::new("image")).unwrap().is_none());
    assert_eq!(graph.def(&library, &NodeId::new("warp")).unwrap().unwrap().name, "warp");
    assert!(matches!(graph.def(&library, &NodeId::new("nope")), Err(GraphError::UnknownNode(_))));
    assert!(matches!(
        graph.param_spec(&library, &ParamPath::new("warp", "nope")),
        Err(GraphError::UnknownParam(..))
    ));
    assert!(matches!(
        graph.param_spec(&library, &ParamPath::new("image", "x")),
        Err(GraphError::UnknownParam(..))
    ));
    assert_eq!(graph.param_spec(&library, &ParamPath::new("warp", "amount")).unwrap().name, "amount");
}

#[test]
fn params_are_kept_by_name() {
    let node: NodeSpec<f32> = NodeSpec::shader("n", "noise").with_param("b", 1.0).with_param("a", 2.0).with_param("b", 3.0);
    let params: Vec<(&str, f32)> = node.params.iter().map(|(k, v)| (k.as_str(), *v)).collect();
    assert_eq!(params, vec![("a", 2.0), ("b", 3.0)]);
}

#[test]
fn kinds_name_and_label_themselves() {
    let shader = NodeKind::shader("warp");
    assert_eq!(shader.type_tag(), "warp");
    assert_eq!(shader.label(), "warp");
    assert!(!shader.is_source());
    let cam = NodeKind::Camera { device: 0 };
    assert_eq!(cam.type_tag(), "camera");
    assert!(cam.is_source());
    assert_eq!(NodeKind::Image { path: "a.png".into() }.type_tag(), "image");
    let library = lib();
    assert_eq!(shader.def(&library).unwrap().name, "warp");
    assert!(cam.def(&library).is_none());
}

#[test]
fn describe_lists_every_declared_parameter_in_graph_order() {
    let graph = showcase();
    let library = lib();
    let entries = graph.describe_params(&library);
    let paths: Vec<String> = entries.iter().map(|e| e.path.to_text()).collect();
    assert_eq!(
        paths,
        vec![
            "noise.scale",
            "warp.amount",
            "warp.scale",
            "blend.mode",
            "blend.mix",
            "feedback.decay",
            "feedback.zoom",
            "grade.saturation",
            "grade.preset",
            "grade.palette_mix",
        ]
    );
    let warp_scale = &entries[2];
    assert_eq!(warp_scale.node_kind, "warp");
    assert!(warp_scale.stored.is_none());
    assert!(entries[1].stored.is_some());
}

#[test]
fn set_param_stores_and_param_value_reads() {
    let library = lib();
    let mut graph = first_pass();
    let path = ParamPath::new("warp", "amount");
    graph.set_param(&library, &path, f("0.5")).unwrap();
    let (spec, stored) = graph.param_value(&library, &path).unwrap();
    assert_eq!(spec.name, "amount");
    assert!(matches!(stored, Some(ParamDefault::Float(v)) if v == "0.5"));
    let (_, none) = graph.param_value(&library, &ParamPath::new("feedback", "decay")).unwrap();
    assert!(none.is_some());
    assert!(matches!(
        graph.set_param(&library, &ParamPath::new("warp", "nope"), f("1")),
        Err(GraphError::UnknownParam(..))
    ));
    assert!(matches!(
        graph.set_param(&library, &ParamPath::new("ghost", "x"), f("1")),
        Err(GraphError::UnknownNode(_))
    ));
    let names: Vec<&str> = graph.nodes[1].params.iter().map(|(k, _)| k.as_str()).collect();
    assert_eq!(names, vec!["amount", "scale"]);
}

fn depth_of(depths: &[(String, usize)], id: &str) -> Option<usize> {
    depths.iter().find(|(k, _)| k == id).map(|(_, d)| *d)
}

#[test]
fn showcase_depths_follow_the_longest_input_chain() {
    let s = showcase().structure(&lib());
    let depths = structure_depths(&s);
    let keys: Vec<&str> = depths.iter().map(|(k, _)| k.as_str()).collect();
    assert_eq!(keys, vec!["blend", "feedback", "grade", "image", "noise", "warp"]);
    assert_eq!(depth_of(&depths, "image"), Some(0));
    assert_eq!(depth_of(&depths, "noise"), Some(0));
    assert_eq!(depth_of(&depths, "warp"), Some(1));
    assert_eq!(depth_of(&depths, "blend"), Some(2));
    assert_eq!(depth_of(&depths, "feedback"), Some(3));
    assert_eq!(depth_of(&depths, "grade"), Some(4));
}

#[test]
fn showcase_grid_puts_sources_in_the_first_column() {
    let s = showcase().structure(&lib());
    let depths = structure_depths(&s);
    let grid = graph_grid(&s, &depths);
    assert_eq!(grid.cols, 5);
    assert_eq!(grid.rows, 2);
    let cells: Vec<(&str, usize, usize)> =
        grid.cells.iter().map(|c| (c.id.as_str(), c.col, c.row)).collect();
    assert_eq!(
        cells,
        vec![
            ("image", 0, 0),
            ("noise", 0, 1),
            ("warp", 1, 0),
            ("blend", 2, 0),
            ("feedback", 3, 0),
            ("grade", 4, 0),
        ]
    );
}

fn summary(id: &str, from: &[&str]) -> NodeSummary {
    NodeSummary {
        id: NodeId::new(id),
        kind: "x".to_owned(),
        doc: String::new(),
        inputs: from
            .iter()
            .map(|f| InputLink { name: "in".to_owned(), optional: false, from: Some(NodeId::new(f)) })
            .collect(),
        feedback: false,
        enabled: true,
        preview: None,
    }
}

#[test]
fn cyclic_structure_stops_after_one_pass_per_node() {
    let s = GraphStructure {
        name: "loop".to_owned(),
        output: NodeId::new("a"),
        nodes: vec![summary("a", &["b"]), summary("b", &["a"])],
    };
    let depths = structure_depths(&s);
    assert_eq!(depth_of(&depths, "a"), Some(2));
    assert_eq!(depth_of(&depths, "b"), Some(3));
}

#[test]
fn empty_structure_has_a_one_cell_grid() {
    let s = GraphStructure { name: "empty".to_owned(), output: NodeId::new("out"), nodes: vec![] };
    let depths = structure_depths(&s);
    assert!(depths.is_empty());
    let grid = graph_grid(&s, &depths);
    assert!(grid.cells.is_empty());
    assert_eq!((grid.cols, grid.rows), (1, 1));
}

#[test]
fn unknown_inputs_count_as_sources() {
    let s = GraphStructure {
        name: "g".to_owned(),
        output: NodeId::new("b"),
        nodes: vec![summary("b", &["missing"]), summary("c", &["b", "missing"])],
    };
    let depths = structure_depths(&s);
    assert_eq!(depth_of(&depths, "b"), Some(0));
    assert_eq!(depth_of(&depths, "c"), Some(1));
}

#[test]
fn removing_a_node_just_added_restores_the_graph() {
    let mut graph = first_pass();
    let before: Vec<(String, Vec<String>)> = graph
        .nodes
        .iter()
        .map(|n| (n.id.as_str().to_owned(), n.inputs.iter().map(|i| i.as_str().to_owned()).collect()))
        .collect();
    graph.add_node(NodeSpec::shader("extra", "noise").with_inputs(&["warp"])).unwrap();
    let removed = graph.remove_node(&NodeId::new("extra")).unwrap();
    assert_eq!(removed.id.as_str(), "extra");
    let after: Vec<(String, Vec<String>)> = graph
        .nodes
        .iter()
        .map(|n| (n.id.as_str().to_owned(), n.inputs.iter().map(|i| i.as_str().to_owned()).collect()))
        .collect();
    assert_eq!(before, after);
}

#[test]
fn a_stored_value_reads_back_and_others_stay() {
    let mut graph = first_pass();
    let library = lib();
    graph.set_param(&library, &ParamPath::new("warp", "scale"), f("3.5")).unwrap();
    let (_, scale) = graph.param_value(&library, &ParamPath::new("warp", "scale")).unwrap();
    assert!(matches!(scale, Some(ParamDefault::Float(v)) if v == "3.5"));
    let (_, amount) = graph.param_value(&library, &ParamPath::new("warp", "amount")).unwrap();
    assert!(matches!(amount, Some(ParamDefault::Float(v)) if v == "0.12"));
    let (_, zoom) = graph.param_value(&library, &ParamPath::new("feedback", "zoom")).unwrap();
    assert!(matches!(zoom, Some(ParamDefault::Float(v)) if v == "1.012"));
}

#[test]
fn order_is_the_worklist_order() {
    let mut graph: Graph<ParamDefault> = Graph::new("g", "d");
    graph.nodes.push(NodeSpec::shader("a", "warp").with_inputs(&["b"]));
    graph.nodes.push(NodeSpec::shader("b", "noise"));
    graph.nodes.push(NodeSpec::shader("c", "noise"));
    graph.nodes.push(NodeSpec::shader("d", "warp").with_inputs(&["c", "a"]));
    graph.nodes.push(NodeSpec::shader("e", "warp").with_inputs(&["c"]));
    let order = graph.topo_order().unwrap();
    assert_eq!(ids(&order), vec!["b", "c", "a", "e", "d"]);
}
