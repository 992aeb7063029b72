use zygote_core::args::{
    parse_render_args, parse_timeline_args, parse_u16, parse_u32, parse_u64, ArgsError,
};

fn chars(s: &str) -> Vec<char> {
    s.chars().collect()
}

fn args(v: &[&str]) -> Vec<String> {
    v.iter().map(|s| s.to_string()).collect()
}

fn usage_of<T: std::fmt::Debug>(r: Result<T, ArgsError>) -> String {
    match r {
        Err(ArgsError::Usage(m)) => m,
        other => panic!("expected a usage error, got {other:?}"),
    }
}

#[test]
fn unsigned_numbers_parse_like_str_parse() {
    assert_eq!(parse_u64(&chars("0")), Some(0));
    assert_eq!(parse_u64(&chars("+12")), Some(12));
    assert_eq!(parse_u64(&chars("007")), Some(7));
    assert_eq!(parse_u64(&chars("18446744073709551615")), Some(u64::MAX));
    assert_eq!(parse_u64(&chars("18446744073709551616")), None);
    assert_eq!(parse_u64(&chars("")), None);
    assert_eq!(parse_u64(&chars("+")), None);
    assert_eq!(parse_u64(&chars("-1")), None);
    assert_eq!(parse_u64(&chars("1 ")), None);
    assert_eq!(parse_u32(&chars("4294967295")), Some(u32::MAX));
    assert_eq!(parse_u32(&chars("4294967296")), None);
    assert_eq!(parse_u16(&chars("65535")), Some(65535));
    assert_eq!(parse_u16(&chars("65536")), None);
    for s in ["0", "+9", "65535", "65536", "x", "", "99999999999999999999"] {
        assert_eq!(parse_u16(&chars(s)), s.parse::<u16>().ok(), "{s}");
        assert_eq!(parse_u64(&chars(s)), s.parse::<u64>().ok(), "{s}");
    }
}

#[test]
fn render_defaults_without_arguments() {
    let a = parse_render_args(&args(&[])).unwrap();
    assert_eq!(a.port, None);
    assert_eq!(a.size, None);
    assert_eq!(a.assets, None);
    assert!(a.nodes.is_empty());
    assert!(!a.showcase);
    assert_eq!(a.graph_file, None);
    assert!(!a.free_run);
    assert_eq!(a.capture, None);
    assert_eq!(a.frames, 120);
    assert_eq!(a.every, 0);
}

#[test]
fn render_options_are_read_in_order() {
    let a = parse_render_args(&args(&[
        "graph.json", "--port", "9500", "--size", "640x480", "--assets", "assets", "--nodes", "n1",
        "--nodes", "n2", "--free-run", "--capture", "out.png", "--frames", "30", "--every", "5",
    ]))
    .unwrap();
    assert_eq!(a.graph_file.as_deref(), Some("graph.json"));
    assert_eq!(a.port, Some(9500));
    assert_eq!(a.size, Some((640, 480)));
    assert_eq!(a.assets.as_deref(), Some("assets"));
    assert_eq!(a.nodes, vec!["n1".to_owned(), "n2".to_owned()]);
    assert!(a.free_run);
    assert_eq!(a.capture.as_deref(), Some("out.png"));
    assert_eq!(a.frames, 30);
    assert_eq!(a.every, 5);
}

#[test]
fn showcase_drops_an_earlier_graph_file() {
    let a = parse_render_args(&args(&["g.json", "--showcase"])).unwrap();
    assert!(a.showcase);
    assert_eq!(a.graph_file, None);
    let b = parse_render_args(&args(&["--showcase", "g.json"])).unwrap();
    assert!(b.showcase);
    assert_eq!(b.graph_file.as_deref(), Some("g.json"));
}

#[test]
fn render_usage_errors_name_the_option() {
    assert_eq!(usage_of(parse_render_args(&args(&["--port"]))), "--port needs a number");
    assert_eq!(usage_of(parse_render_args(&args(&["--port", "70000"]))), "--port needs a number");
    assert_eq!(usage_of(parse_render_args(&args(&["--size", "640"]))), "--size needs WxH");
    assert_eq!(usage_of(parse_render_args(&args(&["--size", "640x"]))), "--size needs WxH");
    assert_eq!(usage_of(parse_render_args(&args(&["--assets"]))), "--assets needs a directory");
    assert_eq!(usage_of(parse_render_args(&args(&["--nodes"]))), "--nodes needs a directory");
    assert_eq!(usage_of(parse_render_args(&args(&["--capture"]))), "--capture needs a path");
    assert_eq!(usage_of(parse_render_args(&args(&["--frames", "x"]))), "--frames needs a number");
    assert_eq!(usage_of(parse_render_args(&args(&["--every"]))), "--every needs a number");
    assert_eq!(usage_of(parse_render_args(&args(&["--bogus"]))), "unknown argument --bogus");
}

#[test]
fn help_stops_parsing() {
    assert!(matches!(parse_render_args(&args(&["-h"])), Err(ArgsError::Help)));
    assert!(matches!(parse_render_args(&args(&["--help", "--bogus"])), Err(ArgsError::Help)));
    assert!(matches!(parse_timeline_args(&args(&["--help"])), Err(ArgsError::Help)));
}

#[test]
fn timeline_arguments() {
    let t = parse_timeline_args(&args(&[])).unwrap();
    assert_eq!(t.file, "zygote-timeline.json");
    assert_eq!(t.target, "127.0.0.1:9471");
    let t = parse_timeline_args(&args(&["show.json", "--target", "10.0.0.2:9000"])).unwrap();
    assert_eq!(t.file, "show.json");
    assert_eq!(t.target, "10.0.0.2:9000");
    assert_eq!(usage_of(parse_timeline_args(&args(&["--target"]))), "--target needs host:port");
    assert_eq!(usage_of(parse_timeline_args(&args(&["-x"]))), "unknown argument -x");
}
