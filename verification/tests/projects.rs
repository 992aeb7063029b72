use zygote_core::projects::{first_show_file, manifest_value, GraphInfo, Project};

#[test]
fn manifest_values() {
    let m = "[package]\nname = \"zygote-x\"\nversion.workspace = true\ndescription = \"Hi\"\n";
    assert_eq!(manifest_value(m, "name").as_deref(), Some("zygote-x"));
    assert_eq!(manifest_value(m, "description").as_deref(), Some("Hi"));
    assert_eq!(manifest_value(m, "license"), None);
}

fn project(show_file: Option<&str>) -> Project {
    Project {
        name: "scope".to_string(),
        package: "zygote-scope".to_string(),
        description: String::new(),
        dir: "/work/projects/scope".to_string(),
        graph: Some(GraphInfo {
            name: "main".to_string(),
            nodes: 3,
            output: "crt".to_string(),
        }),
        show_file: show_file.map(|s| s.to_string()),
        port: 9472,
    }
}

#[test]
fn manifest_value_skips_unquoted_and_crlf_lines() {
    let m = "name = zygote\r\nname = \"quoted\"\r\n";
    assert_eq!(manifest_value(m, "name").as_deref(), Some("quoted"));
    assert_eq!(manifest_value("name = \"\"", "name").as_deref(), Some(""));
    assert_eq!(manifest_value("name = \"", "name"), None);
    assert_eq!(manifest_value("", "name"), None);
}

#[test]
fn target_names_the_local_port() {
    assert_eq!(project(None).target(), "127.0.0.1:9472");
}

#[test]
fn show_path_defaults_next_to_the_project() {
    assert_eq!(project(None).show_path(), "/work/projects/scope/scope.show.json");
    assert_eq!(project(Some("/x/a.show.json")).show_path(), "/x/a.show.json");
    let mut p = project(None);
    p.dir = "/work/".to_string();
    assert_eq!(p.show_path(), "/work/scope.show.json");
}

#[test]
fn assemble_reads_the_manifest_and_numbers_ports() {
    let m = "[package]\nname = \"zygote-scope\"\ndescription = \"Oscilloscope\"\n";
    let p = Project::assemble(2, "scope", "/w/projects/scope", m, None, None);
    assert_eq!(p.name, "scope");
    assert_eq!(p.package, "zygote-scope");
    assert_eq!(p.description, "Oscilloscope");
    assert_eq!(p.dir, "/w/projects/scope");
    assert_eq!(p.port, 9473);
    assert!(p.graph.is_none());
    assert!(p.show_file.is_none());

    let q = Project::assemble(0, "bare", "/w/projects/bare", "", None, Some("x.show.json".to_owned()));
    assert_eq!(q.package, "zygote-bare");
    assert_eq!(q.description, "");
    assert_eq!(q.port, 9471);
    assert_eq!(q.show_file.as_deref(), Some("x.show.json"));
}

#[test]
fn first_show_file_takes_the_first_in_name_order() {
    let entries: Vec<String> = ["Cargo.toml", "b.show.json", "src", "a.show.json", "show.json.bak"]
        .iter()
        .map(|s| s.to_string())
        .collect();
    assert_eq!(first_show_file(&entries).as_deref(), Some("a.show.json"));
    let none: Vec<String> = vec!["Cargo.toml".to_owned(), "show.json".to_owned()];
    assert_eq!(first_show_file(&none), None);
    assert_eq!(first_show_file(&Vec::new()), None);
}
