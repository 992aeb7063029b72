//! Projects: one show directory each, with the values read from its Cargo
//! manifest and the address its renderer listens on.
use vstd::prelude::*;

use crate::params::texts;
use crate::protocol::DEFAULT_PORT;
use crate::text::{
    append_chars, append_decimal, append_str, chars_eq, chars_of, chars_of_string, decimal,
    ends_with, ends_with_str, join_path, lemma_seq_lt_total, lemma_seq_lt_transitive, lines,
    lines_exec, path_join, seq_lt, slice_of, split_once_char, split_once_char_exec, string_lt,
    string_of, trim, trim_exec,
};

verus! {

/// One `projects/<name>/` directory.
#[derive(Clone, Debug)]
pub struct Project {
    /// Directory name; also what the UI calls it.
    pub name: String,
    /// Cargo package name, which is the renderer binary's name.
    pub package: String,
    pub description: String,
    /// The project directory.
    pub dir: String,
    /// `assets/graphs/main.json`, summarized if it parses.
    pub graph: Option<GraphInfo>,
    /// The first `*.show.json` in the directory, if any.
    pub show_file: Option<String>,
    /// UDP port this project's renderer listens on.
    pub port: u16,
}

/// Summary of a project's main graph.
#[derive(Clone, Debug)]
pub struct GraphInfo {
    pub name: String,
    pub nodes: usize,
    pub output: String,
}

/// The file name a project's show is saved under: `<name>.show.json`.
pub open spec fn show_file_name(name: Seq<char>) -> Seq<char> {
    name + ".show.json"@
}

/// `127.0.0.1:<port>`.
pub open spec fn local_target(port: u16) -> Seq<char> {
    "127.0.0.1:"@ + decimal(port as nat)
}

impl Project {
    /// Where the show file lives, or where `Save` will create one.
    pub fn show_path(&self) -> (p: String)
        ensures
            p@ == match self.show_file {
                Some(f) => f@,
                None => path_join(self.dir@, show_file_name(self.name@)),
            },
    {
        match &self.show_file {
            Some(f) => f.clone(),
            None => {
                let mut file = chars_of_string(&self.name);
                append_str(&mut file, ".show.json");
                let dir = chars_of_string(&self.dir);
                let joined = join_path(&dir, &file);
                string_of(&joined)
            },
        }
    }

    /// The address of this project's renderer.
    pub fn target(&self) -> (t: String)
        ensures
            t@ == local_target(self.port),
    {
        let mut out = chars_of("127.0.0.1:");
        append_decimal(&mut out, self.port as u64);
        string_of(&out)
    }
}

/// The value of `key` on one manifest line `key = "value"`, if the line is one.
pub open spec fn manifest_line_value(line: Seq<char>, key: Seq<char>) -> Option<Seq<char>> {
    match split_once_char(line, '=') {
        None => None,
        Some((k, v)) => {
            let v = trim(v);
            if trim(k) != key {
                None
            } else if v.len() >= 2 && v[0] == '"' && v.last() == '"' {
                Some(v.subrange(1, v.len() - 1))
            } else {
                None
            }
        },
    }
}

/// The first line among `ls[i..]` that yields a value for `key`.
pub open spec fn first_manifest_value(ls: Seq<Seq<char>>, key: Seq<char>, i: int) -> Option<
    Seq<char>,
>
    decreases ls.len() - i,
{
    if i < 0 || i >= ls.len() {
        None
    } else {
        match manifest_line_value(ls[i], key) {
            Some(v) => Some(v),
            None => first_manifest_value(ls, key, i + 1),
        }
    }
}

/// The value of `key = "value"` on the first manifest line that has one.
pub open spec fn manifest_value_spec(manifest: Seq<char>, key: Seq<char>) -> Option<Seq<char>> {
    first_manifest_value(lines(manifest), key, 0)
}

fn manifest_line_value_exec(line: &Vec<char>, key: &Vec<char>) -> (r: Option<Vec<char>>)
    ensures
        match r {
            Some(v) => manifest_line_value(line@, key@) == Some(v@),
            None => manifest_line_value(line@, key@) is None,
        },
{
    match split_once_char_exec(line, '=') {
        None => None,
        Some((k, v)) => {
            let kt = trim_exec(&k);
            if !chars_eq(&kt, key) {
                return None;
            }
            let vt = trim_exec(&v);
            if vt.len() >= 2 && vt[0] == '"' && vt[vt.len() - 1] == '"' {
                proof {
                    assert(vt@.last() == vt@[vt.len() - 1]);
                }
                Some(slice_of(&vt, 1, vt.len() - 1))
            } else {
                proof {
                    if vt@.len() >= 2 {
                        assert(vt@.last() == vt@[vt.len() - 1]);
                    }
                }
                None
            }
        },
    }
}

/// First `key = "value"` line of a Cargo manifest: the quoted value, without
/// its quotes. Lines whose value is not in double quotes are skipped.
pub fn manifest_value(manifest: &str, key: &str) -> (r: Option<String>)
    ensures
        match r {
            Some(v) => manifest_value_spec(manifest@, key@) == Some(v@),
            None => manifest_value_spec(manifest@, key@) is None,
        },
{
    let text = chars_of(manifest);
    let k = chars_of(key);
    let ls = lines_exec(&text);
    let ghost lv = ls@.map_values(|v: Vec<char>| v@);
    let mut i: usize = 0;
    while i < ls.len()
        invariant
            i <= ls.len(),
            lv == ls@.map_values(|v: Vec<char>| v@),
            lv == lines(manifest@),
            k@ == key@,
            first_manifest_value(lv, key@, 0) == first_manifest_value(lv, key@, i as int),
        decreases ls.len() - i,
    {
        assert(lv[i as int] == ls@[i as int]@);
        match manifest_line_value_exec(&ls[i], &k) {
            Some(v) => {
                return Some(string_of(&v));
            },
            None => {},
        }
        i = i + 1;
    }
    None
}

/// The `index`-th project's port: one after another from the default port.
pub open spec fn project_port(index: usize) -> int {
    DEFAULT_PORT + (index as u16)
}

/// The package a project builds: the manifest's `name`, else `zygote-<dir>`.
pub open spec fn package_spec(name: Seq<char>, manifest: Seq<char>) -> Seq<char> {
    match manifest_value_spec(manifest, "name"@) {
        Some(p) => p,
        None => "zygote-"@ + name,
    }
}

/// The manifest's `description`, else nothing.
pub open spec fn description_spec(manifest: Seq<char>) -> Seq<char> {
    match manifest_value_spec(manifest, "description"@) {
        Some(d) => d,
        None => Seq::empty(),
    }
}

impl Project {
    /// The project at position `index` of the sorted project directories,
    /// called `name`, in `dir`, with the text of its Cargo manifest, its
    /// graph summary and its show file.
    pub fn assemble(
        index: usize,
        name: &str,
        dir: &str,
        manifest: &str,
        graph: Option<GraphInfo>,
        show_file: Option<String>,
    ) -> (p: Project)
        requires
            project_port(index) <= u16::MAX,
        ensures
            p.name@ == name@,
            p.dir@ == dir@,
            p.package@ == package_spec(name@, manifest@),
            p.description@ == description_spec(manifest@),
            p.graph == graph,
            p.show_file == show_file,
            p.port == project_port(index),
    {
        let package = match manifest_value(manifest, "name") {
            Some(p) => p,
            None => {
                let mut v = chars_of("zygote-");
                append_str(&mut v, name);
                string_of(&v)
            },
        };
        let description = match manifest_value(manifest, "description") {
            Some(d) => d,
            None => String::new(),
        };
        Project {
            name: name.to_string(),
            package,
            description,
            dir: dir.to_string(),
            graph,
            show_file,
            port: DEFAULT_PORT + (index as u16),
        }
    }
}

/// `name` ends in `.show.json`.
pub open spec fn is_show_file(name: Seq<char>) -> bool {
    ends_with(name, ".show.json"@)
}

/// The first show file among directory entries, in name order.
pub fn first_show_file(entries: &Vec<String>) -> (r: Option<String>)
    ensures
        match r {
            Some(f) => {
                &&& texts(entries@).contains(f@)
                &&& is_show_file(f@)
                &&& forall|j: int|
                    0 <= j < entries@.len() && is_show_file(#[trigger] entries@[j]@) ==> f@ == entries@[j]@
                        || seq_lt(f@, entries@[j]@)
            },
            None => forall|j: int| 0 <= j < entries@.len() ==> !is_show_file(#[trigger] entries@[j]@),
        },
{
    let mut best: Option<usize> = None;
    let mut i: usize = 0;
    while i < entries.len()
        invariant
            i <= entries.len(),
            match best {
                Some(b) => {
                    &&& b < i
                    &&& is_show_file(entries@[b as int]@)
                    &&& forall|j: int|
                        0 <= j < i && is_show_file(#[trigger] entries@[j]@) ==> entries@[b as int]@
                            == entries@[j]@ || seq_lt(entries@[b as int]@, entries@[j]@)
                },
                None => forall|j: int| 0 <= j < i ==> !is_show_file(#[trigger] entries@[j]@),
            },
        decreases entries.len() - i,
    {
        let e = chars_of_string(&entries[i]);
        if ends_with_str(&e, ".show.json") {
            match best {
                None => {
                    best = Some(i);
                },
                Some(b) => {
                    if string_lt(&entries[i], &entries[b]) {
                        proof {
                            assert forall|j: int|
                                0 <= j < i + 1 && is_show_file(#[trigger] entries@[j]@) implies entries@[i as int]@
                                == entries@[j]@ || seq_lt(entries@[i as int]@, entries@[j]@) by {
                                if j < i && entries@[b as int]@ != entries@[j]@ {
                                    lemma_seq_lt_transitive(entries@[i as int]@, entries@[b as int]@, entries@[j]@);
                                }
                            }
                        }
                        best = Some(i);
                    } else {
                        proof {
                            if entries@[i as int]@ != entries@[b as int]@ {
                                lemma_seq_lt_total(entries@[i as int]@, entries@[b as int]@);
                            }
                        }
                    }
                },
            }
        }
        i = i + 1;
    }
    match best {
        Some(b) => {
            assert(texts(entries@)[b as int] == entries@[b as int]@);
            Some(entries[b].clone())
        },
        None => None,
    }
}

} // verus!
