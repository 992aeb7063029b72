//! The `//!` header of a WGSL node file.
//!
//! A header is every line of the file whose first non-blank characters are
//! `//!`:
//!
//! ```text
//! //! node: warp            optional; defaults to the given name
//! //! doc: UV remapping     optional
//! //! input source
//! //! input displacement optional
//! //! feedback
//! //! param amount: float = 0.15 in 0..1 "Displacement strength"
//! //! param mode: choice = screen [multiply, screen, add, alpha] "Operator"
//! //! param invert: bool = false
//! //! param tint: color = #ff8844
//! //! param offset: vec2 = 0, 0 in -1..1
//! ```
//!
//! Each step of the parser is specified by a spec function over characters;
//! the error messages are part of that specification.
use vstd::prelude::*;

use crate::layout::{
    cursor_after, is_layout_of, kinds_of, layout_fits, layout_size, lemma_align_up, lemma_cursor_bound,
    model_kinds, UniformLayout,
};
use crate::node_def::{
    HeaderError, HeaderFault, InputDef, NodeDef, NodeModel, NodeOrigin, MAX_INPUTS, UNIFORM_BYTES,
};
use crate::params::{
    hex_color, is_float_literal, is_float_literal_exec, parse_hex_color, strings_of, texts,
    DefaultModel, ParamDefault, ParamKind, ParamModel, ParamSpec, ParamType, TypeModel,
};
use crate::text::{
    after_last, after_last_exec, append_chars, append_str, char_is_ascii_alnum, chars_eq,
    chars_eq_str, chars_of, chars_of_string, find_char, find_char_exec, is_ascii_alnum, lines, lines_exec,
    rfind_char, rfind_char_exec, slice_of, split_char, split_char_exec, split_once_char,
    split_once_char_exec, split_once_str, split_once_str_exec, split_once_ws, split_once_ws_exec,
    string_eq, string_of, strip_prefix, strip_prefix_exec, trim, trim_end, trim_end_char,
    trim_end_char_exec, trim_end_exec, trim_exec, trim_start, trim_start_exec, words, words_exec,
};

verus! {

// ---------------------------------------------------------------------------
// One `param` declaration: `name: type = default [in a..b] [options] ["doc"]`
// ---------------------------------------------------------------------------
/// Splits a trailing `"doc string"` off a declaration: the text before it
/// (end-trimmed) and the text between the quotes.
pub open spec fn split_doc_spec(args: Seq<char>) -> (Seq<char>, Seq<char>) {
    let t = trim_end(args);
    if t.len() > 0 && t.last() == '"' {
        let open = rfind_char(t.drop_last(), '"');
        if open >= 0 {
            (trim_end(t.subrange(0, open)), t.subrange(open + 1, t.len() - 1))
        } else {
            (t, Seq::empty())
        }
    } else {
        (t, Seq::empty())
    }
}

/// ASCII letters, digits and `_`, at least one.
pub open spec fn is_param_name(s: Seq<char>) -> bool {
    s.len() > 0 && forall|i: int| 0 <= i < s.len() ==> is_ascii_alnum(#[trigger] s[i]) || s[i] == '_'
}

/// Name, type word and the text after `=`; or the message of the first error.
pub open spec fn param_head(rest: Seq<char>) -> Result<(Seq<char>, Seq<char>, Seq<char>), Seq<char>> {
    match split_once_char(rest, ':') {
        None => Err("expected `name: type = default`"@),
        Some((n, after_name)) => {
            let name = trim(n);
            if !is_param_name(name) {
                Err("`"@ + name + "` is not a valid parameter name"@)
            } else if name == "time"@ || name == "previous"@ {
                Err("`"@ + name + "` is reserved"@)
            } else {
                match split_once_char(after_name, '=') {
                    None => Err("expected `= default`"@),
                    Some((t, after_ty)) => Ok((name, trim(t), trim(after_ty))),
                }
            }
        },
    }
}

/// The options between `[` and `]`, trimmed, empty ones dropped.
pub open spec fn options_of(inner: Seq<char>) -> Seq<Seq<char>> {
    split_char(inner, ',').map_values(|p: Seq<char>| trim(p)).filter(|p: Seq<char>| p.len() > 0)
}

/// A `]` that is present comes after the first `[` (the text between them is
/// what the parser takes as the options).
pub open spec fn brackets_ordered(rest: Seq<char>) -> bool {
    let open = find_char(rest, '[');
    let close = rfind_char(rest, ']');
    open < 0 || close < 0 || open < close
}

/// The options list and the text without it; or the error.
pub open spec fn param_options(rest: Seq<char>) -> Result<(Seq<Seq<char>>, Seq<char>), Seq<char>> {
    let open = find_char(rest, '[');
    if open < 0 {
        Ok((Seq::empty(), rest))
    } else {
        let close = rfind_char(rest, ']');
        if close < 0 {
            Err("unclosed `[`"@)
        } else {
            Ok(
                (
                    options_of(rest.subrange(open + 1, close)),
                    trim(rest.subrange(0, open) + seq![' '] + rest.subrange(close + 1, rest.len() as int)),
                ),
            )
        }
    }
}

/// The `in a..b` range (trimmed bounds) and the text before it; or the error.
pub open spec fn param_range(rest: Seq<char>) -> Result<(Option<(Seq<char>, Seq<char>)>, Seq<char>), Seq<char>> {
    match split_once_str(rest, " in "@) {
        None => Ok((None, rest)),
        Some((before, after)) => match split_once_str(trim(after), ".."@) {
            None => Err("range must look like `in min..max`"@),
            Some((a, b)) => if !is_float_literal(trim(a)) {
                Err("bad range start `"@ + a + "`"@)
            } else if !is_float_literal(trim(b)) {
                Err("bad range end `"@ + b + "`"@)
            } else {
                Ok((Some((trim(a), trim(b))), trim(before)))
            },
        },
    }
}

/// `true`, `on`, `1` or `false`, `off`, `0`.
pub open spec fn bool_word(t: Seq<char>) -> Option<bool> {
    if t == "true"@ || t == "on"@ || t == "1"@ {
        Some(true)
    } else if t == "false"@ || t == "off"@ || t == "0"@ {
        Some(false)
    } else {
        None
    }
}

/// The declaration for a type word, once name, options, range and default
/// text are known. Without a range, bounds are `0` and `1`.
pub open spec fn param_body(
    name: Seq<char>,
    ty: Seq<char>,
    options: Seq<Seq<char>>,
    range: Option<(Seq<char>, Seq<char>)>,
    text: Seq<char>,
    doc: Seq<char>,
) -> Result<ParamModel, Seq<char>> {
    let (min, max) = match range {
        Some(r) => r,
        None => ("0"@, "1"@),
    };
    if ty == "float"@ || ty == "f32"@ {
        if is_float_literal(text) {
            Ok(ParamModel { name, ty: TypeModel::Float { min, max }, default: DefaultModel::Float(text), doc })
        } else {
            Err("bad float default `"@ + text + "`"@)
        }
    } else if ty == "bool"@ {
        match bool_word(text) {
            Some(b) => Ok(ParamModel { name, ty: TypeModel::Bool, default: DefaultModel::Bool(b), doc }),
            None => Err("bad bool default `"@ + text + "`"@),
        }
    } else if ty == "choice"@ {
        if options.len() == 0 {
            Err("choice needs `[option, option, ...]`"@)
        } else if !options.contains(text) {
            Err("default `"@ + text + "` is not one of the options"@)
        } else {
            Ok(ParamModel { name, ty: TypeModel::Choice { options }, default: DefaultModel::Choice(text), doc })
        }
    } else if ty == "color"@ {
        match hex_color(text) {
            Some(c) => Ok(ParamModel { name, ty: TypeModel::Color, default: DefaultModel::Color(c), doc }),
            None => Err("bad color default `"@ + text + "` (use #rrggbb)"@),
        }
    } else if ty == "vec2"@ {
        let parts = split_char(text, ',').map_values(|p: Seq<char>| trim(p));
        if parts.len() != 2 {
            Err("bad vec2 default `"@ + text + "` (use `x, y`)"@)
        } else if !is_float_literal(parts[0]) {
            Err("bad number `"@ + parts[0] + "`"@)
        } else if !is_float_literal(parts[1]) {
            Err("bad number `"@ + parts[1] + "`"@)
        } else {
            Ok(ParamModel { name, ty: TypeModel::Vec2 { min, max }, default: DefaultModel::Vec2(parts[0], parts[1]), doc })
        }
    } else {
        Err("unknown parameter type `"@ + ty + "`"@)
    }
}

/// What a `param` declaration declares, or the message of its first error.
pub open spec fn parse_param_spec(args: Seq<char>) -> Result<ParamModel, Seq<char>> {
    let (rest, doc) = split_doc_spec(args);
    match param_head(rest) {
        Err(m) => Err(m),
        Ok((name, ty, after)) => match param_options(after) {
            Err(m) => Err(m),
            Ok((options, rest2)) => match param_range(rest2) {
                Err(m) => Err(m),
                Ok((range, rest3)) => param_body(name, ty, options, range, trim(rest3), doc),
            },
        },
    }
}

/// The declaration can be read without slicing backwards: when name and type
/// are well formed, a `]` after the `=` does not come before the first `[`.
pub open spec fn param_sliceable(args: Seq<char>) -> bool {
    match param_head(split_doc_spec(args).0) {
        Ok((_, _, after)) => brackets_ordered(after),
        Err(_) => true,
    }
}

/// The views of a vector of character vectors.
pub open spec fn views(v: Seq<Vec<char>>) -> Seq<Seq<char>> {
    v.map_values(|c: Vec<char>| c@)
}

/// Splits a trailing `"doc string"` off a declaration.
pub fn split_doc(args: &Vec<char>) -> (r: (Vec<char>, Vec<char>))
    ensures
        (r.0@, r.1@) == split_doc_spec(args@),
{
    let t = trim_end_exec(args);
    if t.len() > 0 && t[t.len() - 1] == '"' {
        let front = slice_of(&t, 0, t.len() - 1);
        assert(front@ =~= t@.drop_last());
        match rfind_char_exec(&front, '"') {
            Some(open) => {
                let before = slice_of(&t, 0, open);
                let doc = slice_of(&t, open + 1, t.len() - 1);
                (trim_end_exec(&before), doc)
            },
            None => (t, Vec::new()),
        }
    } else {
        (t, Vec::new())
    }
}

fn is_param_name_exec(s: &Vec<char>) -> (r: bool)
    ensures
        r == is_param_name(s@),
{
    if s.len() == 0 {
        return false;
    }
    let mut i: usize = 0;
    while i < s.len()
        invariant
            i <= s.len(),
            forall|j: int| 0 <= j < i ==> is_ascii_alnum(#[trigger] s@[j]) || s@[j] == '_',
        decreases s.len() - i,
    {
        if !(char_is_ascii_alnum(s[i]) || s[i] == '_') {
            return false;
        }
        i = i + 1;
    }
    true
}

/// `prefix` + `middle` + `suffix`, as characters.
fn message(prefix: &str, middle: &Vec<char>, suffix: &str) -> (m: Vec<char>)
    ensures
        m@ == prefix@ + middle@ + suffix@,
{
    let mut m: Vec<char> = Vec::new();
    append_str(&mut m, prefix);
    append_chars(&mut m, middle);
    append_str(&mut m, suffix);
    assert(m@ =~= prefix@ + middle@ + suffix@);
    m
}

/// A message with no variable part.
fn fixed(text: &str) -> (m: Vec<char>)
    ensures
        m@ == text@,
{
    let mut m: Vec<char> = Vec::new();
    append_str(&mut m, text);
    assert(m@ =~= text@);
    m
}

fn param_head_exec(rest: &Vec<char>) -> (r: Result<(Vec<char>, Vec<char>, Vec<char>), Vec<char>>)
    ensures
        match r {
            Ok((n, t, a)) => param_head(rest@) == Ok::<_, Seq<char>>((n@, t@, a@)),
            Err(m) => param_head(rest@) == Err::<(Seq<char>, Seq<char>, Seq<char>), _>(m@),
        },
{
    match split_once_char_exec(rest, ':') {
        None => Err(fixed("expected `name: type = default`")),
        Some((n, after_name)) => {
            let name = trim_exec(&n);
            if !is_param_name_exec(&name) {
                return Err(message("`", &name, "` is not a valid parameter name"));
            }
            if chars_eq_str(&name, "time") || chars_eq_str(&name, "previous") {
                return Err(message("`", &name, "` is reserved"));
            }
            match split_once_char_exec(&after_name, '=') {
                None => Err(fixed("expected `= default`")),
                Some((t, after_ty)) => Ok((name, trim_exec(&t), trim_exec(&after_ty))),
            }
        },
    }
}

fn options_exec(inner: &Vec<char>) -> (r: Vec<Vec<char>>)
    ensures
        views(r@) == options_of(inner@),
{
    let pieces = split_char_exec(inner, ',');
    let ghost ps = split_char(inner@, ',');
    let ghost tf = |p: Seq<char>| trim(p);
    let ghost nz = |p: Seq<char>| p.len() > 0;
    let mut out: Vec<Vec<char>> = Vec::new();
    let mut i: usize = 0;
    assert(views(pieces@) == ps);
    assert(ps.take(0).map_values(tf).filter(nz) =~= Seq::<Seq<char>>::empty());
    while i < pieces.len()
        invariant
            i <= pieces.len(),
            views(pieces@) == ps,
            tf == (|p: Seq<char>| trim(p)),
            nz == (|p: Seq<char>| p.len() > 0),
            views(out@) == ps.take(i as int).map_values(tf).filter(nz),
        decreases pieces.len() - i,
    {
        let t = trim_exec(&pieces[i]);
        proof {
            assert(ps[i as int] == pieces@[i as int]@);
            assert(ps.take(i + 1) =~= ps.take(i as int).push(ps[i as int]));
            assert(ps.take(i + 1).map_values(tf) =~= ps.take(i as int).map_values(tf).push(tf(ps[i as int])));
            ps.take(i as int).map_values(tf).lemma_filter_push(tf(ps[i as int]), nz);
        }
        assert(t@ == tf(ps[i as int]));
        if t.len() > 0 {
            let ghost before = out@;
            out.push(t);
            assert(views(out@) =~= views(before).push(t@));
            assert(views(out@) == ps.take(i + 1).map_values(tf).filter(nz));
        } else {
            assert(!nz(tf(ps[i as int])));
            assert(views(out@) == ps.take(i + 1).map_values(tf).filter(nz));
        }
        i = i + 1;
    }
    assert(ps.take(pieces.len() as int) =~= ps);
    out
}

fn param_options_exec(rest: &Vec<char>) -> (r: Result<(Vec<Vec<char>>, Vec<char>), Vec<char>>)
    requires
        brackets_ordered(rest@),
    ensures
        match r {
            Ok((o, t)) => param_options(rest@) == Ok::<_, Seq<char>>((views(o@), t@)),
            Err(m) => param_options(rest@) == Err::<(Seq<Seq<char>>, Seq<char>), _>(m@),
        },
{
    match find_char_exec(rest, '[') {
        None => {
            let none: Vec<Vec<char>> = Vec::new();
            let all = slice_of(rest, 0, rest.len());
            assert(views(none@) =~= Seq::<Seq<char>>::empty());
            assert(all@ =~= rest@);
            Ok((none, all))
        },
        Some(open) => match rfind_char_exec(rest, ']') {
            None => Err(fixed("unclosed `[`")),
            Some(close) => {
                let inner = slice_of(rest, open + 1, close);
                let options = options_exec(&inner);
                let mut joined = slice_of(rest, 0, open);
                joined.push(' ');
                let tail = slice_of(rest, close + 1, rest.len());
                append_chars(&mut joined, &tail);
                assert(joined@ =~= rest@.subrange(0, open as int) + seq![' '] + rest@.subrange(
                    close + 1,
                    rest.len() as int,
                ));
                Ok((options, trim_exec(&joined)))
            },
        },
    }
}

fn param_range_exec(rest: &Vec<char>) -> (r: Result<(Option<(Vec<char>, Vec<char>)>, Vec<char>), Vec<char>>)
    ensures
        match r {
            Ok((None, t)) => param_range(rest@) == Ok::<_, Seq<char>>((None::<(Seq<char>, Seq<char>)>, t@)),
            Ok((Some((a, b)), t)) => param_range(rest@) == Ok::<_, Seq<char>>((Some((a@, b@)), t@)),
            Err(m) => param_range(rest@) == Err::<(Option<(Seq<char>, Seq<char>)>, Seq<char>), _>(m@),
        },
{
    match split_once_str_exec(rest, " in ") {
        None => {
            let all = slice_of(rest, 0, rest.len());
            assert(all@ =~= rest@);
            Ok((None, all))
        },
        Some((before, after)) => {
            let after_t = trim_exec(&after);
            match split_once_str_exec(&after_t, "..") {
                None => Err(fixed("range must look like `in min..max`")),
                Some((a, b)) => {
                    let ta = trim_exec(&a);
                    if !is_float_literal_exec(&ta) {
                        return Err(message("bad range start `", &a, "`"));
                    }
                    let tb = trim_exec(&b);
                    if !is_float_literal_exec(&tb) {
                        return Err(message("bad range end `", &b, "`"));
                    }
                    Ok((Some((ta, tb)), trim_exec(&before)))
                },
            }
        },
    }
}

fn bool_word_exec(t: &Vec<char>) -> (r: Option<bool>)
    ensures
        r == bool_word(t@),
{
    if chars_eq_str(t, "true") || chars_eq_str(t, "on") || chars_eq_str(t, "1") {
        Some(true)
    } else if chars_eq_str(t, "false") || chars_eq_str(t, "off") || chars_eq_str(t, "0") {
        Some(false)
    } else {
        None
    }
}

fn contains_text(options: &Vec<Vec<char>>, t: &Vec<char>) -> (r: bool)
    ensures
        r == views(options@).contains(t@),
{
    let mut i: usize = 0;
    while i < options.len()
        invariant
            i <= options.len(),
            forall|j: int| 0 <= j < i ==> options@[j]@ != t@,
        decreases options.len() - i,
    {
        if chars_eq(&options[i], t) {
            assert(views(options@)[i as int] == t@);
            return true;
        }
        i = i + 1;
    }
    proof {
        if views(options@).contains(t@) {
            let k = choose|k: int| 0 <= k < views(options@).len() && views(options@)[k] == t@;
            assert(options@[k]@ == t@);
        }
    }
    false
}

fn param_body_exec(
    name: &Vec<char>,
    ty: &Vec<char>,
    options: &Vec<Vec<char>>,
    range: &Option<(Vec<char>, Vec<char>)>,
    text: &Vec<char>,
    doc: &Vec<char>,
) -> (r: Result<ParamSpec, Vec<char>>)
    ensures
        ({
            let rv = match range {
                Some((a, b)) => Some((a@, b@)),
                None => None,
            };
            let s = param_body(name@, ty@, views(options@), rv, text@, doc@);
            match r {
                Ok(p) => s == Ok::<_, Seq<char>>(p@),
                Err(m) => s == Err::<ParamModel, _>(m@),
            }
        }),
{
    let (min, max) = match range {
        Some((a, b)) => (string_of(a), string_of(b)),
        None => ("0".to_string(), "1".to_string()),
    };
    let name_s = string_of(name);
    let doc_s = string_of(doc);
    if chars_eq_str(ty, "float") || chars_eq_str(ty, "f32") {
        if is_float_literal_exec(text) {
            Ok(ParamSpec { name: name_s, ty: ParamType::Float { min, max }, default: ParamDefault::Float(string_of(text)), doc: doc_s })
        } else {
            Err(message("bad float default `", text, "`"))
        }
    } else if chars_eq_str(ty, "bool") {
        match bool_word_exec(text) {
            Some(b) => Ok(ParamSpec { name: name_s, ty: ParamType::Bool, default: ParamDefault::Bool(b), doc: doc_s }),
            None => Err(message("bad bool default `", text, "`")),
        }
    } else if chars_eq_str(ty, "choice") {
        if options.len() == 0 {
            Err(fixed("choice needs `[option, option, ...]`"))
        } else if !contains_text(options, text) {
            Err(message("default `", text, "` is not one of the options"))
        } else {
            let opts = strings_of(options);
            Ok(ParamSpec { name: name_s, ty: ParamType::Choice { options: opts }, default: ParamDefault::Choice(string_of(text)), doc: doc_s })
        }
    } else if chars_eq_str(ty, "color") {
        match parse_hex_color(text) {
            Some(c) => Ok(ParamSpec { name: name_s, ty: ParamType::Color, default: ParamDefault::Color(c), doc: doc_s }),
            None => Err(message("bad color default `", text, "` (use #rrggbb)")),
        }
    } else if chars_eq_str(ty, "vec2") {
        let raw = split_char_exec(text, ',');
        let ghost tf = |p: Seq<char>| trim(p);
        if raw.len() != 2 {
            return Err(message("bad vec2 default `", text, "` (use `x, y`)"));
        }
        let x = trim_exec(&raw[0]);
        let y = trim_exec(&raw[1]);
        proof {
            let parts = split_char(text@, ',').map_values(tf);
            assert(split_char(text@, ',') == views(raw@));
            assert(parts[0] == x@ && parts[1] == y@);
        }
        if !is_float_literal_exec(&x) {
            return Err(message("bad number `", &x, "`"));
        }
        if !is_float_literal_exec(&y) {
            return Err(message("bad number `", &y, "`"));
        }
        Ok(ParamSpec { name: name_s, ty: ParamType::Vec2 { min, max }, default: ParamDefault::Vec2(string_of(&x), string_of(&y)), doc: doc_s })
    } else {
        Err(message("unknown parameter type `", ty, "`"))
    }
}

/// Parse one `param` declaration (what follows the keyword).
pub fn parse_param(args: &Vec<char>) -> (r: Result<ParamSpec, Vec<char>>)
    requires
        param_sliceable(args@),
    ensures
        match r {
            Ok(p) => parse_param_spec(args@) == Ok::<_, Seq<char>>(p@),
            Err(m) => parse_param_spec(args@) == Err::<ParamModel, _>(m@),
        },
{
    let (rest, doc) = split_doc(args);
    let (name, ty, after) = match param_head_exec(&rest) {
        Err(m) => return Err(m),
        Ok(h) => h,
    };
    let (options, rest2) = match param_options_exec(&after) {
        Err(m) => return Err(m),
        Ok(o) => o,
    };
    let (range, rest3) = match param_range_exec(&rest2) {
        Err(m) => return Err(m),
        Ok(g) => g,
    };
    let text = trim_exec(&rest3);
    param_body_exec(&name, &ty, &options, &range, &text, &doc)
}

// ---------------------------------------------------------------------------
// Imports and validation
// ---------------------------------------------------------------------------
/// What an item of an `#import` brings into scope: the alias after the last
/// ` as `, else the item itself; trimmed.
pub open spec fn bound_name(item: Seq<char>) -> Seq<char> {
    trim(after_last(item, " as "@))
}

/// The identifiers one line brings into scope:
/// `#import a::b::{x, y}` gives `x, y`; `#import a::b::x` gives `x`;
/// `#import a::b` gives `b`. Other lines give none.
pub open spec fn line_imports(line: Seq<char>) -> Seq<Seq<char>> {
    match strip_prefix(trim_start(line), "#import"@) {
        None => Seq::empty(),
        Some(r) => {
            let rest = trim(r);
            let open = find_char(rest, '{');
            if open >= 0 {
                let c = rfind_char(rest, '}');
                let close = if c < 0 {
                    rest.len() as int
                } else {
                    c
                };
                split_char(rest.subrange(open + 1, close), ',').map_values(
                    |it: Seq<char>| bound_name(trim(it)),
                ).filter(|b: Seq<char>| b.len() > 0)
            } else {
                let bound = bound_name(after_last(rest, "::"@));
                if bound.len() > 0 {
                    seq![bound]
                } else {
                    Seq::empty()
                }
            }
        },
    }
}

/// A `}` on an import line that is present does not come before its `{`.
pub open spec fn import_sliceable(line: Seq<char>) -> bool {
    match strip_prefix(trim_start(line), "#import"@) {
        None => true,
        Some(r) => {
            let rest = trim(r);
            let open = find_char(rest, '{');
            let c = rfind_char(rest, '}');
            open < 0 || c < 0 || open < c
        },
    }
}

/// The identifiers brought into scope by the import lines, in order.
pub open spec fn imports_of(lines: Seq<Seq<char>>) -> Seq<Seq<char>>
    decreases lines.len(),
{
    if lines.len() == 0 {
        Seq::empty()
    } else {
        imports_of(lines.drop_last()) + line_imports(lines.last())
    }
}

/// Every import line of `source` can be read.
pub open spec fn imports_sliceable(source: Seq<char>) -> bool {
    forall|i: int| 0 <= i < lines(source).len() ==> import_sliceable(#[trigger] lines(source)[i])
}

/// Index of the first of `names` at or after `i` that is also in `items`, or -1.
pub open spec fn first_in_from(names: Seq<Seq<char>>, items: Seq<Seq<char>>, i: int) -> int
    decreases names.len() - i,
{
    if i < 0 || i >= names.len() {
        -1
    } else if items.contains(names[i]) {
        i
    } else {
        first_in_from(names, items, i + 1)
    }
}

/// Parameter names, then input names.
pub open spec fn declared_names(m: NodeModel) -> Seq<Seq<char>> {
    m.params.map_values(|p: ParamModel| p.name) + m.inputs.map_values(|i: (Seq<char>, bool)| i.0)
}

/// The checks of a definition, in order: at most [`MAX_INPUTS`] inputs; no
/// parameter or input named like an imported item (the shader preprocessor
/// would rename one of them); parameters fit the uniform buffer.
pub open spec fn validate_spec(m: NodeModel) -> Result<(), HeaderFault> {
    if m.inputs.len() > MAX_INPUTS {
        Err(HeaderFault::TooManyInputs(m.inputs.len() as int))
    } else {
        let names = declared_names(m);
        let k = first_in_from(names, imports_of(lines(m.source)), 0);
        if k >= 0 {
            Err(HeaderFault::ImportCollision(names[k]))
        } else if layout_size(model_kinds(m.params)) > UNIFORM_BYTES {
            Err(HeaderFault::UniformTooLarge(layout_size(model_kinds(m.params))))
        } else {
            Ok(())
        }
    }
}

/// What `validate` reads can be read: its import lines when the input count
/// passes, and the layout's size when no name collides.
pub open spec fn validate_defined(m: NodeModel) -> bool {
    m.inputs.len() > MAX_INPUTS || (imports_sliceable(m.source) && (first_in_from(
        declared_names(m),
        imports_of(lines(m.source)),
        0,
    ) >= 0 || layout_fits(model_kinds(m.params))))
}

fn line_imports_exec(line: &Vec<char>) -> (r: Vec<Vec<char>>)
    requires
        import_sliceable(line@),
    ensures
        views(r@) == line_imports(line@),
{
    let t = trim_start_exec(line);
    match strip_prefix_exec(&t, "#import") {
        None => Vec::new(),
        Some(r) => {
            let rest = trim_exec(&r);
            match find_char_exec(&rest, '{') {
                Some(open) => {
                    let close = match rfind_char_exec(&rest, '}') {
                        Some(c) => c,
                        None => rest.len(),
                    };
                    let inner = slice_of(&rest, open + 1, close);
                    let pieces = split_char_exec(&inner, ',');
                    let ghost ps = split_char(inner@, ',');
                    let ghost bf = |it: Seq<char>| bound_name(trim(it));
                    let ghost nz = |b: Seq<char>| b.len() > 0;
                    let mut out: Vec<Vec<char>> = Vec::new();
                    let mut i: usize = 0;
                    assert(ps.take(0).map_values(bf).filter(nz) =~= Seq::<Seq<char>>::empty());
                    while i < pieces.len()
                        invariant
                            i <= pieces.len(),
                            views(pieces@) == ps,
                            bf == (|it: Seq<char>| bound_name(trim(it))),
                            nz == (|b: Seq<char>| b.len() > 0),
                            views(out@) == ps.take(i as int).map_values(bf).filter(nz),
                        decreases pieces.len() - i,
                    {
                        let item = trim_exec(&pieces[i]);
                        let last = after_last_exec(&item, " as ");
                        let b = trim_exec(&last);
                        proof {
                            assert(ps[i as int] == pieces@[i as int]@);
                            assert(b@ == bf(ps[i as int]));
                            assert(ps.take(i + 1) =~= ps.take(i as int).push(ps[i as int]));
                            assert(ps.take(i + 1).map_values(bf) =~= ps.take(i as int).map_values(
                                bf,
                            ).push(bf(ps[i as int])));
                            ps.take(i as int).map_values(bf).lemma_filter_push(bf(ps[i as int]), nz);
                        }
                        if b.len() > 0 {
                            let ghost before = out@;
                            out.push(b);
                            assert(views(out@) =~= views(before).push(b@));
                        }
                        i = i + 1;
                    }
                    assert(ps.take(pieces.len() as int) =~= ps);
                    out
                },
                None => {
                    let last = after_last_exec(&rest, "::");
                    let last2 = after_last_exec(&last, " as ");
                    let b = trim_exec(&last2);
                    let mut out: Vec<Vec<char>> = Vec::new();
                    if b.len() > 0 {
                        out.push(b);
                        assert(views(out@) =~= seq![b@]);
                    } else {
                        assert(views(out@) =~= Seq::<Seq<char>>::empty());
                    }
                    out
                },
            }
        },
    }
}

/// The identifiers the `#import` lines of `source` bring into scope, in order.
pub fn imported_items(source: &str) -> (r: Vec<String>)
    requires
        imports_sliceable(source@),
    ensures
        texts(r@) == imports_of(lines(source@)),
{
    let chars = chars_of(source);
    let ls = lines_exec(&chars);
    let ghost lv = lines(source@);
    let mut out: Vec<Vec<char>> = Vec::new();
    let mut i: usize = 0;
    assert(lv.take(0) =~= Seq::<Seq<char>>::empty());
    while i < ls.len()
        invariant
            i <= ls.len(),
            views(ls@) == lv,
            lv == lines(source@),
            imports_sliceable(source@),
            views(out@) == imports_of(lv.take(i as int)),
        decreases ls.len() - i,
    {
        assert(lv[i as int] == ls@[i as int]@);
        let items = line_imports_exec(&ls[i]);
        let ghost before = out@;
        let mut j: usize = 0;
        while j < items.len()
            invariant
                j <= items.len(),
                views(out@) == views(before) + views(items@).take(j as int),
            decreases items.len() - j,
        {
            let c = slice_of(&items[j], 0, items[j].len());
            assert(c@ =~= items@[j as int]@);
            let ghost mid = out@;
            out.push(c);
            assert(views(out@) =~= views(mid).push(c@));
            assert(views(items@).take(j + 1) =~= views(items@).take(j as int).push(items@[j as int]@));
            assert(views(out@) =~= views(before) + views(items@).take(j + 1));
            j = j + 1;
        }
        proof {
            assert(views(items@).take(items.len() as int) =~= views(items@));
            assert(lv.take(i + 1).drop_last() =~= lv.take(i as int));
        }
        i = i + 1;
    }
    assert(lv.take(ls.len() as int) =~= lv);
    strings_of(&out)
}

/// Is `name` one of `items`?
fn collides(items: &Vec<String>, name: &String) -> (r: bool)
    ensures
        r == texts(items@).contains(name@),
{
    let mut j: usize = 0;
    while j < items.len()
        invariant
            j <= items.len(),
            forall|k: int| 0 <= k < j ==> items@[k]@ != name@,
        decreases items.len() - j,
    {
        if string_eq(&items[j], name) {
            assert(texts(items@)[j as int] == name@);
            return true;
        }
        j = j + 1;
    }
    proof {
        if texts(items@).contains(name@) {
            let k = choose|k: int| 0 <= k < texts(items@).len() && texts(items@)[k] == name@;
            assert(items@[k]@ == name@);
        }
    }
    false
}

impl NodeDef {
    /// The std140-compatible layout of this node's parameter uniform.
    pub fn uniform_layout(&self) -> (l: UniformLayout)
        requires
            layout_fits(kinds_of(self.params@)),
        ensures
            is_layout_of(l.fields@, self.params@),
            l.size == layout_size(kinds_of(self.params@)),
    {
        UniformLayout::for_params(self.params.as_slice())
    }

    /// Check the definition: input count, name collisions with imports,
    /// uniform size; the first failing check is reported.
    pub fn validate(&self) -> (r: Result<(), HeaderError>)
        requires
            validate_defined(self@),
        ensures
            match r {
                Ok(()) => validate_spec(self@) is Ok,
                Err(e) => validate_spec(self@) == Err::<(), HeaderFault>(e@),
            },
    {
        let ghost m = self@;
        if self.inputs.len() > MAX_INPUTS {
            return Err(HeaderError::TooManyInputs(self.inputs.len()));
        }
        let imported = imported_items(self.source.as_str());
        let ghost items = imports_of(lines(m.source));
        let ghost names = declared_names(m);
        let ghost np = self.params.len() as int;
        assert(names.len() == self.params.len() + self.inputs.len());
        let mut i: usize = 0;
        while i < self.params.len()
            invariant
                m == self@,
                self.inputs.len() <= MAX_INPUTS,
                items == imports_of(lines(m.source)),
                names == declared_names(m),
                np == self.params.len(),
                texts(imported@) == items,
                names.len() == self.params.len() + self.inputs.len(),
                i <= self.params.len(),
                first_in_from(names, items, 0) == first_in_from(names, items, i as int),
            decreases self.params.len() - i,
        {
            let name = &self.params[i].name;
            assert(name@ == names[i as int]);
            if collides(&imported, name) {
                assert(first_in_from(names, items, i as int) == i);
                return Err(HeaderError::ImportCollision(name.clone()));
            }
            i = i + 1;
        }
        let mut j: usize = 0;
        while j < self.inputs.len()
            invariant
                m == self@,
                self.inputs.len() <= MAX_INPUTS,
                items == imports_of(lines(m.source)),
                names == declared_names(m),
                np == self.params.len(),
                texts(imported@) == items,
                names.len() == self.params.len() + self.inputs.len(),
                j <= self.inputs.len(),
                first_in_from(names, items, 0) == first_in_from(names, items, np + j),
            decreases self.inputs.len() - j,
        {
            let name = &self.inputs[j].name;
            assert(name@ == names[np + j]);
            if collides(&imported, name) {
                assert(first_in_from(names, items, np + j) == np + j);
                return Err(HeaderError::ImportCollision(name.clone()));
            }
            j = j + 1;
        }
        proof {
            assert(kinds_of(self.params@) =~= model_kinds(m.params));
        }
        let size = self.uniform_layout().size;
        if size > UNIFORM_BYTES {
            return Err(HeaderError::UniformTooLarge(size));
        }
        Ok(())
    }
}

// ---------------------------------------------------------------------------
// The whole header
// ---------------------------------------------------------------------------
/// What the header lines read so far declare.
#[verifier::ext_equal]
pub struct HeaderModel {
    pub name: Seq<char>,
    pub doc: Seq<char>,
    pub inputs: Seq<(Seq<char>, bool)>,
    pub feedback: bool,
    pub params: Seq<ParamModel>,
}

/// The state before any line: the given name, nothing declared.
pub open spec fn header_start(name: Seq<char>) -> HeaderModel {
    HeaderModel {
        name,
        doc: Seq::empty(),
        inputs: Seq::empty(),
        feedback: false,
        params: Seq::empty(),
    }
}

/// Keyword (without a trailing `:`) and arguments of a header line; `None`
/// for a line that is not a header line or holds nothing after `//!`.
pub open spec fn header_args(raw: Seq<char>) -> Option<(Seq<char>, Seq<char>)> {
    match strip_prefix(trim_start(raw), "//!"@) {
        None => None,
        Some(r) => {
            let rest = trim(r);
            if rest.len() == 0 {
                None
            } else {
                let (kw, args) = match split_once_ws(rest) {
                    Some(p) => p,
                    None => (rest, Seq::empty()),
                };
                Some((trim_end_char(kw, ':'), trim(args)))
            }
        },
    }
}

/// An `input` line: `input NAME [optional]`.
pub open spec fn input_line(st: HeaderModel, line: int, args: Seq<char>) -> Result<HeaderModel, HeaderFault> {
    let ws = words(args);
    if ws.len() == 0 {
        Err(HeaderFault::Syntax { line, message: "input needs a name"@ })
    } else if ws[0] == "previous"@ {
        Err(HeaderFault::Reserved(ws[0]))
    } else if exists|j: int| 0 <= j < st.inputs.len() && st.inputs[j].0 == ws[0] {
        Err(HeaderFault::DuplicateInput(ws[0]))
    } else if ws.len() == 1 || ws[1] == "optional"@ {
        Ok(
            HeaderModel {
                name: st.name,
                doc: st.doc,
                inputs: st.inputs.push((ws[0], ws.len() > 1)),
                feedback: st.feedback,
                params: st.params,
            },
        )
    } else {
        Err(HeaderFault::Syntax { line, message: "unexpected `"@ + ws[1] + "` after input name"@ })
    }
}

/// A `param` line.
pub open spec fn param_line(st: HeaderModel, line: int, args: Seq<char>) -> Result<HeaderModel, HeaderFault> {
    match parse_param_spec(args) {
        Err(m) => Err(HeaderFault::Syntax { line, message: m }),
        Ok(p) => if exists|j: int| 0 <= j < st.params.len() && st.params[j].name == p.name {
            Err(HeaderFault::DuplicateParam(p.name))
        } else {
            Ok(
                HeaderModel {
                    name: st.name,
                    doc: st.doc,
                    inputs: st.inputs,
                    feedback: st.feedback,
                    params: st.params.push(p),
                },
            )
        },
    }
}

/// The effect of line number `line` (counted from 1), whose text is `raw`.
pub open spec fn header_line(st: HeaderModel, line: int, raw: Seq<char>) -> Result<HeaderModel, HeaderFault> {
    match header_args(raw) {
        None => Ok(st),
        Some((kw, args)) => if kw == "node"@ {
            Ok(HeaderModel { name: args, doc: st.doc, inputs: st.inputs, feedback: st.feedback, params: st.params })
        } else if kw == "doc"@ {
            Ok(HeaderModel { name: st.name, doc: args, inputs: st.inputs, feedback: st.feedback, params: st.params })
        } else if kw == "feedback"@ {
            Ok(HeaderModel { name: st.name, doc: st.doc, inputs: st.inputs, feedback: true, params: st.params })
        } else if kw == "input"@ {
            input_line(st, line, args)
        } else if kw == "param"@ {
            param_line(st, line, args)
        } else {
            Err(HeaderFault::Syntax { line, message: "unknown header keyword `"@ + kw + "`"@ })
        },
    }
}

/// Lines `i..` applied in order to `st`; the first error stops.
pub open spec fn header_from(lines: Seq<Seq<char>>, i: int, st: HeaderModel) -> Result<HeaderModel, HeaderFault>
    decreases lines.len() - i,
{
    if i < 0 || i >= lines.len() {
        Ok(st)
    } else {
        match header_line(st, i + 1, lines[i]) {
            Err(e) => Err(e),
            Ok(next) => header_from(lines, i + 1, next),
        }
    }
}

/// A `param` line whose declaration can be read.
pub open spec fn line_readable(raw: Seq<char>) -> bool {
    match header_args(raw) {
        Some((kw, args)) => kw == "param"@ ==> param_sliceable(args),
        None => true,
    }
}

/// Every line that the header reader reaches from line `i` on can be read.
pub open spec fn header_readable(lines: Seq<Seq<char>>, i: int, st: HeaderModel) -> bool
    decreases lines.len() - i,
{
    if i < 0 || i >= lines.len() {
        true
    } else {
        &&& line_readable(lines[i])
        &&& match header_line(st, i + 1, lines[i]) {
            Err(_) => true,
            Ok(next) => header_readable(lines, i + 1, next),
        }
    }
}

/// The definition a header declares for a source text.
pub open spec fn node_model(h: HeaderModel, source: Seq<char>) -> NodeModel {
    NodeModel {
        name: h.name,
        doc: h.doc,
        inputs: h.inputs,
        feedback: h.feedback,
        params: h.params,
        source,
    }
}

/// What `NodeDef::parse_wgsl` gives for a node called `name` by default.
pub open spec fn parse_wgsl_spec(name: Seq<char>, source: Seq<char>) -> Result<NodeModel, HeaderFault> {
    match header_from(lines(source), 0, header_start(name)) {
        Err(e) => Err(e),
        Ok(h) => match validate_spec(node_model(h, source)) {
            Err(e) => Err(e),
            Ok(()) => Ok(node_model(h, source)),
        },
    }
}

/// The reader can read every part of the file it reaches.
pub open spec fn wgsl_readable(name: Seq<char>, source: Seq<char>) -> bool {
    &&& header_readable(lines(source), 0, header_start(name))
    &&& match header_from(lines(source), 0, header_start(name)) {
        Err(_) => true,
        Ok(h) => validate_defined(node_model(h, source)),
    }
}

/// The header read so far.
struct Header {
    name: String,
    doc: String,
    inputs: Vec<InputDef>,
    feedback: bool,
    params: Vec<ParamSpec>,
}

impl View for Header {
    type V = HeaderModel;

    closed spec fn view(&self) -> HeaderModel {
        HeaderModel {
            name: self.name@,
            doc: self.doc@,
            inputs: self.inputs@.map_values(|i: InputDef| i@),
            feedback: self.feedback,
            params: self.params@.map_values(|p: ParamSpec| p@),
        }
    }
}

fn header_args_exec(raw: &Vec<char>) -> (r: Option<(Vec<char>, Vec<char>)>)
    ensures
        match r {
            Some((k, a)) => header_args(raw@) == Some((k@, a@)),
            None => header_args(raw@) is None,
        },
{
    let t = trim_start_exec(raw);
    match strip_prefix_exec(&t, "//!") {
        None => None,
        Some(r) => {
            let rest = trim_exec(&r);
            if rest.len() == 0 {
                return None;
            }
            let (kw, args) = match split_once_ws_exec(&rest) {
                Some(p) => p,
                None => (slice_of(&rest, 0, rest.len()), Vec::new()),
            };
            proof {
                if split_once_ws(rest@) is None {
                    assert(kw@ =~= rest@);
                    assert(args@ =~= Seq::<char>::empty());
                }
            }
            Some((trim_end_char_exec(&kw, ':'), trim_exec(&args)))
        },
    }
}

fn syntax(line: usize, message: Vec<char>) -> (e: HeaderError)
    ensures
        e@ == (HeaderFault::Syntax { line: line as int, message: message@ }),
{
    HeaderError::Syntax { line, message: string_of(&message) }
}

fn input_line_exec(h: Header, line: usize, args: &Vec<char>) -> (r: Result<Header, HeaderError>)
    ensures
        match r {
            Ok(h2) => input_line(h@, line as int, args@) == Ok::<_, HeaderFault>(h2@),
            Err(e) => input_line(h@, line as int, args@) == Err::<HeaderModel, _>(e@),
        },
{
    let ws = words_exec(args);
    let ghost wv = words(args@);
    assert(views(ws@) == wv);
    if ws.len() == 0 {
        return Err(syntax(line, fixed("input needs a name")));
    }
    assert(wv[0] == ws@[0]@);
    if chars_eq_str(&ws[0], "previous") {
        return Err(HeaderError::Reserved(string_of(&ws[0])));
    }
    let mut j: usize = 0;
    while j < h.inputs.len()
        invariant
            j <= h.inputs.len(),
            ws@.len() > 0,
            wv == views(ws@),
            wv == words(args@),
            wv[0] != "previous"@,
            forall|k: int| 0 <= k < j ==> h.inputs@[k].name@ != ws@[0]@,
        decreases h.inputs.len() - j,
    {
        let n = chars_of_string(&h.inputs[j].name);
        if chars_eq(&n, &ws[0]) {
            assert(h@.inputs[j as int].0 == wv[0]);
            return Err(HeaderError::DuplicateInput(string_of(&ws[0])));
        }
        j = j + 1;
    }
    assert(!exists|k: int| 0 <= k < h@.inputs.len() && h@.inputs[k].0 == wv[0]) by {
        assert forall|k: int| 0 <= k < h@.inputs.len() implies h@.inputs[k].0 != wv[0] by {
            assert(h@.inputs[k] == h.inputs@[k]@);
        }
    }
    let optional = if ws.len() == 1 {
        false
    } else {
        assert(wv[1] == ws@[1]@);
        if chars_eq_str(&ws[1], "optional") {
            true
        } else {
            return Err(syntax(line, message("unexpected `", &ws[1], "` after input name")));
        }
    };
    let mut h = h;
    let ghost before = h@;
    h.inputs.push(InputDef { name: string_of(&ws[0]), optional });
    assert(h@.inputs =~= before.inputs.push((wv[0], wv.len() > 1)));
    Ok(h)
}

fn param_line_exec(h: Header, line: usize, args: &Vec<char>) -> (r: Result<Header, HeaderError>)
    requires
        param_sliceable(args@),
    ensures
        match r {
            Ok(h2) => param_line(h@, line as int, args@) == Ok::<_, HeaderFault>(h2@),
            Err(e) => param_line(h@, line as int, args@) == Err::<HeaderModel, _>(e@),
        },
{
    let p = match parse_param(args) {
        Err(m) => return Err(syntax(line, m)),
        Ok(p) => p,
    };
    let mut j: usize = 0;
    while j < h.params.len()
        invariant
            j <= h.params.len(),
            parse_param_spec(args@) == Ok::<_, Seq<char>>(p@),
            forall|k: int| 0 <= k < j ==> h.params@[k].name@ != p.name@,
        decreases h.params.len() - j,
    {
        if string_eq(&h.params[j].name, &p.name) {
            assert(h@.params[j as int].name == p@.name);
            return Err(HeaderError::DuplicateParam(p.name));
        }
        j = j + 1;
    }
    assert(!exists|k: int| 0 <= k < h@.params.len() && h@.params[k].name == p@.name) by {
        assert forall|k: int| 0 <= k < h@.params.len() implies h@.params[k].name != p@.name by {
            assert(h@.params[k] == h.params@[k]@);
        }
    }
    let mut h = h;
    let ghost before = h@;
    let ghost pm = p@;
    h.params.push(p);
    assert(h@.params =~= before.params.push(pm));
    Ok(h)
}

fn header_line_exec(h: Header, line: usize, raw: &Vec<char>) -> (r: Result<Header, HeaderError>)
    requires
        line_readable(raw@),
    ensures
        match r {
            Ok(h2) => header_line(h@, line as int, raw@) == Ok::<_, HeaderFault>(h2@),
            Err(e) => header_line(h@, line as int, raw@) == Err::<HeaderModel, _>(e@),
        },
{
    match header_args_exec(raw) {
        None => Ok(h),
        Some((kw, args)) => {
            let mut h = h;
            if chars_eq_str(&kw, "node") {
                h.name = string_of(&args);
                Ok(h)
            } else if chars_eq_str(&kw, "doc") {
                h.doc = string_of(&args);
                Ok(h)
            } else if chars_eq_str(&kw, "feedback") {
                h.feedback = true;
                Ok(h)
            } else if chars_eq_str(&kw, "input") {
                input_line_exec(h, line, &args)
            } else if chars_eq_str(&kw, "param") {
                param_line_exec(h, line, &args)
            } else {
                Err(syntax(line, message("unknown header keyword `", &kw, "`")))
            }
        },
    }
}

impl NodeDef {
    /// Parse a WGSL node file: the header lines (those starting with `//!`)
    /// declare the node; `name` is its name unless a `node:` line gives one.
    /// The definition is then validated.
    pub fn parse_wgsl(name: &str, source: &str, origin: NodeOrigin) -> (r: Result<NodeDef, HeaderError>)
        requires
            wgsl_readable(name@, source@),
        ensures
            match r {
                Ok(d) => parse_wgsl_spec(name@, source@) == Ok::<_, HeaderFault>(d@) && d.origin == origin,
                Err(e) => parse_wgsl_spec(name@, source@) == Err::<NodeModel, _>(e@),
            },
    {
        let chars = chars_of(source);
        let ls = lines_exec(&chars);
        let ghost lv = lines(source@);
        let ghost start = header_start(name@);
        let mut h = Header {
            name: name.to_string(),
            doc: String::new(),
            inputs: Vec::new(),
            feedback: false,
            params: Vec::new(),
        };
        assert(h@ =~= start);
        let mut idx: usize = 0;
        while idx < ls.len()
            invariant
                idx <= ls.len(),
                views(ls@) == lv,
                lv == lines(source@),
                start == header_start(name@),
                header_from(lv, 0, start) == header_from(lv, idx as int, h@),
                header_readable(lv, idx as int, h@),
            decreases ls.len() - idx,
        {
            assert(lv[idx as int] == ls@[idx as int]@);
            match header_line_exec(h, idx + 1, &ls[idx]) {
                Err(e) => {
                    return Err(e);
                },
                Ok(next) => {
                    h = next;
                },
            }
            idx = idx + 1;
        }
        let ghost hm = h@;
        let def = NodeDef {
            name: h.name,
            doc: h.doc,
            inputs: h.inputs,
            feedback: h.feedback,
            params: h.params,
            source: source.to_string(),
            origin,
        };
        assert(def@ =~= node_model(hm, source@));
        match def.validate() {
            Err(e) => Err(e),
            Ok(()) => Ok(def),
        }
    }
}

/// What the header reader keeps true of what it has read: parameter names
/// are valid, not reserved and distinct; input names are distinct and not
/// the feedback tap's.
pub open spec fn header_wf(h: HeaderModel) -> bool {
    &&& forall|i: int, j: int| 0 <= i < j < h.params.len() ==> #[trigger] h.params[i].name != #[trigger] h.params[j].name
    &&& forall|i: int|
        0 <= i < h.params.len() ==> is_param_name(#[trigger] h.params[i].name) && h.params[i].name != "time"@
            && h.params[i].name != "previous"@
    &&& forall|i: int, j: int| 0 <= i < j < h.inputs.len() ==> #[trigger] h.inputs[i].0 != #[trigger] h.inputs[j].0
    &&& forall|i: int| 0 <= i < h.inputs.len() ==> #[trigger] h.inputs[i].0 != "previous"@
}

proof fn lemma_header_line_wf(st: HeaderModel, line: int, raw: Seq<char>)
    requires
        header_wf(st),
    ensures
        header_line(st, line, raw) matches Ok(h) ==> header_wf(h),
{
    match header_args(raw) {
        None => {},
        Some((kw, args)) => {
            if kw == "input"@ {
                if let Ok(h) = input_line(st, line, args) {
                    let w = words(args)[0];
                    assert forall|i: int, j: int| 0 <= i < j < h.inputs.len() implies #[trigger] h.inputs[i].0
                        != #[trigger] h.inputs[j].0 by {
                        if j == h.inputs.len() - 1 {
                            assert(h.inputs[j].0 == w);
                            assert(h.inputs[i] == st.inputs[i]);
                        } else {
                            assert(h.inputs[i] == st.inputs[i] && h.inputs[j] == st.inputs[j]);
                        }
                    }
                    assert forall|i: int| 0 <= i < h.inputs.len() implies #[trigger] h.inputs[i].0 != "previous"@ by {
                        if i < st.inputs.len() {
                            assert(h.inputs[i] == st.inputs[i]);
                        }
                    }
                }
            } else if kw == "param"@ {
                if let Ok(h) = param_line(st, line, args) {
                    let p = h.params.last();
                    assert(parse_param_spec(args) == Ok::<ParamModel, Seq<char>>(p));
                    assert forall|i: int, j: int| 0 <= i < j < h.params.len() implies #[trigger] h.params[i].name
                        != #[trigger] h.params[j].name by {
                        if j == h.params.len() - 1 {
                            assert(h.params[i] == st.params[i]);
                        } else {
                            assert(h.params[i] == st.params[i] && h.params[j] == st.params[j]);
                        }
                    }
                    assert forall|i: int| 0 <= i < h.params.len() implies is_param_name(#[trigger] h.params[i].name)
                        && h.params[i].name != "time"@ && h.params[i].name != "previous"@ by {
                        if i < st.params.len() {
                            assert(h.params[i] == st.params[i]);
                        }
                    }
                }
            }
        },
    }
}

proof fn lemma_header_from_wf(lines: Seq<Seq<char>>, i: int, st: HeaderModel)
    requires
        header_wf(st),
    ensures
        header_from(lines, i, st) matches Ok(h) ==> header_wf(h),
    decreases lines.len() - i,
{
    if 0 <= i < lines.len() {
        lemma_header_line_wf(st, i + 1, lines[i]);
        if let Ok(next) = header_line(st, i + 1, lines[i]) {
            lemma_header_from_wf(lines, i + 1, next);
        }
    }
}

/// Some line from `i` on is a `//! node` line.
pub open spec fn names_node_from(lines: Seq<Seq<char>>, i: int) -> bool {
    exists|j: int| i <= j < lines.len() && (#[trigger] header_args(lines[j]) matches Some((kw, _)) && kw == "node"@)
}

/// No line from `i` on is a header line (a `//!` line with something after
/// it).
pub open spec fn headerless_from(lines: Seq<Seq<char>>, i: int) -> bool {
    forall|j: int| i <= j < lines.len() ==> #[trigger] header_args(lines[j]) is None
}

proof fn lemma_name_kept(lines: Seq<Seq<char>>, i: int, st: HeaderModel)
    requires
        0 <= i,
        !names_node_from(lines, i),
    ensures
        header_from(lines, i, st) matches Ok(h) ==> h.name == st.name,
    decreases lines.len() - i,
{
    if i < lines.len() {
        assert(!(header_args(lines[i]) matches Some((kw, _)) && kw == "node"@));
        if let Ok(next) = header_line(st, i + 1, lines[i]) {
            assert(next.name == st.name);
            assert(!names_node_from(lines, i + 1)) by {
                if names_node_from(lines, i + 1) {
                    let j = choose|j: int| i + 1 <= j < lines.len() && (#[trigger] header_args(lines[j]) matches Some((kw, _)) && kw == "node"@);
                    assert(i <= j);
                }
            }
            lemma_name_kept(lines, i + 1, next);
        }
    }
}

proof fn lemma_headerless(lines: Seq<Seq<char>>, i: int, st: HeaderModel)
    requires
        0 <= i,
        headerless_from(lines, i),
    ensures
        header_from(lines, i, st) == Ok::<HeaderModel, HeaderFault>(st),
    decreases lines.len() - i,
{
    if i < lines.len() {
        assert(header_args(lines[i]) is None);
        lemma_headerless(lines, i + 1, st);
    }
}

/// A source without header lines defines a node with the given name, no
/// documentation, no inputs, no feedback and no parameters.
pub proof fn law_headerless_source(name: Seq<char>, source: Seq<char>)
    requires
        headerless_from(lines(source), 0),
    ensures
        parse_wgsl_spec(name, source) == Ok::<NodeModel, HeaderFault>(
            NodeModel {
                name,
                doc: Seq::empty(),
                inputs: Seq::empty(),
                feedback: false,
                params: Seq::empty(),
                source,
            },
        ),
{
    lemma_headerless(lines(source), 0, header_start(name));
    let m = node_model(header_start(name), source);
    assert(declared_names(m) =~= Seq::<Seq<char>>::empty());
    assert(model_kinds(m.params) =~= Seq::<ParamKind>::empty());
}

/// A definition that parses is well formed: at most [`MAX_INPUTS`] inputs,
/// distinct input names none of which is `previous`, distinct valid
/// parameter names none of which is reserved, no declared name also imported,
/// and a uniform that fits its buffer.
pub proof fn law_parsed_definition_is_well_formed(name: Seq<char>, source: Seq<char>)
    ensures
        parse_wgsl_spec(name, source) matches Ok(m) ==> {
            &&& header_wf(HeaderModel { name: m.name, doc: m.doc, inputs: m.inputs, feedback: m.feedback, params: m.params })
            &&& m.inputs.len() <= MAX_INPUTS
            &&& first_in_from(declared_names(m), imports_of(lines(m.source)), 0) < 0
            &&& layout_size(model_kinds(m.params)) <= UNIFORM_BYTES
            &&& validate_spec(m) == Ok::<(), HeaderFault>(())
            &&& m.source == source
            &&& !names_node_from(lines(source), 0) ==> m.name == name
        },
{
    if !names_node_from(lines(source), 0) {
        lemma_name_kept(lines(source), 0, header_start(name));
    }
    let start = header_start(name);
    assert(header_wf(start));
    lemma_header_from_wf(lines(source), 0, start);
    if let Ok(h) = header_from(lines(source), 0, start) {
        assert(HeaderModel {
            name: node_model(h, source).name,
            doc: node_model(h, source).doc,
            inputs: node_model(h, source).inputs,
            feedback: node_model(h, source).feedback,
            params: node_model(h, source).params,
        } == h);
    }
}

/// The words a bool value is written with: `true`, `on` and `1` read as
/// true, `false`, `off` and `0` as false, and no other word is read.
pub proof fn law_bool_words(t: Seq<char>)
    ensures
        bool_word(t) == Some(true) <==> (t == "true"@ || t == "on"@ || t == "1"@),
        bool_word(t) == Some(false) <==> (t == "false"@ || t == "off"@ || t == "0"@),
        bool_word(t) is None <==> !(t == "true"@ || t == "on"@ || t == "1"@ || t == "false"@ || t
            == "off"@ || t == "0"@),
{
    reveal_strlit("true");
    reveal_strlit("on");
    reveal_strlit("1");
    reveal_strlit("false");
    reveal_strlit("off");
    reveal_strlit("0");
    let trues = seq!["true"@, "on"@, "1"@];
    let falses = seq!["false"@, "off"@, "0"@];
    assert forall|i: int, j: int| 0 <= i < 3 && 0 <= j < 3 implies trues[i] != falses[j] by {
        if trues[i].len() == falses[j].len() {
            assert(trues[i][0] != falses[j][0]);
        }
    }
    assert(trues[0] == "true"@ && trues[1] == "on"@ && trues[2] == "1"@);
    assert(falses[0] == "false"@ && falses[1] == "off"@ && falses[2] == "0"@);
}

/// A `bool` parameter declared with the default `true`, `on` or `1` starts
/// true, one declared with `false`, `off` or `0` starts false, and any other
/// default is refused.
pub proof fn law_bool_param_default(
    name: Seq<char>,
    options: Seq<Seq<char>>,
    range: Option<(Seq<char>, Seq<char>)>,
    text: Seq<char>,
    doc: Seq<char>,
)
    ensures
        (text == "true"@ || text == "on"@ || text == "1"@) ==> param_body(name, "bool"@, options, range, text, doc)
            == Ok::<ParamModel, Seq<char>>(
            ParamModel { name, ty: TypeModel::Bool, default: DefaultModel::Bool(true), doc },
        ),
        (text == "false"@ || text == "off"@ || text == "0"@) ==> param_body(name, "bool"@, options, range, text, doc)
            == Ok::<ParamModel, Seq<char>>(
            ParamModel { name, ty: TypeModel::Bool, default: DefaultModel::Bool(false), doc },
        ),
        !(text == "true"@ || text == "on"@ || text == "1"@ || text == "false"@ || text == "off"@ || text
            == "0"@) ==> param_body(name, "bool"@, options, range, text, doc) is Err,
{
    reveal_strlit("bool");
    reveal_strlit("float");
    reveal_strlit("f32");
    assert("bool"@ != "float"@ && "bool"@ != "f32"@) by {
        assert("bool"@.len() != "float"@.len() && "bool"@.len() != "f32"@.len());
    }
    law_bool_words(text);
    let b = bool_word(text);
    assert(param_body(name, "bool"@, options, range, text, doc) == match b {
        Some(v) => Ok(ParamModel { name, ty: TypeModel::Bool, default: DefaultModel::Bool(v), doc }),
        None => Err("bad bool default `"@ + text + "`"@),
    });
}

// ---------------------------------------------------------------------------
// Checking that a file can be read
// ---------------------------------------------------------------------------
fn brackets_ordered_exec(rest: &Vec<char>) -> (b: bool)
    ensures
        b == brackets_ordered(rest@),
{
    match (find_char_exec(rest, '['), rfind_char_exec(rest, ']')) {
        (Some(open), Some(close)) => open < close,
        _ => true,
    }
}

fn param_sliceable_exec(args: &Vec<char>) -> (b: bool)
    ensures
        b == param_sliceable(args@),
{
    let (rest, _) = split_doc(args);
    match param_head_exec(&rest) {
        Err(_) => true,
        Ok((_, _, after)) => brackets_ordered_exec(&after),
    }
}

fn line_readable_exec(raw: &Vec<char>) -> (b: bool)
    ensures
        b == line_readable(raw@),
{
    match header_args_exec(raw) {
        Some((kw, args)) => !chars_eq_str(&kw, "param") || param_sliceable_exec(&args),
        None => true,
    }
}

fn import_sliceable_exec(line: &Vec<char>) -> (b: bool)
    ensures
        b == import_sliceable(line@),
{
    let t = trim_start_exec(line);
    match strip_prefix_exec(&t, "#import") {
        None => true,
        Some(r) => {
            let rest = trim_exec(&r);
            brackets_closed_after_open(&rest)
        },
    }
}

fn brackets_closed_after_open(rest: &Vec<char>) -> (b: bool)
    ensures
        b == ({
            let open = find_char(rest@, '{');
            let c = rfind_char(rest@, '}');
            open < 0 || c < 0 || open < c
        }),
{
    match (find_char_exec(rest, '{'), rfind_char_exec(rest, '}')) {
        (Some(open), Some(c)) => open < c,
        _ => true,
    }
}

fn imports_sliceable_exec(source: &str) -> (b: bool)
    ensures
        b == imports_sliceable(source@),
{
    let chars = chars_of(source);
    let ls = lines_exec(&chars);
    let ghost lv = lines(source@);
    let mut i: usize = 0;
    while i < ls.len()
        invariant
            i <= ls.len(),
            views(ls@) == lv,
            lv == lines(source@),
            forall|j: int| 0 <= j < i ==> import_sliceable(#[trigger] lv[j]),
        decreases ls.len() - i,
    {
        assert(lv[i as int] == ls@[i as int]@);
        if !import_sliceable_exec(&ls[i]) {
            return false;
        }
        i = i + 1;
    }
    true
}

/// Does the layout of these parameters fit a `usize`? Computed without
/// overflowing.
fn layout_fits_exec(params: &Vec<ParamSpec>) -> (b: bool)
    ensures
        b == layout_fits(kinds_of(params@)),
{
    let ghost kinds = kinds_of(params@);
    let mut cursor: u128 = 0;
    let mut i: usize = 0;
    proof {
        lemma_cursor_bound(kinds, kinds.len() as int);
    }
    while i < params.len()
        invariant
            i <= params.len(),
            kinds == kinds_of(params@),
            kinds.len() == params.len(),
            cursor == cursor_after(kinds, i as int),
            cursor <= 31 * i,
        decreases params.len() - i,
    {
        let k = params[i].ty.kind();
        assert(k == kinds[i as int]);
        let (size, align): (u128, u128) = match k {
            ParamKind::Float | ParamKind::Bool | ParamKind::Choice => (4, 4),
            ParamKind::Vec2 => (8, 8),
            ParamKind::Color => (16, 16),
        };
        proof {
            lemma_align_up(cursor as int, align as int);
        }
        let rem = cursor % align;
        if rem != 0 {
            cursor = cursor - rem + align;
        }
        cursor = cursor + size;
        i = i + 1;
    }
    proof {
        lemma_align_up(cursor as int, 16);
    }
    let rem = cursor % 16;
    let size = if rem != 0 {
        cursor - rem + 16
    } else {
        cursor
    };
    size <= usize::MAX as u128
}

/// Can `parse_wgsl` read this file: no reached `param` line with a `]`
/// before its `[`, and, when the header parses, the checks of `validate`
/// can be made?
pub fn wgsl_readable_exec(name: &str, source: &str) -> (b: bool)
    ensures
        b == wgsl_readable(name@, source@),
{
    let chars = chars_of(source);
    let ls = lines_exec(&chars);
    let ghost lv = lines(source@);
    let ghost start = header_start(name@);
    let mut h = Header {
        name: name.to_string(),
        doc: String::new(),
        inputs: Vec::new(),
        feedback: false,
        params: Vec::new(),
    };
    assert(h@ =~= start);
    let mut idx: usize = 0;
    while idx < ls.len()
        invariant
            idx <= ls.len(),
            views(ls@) == lv,
            lv == lines(source@),
            start == header_start(name@),
            header_from(lv, 0, start) == header_from(lv, idx as int, h@),
            header_readable(lv, 0, start) == header_readable(lv, idx as int, h@),
        decreases ls.len() - idx,
    {
        assert(lv[idx as int] == ls@[idx as int]@);
        if !line_readable_exec(&ls[idx]) {
            return false;
        }
        match header_line_exec(h, idx + 1, &ls[idx]) {
            Err(_) => {
                return true;
            },
            Ok(next) => {
                h = next;
            },
        }
        idx = idx + 1;
    }
    // The header parses; can `validate` run on what it declares?
    let ghost hm = h@;
    let ghost m = node_model(hm, source@);
    if h.inputs.len() > MAX_INPUTS {
        return true;
    }
    if !imports_sliceable_exec(source) {
        return false;
    }
    let imported = imported_items(source);
    let ghost items = imports_of(lines(source@));
    let ghost names = declared_names(m);
    assert(m.params == h.params@.map_values(|p: ParamSpec| p@)) by {
        reveal_header_view(&h);
    }
    assert(m.inputs == h.inputs@.map_values(|i: InputDef| i@)) by {
        reveal_header_view(&h);
    }
    let ghost np = h.params.len() as int;
    let mut i: usize = 0;
    while i < h.params.len()
        invariant
            i <= h.params.len(),
            np == h.params.len(),
            names == declared_names(m),
            m.params == h.params@.map_values(|p: ParamSpec| p@),
            m.inputs == h.inputs@.map_values(|i: InputDef| i@),
            items == imports_of(lines(source@)),
            m.source == source@,
            m == node_model(hm, source@),
            hm == h@,
            header_from(lines(source@), 0, header_start(name@)) == Ok::<_, HeaderFault>(hm),
            header_readable(lines(source@), 0, header_start(name@)),
            h.inputs.len() <= MAX_INPUTS,
            imports_sliceable(source@),
            texts(imported@) == items,
            first_in_from(names, items, 0) == first_in_from(names, items, i as int),
        decreases h.params.len() - i,
    {
        assert(h.params@[i as int].name@ == names[i as int]);
        if collides(&imported, &h.params[i].name) {
            assert(first_in_from(names, items, i as int) == i);
            return true;
        }
        i = i + 1;
    }
    let mut j: usize = 0;
    while j < h.inputs.len()
        invariant
            j <= h.inputs.len(),
            np == h.params.len(),
            names == declared_names(m),
            m.params == h.params@.map_values(|p: ParamSpec| p@),
            m.inputs == h.inputs@.map_values(|i: InputDef| i@),
            items == imports_of(lines(source@)),
            m.source == source@,
            m == node_model(hm, source@),
            hm == h@,
            header_from(lines(source@), 0, header_start(name@)) == Ok::<_, HeaderFault>(hm),
            header_readable(lines(source@), 0, header_start(name@)),
            h.inputs.len() <= MAX_INPUTS,
            imports_sliceable(source@),
            texts(imported@) == items,
            first_in_from(names, items, 0) == first_in_from(names, items, np + j),
        decreases h.inputs.len() - j,
    {
        assert(h.inputs@[j as int].name@ == names[np + j]);
        if collides(&imported, &h.inputs[j].name) {
            assert(first_in_from(names, items, np + j) == np + j);
            return true;
        }
        j = j + 1;
    }
    assert(model_kinds(m.params) =~= kinds_of(h.params@));
    layout_fits_exec(&h.params)
}

proof fn reveal_header_view(h: &Header)
    ensures
        h@.params == h.params@.map_values(|p: ParamSpec| p@),
        h@.inputs == h.inputs@.map_values(|i: InputDef| i@),
{
}

impl NodeDef {
    /// [`NodeDef::parse_wgsl`] for any file: `None` where that reader could
    /// not read it (a `param` line with its `]` before its `[`, or an import
    /// line with its `}` before its `{`).
    pub fn parse_wgsl_checked(name: &str, source: &str, origin: NodeOrigin) -> (r: Option<Result<NodeDef, HeaderError>>)
        ensures
            r is None <==> !wgsl_readable(name@, source@),
            r matches Some(x) ==> match x {
                Ok(d) => parse_wgsl_spec(name@, source@) == Ok::<_, HeaderFault>(d@) && d.origin == origin,
                Err(e) => parse_wgsl_spec(name@, source@) == Err::<NodeModel, _>(e@),
            },
    {
        if wgsl_readable_exec(name, source) {
            Some(NodeDef::parse_wgsl(name, source, origin))
        } else {
            None
        }
    }
}

} // verus!
