//! Command lines of the renderer and the timeline UI.
//!
//! Each parser reads the arguments after the program name, left to right,
//! and either produces the settings they ask for or says why it stopped:
//! a request for help, or a usage error with its message.
use vstd::prelude::*;

use crate::params::{is_digit, texts};
use crate::protocol::DEFAULT_PORT;
use crate::text::{
    append_decimal, append_str, chars_eq_str, chars_of, chars_of_string, decimal, slice_of,
    split_once_char, split_once_char_exec, starts_with, starts_with_str, string_of,
};

verus! {

// ---------------------------------------------------------------------------
// Unsigned integers as `str::parse` reads them
// ---------------------------------------------------------------------------
/// The number written by a string of decimal digits.
pub open spec fn digits_value(d: Seq<char>) -> nat
    decreases d.len(),
{
    if d.len() == 0 {
        0
    } else {
        10 * digits_value(d.drop_last()) + (d.last() as u32 - 48) as nat
    }
}

/// The text after an optional leading `+`.
pub open spec fn unsigned_digits(s: Seq<char>) -> Seq<char> {
    if s.len() > 0 && s[0] == '+' {
        s.drop_first()
    } else {
        s
    }
}

/// The number an unsigned integer's text denotes: an optional `+`, then one
/// or more decimal digits; `None` for any other text.
pub open spec fn uint_text_value(s: Seq<char>) -> Option<nat> {
    let d = unsigned_digits(s);
    if d.len() > 0 && forall|i: int| 0 <= i < d.len() ==> is_digit(#[trigger] d[i]) {
        Some(digits_value(d))
    } else {
        None
    }
}

/// What `str::parse` gives for an unsigned type whose largest value is `max`.
pub open spec fn parse_uint_spec(s: Seq<char>, max: nat) -> Option<nat> {
    match uint_text_value(s) {
        Some(v) => if v <= max {
            Some(v)
        } else {
            None
        },
        None => None,
    }
}

/// Parse a `u64` the way `str::parse::<u64>` does.
pub fn parse_u64(s: &Vec<char>) -> (r: Option<u64>)
    ensures
        match r {
            Some(v) => parse_uint_spec(s@, u64::MAX as nat) == Some(v as nat),
            None => parse_uint_spec(s@, u64::MAX as nat) is None,
        },
{
    let start: usize = if s.len() > 0 && s[0] == '+' {
        1
    } else {
        0
    };
    let ghost d = unsigned_digits(s@);
    assert(d =~= s@.subrange(start as int, s.len() as int));
    if start == s.len() {
        return None;
    }
    let mut value: u64 = 0;
    let mut overflow = false;
    let mut i = start;
    while i < s.len()
        invariant
            start <= i <= s.len(),
            start < s.len(),
            d == s@.subrange(start as int, s.len() as int),
            d == unsigned_digits(s@),
            forall|j: int| start <= j < i ==> is_digit(#[trigger] s@[j]),
            !overflow ==> value as nat == digits_value(d.take(i - start)),
            overflow ==> digits_value(d.take(i - start)) > u64::MAX,
        decreases s.len() - i,
    {
        let c = s[i];
        if !('0' <= c && c <= '9') {
            assert(!is_digit(d[i - start]));
            return None;
        }
        proof {
            assert(d.take(i - start + 1).drop_last() =~= d.take(i - start));
            assert(d.take(i - start + 1).last() == c);
        }
        let digit = (c as u32 - 48) as u64;
        if !overflow {
            if value > (u64::MAX - digit) / 10 {
                overflow = true;
                assert(10 * (value as nat) + digit > u64::MAX) by (nonlinear_arith)
                    requires
                        value > (u64::MAX - digit) / 10,
                        digit <= 9,
                ;
            } else {
                assert(10 * (value as nat) + digit <= u64::MAX) by (nonlinear_arith)
                    requires
                        value <= (u64::MAX - digit) / 10,
                        digit <= 9,
                ;
                value = value * 10 + digit;
            }
        } else {
            assert(digits_value(d.take(i - start + 1)) >= 10 * digits_value(d.take(i - start)));
        }
        i = i + 1;
    }
    assert(d.take(s.len() - start) =~= d);
    if overflow {
        None
    } else {
        Some(value)
    }
}

/// Parse a `u32` the way `str::parse::<u32>` does.
pub fn parse_u32(s: &Vec<char>) -> (r: Option<u32>)
    ensures
        match r {
            Some(v) => parse_uint_spec(s@, u32::MAX as nat) == Some(v as nat),
            None => parse_uint_spec(s@, u32::MAX as nat) is None,
        },
{
    match parse_u64(s) {
        Some(v) => if v <= u32::MAX as u64 {
            Some(v as u32)
        } else {
            None
        },
        None => None,
    }
}

/// Parse a `u16` the way `str::parse::<u16>` does.
pub fn parse_u16(s: &Vec<char>) -> (r: Option<u16>)
    ensures
        match r {
            Some(v) => parse_uint_spec(s@, u16::MAX as nat) == Some(v as nat),
            None => parse_uint_spec(s@, u16::MAX as nat) is None,
        },
{
    match parse_u64(s) {
        Some(v) => if v <= u16::MAX as u64 {
            Some(v as u16)
        } else {
            None
        },
        None => None,
    }
}

// ---------------------------------------------------------------------------
// Outcome
// ---------------------------------------------------------------------------
/// Why parsing stopped.
#[derive(Clone, Debug)]
pub enum ArgsError {
    /// `-h` or `--help`: print the usage and exit successfully.
    Help,
    /// A usage error with its message.
    Usage(String),
}

/// An [`ArgsError`] as plain values.
pub enum ArgsFault {
    Help,
    Usage(Seq<char>),
}

impl View for ArgsError {
    type V = ArgsFault;

    open spec fn view(&self) -> ArgsFault {
        match self {
            ArgsError::Help => ArgsFault::Help,
            ArgsError::Usage(m) => ArgsFault::Usage(m@),
        }
    }
}

fn usage(message: &str) -> (e: ArgsError)
    ensures
        e@ == ArgsFault::Usage(message@),
{
    ArgsError::Usage(message.to_string())
}

// ---------------------------------------------------------------------------
// Renderer
// ---------------------------------------------------------------------------
/// Settings a renderer's command line gives:
///
/// ```text
/// [graph.json] [--port N] [--size WxH] [--assets DIR] [--nodes DIR]
/// [--showcase] [--free-run] [--capture out.png [--frames N] [--every K]]
/// ```
#[derive(Clone, Debug)]
pub struct RenderArgs {
    pub port: Option<u16>,
    /// Width and height of every render target.
    pub size: Option<(u32, u32)>,
    pub assets: Option<String>,
    /// Node directories, in the order given.
    pub nodes: Vec<String>,
    /// Use the example graph with every builtin node.
    pub showcase: bool,
    /// Graph file to load; a later `--showcase` drops it.
    pub graph_file: Option<String>,
    pub free_run: bool,
    /// Screenshot path, if one was asked for.
    pub capture: Option<String>,
    /// Frame to capture at (120 unless given).
    pub frames: u64,
    /// Capture every this many frames after it (0: once).
    pub every: u64,
}

/// A [`RenderArgs`] as plain values.
#[verifier::ext_equal]
pub struct RenderModel {
    pub port: Option<u16>,
    pub size: Option<(u32, u32)>,
    pub assets: Option<Seq<char>>,
    pub nodes: Seq<Seq<char>>,
    pub showcase: bool,
    pub graph_file: Option<Seq<char>>,
    pub free_run: bool,
    pub capture: Option<Seq<char>>,
    pub frames: u64,
    pub every: u64,
}

pub open spec fn opt_text(s: Option<String>) -> Option<Seq<char>> {
    match s {
        Some(t) => Some(t@),
        None => None,
    }
}

impl View for RenderArgs {
    type V = RenderModel;

    open spec fn view(&self) -> RenderModel {
        RenderModel {
            port: self.port,
            size: self.size,
            assets: opt_text(self.assets),
            nodes: texts(self.nodes@),
            showcase: self.showcase,
            graph_file: opt_text(self.graph_file),
            free_run: self.free_run,
            capture: opt_text(self.capture),
            frames: self.frames,
            every: self.every,
        }
    }
}

/// Settings before any argument.
pub open spec fn render_start() -> RenderModel {
    RenderModel {
        port: None,
        size: None,
        assets: None,
        nodes: Seq::empty(),
        showcase: false,
        graph_file: None,
        free_run: false,
        capture: None,
        frames: 120,
        every: 0,
    }
}

/// `WxH`, both `u32`.
pub open spec fn size_spec(s: Seq<char>) -> Option<(u32, u32)> {
    match split_once_char(s, 'x') {
        Some((w, h)) => match (parse_uint_spec(w, u32::MAX as nat), parse_uint_spec(h, u32::MAX as nat)) {
            (Some(a), Some(b)) => Some((a as u32, b as u32)),
            _ => None,
        },
        None => None,
    }
}

/// The value after option `i`, if there is one.
pub open spec fn next_arg(args: Seq<Seq<char>>, i: int) -> Option<Seq<char>> {
    if 0 <= i + 1 < args.len() {
        Some(args[i + 1])
    } else {
        None
    }
}

/// Arguments `i..` applied to `st`, left to right.
pub open spec fn render_from(args: Seq<Seq<char>>, i: int, st: RenderModel) -> Result<RenderModel, ArgsFault>
    decreases args.len() - i,
{
    if i < 0 || i >= args.len() {
        Ok(st)
    } else {
        let a = args[i];
        let v = next_arg(args, i);
        if a == "--port"@ {
            match v {
                Some(t) => match parse_uint_spec(t, u16::MAX as nat) {
                    Some(p) => render_from(args, i + 2, RenderModel { port: Some(p as u16), ..st }),
                    None => Err(ArgsFault::Usage("--port needs a number"@)),
                },
                None => Err(ArgsFault::Usage("--port needs a number"@)),
            }
        } else if a == "--size"@ {
            match v {
                Some(t) => match size_spec(t) {
                    Some(wh) => render_from(args, i + 2, RenderModel { size: Some(wh), ..st }),
                    None => Err(ArgsFault::Usage("--size needs WxH"@)),
                },
                None => Err(ArgsFault::Usage("--size needs WxH"@)),
            }
        } else if a == "--assets"@ {
            match v {
                Some(t) => render_from(args, i + 2, RenderModel { assets: Some(t), ..st }),
                None => Err(ArgsFault::Usage("--assets needs a directory"@)),
            }
        } else if a == "--nodes"@ {
            match v {
                Some(t) => render_from(args, i + 2, RenderModel { nodes: st.nodes.push(t), ..st }),
                None => Err(ArgsFault::Usage("--nodes needs a directory"@)),
            }
        } else if a == "--capture"@ {
            match v {
                Some(t) => render_from(args, i + 2, RenderModel { capture: Some(t), ..st }),
                None => Err(ArgsFault::Usage("--capture needs a path"@)),
            }
        } else if a == "--frames"@ {
            match v {
                Some(t) => match parse_uint_spec(t, u64::MAX as nat) {
                    Some(n) => render_from(args, i + 2, RenderModel { frames: n as u64, ..st }),
                    None => Err(ArgsFault::Usage("--frames needs a number"@)),
                },
                None => Err(ArgsFault::Usage("--frames needs a number"@)),
            }
        } else if a == "--every"@ {
            match v {
                Some(t) => match parse_uint_spec(t, u64::MAX as nat) {
                    Some(n) => render_from(args, i + 2, RenderModel { every: n as u64, ..st }),
                    None => Err(ArgsFault::Usage("--every needs a number"@)),
                },
                None => Err(ArgsFault::Usage("--every needs a number"@)),
            }
        } else if a == "--showcase"@ {
            render_from(args, i + 1, RenderModel { showcase: true, graph_file: None, ..st })
        } else if a == "--free-run"@ {
            render_from(args, i + 1, RenderModel { free_run: true, ..st })
        } else if a == "-h"@ || a == "--help"@ {
            Err(ArgsFault::Help)
        } else if !starts_with(a, "-"@) {
            render_from(args, i + 1, RenderModel { graph_file: Some(a), ..st })
        } else {
            Err(ArgsFault::Usage("unknown argument "@ + a))
        }
    }
}

fn size_exec(s: &Vec<char>) -> (r: Option<(u32, u32)>)
    ensures
        r == size_spec(s@),
{
    match split_once_char_exec(s, 'x') {
        Some((w, h)) => match (parse_u32(&w), parse_u32(&h)) {
            (Some(a), Some(b)) => Some((a, b)),
            _ => None,
        },
        None => None,
    }
}

/// Read a renderer's command line (the arguments after the program name).
pub fn parse_render_args(args: &Vec<String>) -> (r: Result<RenderArgs, ArgsError>)
    ensures
        match r {
            Ok(a) => render_from(texts(args@), 0, render_start()) == Ok::<_, ArgsFault>(a@),
            Err(e) => render_from(texts(args@), 0, render_start()) == Err::<RenderModel, _>(e@),
        },
{
    let ghost av = texts(args@);
    let mut st = RenderArgs {
        port: None,
        size: None,
        assets: None,
        nodes: Vec::new(),
        showcase: false,
        graph_file: None,
        free_run: false,
        capture: None,
        frames: 120,
        every: 0,
    };
    assert(st@ =~= render_start());
    let mut i: usize = 0;
    while i < args.len()
        invariant
            i <= args.len(),
            av == texts(args@),
            render_from(av, 0, render_start()) == render_from(av, i as int, st@),
        decreases args.len() - i,
    {
        let a = chars_of_string(&args[i]);
        assert(av[i as int] == a@);
        let v: Option<Vec<char>> = if i + 1 < args.len() {
            assert(av[i + 1] == args@[i + 1]@);
            Some(chars_of_string(&args[i + 1]))
        } else {
            None
        };
        assert(match v {
            Some(t) => next_arg(av, i as int) == Some(t@),
            None => next_arg(av, i as int) is None,
        });
        let ghost before = st@;
        if chars_eq_str(&a, "--port") {
            match v {
                Some(t) => match parse_u16(&t) {
                    Some(p) => {
                        st.port = Some(p);
                        assert(st@ =~= RenderModel { port: Some(p), ..before });
                        i = i + 2;
                    },
                    None => return Err(usage("--port needs a number")),
                },
                None => return Err(usage("--port needs a number")),
            }
        } else if chars_eq_str(&a, "--size") {
            match v {
                Some(t) => match size_exec(&t) {
                    Some(wh) => {
                        st.size = Some(wh);
                        assert(st@ =~= RenderModel { size: Some(wh), ..before });
                        i = i + 2;
                    },
                    None => return Err(usage("--size needs WxH")),
                },
                None => return Err(usage("--size needs WxH")),
            }
        } else if chars_eq_str(&a, "--assets") {
            match v {
                Some(t) => {
                    st.assets = Some(string_of(&t));
                    assert(st@ =~= RenderModel { assets: Some(t@), ..before });
                    i = i + 2;
                },
                None => return Err(usage("--assets needs a directory")),
            }
        } else if chars_eq_str(&a, "--nodes") {
            match v {
                Some(t) => {
                    let ghost old_nodes = st.nodes@;
                    st.nodes.push(string_of(&t));
                    assert(texts(st.nodes@) =~= texts(old_nodes).push(t@));
                    assert(st@ =~= RenderModel { nodes: before.nodes.push(t@), ..before });
                    i = i + 2;
                },
                None => return Err(usage("--nodes needs a directory")),
            }
        } else if chars_eq_str(&a, "--capture") {
            match v {
                Some(t) => {
                    st.capture = Some(string_of(&t));
                    assert(st@ =~= RenderModel { capture: Some(t@), ..before });
                    i = i + 2;
                },
                None => return Err(usage("--capture needs a path")),
            }
        } else if chars_eq_str(&a, "--frames") {
            match v {
                Some(t) => match parse_u64(&t) {
                    Some(n) => {
                        st.frames = n;
                        assert(st@ =~= RenderModel { frames: n, ..before });
                        i = i + 2;
                    },
                    None => return Err(usage("--frames needs a number")),
                },
                None => return Err(usage("--frames needs a number")),
            }
        } else if chars_eq_str(&a, "--every") {
            match v {
                Some(t) => match parse_u64(&t) {
                    Some(n) => {
                        st.every = n;
                        assert(st@ =~= RenderModel { every: n, ..before });
                        i = i + 2;
                    },
                    None => return Err(usage("--every needs a number")),
                },
                None => return Err(usage("--every needs a number")),
            }
        } else if chars_eq_str(&a, "--showcase") {
            st.showcase = true;
            st.graph_file = None;
            assert(st@ =~= RenderModel { showcase: true, graph_file: None, ..before });
            i = i + 1;
        } else if chars_eq_str(&a, "--free-run") {
            st.free_run = true;
            assert(st@ =~= RenderModel { free_run: true, ..before });
            i = i + 1;
        } else if chars_eq_str(&a, "-h") || chars_eq_str(&a, "--help") {
            return Err(ArgsError::Help);
        } else if !starts_with_str(&a, "-") {
            st.graph_file = Some(string_of(&a));
            assert(st@ =~= RenderModel { graph_file: Some(a@), ..before });
            i = i + 1;
        } else {
            let mut m = chars_of("unknown argument ");
            crate::text::append_chars(&mut m, &a);
            return Err(ArgsError::Usage(string_of(&m)));
        }
    }
    Ok(st)
}

// ---------------------------------------------------------------------------
// Timeline UI
// ---------------------------------------------------------------------------
/// Settings a timeline UI's command line gives:
/// `[timeline.json] [--target host:port]`.
#[derive(Clone, Debug)]
pub struct TimelineArgs {
    /// The timeline file (`zygote-timeline.json` unless given).
    pub file: String,
    /// The renderer's address (the local default port unless given).
    pub target: String,
}

/// Arguments `i..` of a timeline UI's command line applied to the file and
/// target chosen so far.
pub open spec fn timeline_from(args: Seq<Seq<char>>, i: int, file: Seq<char>, target: Seq<char>) -> Result<
    (Seq<char>, Seq<char>),
    ArgsFault,
>
    decreases args.len() - i,
{
    if i < 0 || i >= args.len() {
        Ok((file, target))
    } else {
        let a = args[i];
        if a == "--target"@ {
            match next_arg(args, i) {
                Some(t) => timeline_from(args, i + 2, file, t),
                None => Err(ArgsFault::Usage("--target needs host:port"@)),
            }
        } else if a == "-h"@ || a == "--help"@ {
            Err(ArgsFault::Help)
        } else if !starts_with(a, "-"@) {
            timeline_from(args, i + 1, a, target)
        } else {
            Err(ArgsFault::Usage("unknown argument "@ + a))
        }
    }
}

/// The renderer's default address: the local host at the default port.
pub open spec fn default_target() -> Seq<char> {
    "127.0.0.1:"@ + decimal(DEFAULT_PORT as nat)
}

/// Read a timeline UI's command line (the arguments after the program name).
pub fn parse_timeline_args(args: &Vec<String>) -> (r: Result<TimelineArgs, ArgsError>)
    ensures
        match r {
            Ok(t) => timeline_from(texts(args@), 0, "zygote-timeline.json"@, default_target()) == Ok::<
                _,
                ArgsFault,
            >((t.file@, t.target@)),
            Err(e) => timeline_from(texts(args@), 0, "zygote-timeline.json"@, default_target()) == Err::<
                (Seq<char>, Seq<char>),
                _,
            >(e@),
        },
{
    let ghost av = texts(args@);
    let mut file = "zygote-timeline.json".to_string();
    let mut t = chars_of("127.0.0.1:");
    append_decimal(&mut t, DEFAULT_PORT as u64);
    let mut target = string_of(&t);
    let mut i: usize = 0;
    while i < args.len()
        invariant
            i <= args.len(),
            av == texts(args@),
            timeline_from(av, 0, "zygote-timeline.json"@, default_target()) == timeline_from(
                av,
                i as int,
                file@,
                target@,
            ),
        decreases args.len() - i,
    {
        let a = chars_of_string(&args[i]);
        assert(av[i as int] == a@);
        if chars_eq_str(&a, "--target") {
            if i + 1 < args.len() {
                assert(av[i + 1] == args@[i + 1]@);
                target = args[i + 1].clone();
                i = i + 2;
            } else {
                return Err(usage("--target needs host:port"));
            }
        } else if chars_eq_str(&a, "-h") || chars_eq_str(&a, "--help") {
            return Err(ArgsError::Help);
        } else if !starts_with_str(&a, "-") {
            file = string_of(&a);
            i = i + 1;
        } else {
            let mut m = chars_of("unknown argument ");
            crate::text::append_chars(&mut m, &a);
            return Err(ArgsError::Usage(string_of(&m)));
        }
    }
    Ok(TimelineArgs { file, target })
}

} // verus!
