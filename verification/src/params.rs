//! Parameter declarations.
//!
//! A parameter is declared with a name, a type and a default. Numbers in a
//! declaration are kept as the decimal text they were written in (a valid
//! `f32` literal, see [`is_float_literal`]); colors as their 8-bit channels.
use vstd::prelude::*;

use crate::text::{chars_eq, chars_of, chars_of_string, string_eq, string_of};

verus! {

/// The five parameter kinds, without their constraints.
#[derive(Clone, Copy, Debug, PartialEq, Eq, Structural)]
pub enum ParamKind {
    Float,
    Bool,
    Choice,
    Color,
    Vec2,
}

/// Type and constraints of a parameter. Range bounds are `f32` literals.
#[derive(Clone, Debug)]
pub enum ParamType {
    Float { min: String, max: String },
    Bool,
    Choice { options: Vec<String> },
    Color,
    Vec2 { min: String, max: String },
}

/// The declared default of a parameter.
#[derive(Clone, Debug)]
pub enum ParamDefault {
    /// An `f32` literal.
    Float(String),
    Bool(bool),
    Choice(String),
    /// Red, green, blue, alpha; `255` is full intensity.
    Color([u8; 4]),
    /// Two `f32` literals.
    Vec2(String, String),
}

/// Declaration of one parameter.
#[derive(Clone, Debug)]
pub struct ParamSpec {
    pub name: String,
    pub ty: ParamType,
    pub default: ParamDefault,
    pub doc: String,
}

/// What a [`ParamType`] says, as plain values.
#[verifier::ext_equal]
pub enum TypeModel {
    Float { min: Seq<char>, max: Seq<char> },
    Bool,
    Choice { options: Seq<Seq<char>> },
    Color,
    Vec2 { min: Seq<char>, max: Seq<char> },
}

/// What a [`ParamDefault`] says, as plain values.
#[verifier::ext_equal]
pub enum DefaultModel {
    Float(Seq<char>),
    Bool(bool),
    Choice(Seq<char>),
    Color([u8; 4]),
    Vec2(Seq<char>, Seq<char>),
}

/// What a [`ParamSpec`] says, as plain values.
#[verifier::ext_equal]
pub struct ParamModel {
    pub name: Seq<char>,
    pub ty: TypeModel,
    pub default: DefaultModel,
    pub doc: Seq<char>,
}

impl TypeModel {
    /// The kind of a type.
    pub open spec fn kind(self) -> ParamKind {
        match self {
            TypeModel::Float { .. } => ParamKind::Float,
            TypeModel::Bool => ParamKind::Bool,
            TypeModel::Choice { .. } => ParamKind::Choice,
            TypeModel::Color => ParamKind::Color,
            TypeModel::Vec2 { .. } => ParamKind::Vec2,
        }
    }
}

/// The characters of each string, in order.
pub open spec fn texts(v: Seq<String>) -> Seq<Seq<char>> {
    v.map_values(|s: String| s@)
}

impl View for ParamType {
    type V = TypeModel;

    open spec fn view(&self) -> TypeModel {
        match self {
            ParamType::Float { min, max } => TypeModel::Float { min: min@, max: max@ },
            ParamType::Bool => TypeModel::Bool,
            ParamType::Choice { options } => TypeModel::Choice { options: texts(options@) },
            ParamType::Color => TypeModel::Color,
            ParamType::Vec2 { min, max } => TypeModel::Vec2 { min: min@, max: max@ },
        }
    }
}

impl View for ParamDefault {
    type V = DefaultModel;

    open spec fn view(&self) -> DefaultModel {
        match self {
            ParamDefault::Float(v) => DefaultModel::Float(v@),
            ParamDefault::Bool(b) => DefaultModel::Bool(*b),
            ParamDefault::Choice(c) => DefaultModel::Choice(c@),
            ParamDefault::Color(c) => DefaultModel::Color(*c),
            ParamDefault::Vec2(x, y) => DefaultModel::Vec2(x@, y@),
        }
    }
}

impl View for ParamSpec {
    type V = ParamModel;

    open spec fn view(&self) -> ParamModel {
        ParamModel { name: self.name@, ty: self.ty@, default: self.default@, doc: self.doc@ }
    }
}

impl ParamDefault {
    /// A copy of this default.
    pub fn copy(&self) -> (r: ParamDefault)
        ensures
            r == *self,
    {
        match self {
            ParamDefault::Float(v) => ParamDefault::Float(v.clone()),
            ParamDefault::Bool(b) => ParamDefault::Bool(*b),
            ParamDefault::Choice(c) => ParamDefault::Choice(c.clone()),
            ParamDefault::Color(c) => ParamDefault::Color(*c),
            ParamDefault::Vec2(x, y) => ParamDefault::Vec2(x.clone(), y.clone()),
        }
    }
}

/// Copies of the strings of `v`, as owned `String`s.
pub fn strings_of(v: &Vec<Vec<char>>) -> (out: Vec<String>)
    ensures
        texts(out@) == v@.map_values(|c: Vec<char>| c@),
{
    let mut out: Vec<String> = Vec::new();
    let mut i: usize = 0;
    while i < v.len()
        invariant
            i <= v.len(),
            out@.len() == i,
            forall|j: int| 0 <= j < i ==> out@[j]@ == v@[j]@,
        decreases v.len() - i,
    {
        out.push(string_of(&v[i]));
        i = i + 1;
    }
    assert(texts(out@) =~= v@.map_values(|c: Vec<char>| c@));
    out
}

impl ParamSpec {
    /// A float parameter in `min..max`; numbers are `f32` literals.
    pub fn float(name: &str, min: &str, max: &str, default: &str, doc: &str) -> (p: ParamSpec)
        ensures
            p@ == (ParamModel {
                name: name@,
                ty: TypeModel::Float { min: min@, max: max@ },
                default: DefaultModel::Float(default@),
                doc: doc@,
            }),
    {
        ParamSpec {
            name: name.to_string(),
            ty: ParamType::Float { min: min.to_string(), max: max.to_string() },
            default: ParamDefault::Float(default.to_string()),
            doc: doc.to_string(),
        }
    }

    /// A boolean parameter.
    pub fn bool(name: &str, default: bool, doc: &str) -> (p: ParamSpec)
        ensures
            p@ == (ParamModel {
                name: name@,
                ty: TypeModel::Bool,
                default: DefaultModel::Bool(default),
                doc: doc@,
            }),
    {
        ParamSpec {
            name: name.to_string(),
            ty: ParamType::Bool,
            default: ParamDefault::Bool(default),
            doc: doc.to_string(),
        }
    }

    /// A choice among `options`.
    pub fn choice(name: &str, options: &[&str], default: &str, doc: &str) -> (p: ParamSpec)
        ensures
            p@ == (ParamModel {
                name: name@,
                ty: TypeModel::Choice { options: options@.map_values(|o: &str| o@) },
                default: DefaultModel::Choice(default@),
                doc: doc@,
            }),
    {
        let mut opts: Vec<String> = Vec::new();
        let mut i: usize = 0;
        while i < options.len()
            invariant
                i <= options.len(),
                opts@.len() == i,
                forall|j: int| 0 <= j < i ==> opts@[j]@ == options@[j]@,
            decreases options.len() - i,
        {
            opts.push(options[i].to_string());
            i = i + 1;
        }
        assert(texts(opts@) =~= options@.map_values(|o: &str| o@));
        ParamSpec {
            name: name.to_string(),
            ty: ParamType::Choice { options: opts },
            default: ParamDefault::Choice(default.to_string()),
            doc: doc.to_string(),
        }
    }

    /// A color parameter; channels are 8-bit.
    pub fn color(name: &str, default: [u8; 4], doc: &str) -> (p: ParamSpec)
        ensures
            p@ == (ParamModel {
                name: name@,
                ty: TypeModel::Color,
                default: DefaultModel::Color(default),
                doc: doc@,
            }),
    {
        ParamSpec {
            name: name.to_string(),
            ty: ParamType::Color,
            default: ParamDefault::Color(default),
            doc: doc.to_string(),
        }
    }

    /// A two-component parameter in `min..max`; numbers are `f32` literals.
    pub fn vec2(name: &str, min: &str, max: &str, x: &str, y: &str, doc: &str) -> (p: ParamSpec)
        ensures
            p@ == (ParamModel {
                name: name@,
                ty: TypeModel::Vec2 { min: min@, max: max@ },
                default: DefaultModel::Vec2(x@, y@),
                doc: doc@,
            }),
    {
        ParamSpec {
            name: name.to_string(),
            ty: ParamType::Vec2 { min: min.to_string(), max: max.to_string() },
            default: ParamDefault::Vec2(x.to_string(), y.to_string()),
            doc: doc.to_string(),
        }
    }
}

impl ParamType {
    pub open spec fn spec_kind(&self) -> ParamKind {
        match self {
            ParamType::Float { .. } => ParamKind::Float,
            ParamType::Bool => ParamKind::Bool,
            ParamType::Choice { .. } => ParamKind::Choice,
            ParamType::Color => ParamKind::Color,
            ParamType::Vec2 { .. } => ParamKind::Vec2,
        }
    }

    /// The kind of this type.
    #[verifier::when_used_as_spec(spec_kind)]
    pub fn kind(&self) -> (k: ParamKind)
        ensures
            k == self.spec_kind(),
    {
        match self {
            ParamType::Float { .. } => ParamKind::Float,
            ParamType::Bool => ParamKind::Bool,
            ParamType::Choice { .. } => ParamKind::Choice,
            ParamType::Color => ParamKind::Color,
            ParamType::Vec2 { .. } => ParamKind::Vec2,
        }
    }

    /// Index of a choice among this type's options: the first option equal to
    /// it (as a `u32`); `None` for a type that is not a choice or a value that
    /// is no option.
    pub fn choice_index(&self, choice: &String) -> (r: Option<u32>)
        ensures
            r == choice_index_spec(*self, choice@),
    {
        match self {
            ParamType::Choice { options } => {
                let mut i: usize = 0;
                while i < options.len()
                    invariant
                        *self == (ParamType::Choice { options: *options }),
                        i <= options.len(),
                        forall|j: int| 0 <= j < i ==> options@[j]@ != choice@,
                    decreases options.len() - i,
                {
                    if string_eq(&options[i], choice) {
                        proof {
                            lemma_first_option(options@, choice@, i as int);
                        }
                        return Some(i as u32);
                    }
                    i = i + 1;
                }
                proof {
                    lemma_no_option(options@, choice@);
                }
                None
            },
            _ => None,
        }
    }
}

/// Index of the first option at or after `i` equal to `choice`, or -1.
pub open spec fn option_index_from(options: Seq<String>, choice: Seq<char>, i: int) -> int
    decreases options.len() - i,
{
    if i < 0 || i >= options.len() {
        -1
    } else if options[i]@ == choice {
        i
    } else {
        option_index_from(options, choice, i + 1)
    }
}

/// `ParamType::choice_index`: the position of the first equal option,
/// truncated to a `u32` by an `as` cast.
pub open spec fn choice_index_spec(ty: ParamType, choice: Seq<char>) -> Option<u32> {
    match ty {
        ParamType::Choice { options } => {
            let k = option_index_from(options@, choice, 0);
            if k < 0 {
                None
            } else {
                Some((k as usize) as u32)
            }
        },
        _ => None,
    }
}

proof fn lemma_option_index_bounds(options: Seq<String>, choice: Seq<char>, i: int)
    ensures
        option_index_from(options, choice, i) == -1 || (0 <= i <= option_index_from(options, choice, i)
            < options.len() && options[option_index_from(options, choice, i)]@ == choice),
    decreases options.len() - i,
{
    if 0 <= i < options.len() && options[i]@ != choice {
        lemma_option_index_bounds(options, choice, i + 1);
    }
}

/// The index found for a choice names an option equal to it; no index means
/// that the type is no choice or no option equals it. (Indexes are `u32`:
/// this holds when there are at most `u32::MAX` options.)
pub proof fn law_choice_index_names_the_choice(ty: ParamType, choice: Seq<char>)
    requires
        ty matches ParamType::Choice { options } ==> options@.len() <= u32::MAX,
    ensures
        match ty {
            ParamType::Choice { options } => match choice_index_spec(ty, choice) {
                Some(i) => i < options@.len() && options@[i as int]@ == choice,
                None => forall|j: int| 0 <= j < options@.len() ==> options@[j]@ != choice,
            },
            _ => choice_index_spec(ty, choice) is None,
        },
{
    if let ParamType::Choice { options } = ty {
        let o = options@;
        lemma_option_index_bounds(o, choice, 0);
        let k = option_index_from(o, choice, 0);
        if k < 0 {
            assert forall|j: int| 0 <= j < o.len() implies o[j]@ != choice by {
                if o[j]@ == choice {
                    lemma_option_index_from_le(o, choice, 0, j);
                }
            }
        } else {
            assert(((k as usize) as u32) as int == k);
        }
    }
}

proof fn lemma_option_index_from_le(options: Seq<String>, choice: Seq<char>, i: int, j: int)
    requires
        0 <= i <= j < options.len(),
        options[j]@ == choice,
    ensures
        option_index_from(options, choice, i) >= 0,
    decreases j - i,
{
    if i < j && options[i]@ != choice {
        lemma_option_index_from_le(options, choice, i + 1, j);
    }
}

proof fn lemma_option_index_skip(options: Seq<String>, choice: Seq<char>, i: int)
    requires
        0 <= i <= options.len(),
        forall|j: int| 0 <= j < i ==> options[j]@ != choice,
    ensures
        option_index_from(options, choice, 0) == option_index_from(options, choice, i),
    decreases i,
{
    if i > 0 {
        lemma_option_index_skip(options, choice, i - 1);
    }
}

proof fn lemma_first_option(options: Seq<String>, choice: Seq<char>, i: int)
    requires
        0 <= i < options.len(),
        forall|j: int| 0 <= j < i ==> options[j]@ != choice,
        options[i]@ == choice,
    ensures
        option_index_from(options, choice, 0) == i,
{
    lemma_option_index_skip(options, choice, i);
}

proof fn lemma_no_option(options: Seq<String>, choice: Seq<char>)
    requires
        forall|j: int| 0 <= j < options.len() ==> options[j]@ != choice,
    ensures
        option_index_from(options, choice, 0) == -1,
{
    lemma_option_index_skip(options, choice, options.len() as int);
}

// ---------------------------------------------------------------------------
// Numbers as written
// ---------------------------------------------------------------------------
pub open spec fn is_digit(c: char) -> bool {
    '0' <= c <= '9'
}

/// ASCII lower case of a character.
pub open spec fn lower(c: char) -> char {
    if 'A' <= c <= 'Z' {
        ((c as u32) + 32) as char
    } else {
        c
    }
}

/// `s` equals the lower-case word `w`, ignoring ASCII case.
pub open spec fn eq_ignore_case(s: Seq<char>, w: Seq<char>) -> bool {
    s.len() == w.len() && forall|i: int| 0 <= i < s.len() ==> lower(s[i]) == w[i]
}

/// The length of an optional leading sign.
pub open spec fn sign_len(s: Seq<char>) -> int {
    if s.len() > 0 && (s[0] == '+' || s[0] == '-') {
        1
    } else {
        0
    }
}

/// Only digits.
pub open spec fn all_digits(s: Seq<char>) -> bool {
    forall|i: int| 0 <= i < s.len() ==> is_digit(s[i])
}

/// `Digit+ | Digit+ '.' Digit* | Digit* '.' Digit+`.
pub open spec fn is_mantissa(s: Seq<char>) -> bool {
    &&& forall|i: int| 0 <= i < s.len() ==> is_digit(s[i]) || s[i] == '.'
    &&& forall|i: int, j: int| 0 <= i < s.len() && 0 <= j < s.len() && s[i] == '.' && s[j] == '.' ==> i == j
    &&& exists|i: int| 0 <= i < s.len() && is_digit(s[i])
}

/// `Sign? Digit+`, what follows the `e` of an exponent.
pub open spec fn is_exponent(s: Seq<char>) -> bool {
    let d = s.subrange(sign_len(s), s.len() as int);
    d.len() > 0 && all_digits(d)
}

/// Index of the first `e` or `E`, or -1.
pub open spec fn exp_index_from(s: Seq<char>, i: int) -> int
    decreases s.len() - i,
{
    if i < 0 || i >= s.len() {
        -1
    } else if s[i] == 'e' || s[i] == 'E' {
        i
    } else {
        exp_index_from(s, i + 1)
    }
}

/// `Mantissa Exp?` with `Exp ::= ('e' | 'E') Sign? Digit+`.
pub open spec fn is_number(s: Seq<char>) -> bool {
    let e = exp_index_from(s, 0);
    if e < 0 {
        is_mantissa(s)
    } else {
        is_mantissa(s.subrange(0, e)) && is_exponent(s.subrange(e + 1, s.len() as int))
    }
}

/// The text is accepted by `str::parse::<f32>`: the grammar in the
/// documentation of `f32::from_str`, i.e. an optional sign followed by `inf`,
/// `infinity` or `nan` (in any case) or by a decimal number with an optional
/// exponent.
pub open spec fn is_float_literal(s: Seq<char>) -> bool {
    let b = s.subrange(sign_len(s), s.len() as int);
    ||| eq_ignore_case(b, "inf"@)
    ||| eq_ignore_case(b, "infinity"@)
    ||| eq_ignore_case(b, "nan"@)
    ||| is_number(b)
}

fn is_digit_exec(c: char) -> (r: bool)
    ensures
        r == is_digit(c),
{
    '0' <= c && c <= '9'
}

fn lower_exec(c: char) -> (r: char)
    ensures
        r == lower(c),
{
    if 'A' <= c && c <= 'Z' {
        let u = (c as u32) + 32;
        // Between 'a' and 'z', so a valid character.
        let r = char_from_ascii(u);
        r
    } else {
        c
    }
}

fn char_from_ascii(u: u32) -> (c: char)
    requires
        97 <= u <= 122,
    ensures
        c == u as char,
{
    if u == 97 { 'a' } else if u == 98 { 'b' } else if u == 99 { 'c' } else if u == 100 { 'd' }
    else if u == 101 { 'e' } else if u == 102 { 'f' } else if u == 103 { 'g' } else if u == 104 { 'h' }
    else if u == 105 { 'i' } else if u == 106 { 'j' } else if u == 107 { 'k' } else if u == 108 { 'l' }
    else if u == 109 { 'm' } else if u == 110 { 'n' } else if u == 111 { 'o' } else if u == 112 { 'p' }
    else if u == 113 { 'q' } else if u == 114 { 'r' } else if u == 115 { 's' } else if u == 116 { 't' }
    else if u == 117 { 'u' } else if u == 118 { 'v' } else if u == 119 { 'w' } else if u == 120 { 'x' }
    else if u == 121 { 'y' } else { 'z' }
}

fn eq_ignore_case_exec(s: &Vec<char>, from: usize, w: &str) -> (r: bool)
    requires
        from <= s.len(),
    ensures
        r == eq_ignore_case(s@.subrange(from as int, s.len() as int), w@),
{
    let wc = chars_of(w);
    let ghost t = s@.subrange(from as int, s.len() as int);
    if s.len() - from != wc.len() {
        return false;
    }
    let mut i: usize = 0;
    while i < wc.len()
        invariant
            from <= s.len(),
            s.len() - from == wc.len(),
            t == s@.subrange(from as int, s.len() as int),
            wc@ == w@,
            i <= wc.len(),
            forall|j: int| 0 <= j < i ==> lower(t[j]) == wc@[j],
        decreases wc.len() - i,
    {
        if lower_exec(s[from + i]) != wc[i] {
            assert(lower(t[i as int]) != w@[i as int]);
            return false;
        }
        i = i + 1;
    }
    true
}

fn is_mantissa_exec(s: &Vec<char>, a: usize, b: usize) -> (r: bool)
    requires
        a <= b <= s.len(),
    ensures
        r == is_mantissa(s@.subrange(a as int, b as int)),
{
    let ghost t = s@.subrange(a as int, b as int);
    let mut i = a;
    let mut dots: usize = 0;
    let mut digits = false;
    let mut dot_at: usize = 0;
    while i < b
        invariant
            a <= i <= b <= s.len(),
            t == s@.subrange(a as int, b as int),
            forall|j: int| 0 <= j < i - a ==> is_digit(t[j]) || t[j] == '.',
            dots <= 1,
            dots == 0 ==> forall|j: int| 0 <= j < i - a ==> t[j] != '.',
            dots == 1 ==> a <= dot_at < i && t[dot_at - a] == '.' && forall|j: int|
                0 <= j < i - a && t[j] == '.' ==> j == dot_at - a,
            digits == exists|j: int| 0 <= j < i - a && is_digit(t[j]),
        decreases b - i,
    {
        let c = s[i];
        assert(t[i - a] == c);
        if is_digit_exec(c) {
            digits = true;
        } else if c == '.' {
            if dots == 1 {
                assert(t[dot_at - a] == '.' && t[i - a] == '.');
                return false;
            }
            dots = 1;
            dot_at = i;
        } else {
            return false;
        }
        i = i + 1;
    }
    digits
}

fn all_digits_exec(s: &Vec<char>, a: usize, b: usize) -> (r: bool)
    requires
        a <= b <= s.len(),
    ensures
        r == all_digits(s@.subrange(a as int, b as int)),
{
    let ghost t = s@.subrange(a as int, b as int);
    let mut i = a;
    while i < b
        invariant
            a <= i <= b <= s.len(),
            t == s@.subrange(a as int, b as int),
            forall|j: int| 0 <= j < i - a ==> is_digit(t[j]),
        decreases b - i,
    {
        assert(t[i - a] == s@[i as int]);
        if !is_digit_exec(s[i]) {
            return false;
        }
        i = i + 1;
    }
    true
}

/// Does the text parse as an `f32`?
pub fn is_float_literal_exec(s: &Vec<char>) -> (r: bool)
    ensures
        r == is_float_literal(s@),
{
    let start: usize = if s.len() > 0 && (s[0] == '+' || s[0] == '-') {
        1
    } else {
        0
    };
    let ghost b = s@.subrange(start as int, s.len() as int);
    if eq_ignore_case_exec(s, start, "inf") || eq_ignore_case_exec(s, start, "infinity")
        || eq_ignore_case_exec(s, start, "nan") {
        return true;
    }
    // Find the exponent marker.

    let mut e = start;
    while e < s.len() && s[e] != 'e' && s[e] != 'E'
        invariant
            start <= e <= s.len(),
            b == s@.subrange(start as int, s.len() as int),
            exp_index_from(b, 0) == exp_index_from(b, e - start),
        decreases s.len() - e,
    {
        assert(b[e - start] == s@[e as int]);
        e = e + 1;
    }
    if e == s.len() {
        assert(exp_index_from(b, e - start) == -1);
        is_mantissa_exec(s, start, s.len())
    } else {
        assert(b[e - start] == s@[e as int]);
        assert(exp_index_from(b, 0) == e - start);
        assert(b.subrange(0, e - start) =~= s@.subrange(start as int, e as int));
        let m = is_mantissa_exec(s, start, e);
        if !m {
            return false;
        }
        let xs = e + 1;
        let ghost x = b.subrange(e - start + 1, b.len() as int);
        assert(x =~= s@.subrange(xs as int, s.len() as int));
        let ds: usize = if xs < s.len() && (s[xs] == '+' || s[xs] == '-') {
            xs + 1
        } else {
            xs
        };
        assert(x.subrange(sign_len(x), x.len() as int) =~= s@.subrange(ds as int, s.len() as int));
        ds < s.len() && all_digits_exec(s, ds, s.len())
    }
}

// ---------------------------------------------------------------------------
// Colors as written
// ---------------------------------------------------------------------------
pub open spec fn is_hex(c: char) -> bool {
    ||| '0' <= c <= '9'
    ||| 'a' <= c <= 'f'
    ||| 'A' <= c <= 'F'
}

pub open spec fn hex_value(c: char) -> nat {
    if '0' <= c <= '9' {
        (c as u32 - 48) as nat
    } else if 'a' <= c <= 'f' {
        (c as u32 - 87) as nat
    } else {
        (c as u32 - 55) as nat
    }
}

/// `u8::from_str_radix(pair, 16)` on two characters: two hex digits, or `+`
/// and one hex digit.
pub open spec fn hex_byte(a: char, b: char) -> Option<u8> {
    if is_hex(a) && is_hex(b) {
        Some((16 * hex_value(a) + hex_value(b)) as u8)
    } else if a == '+' && is_hex(b) {
        Some(hex_value(b) as u8)
    } else {
        None
    }
}

/// `#rrggbb` (alpha 255) or `#rrggbbaa`: the four channels.
pub open spec fn hex_color(s: Seq<char>) -> Option<[u8; 4]> {
    if s.len() == 7 && s[0] == '#' {
        match (hex_byte(s[1], s[2]), hex_byte(s[3], s[4]), hex_byte(s[5], s[6])) {
            (Some(r), Some(g), Some(b)) => Some([r, g, b, 255u8]),
            _ => None,
        }
    } else if s.len() == 9 && s[0] == '#' {
        match (
            hex_byte(s[1], s[2]),
            hex_byte(s[3], s[4]),
            hex_byte(s[5], s[6]),
            hex_byte(s[7], s[8]),
        ) {
            (Some(r), Some(g), Some(b), Some(a)) => Some([r, g, b, a]),
            _ => None,
        }
    } else {
        None
    }
}

fn hex_value_exec(c: char) -> (r: Option<u8>)
    ensures
        match r {
            Some(v) => is_hex(c) && v == hex_value(c) && v < 16,
            None => !is_hex(c),
        },
{
    if '0' <= c && c <= '9' {
        Some(((c as u32) - 48) as u8)
    } else if 'a' <= c && c <= 'f' {
        Some(((c as u32) - 87) as u8)
    } else if 'A' <= c && c <= 'F' {
        Some(((c as u32) - 55) as u8)
    } else {
        None
    }
}

fn hex_byte_exec(a: char, b: char) -> (r: Option<u8>)
    ensures
        r == hex_byte(a, b),
{
    match (hex_value_exec(a), hex_value_exec(b)) {
        (Some(x), Some(y)) => Some(16 * x + y),
        (None, Some(y)) => {
            if a == '+' {
                Some(y)
            } else {
                None
            }
        },
        _ => None,
    }
}

/// Parse a `#rrggbb` or `#rrggbbaa` hex color into its channels.
pub fn parse_hex_color(s: &Vec<char>) -> (r: Option<[u8; 4]>)
    ensures
        r == hex_color(s@),
{
    if s.len() == 7 && s[0] == '#' {
        match (hex_byte_exec(s[1], s[2]), hex_byte_exec(s[3], s[4]), hex_byte_exec(s[5], s[6])) {
            (Some(r), Some(g), Some(b)) => Some([r, g, b, 255u8]),
            _ => None,
        }
    } else if s.len() == 9 && s[0] == '#' {
        match (
            hex_byte_exec(s[1], s[2]),
            hex_byte_exec(s[3], s[4]),
            hex_byte_exec(s[5], s[6]),
            hex_byte_exec(s[7], s[8]),
        ) {
            (Some(r), Some(g), Some(b), Some(a)) => Some([r, g, b, a]),
            _ => None,
        }
    } else {
        None
    }
}

} // verus!
