//! Character-level text handling.
//!
//! Everything the library reads from text (node headers, import lines, Cargo
//! manifests, parameter paths) goes through these functions. Each works on a
//! `Vec<char>` and is specified by a spec function over `Seq<char>` that says
//! what the corresponding `str` operation computes.
use vstd::prelude::*;

verus! {

/// `String::push` appends one character to the end of the string.
pub assume_specification[ String::push ](s: &mut String, ch: char)
    ensures
        final(s)@ == old(s)@.push(ch),
;

// ---------------------------------------------------------------------------
// Character classes
// ---------------------------------------------------------------------------
/// `char::is_whitespace`: the Unicode `White_Space` property.
pub open spec fn is_ws(c: char) -> bool {
    let u = c as u32;
    ||| u == 0x20
    ||| 0x09 <= u <= 0x0D
    ||| u == 0x85
    ||| u == 0xA0
    ||| u == 0x1680
    ||| 0x2000 <= u <= 0x200A
    ||| u == 0x2028
    ||| u == 0x2029
    ||| u == 0x202F
    ||| u == 0x205F
    ||| u == 0x3000
}

pub fn char_is_ws(c: char) -> (b: bool)
    ensures
        b == is_ws(c),
{
    let u = c as u32;
    u == 0x20 || (0x09 <= u && u <= 0x0D) || u == 0x85 || u == 0xA0 || u == 0x1680 || (0x2000
        <= u && u <= 0x200A) || u == 0x2028 || u == 0x2029 || u == 0x202F || u == 0x205F || u
        == 0x3000
}

/// `char::is_ascii_alphanumeric`.
pub open spec fn is_ascii_alnum(c: char) -> bool {
    let u = c as u32;
    ||| 0x30 <= u <= 0x39
    ||| 0x41 <= u <= 0x5A
    ||| 0x61 <= u <= 0x7A
}

pub fn char_is_ascii_alnum(c: char) -> (b: bool)
    ensures
        b == is_ascii_alnum(c),
{
    let u = c as u32;
    (0x30 <= u && u <= 0x39) || (0x41 <= u && u <= 0x5A) || (0x61 <= u && u <= 0x7A)
}

// ---------------------------------------------------------------------------
// Conversions
// ---------------------------------------------------------------------------
/// The characters of a string slice, in order.
pub fn chars_of(s: &str) -> (out: Vec<char>)
    ensures
        out@ == s@,
{
    let mut out: Vec<char> = Vec::new();
    for c in it: s.chars()
        invariant
            out@ == it.seq().take(it.index() as int),
            it.seq() == s@,
    {
        out.push(c);
    }
    out
}

/// A `String` holding exactly the given characters.
pub fn string_of(v: &Vec<char>) -> (out: String)
    ensures
        out@ == v@,
{
    let mut out = String::new();
    let mut i: usize = 0;
    while i < v.len()
        invariant
            i <= v.len(),
            out@ == v@.take(i as int),
        decreases v.len() - i,
    {
        out.push(v[i]);
        assert(v@.take(i + 1) =~= v@.take(i as int).push(v@[i as int]));
        i = i + 1;
    }
    assert(v@.take(v.len() as int) =~= v@);
    out
}

/// The characters of a `String`.
pub fn chars_of_string(s: &String) -> (out: Vec<char>)
    ensures
        out@ == s@,
{
    chars_of(s.as_str())
}

/// A copy of `s[a..b]`.
pub fn slice_of(s: &Vec<char>, a: usize, b: usize) -> (out: Vec<char>)
    requires
        a <= b <= s.len(),
    ensures
        out@ == s@.subrange(a as int, b as int),
{
    let mut out: Vec<char> = Vec::new();
    let mut i = a;
    while i < b
        invariant
            a <= i <= b <= s.len(),
            out@ == s@.subrange(a as int, i as int),
        decreases b - i,
    {
        out.push(s[i]);
        assert(s@.subrange(a as int, i + 1) =~= s@.subrange(a as int, i as int).push(s@[i as int]));
        i = i + 1;
    }
    out
}

/// Appends `b` to `a`.
pub fn append_chars(a: &mut Vec<char>, b: &Vec<char>)
    ensures
        final(a)@ == old(a)@ + b@,
{
    let mut i: usize = 0;
    while i < b.len()
        invariant
            i <= b.len(),
            a@ == old(a)@ + b@.take(i as int),
        decreases b.len() - i,
    {
        a.push(b[i]);
        assert(b@.take(i + 1) =~= b@.take(i as int).push(b@[i as int]));
        i = i + 1;
    }
    assert(b@.take(b.len() as int) =~= b@);
}

/// Appends the characters of a string slice to `a`.
pub fn append_str(a: &mut Vec<char>, b: &str)
    ensures
        final(a)@ == old(a)@ + b@,
{
    let bc = chars_of(b);
    append_chars(a, &bc);
}

/// `a == b` on character sequences.
pub fn chars_eq(a: &Vec<char>, b: &Vec<char>) -> (r: bool)
    ensures
        r == (a@ == b@),
{
    if a.len() != b.len() {
        return false;
    }
    let mut i: usize = 0;
    while i < a.len()
        invariant
            a.len() == b.len(),
            i <= a.len(),
            forall|j: int| 0 <= j < i ==> a@[j] == b@[j],
        decreases a.len() - i,
    {
        if a[i] != b[i] {
            return false;
        }
        i = i + 1;
    }
    assert(a@ =~= b@);
    true
}

/// Does `a` equal the string slice `b`?
pub fn chars_eq_str(a: &Vec<char>, b: &str) -> (r: bool)
    ensures
        r == (a@ == b@),
{
    let bc = chars_of(b);
    chars_eq(a, &bc)
}

/// Do two strings hold the same characters?
pub fn string_eq(a: &String, b: &String) -> (r: bool)
    ensures
        r == (a@ == b@),
{
    let ac = chars_of_string(a);
    let bc = chars_of_string(b);
    chars_eq(&ac, &bc)
}

// ---------------------------------------------------------------------------
// Searching
// ---------------------------------------------------------------------------
/// Index of the first `c` at or after `i`, or -1.
pub open spec fn find_from(s: Seq<char>, c: char, i: int) -> int
    decreases s.len() - i,
{
    if i < 0 || i >= s.len() {
        -1
    } else if s[i] == c {
        i
    } else {
        find_from(s, c, i + 1)
    }
}

/// `str::find(c)`, -1 when absent.
pub open spec fn find_char(s: Seq<char>, c: char) -> int {
    find_from(s, c, 0)
}

/// Index of the last `c` before position `i`, or -1.
pub open spec fn rfind_below(s: Seq<char>, c: char, i: int) -> int
    decreases i,
{
    if i <= 0 || i > s.len() {
        -1
    } else if s[i - 1] == c {
        i - 1
    } else {
        rfind_below(s, c, i - 1)
    }
}

/// `str::rfind(c)`, -1 when absent.
pub open spec fn rfind_char(s: Seq<char>, c: char) -> int {
    rfind_below(s, c, s.len() as int)
}

/// Index of the first whitespace character at or after `i`, or -1.
pub open spec fn find_ws_from(s: Seq<char>, i: int) -> int
    decreases s.len() - i,
{
    if i < 0 || i >= s.len() {
        -1
    } else if is_ws(s[i]) {
        i
    } else {
        find_ws_from(s, i + 1)
    }
}

/// Does `p` occur in `s` starting at `i`?
pub open spec fn matches_at(s: Seq<char>, p: Seq<char>, i: int) -> bool {
    0 <= i && i + p.len() <= s.len() && s.subrange(i, i + p.len()) == p
}

/// First occurrence of `p` at or after `i`, or -1.
pub open spec fn match_from(s: Seq<char>, p: Seq<char>, i: int) -> int
    decreases s.len() - i,
{
    if i < 0 || i + p.len() > s.len() {
        -1
    } else if matches_at(s, p, i) {
        i
    } else if i >= s.len() {
        -1
    } else {
        match_from(s, p, i + 1)
    }
}

/// `str::find(p)` for a string pattern, -1 when absent.
pub open spec fn find_str(s: Seq<char>, p: Seq<char>) -> int {
    match_from(s, p, 0)
}

/// Last occurrence of `p` starting at or before `i`, or -1.
pub open spec fn rmatch_from(s: Seq<char>, p: Seq<char>, i: int) -> int
    decreases i + 1,
{
    if i < 0 {
        -1
    } else if matches_at(s, p, i) {
        i
    } else {
        rmatch_from(s, p, i - 1)
    }
}

/// `str::rfind(p)` for a string pattern, -1 when absent.
pub open spec fn rfind_str(s: Seq<char>, p: Seq<char>) -> int {
    rmatch_from(s, p, s.len() - p.len())
}

pub fn find_char_exec(s: &Vec<char>, c: char) -> (r: Option<usize>)
    ensures
        match r {
            Some(k) => k as int == find_char(s@, c) && k < s.len() && s@[k as int] == c,
            None => find_char(s@, c) == -1,
        },
{
    let mut i: usize = 0;
    while i < s.len()
        invariant
            i <= s.len(),
            find_from(s@, c, 0) == find_from(s@, c, i as int),
        decreases s.len() - i,
    {
        if s[i] == c {
            return Some(i);
        }
        i = i + 1;
    }
    None
}

pub fn rfind_char_exec(s: &Vec<char>, c: char) -> (r: Option<usize>)
    ensures
        match r {
            Some(k) => k as int == rfind_char(s@, c) && k < s.len(),
            None => rfind_char(s@, c) == -1,
        },
{
    let mut i: usize = s.len();
    while i > 0
        invariant
            i <= s.len(),
            rfind_below(s@, c, s.len() as int) == rfind_below(s@, c, i as int),
        decreases i,
    {
        if s[i - 1] == c {
            return Some(i - 1);
        }
        i = i - 1;
    }
    None
}

pub fn find_ws_exec(s: &Vec<char>) -> (r: Option<usize>)
    ensures
        match r {
            Some(k) => k as int == find_ws_from(s@, 0) && k < s.len(),
            None => find_ws_from(s@, 0) == -1,
        },
{
    let mut i: usize = 0;
    while i < s.len()
        invariant
            i <= s.len(),
            find_ws_from(s@, 0) == find_ws_from(s@, i as int),
        decreases s.len() - i,
    {
        if char_is_ws(s[i]) {
            return Some(i);
        }
        i = i + 1;
    }
    None
}

/// Does `p` occur in `s` at `i`?
pub fn matches_at_exec(s: &Vec<char>, p: &Vec<char>, i: usize) -> (r: bool)
    ensures
        r == matches_at(s@, p@, i as int),
{
    if i > s.len() || p.len() > s.len() - i {
        return false;
    }
    let mut j: usize = 0;
    while j < p.len()
        invariant
            i + p.len() <= s.len(),
            j <= p.len(),
            forall|k: int| 0 <= k < j ==> s@[i + k] == p@[k],
        decreases p.len() - j,
    {
        if s[i + j] != p[j] {
            assert(s@.subrange(i as int, i + p.len())[j as int] != p@[j as int]);
            return false;
        }
        j = j + 1;
    }
    assert(s@.subrange(i as int, i + p.len()) =~= p@);
    true
}

pub fn find_str_exec(s: &Vec<char>, p: &Vec<char>) -> (r: Option<usize>)
    ensures
        match r {
            Some(k) => k as int == find_str(s@, p@) && k + p.len() <= s.len(),
            None => find_str(s@, p@) == -1,
        },
{
    if p.len() > s.len() {
        return None;
    }
    let last = s.len() - p.len();
    let mut i: usize = 0;
    loop
        invariant
            p.len() <= s.len(),
            last == s.len() - p.len(),
            i <= last,
            match_from(s@, p@, 0) == match_from(s@, p@, i as int),
        decreases last - i,
    {
        if matches_at_exec(s, p, i) {
            return Some(i);
        }
        if i == last {
            assert(match_from(s@, p@, i + 1) == -1);
            return None;
        }
        i = i + 1;
    }
}

pub fn rfind_str_exec(s: &Vec<char>, p: &Vec<char>) -> (r: Option<usize>)
    ensures
        match r {
            Some(k) => k as int == rfind_str(s@, p@) && k + p.len() <= s.len(),
            None => rfind_str(s@, p@) == -1,
        },
{
    if p.len() > s.len() {
        return None;
    }
    let mut i: usize = s.len() - p.len();
    loop
        invariant
            p.len() <= s.len(),
            i <= s.len() - p.len(),
            rmatch_from(s@, p@, s.len() - p.len()) == rmatch_from(s@, p@, i as int),
        decreases i,
    {
        if matches_at_exec(s, p, i) {
            return Some(i);
        }
        if i == 0 {
            assert(rmatch_from(s@, p@, -1) == -1);
            return None;
        }
        i = i - 1;
    }
}

/// `str::contains(p)`.
pub fn contains_str(s: &Vec<char>, p: &str) -> (r: bool)
    ensures
        r == (find_str(s@, p@) >= 0),
{
    let pc = chars_of(p);
    match find_str_exec(s, &pc) {
        Some(_) => true,
        None => false,
    }
}

/// `str::starts_with(p)`.
pub open spec fn starts_with(s: Seq<char>, p: Seq<char>) -> bool {
    p.len() <= s.len() && s.subrange(0, p.len() as int) == p
}

/// `str::ends_with(p)`.
pub open spec fn ends_with(s: Seq<char>, p: Seq<char>) -> bool {
    p.len() <= s.len() && s.subrange(s.len() - p.len(), s.len() as int) == p
}

pub fn ends_with_str(s: &Vec<char>, p: &str) -> (r: bool)
    ensures
        r == ends_with(s@, p@),
{
    let pc = chars_of(p);
    if pc.len() > s.len() {
        return false;
    }
    let r = matches_at_exec(s, &pc, s.len() - pc.len());
    proof {
        if pc.len() <= s.len() {
            assert(s.len() - pc.len() + pc.len() == s.len());
        }
    }
    r
}

pub fn starts_with_str(s: &Vec<char>, p: &str) -> (r: bool)
    ensures
        r == starts_with(s@, p@),
{
    let pc = chars_of(p);
    matches_at_exec(s, &pc, 0)
}

// ---------------------------------------------------------------------------
// Trimming
// ---------------------------------------------------------------------------
/// Skip leading whitespace from position `i`.
pub open spec fn trim_start_from(s: Seq<char>, i: int) -> Seq<char>
    decreases s.len() - i,
{
    if 0 <= i < s.len() && is_ws(s[i]) {
        trim_start_from(s, i + 1)
    } else if 0 <= i <= s.len() {
        s.subrange(i, s.len() as int)
    } else {
        Seq::empty()
    }
}

/// `str::trim_start`.
pub open spec fn trim_start(s: Seq<char>) -> Seq<char> {
    trim_start_from(s, 0)
}

/// Drop trailing whitespace of `s.take(i)`.
pub open spec fn trim_end_to(s: Seq<char>, i: int) -> Seq<char>
    decreases i,
{
    if 0 < i <= s.len() && is_ws(s[i - 1]) {
        trim_end_to(s, i - 1)
    } else if 0 <= i <= s.len() {
        s.subrange(0, i)
    } else {
        Seq::empty()
    }
}

/// `str::trim_end`.
pub open spec fn trim_end(s: Seq<char>) -> Seq<char> {
    trim_end_to(s, s.len() as int)
}

/// `str::trim`.
pub open spec fn trim(s: Seq<char>) -> Seq<char> {
    trim_end(trim_start(s))
}

pub fn trim_start_exec(s: &Vec<char>) -> (out: Vec<char>)
    ensures
        out@ == trim_start(s@),
{
    let mut i: usize = 0;
    while i < s.len() && char_is_ws(s[i])
        invariant
            i <= s.len(),
            trim_start_from(s@, 0) == trim_start_from(s@, i as int),
        decreases s.len() - i,
    {
        i = i + 1;
    }
    slice_of(s, i, s.len())
}

pub fn trim_end_exec(s: &Vec<char>) -> (out: Vec<char>)
    ensures
        out@ == trim_end(s@),
{
    let mut i: usize = s.len();
    while i > 0 && char_is_ws(s[i - 1])
        invariant
            i <= s.len(),
            trim_end_to(s@, s.len() as int) == trim_end_to(s@, i as int),
        decreases i,
    {
        i = i - 1;
    }
    slice_of(s, 0, i)
}

pub fn trim_exec(s: &Vec<char>) -> (out: Vec<char>)
    ensures
        out@ == trim(s@),
{
    let t = trim_start_exec(s);
    trim_end_exec(&t)
}

/// Drop trailing occurrences of `c` from `s.take(i)`.
pub open spec fn trim_end_char_to(s: Seq<char>, c: char, i: int) -> Seq<char>
    decreases i,
{
    if 0 < i <= s.len() && s[i - 1] == c {
        trim_end_char_to(s, c, i - 1)
    } else if 0 <= i <= s.len() {
        s.subrange(0, i)
    } else {
        Seq::empty()
    }
}

/// `str::trim_end_matches(c)`.
pub open spec fn trim_end_char(s: Seq<char>, c: char) -> Seq<char> {
    trim_end_char_to(s, c, s.len() as int)
}

pub fn trim_end_char_exec(s: &Vec<char>, c: char) -> (out: Vec<char>)
    ensures
        out@ == trim_end_char(s@, c),
{
    let mut i: usize = s.len();
    while i > 0 && s[i - 1] == c
        invariant
            i <= s.len(),
            trim_end_char_to(s@, c, s.len() as int) == trim_end_char_to(s@, c, i as int),
        decreases i,
    {
        i = i - 1;
    }
    slice_of(s, 0, i)
}

// ---------------------------------------------------------------------------
// Splitting
// ---------------------------------------------------------------------------
/// `str::strip_prefix(p)`.
pub open spec fn strip_prefix(s: Seq<char>, p: Seq<char>) -> Option<Seq<char>> {
    if starts_with(s, p) {
        Some(s.subrange(p.len() as int, s.len() as int))
    } else {
        None
    }
}

pub fn strip_prefix_exec(s: &Vec<char>, p: &str) -> (r: Option<Vec<char>>)
    ensures
        match r {
            Some(v) => strip_prefix(s@, p@) == Some(v@),
            None => strip_prefix(s@, p@) is None,
        },
{
    let pc = chars_of(p);
    if matches_at_exec(s, &pc, 0) {
        Some(slice_of(s, pc.len(), s.len()))
    } else {
        None
    }
}

/// `str::split_once(c)` for a character.
pub open spec fn split_once_char(s: Seq<char>, c: char) -> Option<(Seq<char>, Seq<char>)> {
    let k = find_char(s, c);
    if k < 0 {
        None
    } else {
        Some((s.subrange(0, k), s.subrange(k + 1, s.len() as int)))
    }
}

/// `str::split_once(p)` for a string pattern.
pub open spec fn split_once_str(s: Seq<char>, p: Seq<char>) -> Option<(Seq<char>, Seq<char>)> {
    let k = find_str(s, p);
    if k < 0 {
        None
    } else {
        Some((s.subrange(0, k), s.subrange(k + p.len(), s.len() as int)))
    }
}

/// `str::split_once(char::is_whitespace)`.
pub open spec fn split_once_ws(s: Seq<char>) -> Option<(Seq<char>, Seq<char>)> {
    let k = find_ws_from(s, 0);
    if k < 0 {
        None
    } else {
        Some((s.subrange(0, k), s.subrange(k + 1, s.len() as int)))
    }
}

/// `s.rsplit(p).next()`: what follows the last occurrence of `p`, or all of `s`.
pub open spec fn after_last(s: Seq<char>, p: Seq<char>) -> Seq<char> {
    let k = rfind_str(s, p);
    if k < 0 {
        s
    } else {
        s.subrange(k + p.len(), s.len() as int)
    }
}

/// A pair of character vectors.
pub type CharsPair = (Vec<char>, Vec<char>);

proof fn lemma_find_from_bounds(s: Seq<char>, c: char, i: int)
    ensures
        find_from(s, c, i) == -1 || (i <= find_from(s, c, i) < s.len() && s[find_from(s, c, i)]
            == c),
    decreases s.len() - i,
{
    if 0 <= i < s.len() && s[i] != c {
        lemma_find_from_bounds(s, c, i + 1);
    }
}

/// Searching backwards skips a stretch without `c`.
pub proof fn lemma_rfind_skip(s: Seq<char>, c: char, i: int, j: int)
    requires
        0 <= j <= i <= s.len(),
        forall|k: int| j <= k < i ==> s[k] != c,
    ensures
        rfind_below(s, c, i) == rfind_below(s, c, j),
    decreases i - j,
{
    if i > j {
        lemma_rfind_skip(s, c, i - 1, j);
    }
}

pub proof fn lemma_find_char_bounds(s: Seq<char>, c: char)
    ensures
        find_char(s, c) == -1 || (0 <= find_char(s, c) < s.len() && s[find_char(s, c)] == c),
{
    lemma_find_from_bounds(s, c, 0);
}

pub fn split_once_char_exec(s: &Vec<char>, c: char) -> (r: Option<CharsPair>)
    ensures
        match r {
            Some((a, b)) => split_once_char(s@, c) == Some((a@, b@)),
            None => split_once_char(s@, c) is None,
        },
{
    proof {
        lemma_find_char_bounds(s@, c);
    }
    match find_char_exec(s, c) {
        Some(k) => Some((slice_of(s, 0, k), slice_of(s, k + 1, s.len()))),
        None => None,
    }
}

pub fn split_once_str_exec(s: &Vec<char>, p: &str) -> (r: Option<CharsPair>)
    ensures
        match r {
            Some((a, b)) => split_once_str(s@, p@) == Some((a@, b@)),
            None => split_once_str(s@, p@) is None,
        },
{
    let pc = chars_of(p);
    match find_str_exec(s, &pc) {
        Some(k) => Some((slice_of(s, 0, k), slice_of(s, k + pc.len(), s.len()))),
        None => None,
    }
}

pub fn split_once_ws_exec(s: &Vec<char>) -> (r: Option<CharsPair>)
    ensures
        match r {
            Some((a, b)) => split_once_ws(s@) == Some((a@, b@)),
            None => split_once_ws(s@) is None,
        },
{
    match find_ws_exec(s) {
        Some(k) => Some((slice_of(s, 0, k), slice_of(s, k + 1, s.len()))),
        None => None,
    }
}

pub fn after_last_exec(s: &Vec<char>, p: &str) -> (out: Vec<char>)
    ensures
        out@ == after_last(s@, p@),
{
    let pc = chars_of(p);
    match rfind_str_exec(s, &pc) {
        Some(k) => slice_of(s, k + pc.len(), s.len()),
        None => slice_of(s, 0, s.len()),
    }
}

/// `str::split(c)`: the pieces between occurrences of `c`.
pub open spec fn split_char(s: Seq<char>, c: char) -> Seq<Seq<char>>
    decreases s.len(),
{
    let k = find_char(s, c);
    if k < 0 || k >= s.len() {
        seq![s]
    } else {
        seq![s.subrange(0, k)] + split_char(s.subrange(k + 1, s.len() as int), c)
    }
}

pub fn split_char_exec(s: &Vec<char>, c: char) -> (out: Vec<Vec<char>>)
    ensures
        out@.map_values(|v: Vec<char>| v@) == split_char(s@, c),
{
    let mut out: Vec<Vec<char>> = Vec::new();
    let mut rest = slice_of(s, 0, s.len());
    assert(rest@ =~= s@);
    loop
        invariant
            out@.map_values(|v: Vec<char>| v@) + split_char(rest@, c) == split_char(s@, c),
        decreases rest@.len(),
    {
        proof {
            lemma_find_char_bounds(rest@, c);
        }
        match find_char_exec(&rest, c) {
            Some(k) => {
                let piece = slice_of(&rest, 0, k);
                let next = slice_of(&rest, k + 1, rest.len());
                let ghost old_out = out@;
                out.push(piece);
                assert(out@.map_values(|v: Vec<char>| v@) =~= old_out.map_values(
                    |v: Vec<char>| v@,
                ).push(piece@));
                rest = next;
            },
            None => {
                let ghost old_out = out@;
                out.push(rest);
                assert(out@.map_values(|v: Vec<char>| v@) =~= old_out.map_values(
                    |v: Vec<char>| v@,
                ) + split_char(rest@, c));
                return out;
            },
        }
    }
}

/// `str::lines`: split at `\n`; a `\r` right before a `\n` is dropped; no empty
/// line is produced after a final `\n`.
pub open spec fn lines(s: Seq<char>) -> Seq<Seq<char>>
    decreases s.len(),
{
    if s.len() == 0 {
        Seq::empty()
    } else {
        let k = find_char(s, '\n');
        if k < 0 || k >= s.len() {
            seq![s]
        } else {
            let line = s.subrange(0, k);
            let line = if line.len() > 0 && line.last() == '\r' {
                line.drop_last()
            } else {
                line
            };
            seq![line] + lines(s.subrange(k + 1, s.len() as int))
        }
    }
}

pub fn lines_exec(s: &Vec<char>) -> (out: Vec<Vec<char>>)
    ensures
        out@.map_values(|v: Vec<char>| v@) == lines(s@),
{
    let mut out: Vec<Vec<char>> = Vec::new();
    let mut rest = slice_of(s, 0, s.len());
    assert(rest@ =~= s@);
    loop
        invariant
            out@.map_values(|v: Vec<char>| v@) + lines(rest@) == lines(s@),
        decreases rest@.len(),
    {
        if rest.len() == 0 {
            assert(out@.map_values(|v: Vec<char>| v@) + lines(rest@) =~= out@.map_values(
                |v: Vec<char>| v@,
            ));
            return out;
        }
        proof {
            lemma_find_char_bounds(rest@, '\n');
        }
        match find_char_exec(&rest, '\n') {
            Some(k) => {
                let mut end = k;
                if k > 0 && rest[k - 1] == '\r' {
                    end = k - 1;
                }
                let piece = slice_of(&rest, 0, end);
                proof {
                    let line = rest@.subrange(0, k as int);
                    if k > 0 && rest@[k - 1] == '\r' {
                        assert(piece@ =~= line.drop_last());
                    } else {
                        assert(piece@ =~= line);
                    }
                }
                let next = slice_of(&rest, k + 1, rest.len());
                let ghost old_out = out@;
                out.push(piece);
                assert(out@.map_values(|v: Vec<char>| v@) =~= old_out.map_values(
                    |v: Vec<char>| v@,
                ).push(piece@));
                rest = next;
            },
            None => {
                let ghost old_out = out@;
                out.push(rest);
                assert(out@.map_values(|v: Vec<char>| v@) =~= old_out.map_values(
                    |v: Vec<char>| v@,
                ) + lines(rest@));
                return out;
            },
        }
    }
}

/// `str::split_whitespace`: the maximal runs of non-whitespace characters.
pub open spec fn words(s: Seq<char>) -> Seq<Seq<char>>
    decreases s.len(),
{
    if s.len() == 0 {
        Seq::empty()
    } else if is_ws(s[0]) {
        words(s.drop_first())
    } else {
        let k = find_ws_from(s, 0);
        if k < 0 || k >= s.len() {
            seq![s]
        } else {
            seq![s.subrange(0, k)] + words(s.subrange(k + 1, s.len() as int))
        }
    }
}

pub fn words_exec(s: &Vec<char>) -> (out: Vec<Vec<char>>)
    ensures
        out@.map_values(|v: Vec<char>| v@) == words(s@),
{
    let mut out: Vec<Vec<char>> = Vec::new();
    let mut rest = slice_of(s, 0, s.len());
    assert(rest@ =~= s@);
    loop
        invariant
            out@.map_values(|v: Vec<char>| v@) + words(rest@) == words(s@),
        decreases rest@.len(),
    {
        if rest.len() == 0 {
            assert(out@.map_values(|v: Vec<char>| v@) + words(rest@) =~= out@.map_values(
                |v: Vec<char>| v@,
            ));
            return out;
        }
        if char_is_ws(rest[0]) {
            let next = slice_of(&rest, 1, rest.len());
            assert(next@ =~= rest@.drop_first());
            rest = next;
        } else {
            match find_ws_exec(&rest) {
                Some(k) => {
                    let piece = slice_of(&rest, 0, k);
                    let next = slice_of(&rest, k + 1, rest.len());
                    let ghost old_out = out@;
                    out.push(piece);
                    assert(out@.map_values(|v: Vec<char>| v@) =~= old_out.map_values(
                        |v: Vec<char>| v@,
                    ).push(piece@));
                    rest = next;
                },
                None => {
                    let ghost old_out = out@;
                    out.push(rest);
                    assert(out@.map_values(|v: Vec<char>| v@) =~= old_out.map_values(
                        |v: Vec<char>| v@,
                    ) + words(rest@));
                    return out;
                },
            }
        }
    }
}

// ---------------------------------------------------------------------------
// Paths
// ---------------------------------------------------------------------------
/// `Path::join` on Unix: an absolute `file` replaces `dir`; otherwise a `/`
/// is put between the two unless `dir` is empty or already ends with one.
pub open spec fn path_join(dir: Seq<char>, file: Seq<char>) -> Seq<char> {
    if file.len() > 0 && file[0] == '/' {
        file
    } else if dir.len() == 0 || dir.last() == '/' {
        dir + file
    } else {
        dir + seq!['/'] + file
    }
}

/// A path component that names nothing: empty (between repeated `/`) or `.`.
pub open spec fn names_nothing(c: Seq<char>) -> bool {
    c.len() == 0 || c == seq!['.']
}

/// The last of the first `i` pieces that names something, if any.
pub open spec fn last_named(pieces: Seq<Seq<char>>, i: int) -> Option<Seq<char>>
    decreases i,
{
    if i <= 0 {
        None
    } else if names_nothing(pieces[i - 1]) {
        last_named(pieces, i - 1)
    } else {
        Some(pieces[i - 1])
    }
}

/// `Path::file_name` on Unix: the last component of the path, ignoring
/// empty and `.` components; none when there is no such component or it is
/// `..`.
pub open spec fn file_name(path: Seq<char>) -> Option<Seq<char>> {
    let pieces = split_char(path, '/');
    match last_named(pieces, pieces.len() as int) {
        Some(c) => if c == seq!['.', '.'] {
            None
        } else {
            Some(c)
        },
        None => None,
    }
}

/// The file name of a path, as `Path::file_name` gives it.
pub fn file_name_exec(path: &Vec<char>) -> (r: Option<Vec<char>>)
    ensures
        match r {
            Some(n) => file_name(path@) == Some(n@),
            None => file_name(path@) is None,
        },
{
    let pieces = split_char_exec(path, '/');
    let ghost ps = pieces@.map_values(|v: Vec<char>| v@);
    let mut i: usize = pieces.len();
    while i > 0
        invariant
            i <= pieces@.len(),
            ps == pieces@.map_values(|v: Vec<char>| v@),
            ps == split_char(path@, '/'),
            last_named(ps, ps.len() as int) == last_named(ps, i as int),
        decreases i,
    {
        let c = &pieces[i - 1];
        assert(ps[i - 1] == c@);
        if !(c.len() == 0 || (c.len() == 1 && c[0] == '.')) {
            assert(!names_nothing(c@)) by {
                if c@ == seq!['.'] {
                    assert(c@[0] == '.');
                }
            }
            if c.len() == 2 && c[0] == '.' && c[1] == '.' {
                assert(c@ =~= seq!['.', '.']);
                return None;
            }
            assert(c@ != seq!['.', '.']) by {
                if c@ == seq!['.', '.'] {
                    assert(c@[0] == '.' && c@[1] == '.');
                }
            }
            return Some(slice_of(c, 0, c.len()));
        }
        assert(names_nothing(c@)) by {
            if c.len() == 1 {
                assert(c@ =~= seq!['.']);
            }
        }
        i = i - 1;
    }
    None
}

/// Joins two paths the way `Path::join` does on Unix.
pub fn join_path(dir: &Vec<char>, file: &Vec<char>) -> (out: Vec<char>)
    ensures
        out@ == path_join(dir@, file@),
{
    if file.len() > 0 && file[0] == '/' {
        return slice_of(file, 0, file.len());
    }
    let mut out = slice_of(dir, 0, dir.len());
    if !(dir.len() == 0 || dir[dir.len() - 1] == '/') {
        out.push('/');
    }
    append_chars(&mut out, file);
    proof {
        assert(dir@.subrange(0, dir.len() as int) =~= dir@);
        if dir.len() > 0 {
            assert(dir@.last() == dir@[dir.len() - 1]);
        }
    }
    out
}

// ---------------------------------------------------------------------------
// Numbers
// ---------------------------------------------------------------------------
/// The decimal digit for `d < 10`.
pub open spec fn digit_char(d: nat) -> char {
    if d == 0 {
        '0'
    } else if d == 1 {
        '1'
    } else if d == 2 {
        '2'
    } else if d == 3 {
        '3'
    } else if d == 4 {
        '4'
    } else if d == 5 {
        '5'
    } else if d == 6 {
        '6'
    } else if d == 7 {
        '7'
    } else if d == 8 {
        '8'
    } else {
        '9'
    }
}

/// Decimal rendering of a natural number, as `Display` for integers prints it.
pub open spec fn decimal(n: nat) -> Seq<char>
    decreases n,
{
    if n < 10 {
        seq![digit_char(n)]
    } else {
        decimal(n / 10).push(digit_char(n % 10))
    }
}

/// A decimal rendering has at least one digit, two from ten on.
pub proof fn lemma_decimal_len(n: nat)
    ensures
        decimal(n).len() >= 1,
        n >= 10 ==> decimal(n).len() >= 2,
    decreases n,
{
    if n >= 10 {
        lemma_decimal_len(n / 10);
    }
}

/// Different numbers print differently.
pub proof fn lemma_decimal_injective(a: nat, b: nat)
    requires
        decimal(a) == decimal(b),
    ensures
        a == b,
    decreases a,
{
    lemma_decimal_len(a);
    lemma_decimal_len(b);
    if a >= 10 && b >= 10 {
        let da = decimal(a / 10);
        let db = decimal(b / 10);
        assert(decimal(a).drop_last() =~= da);
        assert(decimal(b).drop_last() =~= db);
        assert(decimal(a).last() == digit_char(a % 10));
        assert(decimal(b).last() == digit_char(b % 10));
        lemma_decimal_injective(a / 10, b / 10);
    } else if a < 10 && b < 10 {
        assert(decimal(a)[0] == digit_char(a));
        assert(decimal(b)[0] == digit_char(b));
    }
}

fn digit_exec(d: u64) -> (c: char)
    requires
        d < 10,
    ensures
        c == digit_char(d as nat),
{
    if d == 0 {
        '0'
    } else if d == 1 {
        '1'
    } else if d == 2 {
        '2'
    } else if d == 3 {
        '3'
    } else if d == 4 {
        '4'
    } else if d == 5 {
        '5'
    } else if d == 6 {
        '6'
    } else if d == 7 {
        '7'
    } else if d == 8 {
        '8'
    } else {
        '9'
    }
}

/// Decimal rendering of `n`.
pub fn decimal_exec(n: u64) -> (out: Vec<char>)
    ensures
        out@ == decimal(n as nat),
    decreases n,
{
    if n < 10 {
        let mut out: Vec<char> = Vec::new();
        out.push(digit_exec(n));
        out
    } else {
        let mut out = decimal_exec(n / 10);
        out.push(digit_exec(n % 10));
        out
    }
}

/// Appends the decimal rendering of `n`.
pub fn append_decimal(a: &mut Vec<char>, n: u64)
    ensures
        final(a)@ == old(a)@ + decimal(n as nat),
{
    let d = decimal_exec(n);
    append_chars(a, &d);
}

} // verus!

verus! {

// ---------------------------------------------------------------------------
// Ordering
// ---------------------------------------------------------------------------
/// The order of `String`s: lexicographic by character (equivalently by the
/// UTF-8 bytes), a proper prefix first.
pub open spec fn seq_lt(a: Seq<char>, b: Seq<char>) -> bool
    decreases a.len(),
{
    if a.len() == 0 {
        b.len() > 0
    } else if b.len() == 0 {
        false
    } else if a[0] != b[0] {
        (a[0] as u32) < (b[0] as u32)
    } else {
        seq_lt(a.drop_first(), b.drop_first())
    }
}

pub proof fn lemma_seq_lt_irreflexive(a: Seq<char>)
    ensures
        !seq_lt(a, a),
    decreases a.len(),
{
    if a.len() > 0 {
        lemma_seq_lt_irreflexive(a.drop_first());
    }
}

pub proof fn lemma_seq_lt_transitive(a: Seq<char>, b: Seq<char>, c: Seq<char>)
    requires
        seq_lt(a, b),
        seq_lt(b, c),
    ensures
        seq_lt(a, c),
    decreases a.len(),
{
    if a.len() > 0 && b.len() > 0 && c.len() > 0 {
        if a[0] == b[0] && b[0] == c[0] {
            lemma_seq_lt_transitive(a.drop_first(), b.drop_first(), c.drop_first());
        }
    }
}

pub proof fn lemma_seq_lt_total(a: Seq<char>, b: Seq<char>)
    requires
        a != b,
    ensures
        seq_lt(a, b) || seq_lt(b, a),
    decreases a.len(),
{
    if a.len() > 0 && b.len() > 0 {
        if a[0] == b[0] {
            if a.drop_first() == b.drop_first() {
                assert(a =~= seq![a[0]] + a.drop_first());
                assert(b =~= seq![b[0]] + b.drop_first());
            }
            lemma_seq_lt_total(a.drop_first(), b.drop_first());
        } else {
            vstd::utf8::char_u32_cast(a[0], a[0] as u32);
            vstd::utf8::char_u32_cast(b[0], b[0] as u32);
            assert((a[0] as u32) != (b[0] as u32));
        }
    } else if a.len() == 0 && b.len() == 0 {
        assert(a =~= b);
    }
}

pub proof fn lemma_seq_lt_asymmetric(a: Seq<char>, b: Seq<char>)
    requires
        seq_lt(a, b),
    ensures
        !seq_lt(b, a),
{
    if seq_lt(b, a) {
        lemma_seq_lt_transitive(a, b, a);
        lemma_seq_lt_irreflexive(a);
    }
}

/// `a < b` in the order of strings.
pub fn chars_lt(a: &Vec<char>, b: &Vec<char>) -> (r: bool)
    ensures
        r == seq_lt(a@, b@),
{
    let mut i: usize = 0;
    assert(a@.subrange(0, a.len() as int) =~= a@);
    assert(b@.subrange(0, b.len() as int) =~= b@);
    while i < a.len() && i < b.len() && a[i] == b[i]
        invariant
            i <= a.len(),
            i <= b.len(),
            seq_lt(a@, b@) == seq_lt(a@.subrange(i as int, a.len() as int), b@.subrange(i as int, b.len() as int)),
        decreases a.len() - i,
    {
        proof {
            let sa = a@.subrange(i as int, a.len() as int);
            let sb = b@.subrange(i as int, b.len() as int);
            assert(sa.drop_first() =~= a@.subrange(i + 1, a.len() as int));
            assert(sb.drop_first() =~= b@.subrange(i + 1, b.len() as int));
        }
        i = i + 1;
    }
    proof {
        let sa = a@.subrange(i as int, a.len() as int);
        let sb = b@.subrange(i as int, b.len() as int);
        if i < a.len() && i < b.len() {
            assert(sa[0] == a@[i as int]);
            assert(sb[0] == b@[i as int]);
        }
    }
    if i < a.len() && i < b.len() {
        (a[i] as u32) < (b[i] as u32)
    } else {
        i == a.len() && i < b.len()
    }
}

pub fn string_lt(a: &String, b: &String) -> (r: bool)
    ensures
        r == seq_lt(a@, b@),
{
    let ac = chars_of_string(a);
    let bc = chars_of_string(b);
    chars_lt(&ac, &bc)
}

} // verus!
