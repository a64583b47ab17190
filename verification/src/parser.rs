//! Reading Xschem files: each function here reads what the function of the
//! same name in `grammar` describes, and ends where it says.
use vstd::prelude::*;
use crate::grammar;
use crate::models::{view_object, view_objects, Arc, Component, Line, Object, ObjectV, Point, Polygon, Properties, PropsV, Rectangle, Schematic, Text, Wire};
use crate::strmap::StrMap;
use crate::text::{chars_of, string_of};

verus! {

broadcast use vstd::string::group_string_axioms;

fn is_blank(c: char) -> (r: bool)
    ensures r == grammar::is_blank(c),
{
    c == ' ' || c == '\t' || c == '\n' || c == '\r'
}

fn is_digit(c: char) -> (r: bool)
    ensures r == grammar::is_digit(c),
{
    '0' <= c && c <= '9'
}

fn is_key_char(c: char) -> (r: bool)
    ensures r == grammar::is_key_char(c),
{
    !is_blank(c) && c != '=' && c != '{' && c != '}' && c != '"' && c != '\\'
}

fn at(s: &[char], p: usize, c: char) -> (r: bool)
    ensures
        r == grammar::at(s@, p as int, c),
        s@.len() <= usize::MAX,
{
    p < s.len() && s[p] == c
}

fn skip_blanks(s: &[char], p: usize) -> (r: usize)
    requires p <= s@.len(),
    ensures
        r == grammar::skip_blanks(s@, p as int),
        p <= r <= s@.len(),
{
    let mut q = p;
    while q < s.len() && is_blank(s[q])
        invariant
            p <= q <= s@.len(),
            grammar::skip_blanks(s@, q as int) == grammar::skip_blanks(s@, p as int),
        decreases s@.len() - q,
    {
        q = q + 1;
    }
    q
}

proof fn lemma_digits_end(s: Seq<char>, p: int)
    requires 0 <= p <= s.len(),
    ensures
        p <= grammar::digits_end(s, p) <= s.len(),
        forall|i: int| p <= i < grammar::digits_end(s, p) ==> grammar::is_digit(#[trigger] s[i]),
    decreases s.len() - p,
{
    if p < s.len() && grammar::is_digit(s[p]) {
        lemma_digits_end(s, p + 1);
    }
}

fn digits_end(s: &[char], p: usize) -> (r: usize)
    requires p <= s@.len(),
    ensures
        r == grammar::digits_end(s@, p as int),
        p <= r <= s@.len(),
{
    let mut q = p;
    while q < s.len() && is_digit(s[q])
        invariant
            p <= q <= s@.len(),
            grammar::digits_end(s@, q as int) == grammar::digits_end(s@, p as int),
        decreases s@.len() - q,
    {
        q = q + 1;
    }
    q
}

fn after_sign(s: &[char], p: usize) -> (r: usize)
    requires p <= s@.len(),
    ensures
        r == grammar::after_sign(s@, p as int),
        p <= r <= s@.len(),
{
    if at(s, p, '+') || at(s, p, '-') { p + 1 } else { p }
}

fn exponent_end(s: &[char], q: usize) -> (r: usize)
    requires q <= s@.len(),
    ensures
        r == grammar::exponent_end(s@, q as int),
        q <= r <= s@.len(),
{
    if at(s, q, 'e') || at(s, q, 'E') {
        let q2 = after_sign(s, q + 1);
        let d = digits_end(s, q2);
        if d > q2 { d } else { q }
    } else {
        q
    }
}

fn number_end(s: &[char], p: usize) -> (r: Option<usize>)
    requires p <= s@.len(),
    ensures
        match r {
            Some(e) => grammar::number_end(s@, p as int) == Some(e as int) && p < e <= s@.len(),
            None => grammar::number_end(s@, p as int) is None,
        },
{
    let q0 = after_sign(s, p);
    let d1 = digits_end(s, q0);
    if d1 > q0 {
        let q1 = if at(s, d1, '.') { digits_end(s, d1 + 1) } else { d1 };
        Some(exponent_end(s, q1))
    } else if at(s, q0, '.') && digits_end(s, q0 + 1) > q0 + 1 {
        let q1 = digits_end(s, q0 + 1);
        Some(exponent_end(s, q1))
    } else {
        None
    }
}

fn int_end(s: &[char], p: usize) -> (r: Option<usize>)
    requires p <= s@.len(),
    ensures
        match r {
            Some(e) => grammar::int_end(s@, p as int) == Some(e as int) && p < e <= s@.len(),
            None => grammar::int_end(s@, p as int) is None,
        },
{
    let q0 = after_sign(s, p);
    let d = digits_end(s, q0);
    if d > q0 { Some(d) } else { None }
}

fn int_value(s: &[char], lo: usize, hi: usize) -> (r: i32)
    requires
        lo <= hi <= s@.len(),
        grammar::int_end(s@, lo as int) == Some(hi as int),
    ensures
        r == grammar::int_value(s@, lo as int, hi as int),
{
    let neg = at(s, lo, '-');
    let q0 = after_sign(s, lo);
    proof { lemma_digits_end(s@, q0 as int); }
    let mut v: u64 = 0;
    let mut big = false;
    let mut i = q0;
    while i < hi
        invariant
            q0 <= i <= hi <= s@.len(),
            hi == grammar::digits_end(s@, q0 as int),
            forall|j: int| q0 <= j < hi ==> grammar::is_digit(#[trigger] s@[j]),
            !big ==> v == grammar::digits_value(s@, q0 as int, i as int) && v <= 0x8000_0000,
            big ==> grammar::digits_value(s@, q0 as int, i as int) > 0x8000_0000,
        decreases hi - i,
    {
        let c = s[i];
        assert(grammar::is_digit(s@[i as int]));
        let d: u64 = (c as u32 - '0' as u32) as u64;
        assert(d == s@[i as int] as int - '0' as int);
        if !big {
            let nv = v * 10 + d;
            if nv > 0x8000_0000 {
                big = true;
            } else {
                v = nv;
            }
        }
        i = i + 1;
    }
    if neg {
        if big { 0 } else if v == 0x8000_0000 { i32::MIN } else { -(v as i32) }
    } else {
        if big || v > 0x7fff_ffff { 0 } else { v as i32 }
    }
}

fn braced_end(s: &[char], q: usize) -> (r: Option<usize>)
    requires q <= s@.len(),
    ensures
        match r {
            Some(e) => grammar::braced_end(s@, q as int) == Some(e as int) && q < e <= s@.len(),
            None => grammar::braced_end(s@, q as int) is None,
        },
{
    let mut i = q;
    while i < s.len()
        invariant
            q <= i <= s@.len(),
            grammar::braced_end(s@, i as int) == grammar::braced_end(s@, q as int),
        decreases s@.len() - i,
    {
        if s[i] == '\\' {
            if i + 1 < s.len() {
                i = i + 2;
            } else {
                return None;
            }
        } else if s[i] == '}' {
            return Some(i + 1);
        } else {
            i = i + 1;
        }
    }
    None
}

fn quoted_end(s: &[char], q: usize) -> (r: Option<usize>)
    requires q <= s@.len(),
    ensures
        match r {
            Some(e) => grammar::quoted_end(s@, q as int) == Some(e as int) && q < e <= s@.len(),
            None => grammar::quoted_end(s@, q as int) is None,
        },
{
    let mut i = q;
    while i < s.len()
        invariant
            q <= i <= s@.len(),
            grammar::quoted_end(s@, i as int) == grammar::quoted_end(s@, q as int),
        decreases s@.len() - i,
    {
        if s[i] == '\\' {
            if i + 1 < s.len() {
                i = i + 2;
            } else {
                return None;
            }
        } else if s[i] == '"' {
            return Some(i + 1);
        } else {
            i = i + 1;
        }
    }
    None
}

fn bare_end(s: &[char], q: usize) -> (r: usize)
    requires q <= s@.len(),
    ensures
        r == grammar::bare_end(s@, q as int),
        q <= r <= s@.len(),
{
    let mut i = q;
    while i < s.len() && !is_blank(s[i]) && s[i] != '}'
        invariant
            q <= i <= s@.len(),
            grammar::bare_end(s@, i as int) == grammar::bare_end(s@, q as int),
        decreases s@.len() - i,
    {
        if s[i] == '\\' && i + 1 < s.len() {
            i = i + 2;
        } else {
            i = i + 1;
        }
    }
    i
}

fn key_end(s: &[char], p: usize) -> (r: usize)
    requires p <= s@.len(),
    ensures
        r == grammar::key_end(s@, p as int),
        p <= r <= s@.len(),
{
    let mut q = p;
    while q < s.len() && is_key_char(s[q])
        invariant
            p <= q <= s@.len(),
            grammar::key_end(s@, q as int) == grammar::key_end(s@, p as int),
        decreases s@.len() - q,
    {
        q = q + 1;
    }
    q
}

proof fn lemma_unescape_step(t: Seq<char>, i: int)
    requires 0 <= i < t.len(),
    ensures
        t[i] == '\\' && i + 1 < t.len() ==> grammar::unescape_chars(t.skip(i))
            == seq![t[i + 1]] + grammar::unescape_chars(t.skip(i + 2)),
        t[i] == '\\' && i + 1 >= t.len() ==> grammar::unescape_chars(t.skip(i)) == Seq::<char>::empty(),
        t[i] != '\\' ==> grammar::unescape_chars(t.skip(i)) == seq![t[i]] + grammar::unescape_chars(t.skip(i + 1)),
{
    if i + 1 < t.len() {
        assert(t.skip(i).skip(2) =~= t.skip(i + 2));
    }
    assert(t.skip(i).skip(1) =~= t.skip(i + 1));
}

/// Resolves the escapes of the value written in `s[lo..hi]`.
fn unescape_range(s: &[char], lo: usize, hi: usize) -> (r: String)
    requires lo <= hi <= s@.len(),
    ensures r@ == grammar::unescape(s@.subrange(lo as int, hi as int)),
{
    let ghost t0 = s@.subrange(lo as int, hi as int);
    let (a, b) = if hi - lo >= 2 && s[lo] == '"' && s[hi - 1] == '"' { (lo + 1, hi - 1) } else { (lo, hi) };
    let ghost t = s@.subrange(a as int, b as int);
    assert(grammar::strip_quotes(t0) =~= t);
    let mut r = String::new();
    let mut i = a;
    proof { assert(t.skip(0) =~= t); }
    while i < b
        invariant
            a <= i <= b <= s@.len(),
            t == s@.subrange(a as int, b as int),
            r@ + grammar::unescape_chars(t.skip(i - a)) == grammar::unescape_chars(t),
        decreases b - i,
    {
        proof { lemma_unescape_step(t, i - a); }
        if s[i] == '\\' {
            if i + 1 < b {
                r.push(s[i + 1]);
                proof { assert(r@ + grammar::unescape_chars(t.skip(i + 2 - a)) =~= grammar::unescape_chars(t)); }
                i = i + 2;
            } else {
                proof { assert(r@ =~= r@ + Seq::<char>::empty()); assert(t.skip(b - a).len() == 0); }
                i = b;
            }
        } else {
            r.push(s[i]);
            proof { assert(r@ + grammar::unescape_chars(t.skip(i + 1 - a)) =~= grammar::unescape_chars(t)); }
            i = i + 1;
        }
    }
    proof {
        assert(t.skip(b - a).len() == 0);
        assert(r@ =~= r@ + grammar::unescape_chars(t.skip(b - a)));
    }
    r
}

/// The value of an attribute written as `s`: without enclosing double
/// quotes, each `\x` read as `x`.
pub fn unescape(s: &str) -> (r: String)
    requires s@ != seq!['"'],
    ensures r@ == grammar::unescape(s@),
{
    let v = chars_of(s);
    proof { assert(v@.subrange(0, v@.len() as int) =~= v@); }
    unescape_range(v.as_slice(), 0, v.len())
}

fn value_end(s: &[char], v0: usize) -> (r: Option<usize>)
    requires v0 <= s@.len(),
    ensures
        match r {
            Some(e) => grammar::value_end(s@, v0 as int) == Some(e as int) && v0 <= e <= s@.len(),
            None => grammar::value_end(s@, v0 as int) is None,
        },
{
    if at(s, v0, '"') { quoted_end(s, v0 + 1) } else { Some(bare_end(s, v0)) }
}

/// One `key=value` pair at `p`.
fn pair(s: &[char], p: usize) -> (r: Option<(String, String, usize)>)
    requires p <= s@.len(),
    ensures
        match grammar::pair(s@, p as int) {
            Some((k, v, e)) => r matches Some((rk, rv, re)) && rk@ == k && rv@ == v && re == e,
            None => r is None,
        },
{
    let ke = key_end(s, p);
    if ke <= p {
        None
    } else if at(s, ke, '=') {
        match value_end(s, ke + 1) {
            Some(ve) => Some((string_of(s, p, ke), unescape_range(s, ke + 1, ve), ve)),
            None => None,
        }
    } else {
        let v = String::new();
        Some((string_of(s, p, ke), v, ke))
    }
}

proof fn lemma_view_insert(m: Map<Seq<char>, String>, k: Seq<char>, v: String)
    ensures
        m.insert(k, v).map_values(|x: String| x@) == m.map_values(|x: String| x@).insert(k, v@),
{
    assert(m.insert(k, v).map_values(|x: String| x@) =~= m.map_values(|x: String| x@).insert(k, v@));
}

/// The attribute block whose body starts at `p`, up to and past its `}`.
fn pairs(s: &[char], p: usize) -> (r: Option<(Properties, usize)>)
    requires p <= s@.len(),
    ensures
        match grammar::pairs(s@, p as int, Map::empty()) {
            Some((m, e)) => r matches Some((rm, re)) && rm@ == m && re == e && p < e <= s@.len(),
            None => r is None,
        },
{
    let mut props: Properties = StrMap::new();
    let mut i = p;
    proof { assert(props@ =~= Map::<Seq<char>, Seq<char>>::empty()); }
    loop
        invariant
            p <= i <= s@.len(),
            grammar::pairs(s@, i as int, props@) == grammar::pairs(s@, p as int, Map::empty()),
        decreases s@.len() - i,
    {
        let q = skip_blanks(s, i);
        if at(s, q, '}') {
            return Some((props, q + 1));
        }
        match pair(s, q) {
            Some((k, v, e)) => {
                if q < e && e <= s.len() {
                    let ghost old_props = props@;
                    let ghost kv = k@;
                    let ghost vv = v@;
                    proof { lemma_view_insert(props.map(), k@, v); }
                    props.insert(k, v);
                    assert(props@ == old_props.insert(kv, vv));
                    i = e;
                } else {
                    return None;
                }
            },
            None => {
                return None;
            },
        }
    }
}

/// An attribute block at the first non-blank at or after `p`.
pub fn props_field(s: &[char], p: usize) -> (r: Option<(Properties, usize)>)
    requires p <= s@.len(),
    ensures
        match grammar::props_field(s@, p as int) {
            Some((m, e)) => r matches Some((rm, re)) && rm@ == m && re == e && p < e <= s@.len(),
            None => r is None,
        },
{
    let q = skip_blanks(s, p);
    if at(s, q, '{') { pairs(s, q + 1) } else { None }
}

/// A braced text at the first non-blank at or after `p`.
fn braced_field(s: &[char], p: usize) -> (r: Option<(String, usize)>)
    requires p <= s@.len(),
    ensures
        match grammar::braced_field(s@, p as int) {
            Some((t, e)) => r matches Some((rt, re)) && rt@ == t && re == e && p < e <= s@.len(),
            None => r is None,
        },
{
    let q = skip_blanks(s, p);
    if at(s, q, '{') {
        match braced_end(s, q + 1) {
            Some(e) => Some((string_of(s, q + 1, e - 1), e)),
            None => None,
        }
    } else {
        None
    }
}

fn int_field(s: &[char], p: usize) -> (r: Option<(i32, usize)>)
    requires p <= s@.len(),
    ensures
        match grammar::int_field(s@, p as int) {
            Some((v, e)) => r matches Some((rv, re)) && rv == v && re == e && p < e <= s@.len(),
            None => r is None,
        },
{
    let q = skip_blanks(s, p);
    match int_end(s, q) {
        Some(e) => Some((int_value(s, q, e), e)),
        None => None,
    }
}

fn num_field(s: &[char], p: usize) -> (r: Option<(String, usize)>)
    requires p <= s@.len(),
    ensures
        match grammar::num_field(s@, p as int) {
            Some((t, e)) => r matches Some((rt, re)) && rt@ == t && re == e && p < e <= s@.len(),
            None => r is None,
        },
{
    let q = skip_blanks(s, p);
    match number_end(s, q) {
        Some(e) => Some((string_of(s, q, e), e)),
        None => None,
    }
}

/// Two numeric fields.
fn num_fields2(s: &[char], p: usize) -> (r: Option<(String, String, usize)>)
    requires p <= s@.len(),
    ensures
        match grammar::num_fields(s@, p as int, 2) {
            Some((xs, e)) => r matches Some((a, b, re)) && xs == seq![a@, b@] && re == e && p < e <= s@.len(),
            None => r is None,
        },
{
    proof { reveal_with_fuel(grammar::num_fields, 3); }
    match num_field(s, p) {
        Some((a, p1)) => match num_field(s, p1) {
            Some((b, e)) => {
                proof { assert(seq![a@].push(b@) =~= seq![a@, b@]); assert(Seq::<Seq<char>>::empty().push(a@) =~= seq![a@]); }
                Some((a, b, e))
            },
            None => None,
        },
        None => None,
    }
}

/// Four numeric fields.
fn num_fields4(s: &[char], p: usize) -> (r: Option<(String, String, String, String, usize)>)
    requires p <= s@.len(),
    ensures
        match grammar::num_fields(s@, p as int, 4) {
            Some((xs, e)) => r matches Some((a, b, c, d, re)) && xs == seq![a@, b@, c@, d@] && re == e
                && p < e <= s@.len(),
            None => r is None,
        },
{
    proof {
        reveal_with_fuel(grammar::num_fields, 5);
    }
    match num_fields2(s, p) {
        Some((a, b, p2)) => match num_field(s, p2) {
            Some((c, p3)) => match num_field(s, p3) {
                Some((d, e)) => {
                    proof {
                        assert(seq![a@, b@].push(c@) =~= seq![a@, b@, c@]);
                        assert(seq![a@, b@, c@].push(d@) =~= seq![a@, b@, c@, d@]);
                    }
                    Some((a, b, c, d, e))
                },
                None => None,
            },
            None => None,
        },
        None => None,
    }
}

fn is_unicode_space(c: char) -> (r: bool)
    ensures r == grammar::is_unicode_space(c),
{
    ('\u{9}' <= c && c <= '\u{d}') || c == ' ' || c == '\u{85}' || c == '\u{a0}' || c == '\u{1680}'
        || ('\u{2000}' <= c && c <= '\u{200a}') || c == '\u{2028}' || c == '\u{2029}'
        || c == '\u{202f}' || c == '\u{205f}' || c == '\u{3000}'
}

/// `t[lo..hi]` without leading and trailing white space.
pub fn trim_chars(t: &[char]) -> (r: String)
    ensures r@ == grammar::trim(t@),
{
    let mut a: usize = 0;
    while a < t.len() && is_unicode_space(t[a])
        invariant
            a <= t@.len(),
            grammar::trim_start_from(t@, a as int) == grammar::trim_start_from(t@, 0),
        decreases t@.len() - a,
    {
        a = a + 1;
    }
    let mut b: usize = t.len();
    while a < b && is_unicode_space(t[b - 1])
        invariant
            a <= b <= t@.len(),
            grammar::trim_end_from(t@, a as int, b as int) == grammar::trim_end_from(t@, a as int, t@.len() as int),
        decreases b - a,
    {
        b = b - 1;
    }
    string_of(t, a, b)
}

fn word_end(s: &[char], p: usize) -> (r: usize)
    requires p <= s@.len(),
    ensures
        r == grammar::word_end(s@, p as int),
        p <= r <= s@.len(),
{
    let mut q = p;
    while q < s.len() && !is_blank(s[q])
        invariant
            p <= q <= s@.len(),
            grammar::word_end(s@, q as int) == grammar::word_end(s@, p as int),
        decreases s@.len() - q,
    {
        q = q + 1;
    }
    q
}

pub(crate) fn lit_at(s: &[char], p: usize, lit: &[char]) -> (r: bool)
    ensures
        r == grammar::lit_at(s@, p as int, lit@),
        s@.len() <= usize::MAX,
{
    if p > s.len() || lit.len() > s.len() - p {
        return false;
    }
    let mut i: usize = 0;
    while i < lit.len()
        invariant
            p + lit@.len() <= s@.len() <= usize::MAX,
            i <= lit@.len(),
            forall|j: int| 0 <= j < i ==> s@[p + j] == #[trigger] lit@[j],
        decreases lit@.len() - i,
    {
        if s[p + i] != lit[i] {
            proof { assert(s@.subrange(p as int, p + lit@.len())[i as int] != lit@[i as int]); }
            return false;
        }
        i = i + 1;
    }
    proof { assert(s@.subrange(p as int, p + lit@.len()) =~= lit@); }
    true
}

fn version_fields(c: &[char]) -> (r: Option<crate::models::Version>)
    ensures
        match grammar::version_fields(c@) {
            Some(v) => r matches Some(rv) && rv@ == v,
            None => r is None,
        },
{
    let xschem: [char; 6] = ['x', 's', 'c', 'h', 'e', 'm'];
    let version: [char; 8] = ['v', 'e', 'r', 's', 'i', 'o', 'n', '='];
    let file_version: [char; 13] = ['f', 'i', 'l', 'e', '_', 'v', 'e', 'r', 's', 'i', 'o', 'n', '='];
    assert(xschem@ =~= grammar::xschem_lit());
    assert(version@ =~= grammar::version_lit());
    assert(file_version@ =~= grammar::file_version_lit());
    let a = skip_blanks(c, 0);
    if !lit_at(c, a, &xschem) {
        return None;
    }
    let b = skip_blanks(c, a + 6);
    if b <= a + 6 || !lit_at(c, b, &version) {
        return None;
    }
    let v0 = b + 8;
    let ve = word_end(c, v0);
    if ve <= v0 {
        return None;
    }
    let d = skip_blanks(c, ve);
    if !lit_at(c, d, &file_version) {
        return None;
    }
    let f0 = d + 13;
    let fe = word_end(c, f0);
    if fe <= f0 {
        return None;
    }
    let rest = vstd::slice::slice_subrange(c, fe, c.len());
    Some(crate::models::Version {
        version: string_of(c, v0, ve),
        file_version: string_of(c, f0, fe),
        license: trim_chars(rest),
    })
}

fn layered4(s: &[char], p: usize) -> (r: Option<(i32, String, String, String, String, Properties, usize)>)
    requires p <= s@.len(),
    ensures
        match grammar::layered4(s@, p as int) {
            Some((layer, cs, pr, e)) => r matches Some((l, a, b, c, d, rp, re)) && l == layer
                && cs == seq![a@, b@, c@, d@] && rp@ == pr && re == e && p < e <= s@.len(),
            None => r is None,
        },
{
    match int_field(s, p) {
        Some((layer, p1)) => match num_fields4(s, p1) {
            Some((a, b, c, d, p2)) => match props_field(s, p2) {
                Some((pr, e)) => Some((layer, a, b, c, d, pr, e)),
                None => None,
            },
            None => None,
        },
        None => None,
    }
}

fn arc_fields(s: &[char], p: usize) -> (r: Option<(i32, String, String, String, String, String, Properties, usize)>)
    requires p <= s@.len(),
    ensures
        match grammar::arc_fields(s@, p as int) {
            Some((layer, cs, pr, e)) => r matches Some((l, a, b, c, d, f, rp, re)) && l == layer
                && cs == seq![a@, b@, c@, d@, f@] && rp@ == pr && re == e && p < e <= s@.len(),
            None => r is None,
        },
{
    proof { reveal_with_fuel(grammar::num_fields, 2); }
    match int_field(s, p) {
        Some((layer, p1)) => match num_fields4(s, p1) {
            Some((a, b, c, d, p2)) => match num_field(s, p2) {
                Some((f, p3)) => {
                    proof { assert(seq![a@, b@, c@, d@].push(f@) =~= seq![a@, b@, c@, d@, f@]); }
                    match props_field(s, p3) {
                        Some((pr, e)) => Some((layer, a, b, c, d, f, pr, e)),
                        None => None,
                    }
                },
                None => None,
            },
            None => None,
        },
        None => None,
    }
}

fn wire_fields(s: &[char], p: usize) -> (r: Option<(String, String, String, String, Properties, usize)>)
    requires p <= s@.len(),
    ensures
        match grammar::wire_fields(s@, p as int) {
            Some((cs, pr, e)) => r matches Some((a, b, c, d, rp, re))
                && cs == seq![a@, b@, c@, d@] && rp@ == pr && re == e && p < e <= s@.len(),
            None => r is None,
        },
{
    match num_fields4(s, p) {
        Some((a, b, c, d, p1)) => match props_field(s, p1) {
            Some((pr, e)) => Some((a, b, c, d, pr, e)),
            None => None,
        },
        None => None,
    }
}

fn text_fields(s: &[char], p: usize) -> (r: Option<(String, String, String, i32, i32, String, String, Properties, usize)>)
    requires p <= s@.len(),
    ensures
        match grammar::text_fields(s@, p as int) {
            Some((t, cs, rot, mir, pr, e)) => r matches Some((rt, x, y, rr, rm, h, v, rp, re))
                && rt@ == t && cs == seq![x@, y@, h@, v@] && rr == rot && rm == mir && rp@ == pr
                && re == e && p < e <= s@.len(),
            None => r is None,
        },
{
    match braced_field(s, p) {
        Some((t, p1)) => match num_fields2(s, p1) {
            Some((x, y, p2)) => match int_field(s, p2) {
                Some((rot, p3)) => match int_field(s, p3) {
                    Some((mir, p4)) => match num_fields2(s, p4) {
                        Some((h, v, p5)) => match props_field(s, p5) {
                            Some((pr, e)) => {
                                proof { assert(seq![x@, y@] + seq![h@, v@] =~= seq![x@, y@, h@, v@]); }
                                Some((t, x, y, rot, mir, h, v, pr, e))
                            },
                            None => None,
                        },
                        None => None,
                    },
                    None => None,
                },
                None => None,
            },
            None => None,
        },
        None => None,
    }
}

fn component_fields(s: &[char], p: usize) -> (r: Option<(String, String, String, i32, i32, Properties, usize)>)
    requires p <= s@.len(),
    ensures
        match grammar::component_fields(s@, p as int) {
            Some((sym, cs, rot, flip, pr, e)) => r matches Some((rs, x, y, rr, rf, rp, re))
                && rs@ == sym && cs == seq![x@, y@] && rr == rot && rf == flip && rp@ == pr
                && re == e && p < e <= s@.len(),
            None => r is None,
        },
{
    match braced_field(s, p) {
        Some((sym, p1)) => match num_fields2(s, p1) {
            Some((x, y, p2)) => match int_field(s, p2) {
                Some((rot, p3)) => match int_field(s, p3) {
                    Some((flip, p4)) => match props_field(s, p4) {
                        Some((pr, e)) => Some((sym, x, y, rot, flip, pr, e)),
                        None => None,
                    },
                    None => None,
                },
                None => None,
            },
            None => None,
        },
        None => None,
    }
}

fn polygon_fields(s: &[char], p: usize) -> (r: Option<(i32, Vec<Point>, Properties, usize)>)
    requires p <= s@.len(),
    ensures
        match grammar::polygon_fields(s@, p as int) {
            Some((layer, pts, pr, e)) => r matches Some((l, rpts, rp, re)) && l == layer
                && rpts@.map_values(|q: Point| q@) == pts && rp@ == pr && re == e && p < e <= s@.len(),
            None => r is None,
        },
{
    let (layer, p1) = match int_field(s, p) {
        Some(x) => x,
        None => { return None; },
    };
    let (count, p2) = match int_field(s, p1) {
        Some(x) => x,
        None => { return None; },
    };
    let mut pts: Vec<Point> = Vec::new();
    let mut i = p2;
    proof { assert(pts@.map_values(|q: Point| q@) =~= Seq::<(Seq<char>, Seq<char>)>::empty()); }
    loop
        invariant
            p < p1 < p2 <= i <= s@.len(),
            grammar::int_field(s@, p as int) == Some((layer, p1 as int)),
            grammar::int_field(s@, p1 as int) == Some((count, p2 as int)),
            grammar::poly_points(s@, i as int, pts@.map_values(|q: Point| q@))
                == grammar::poly_points(s@, p2 as int, Seq::empty()),
        decreases s@.len() - i,
    {
        let q = skip_blanks(s, i);
        let ghost acc = pts@.map_values(|q: Point| q@);
        assert(grammar::skip_blanks(s@, i as int) == q);
        if at(s, q, '{') {
            assert(grammar::poly_points(s@, i as int, acc) == (match grammar::pairs(s@, q + 1, Map::empty()) {
                Some((pr, e)) => Some((acc, pr, e)),
                None => None,
            }));
            return match pairs(s, q + 1) {
                Some((pr, e)) => Some((layer, pts, pr, e)),
                None => None,
            };
        }
        match num_fields2(s, q) {
            Some((x, y, e)) => {
                let ghost old_v = pts@.map_values(|q: Point| q@);
                let pt = Point { x, y };
                let ghost pv = pt@;
                pts.push(pt);
                proof { assert(pts@.map_values(|q: Point| q@) =~= old_v.push(pv)); }
                i = e;
            },
            None => { return None; },
        }
    }
}

fn text_block(c: char, t: String) -> (r: Object)
    ensures view_object(r) == grammar::text_block(c, t@),
{
    if c == 'S' {
        Object::Spice(t)
    } else if c == 'V' {
        Object::Verilog(t)
    } else if c == 'F' {
        Object::Spectre(t)
    } else if c == 'G' {
        Object::Vhdl(t)
    } else {
        Object::Tedax(t)
    }
}

/// One item other than an embedded symbol at `p`.
fn plain_item(s: &[char], p: usize) -> (r: Option<(Object, usize)>)
    requires p <= s@.len(),
    ensures
        match grammar::plain_item(s@, p as int) {
            Some((o, e)) => r matches Some((ro, re)) && view_object(ro) == o && re == e && p < e <= s@.len(),
            None => r is None,
        },
{
    if p >= s.len() {
        return None;
    }
    let c = s[p];
    if c == 'v' {
        match braced_field(s, p + 1) {
            Some((body, e)) => {
                let bc = chars_of(body.as_str());
                match version_fields(bc.as_slice()) {
                    Some(v) => Some((Object::Version(v), e)),
                    None => None,
                }
            },
            None => None,
        }
    } else if c == 'S' || c == 'V' || c == 'F' || c == 'G' || c == 'E' {
        match braced_field(s, p + 1) {
            Some((t, e)) => Some((text_block(c, t), e)),
            None => None,
        }
    } else if c == 'K' {
        match props_field(s, p + 1) {
            Some((pr, e)) => Some((Object::GlobalProperties(pr), e)),
            None => None,
        }
    } else if c == 'L' || c == 'B' {
        match layered4(s, p + 1) {
            Some((layer, x1, y1, x2, y2, properties, e)) => Some((
                if c == 'L' {
                    Object::Line(Line { layer, x1, y1, x2, y2, properties })
                } else {
                    Object::Rectangle(Rectangle { layer, x1, y1, x2, y2, properties })
                },
                e,
            )),
            None => None,
        }
    } else if c == 'A' {
        match arc_fields(s, p + 1) {
            Some((layer, center_x, center_y, radius, start_angle, sweep_angle, properties, e)) => Some((
                Object::Arc(Arc { layer, center_x, center_y, radius, start_angle, sweep_angle, properties }),
                e,
            )),
            None => None,
        }
    } else if c == 'P' {
        match polygon_fields(s, p + 1) {
            Some((layer, points, properties, e)) => Some((Object::Polygon(Polygon { layer, points, properties }), e)),
            None => None,
        }
    } else if c == 'T' {
        match text_fields(s, p + 1) {
            Some((text, x, y, rotation, mirror, h_size, v_size, properties, e)) => Some((
                Object::Text(Text { text, x, y, rotation, mirror, h_size, v_size, properties }),
                e,
            )),
            None => None,
        }
    } else if c == 'N' {
        match wire_fields(s, p + 1) {
            Some((x1, y1, x2, y2, properties, e)) => Some((Object::Wire(Wire { x1, y1, x2, y2, properties }), e)),
            None => None,
        }
    } else if c == 'C' {
        match component_fields(s, p + 1) {
            Some((symbol_reference, x, y, rotation, flip, properties, e)) => Some((
                Object::Component(Component { symbol_reference, x, y, rotation, flip, properties }),
                e,
            )),
            None => None,
        }
    } else {
        None
    }
}

proof fn lemma_view_push(objs: Seq<Object>, o: Object)
    ensures view_objects(objs.push(o)) == view_objects(objs).push(view_object(o)),
{
    assert(objs.push(o).drop_last() =~= objs);
}

/// The items of an embedded symbol whose body starts at `p`.
fn embedded_items(s: &[char], p: usize) -> (r: Option<(Vec<Object>, usize)>)
    requires p <= s@.len(),
    ensures
        match grammar::embedded_items(s@, p as int, Seq::empty()) {
            Some((objs, e)) => r matches Some((ro, re)) && view_objects(ro@) == objs && re == e && p < e <= s@.len(),
            None => r is None,
        },
{
    let mut objs: Vec<Object> = Vec::new();
    let mut i = p;
    proof { assert(view_objects(objs@) =~= Seq::<ObjectV>::empty()); }
    loop
        invariant
            p <= i <= s@.len(),
            grammar::embedded_items(s@, i as int, view_objects(objs@))
                == grammar::embedded_items(s@, p as int, Seq::empty()),
        decreases s@.len() - i,
    {
        let q = skip_blanks(s, i);
        if q >= s.len() || s[q] == '[' {
            return None;
        }
        if s[q] == ']' {
            return Some((objs, q + 1));
        }
        match plain_item(s, q) {
            Some((o, e)) => {
                match o {
                    Object::GlobalProperties(_) => {},
                    _ => {
                        proof { lemma_view_push(objs@, o); }
                        objs.push(o);
                    },
                }
                i = e;
            },
            None => { return None; },
        }
    }
}

fn item(s: &[char], p: usize) -> (r: Option<(Object, usize)>)
    requires p <= s@.len(),
    ensures
        match grammar::item(s@, p as int) {
            Some((o, e)) => r matches Some((ro, re)) && view_object(ro) == o && re == e && p < e <= s@.len(),
            None => r is None,
        },
{
    if at(s, p, '[') {
        match embedded_items(s, p + 1) {
            Some((objs, e)) => Some((Object::EmbeddedSymbol(objs), e)),
            None => None,
        }
    } else {
        plain_item(s, p)
    }
}

/// Reads a whole `.sch` or `.sym` file.
///
/// Succeeds exactly when the text follows the grammar of `grammar`, and then
/// holds the items of the file in order.
pub fn parse(input: &str) -> (r: Result<Schematic, String>)
    ensures
        match grammar::file_items(input@) {
            Some(objs) => r matches Ok(sch) && view_objects(sch.objects@) == objs,
            None => r matches Err(m) && m@ == "not a valid Xschem file"@,
        },
{
    let chars = chars_of(input);
    let s = chars.as_slice();
    let mut objs: Vec<Object> = Vec::new();
    let mut i: usize = 0;
    proof { assert(view_objects(objs@) =~= Seq::<ObjectV>::empty()); }
    loop
        invariant
            i <= s@.len(),
            s@ == input@,
            grammar::items(s@, i as int, view_objects(objs@)) == grammar::file_items(input@),
        decreases s@.len() - i,
    {
        let q = skip_blanks(s, i);
        if q >= s.len() {
            return Ok(Schematic { objects: objs });
        }
        match item(s, q) {
            Some((o, e)) => {
                proof { lemma_view_push(objs@, o); }
                objs.push(o);
                i = e;
            },
            None => {
                return Err("not a valid Xschem file".to_string());
            },
        }
    }
}

} // verus!
