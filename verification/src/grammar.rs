//! The Xschem file grammar, as specification functions over the file's characters.
//!
//! Every function takes the text `s` and a position `p` and says what is read
//! there and where reading stops. Tokens may be separated by any run of
//! blanks (space, tab, newline, carriage return):
//!
//! ```text
//! file        := item*
//! item        := 'v' '{' "xschem" blank+ "version=" word blank* "file_version=" word license '}'
//!              | ('S' | 'V' | 'F' | 'G' | 'E') braced          -- netlist text blocks
//!              | 'K' props                                      -- attributes of the file
//!              | ('L' | 'B') int num num num num props
//!              | 'A' int num num num num num props
//!              | 'P' int int (num num)* props
//!              | 'T' braced num num int int num num props
//!              | 'N' num num num num props
//!              | 'C' braced num num int int props
//!              | '[' item* ']'                                  -- symbol embedded after a 'C'
//! braced      := '{' (escape | any char but '}')* '}'           -- escape := '\' any char
//! props       := '{' (pair)* '}'
//! pair        := key ('=' value)?
//! value       := '"' (escape | any char but '"')* '"' | (escape | any char but blank or '}')*
//! num         := sign? (digit+ ('.' digit*)? | '.' digit+) (('e' | 'E') sign? digit+)?
//! int         := sign? digit+
//! ```
//!
//! Inside `[ ... ]` items do not nest, and `K` attributes are read but not kept.
use vstd::prelude::*;
use crate::models::{ObjectV, PropsV, VersionV};

verus! {

pub open spec fn at(s: Seq<char>, p: int, c: char) -> bool {
    0 <= p < s.len() && s[p] == c
}

/// The blanks that may separate tokens.
pub open spec fn is_blank(c: char) -> bool {
    c == ' ' || c == '\t' || c == '\n' || c == '\r'
}

pub open spec fn is_digit(c: char) -> bool {
    '0' <= c && c <= '9'
}

pub open spec fn skip_blanks(s: Seq<char>, p: int) -> int
    decreases s.len() - p,
{
    if 0 <= p < s.len() && is_blank(s[p]) { skip_blanks(s, p + 1) } else { p }
}

pub open spec fn digits_end(s: Seq<char>, p: int) -> int
    decreases s.len() - p,
{
    if 0 <= p < s.len() && is_digit(s[p]) { digits_end(s, p + 1) } else { p }
}

pub open spec fn after_sign(s: Seq<char>, p: int) -> int {
    if at(s, p, '+') || at(s, p, '-') { p + 1 } else { p }
}

/// Where an optional exponent that may start at `q` ends.
pub open spec fn exponent_end(s: Seq<char>, q: int) -> int {
    if at(s, q, 'e') || at(s, q, 'E') {
        let q2 = after_sign(s, q + 1);
        let d = digits_end(s, q2);
        if d > q2 { d } else { q }
    } else {
        q
    }
}

/// Where a decimal number starting at `p` ends.
pub open spec fn number_end(s: Seq<char>, p: int) -> Option<int> {
    let q0 = after_sign(s, p);
    let d1 = digits_end(s, q0);
    if d1 > q0 {
        let q1 = if at(s, d1, '.') { digits_end(s, d1 + 1) } else { d1 };
        Some(exponent_end(s, q1))
    } else if at(s, q0, '.') && digits_end(s, q0 + 1) > q0 + 1 {
        Some(exponent_end(s, digits_end(s, q0 + 1)))
    } else {
        None
    }
}

/// Where an integer starting at `p` ends.
pub open spec fn int_end(s: Seq<char>, p: int) -> Option<int> {
    let q0 = after_sign(s, p);
    let d = digits_end(s, q0);
    if d > q0 { Some(d) } else { None }
}

/// The value of the decimal digits `s[lo..hi]`.
pub open spec fn digits_value(s: Seq<char>, lo: int, hi: int) -> int
    decreases hi - lo,
{
    if hi <= lo {
        0
    } else {
        digits_value(s, lo, hi - 1) * 10 + (s[hi - 1] as int - '0' as int)
    }
}

/// The `i32` that the integer text `s[lo..hi]` denotes; 0 where it does not fit.
pub open spec fn int_value(s: Seq<char>, lo: int, hi: int) -> i32 {
    let neg = at(s, lo, '-');
    let v = digits_value(s, after_sign(s, lo), hi);
    if neg {
        if v <= 0x8000_0000 { (-v) as i32 } else { 0 }
    } else {
        if v <= 0x7fff_ffff { v as i32 } else { 0 }
    }
}

/// Where a `{...}` block whose body starts at `q` ends (past its `}`).
pub open spec fn braced_end(s: Seq<char>, q: int) -> Option<int>
    decreases s.len() - q,
{
    if q < 0 || q >= s.len() {
        None
    } else if s[q] == '\\' {
        if q + 1 < s.len() { braced_end(s, q + 2) } else { None }
    } else if s[q] == '}' {
        Some(q + 1)
    } else {
        braced_end(s, q + 1)
    }
}

/// Where a `"..."` value whose body starts at `q` ends (past its closing quote).
pub open spec fn quoted_end(s: Seq<char>, q: int) -> Option<int>
    decreases s.len() - q,
{
    if q < 0 || q >= s.len() {
        None
    } else if s[q] == '\\' {
        if q + 1 < s.len() { quoted_end(s, q + 2) } else { None }
    } else if s[q] == '"' {
        Some(q + 1)
    } else {
        quoted_end(s, q + 1)
    }
}

/// Where an unquoted value starting at `q` ends: at a blank, a `}` or the end of the text.
pub open spec fn bare_end(s: Seq<char>, q: int) -> int
    decreases s.len() - q,
{
    if q < 0 || q >= s.len() || is_blank(s[q]) || s[q] == '}' {
        q
    } else if s[q] == '\\' && q + 1 < s.len() {
        bare_end(s, q + 2)
    } else {
        bare_end(s, q + 1)
    }
}

pub open spec fn is_key_char(c: char) -> bool {
    !is_blank(c) && c != '=' && c != '{' && c != '}' && c != '"' && c != '\\'
}

pub open spec fn key_end(s: Seq<char>, p: int) -> int
    decreases s.len() - p,
{
    if 0 <= p < s.len() && is_key_char(s[p]) { key_end(s, p + 1) } else { p }
}

/// Drops the enclosing quotes of a quoted value.
pub open spec fn strip_quotes(t: Seq<char>) -> Seq<char> {
    if t.len() >= 2 && t[0] == '"' && t[t.len() - 1] == '"' {
        t.subrange(1, t.len() - 1)
    } else {
        t
    }
}

/// Resolves backslash escapes: `\x` stands for `x`; a backslash at the very end is dropped.
pub open spec fn unescape_chars(t: Seq<char>) -> Seq<char>
    decreases t.len(),
{
    if t.len() == 0 {
        t
    } else if t[0] == '\\' {
        if t.len() >= 2 { seq![t[1]] + unescape_chars(t.skip(2)) } else { Seq::empty() }
    } else {
        seq![t[0]] + unescape_chars(t.skip(1))
    }
}

/// The value of an attribute as it is written in the file.
pub open spec fn unescape(t: Seq<char>) -> Seq<char> {
    unescape_chars(strip_quotes(t))
}

/// Where the value that starts at `v0` ends.
pub open spec fn value_end(s: Seq<char>, v0: int) -> Option<int> {
    if at(s, v0, '"') { quoted_end(s, v0 + 1) } else { Some(bare_end(s, v0)) }
}

/// One `key=value` (or bare `key`) at `p`: key, value and end.
pub open spec fn pair(s: Seq<char>, p: int) -> Option<(Seq<char>, Seq<char>, int)> {
    let ke = key_end(s, p);
    if ke <= p || ke > s.len() {
        None
    } else if at(s, ke, '=') {
        match value_end(s, ke + 1) {
            Some(ve) => if ke + 1 <= ve <= s.len() {
                Some((s.subrange(p, ke), unescape(s.subrange(ke + 1, ve)), ve))
            } else {
                None
            },
            None => None,
        }
    } else {
        Some((s.subrange(p, ke), Seq::empty(), ke))
    }
}

/// The pairs from `p` up to and past the closing `}`, added to `acc`; a later
/// pair replaces an earlier one with the same key.
pub open spec fn pairs(s: Seq<char>, p: int, acc: PropsV) -> Option<(PropsV, int)>
    decreases s.len() - p,
{
    let q = skip_blanks(s, p);
    if p < 0 || q < p || q > s.len() {
        None
    } else if at(s, q, '}') {
        Some((acc, q + 1))
    } else {
        match pair(s, q) {
            Some((k, v, e)) => if q < e <= s.len() { pairs(s, e, acc.insert(k, v)) } else { None },
            None => None,
        }
    }
}

/// An attribute block `{...}` that starts at the first non-blank at or after `p`.
pub open spec fn props_field(s: Seq<char>, p: int) -> Option<(PropsV, int)> {
    let q = skip_blanks(s, p);
    if at(s, q, '{') { pairs(s, q + 1, Map::empty()) } else { None }
}

/// A braced text at the first non-blank at or after `p`: its body (escapes kept) and end.
pub open spec fn braced_field(s: Seq<char>, p: int) -> Option<(Seq<char>, int)> {
    let q = skip_blanks(s, p);
    if at(s, q, '{') {
        match braced_end(s, q + 1) {
            Some(e) => if q + 1 < e <= s.len() { Some((s.subrange(q + 1, e - 1), e)) } else { None },
            None => None,
        }
    } else {
        None
    }
}

/// An integer field at the first non-blank at or after `p`.
pub open spec fn int_field(s: Seq<char>, p: int) -> Option<(i32, int)> {
    let q = skip_blanks(s, p);
    match int_end(s, q) {
        Some(e) => Some((int_value(s, q, e), e)),
        None => None,
    }
}

/// A numeric field at the first non-blank at or after `p`: its text and end.
pub open spec fn num_field(s: Seq<char>, p: int) -> Option<(Seq<char>, int)> {
    let q = skip_blanks(s, p);
    match number_end(s, q) {
        Some(e) => if 0 <= q <= e <= s.len() { Some((s.subrange(q, e), e)) } else { None },
        None => None,
    }
}

/// `n` numeric fields, each at the first non-blank after the previous one.
pub open spec fn num_fields(s: Seq<char>, p: int, n: nat) -> Option<(Seq<Seq<char>>, int)>
    decreases n,
{
    if n == 0 {
        Some((Seq::empty(), p))
    } else {
        match num_fields(s, p, (n - 1) as nat) {
            Some((xs, q0)) => match num_field(s, q0) {
                Some((x, e)) => Some((xs.push(x), e)),
                None => None,
            },
            None => None,
        }
    }
}

/// Rust's `char::is_whitespace`: the characters with the Unicode `White_Space` property.
pub open spec fn is_unicode_space(c: char) -> bool {
    ('\u{9}' <= c && c <= '\u{d}') || c == ' ' || c == '\u{85}' || c == '\u{a0}' || c == '\u{1680}'
        || ('\u{2000}' <= c && c <= '\u{200a}') || c == '\u{2028}' || c == '\u{2029}'
        || c == '\u{202f}' || c == '\u{205f}' || c == '\u{3000}'
}

/// The index of the first character of `t[i..]` that is not white space.
pub open spec fn trim_start_from(t: Seq<char>, i: int) -> int
    decreases t.len() - i,
{
    if 0 <= i < t.len() && is_unicode_space(t[i]) { trim_start_from(t, i + 1) } else { i }
}

/// The end of `t[..j]` once trailing white space is gone, not going below `lo`.
pub open spec fn trim_end_from(t: Seq<char>, lo: int, j: int) -> int
    decreases j - lo,
{
    if lo < j && j <= t.len() && is_unicode_space(t[j - 1]) { trim_end_from(t, lo, j - 1) } else { j }
}

/// `str::trim`: `t` without leading and trailing white space.
pub open spec fn trim(t: Seq<char>) -> Seq<char> {
    let a = trim_start_from(t, 0);
    t.subrange(a, trim_end_from(t, a, t.len() as int))
}

/// Where a run of non-blank characters starting at `p` ends.
pub open spec fn word_end(s: Seq<char>, p: int) -> int
    decreases s.len() - p,
{
    if 0 <= p < s.len() && !is_blank(s[p]) { word_end(s, p + 1) } else { p }
}

pub open spec fn lit_at(s: Seq<char>, p: int, lit: Seq<char>) -> bool {
    0 <= p && p + lit.len() <= s.len() && s.subrange(p, p + lit.len()) == lit
}

pub open spec fn xschem_lit() -> Seq<char> {
    seq!['x', 's', 'c', 'h', 'e', 'm']
}

pub open spec fn version_lit() -> Seq<char> {
    seq!['v', 'e', 'r', 's', 'i', 'o', 'n', '=']
}

pub open spec fn file_version_lit() -> Seq<char> {
    seq!['f', 'i', 'l', 'e', '_', 'v', 'e', 'r', 's', 'i', 'o', 'n', '=']
}

/// The fields of a version header, read from the body of its braces.
pub open spec fn version_fields(c: Seq<char>) -> Option<VersionV> {
    let a = skip_blanks(c, 0);
    let b = skip_blanks(c, a + 6);
    let v0 = b + 8;
    let ve = word_end(c, v0);
    let d = skip_blanks(c, ve);
    let f0 = d + 13;
    let fe = word_end(c, f0);
    if lit_at(c, a, xschem_lit()) && b > a + 6 && lit_at(c, b, version_lit()) && ve > v0
        && lit_at(c, d, file_version_lit()) && fe > f0 && fe <= c.len() {
        Some(VersionV {
            version: c.subrange(v0, ve),
            file_version: c.subrange(f0, fe),
            license: trim(c.subrange(fe, c.len() as int)),
        })
    } else {
        None
    }
}

/// `L` and `B`: a layer, two corners and attributes.
pub open spec fn layered4(s: Seq<char>, p: int) -> Option<(i32, Seq<Seq<char>>, PropsV, int)> {
    match int_field(s, p) {
        Some((layer, p1)) => match num_fields(s, p1, 4) {
            Some((cs, p2)) => match props_field(s, p2) {
                Some((pr, e)) => Some((layer, cs, pr, e)),
                None => None,
            },
            None => None,
        },
        None => None,
    }
}

/// `A`: a layer, centre, radius, start and sweep angles, attributes.
pub open spec fn arc_fields(s: Seq<char>, p: int) -> Option<(i32, Seq<Seq<char>>, PropsV, int)> {
    match int_field(s, p) {
        Some((layer, p1)) => match num_fields(s, p1, 5) {
            Some((cs, p2)) => match props_field(s, p2) {
                Some((pr, e)) => Some((layer, cs, pr, e)),
                None => None,
            },
            None => None,
        },
        None => None,
    }
}

/// `N`: two end points and attributes.
pub open spec fn wire_fields(s: Seq<char>, p: int) -> Option<(Seq<Seq<char>>, PropsV, int)> {
    match num_fields(s, p, 4) {
        Some((cs, p1)) => match props_field(s, p1) {
            Some((pr, e)) => Some((cs, pr, e)),
            None => None,
        },
        None => None,
    }
}

/// `T`: text, position, rotation, mirror, sizes, attributes.
pub open spec fn text_fields(s: Seq<char>, p: int) -> Option<(Seq<char>, Seq<Seq<char>>, i32, i32, PropsV, int)> {
    match braced_field(s, p) {
        Some((t, p1)) => match num_fields(s, p1, 2) {
            Some((xy, p2)) => match int_field(s, p2) {
                Some((rot, p3)) => match int_field(s, p3) {
                    Some((mir, p4)) => match num_fields(s, p4, 2) {
                        Some((hv, p5)) => match props_field(s, p5) {
                            Some((pr, e)) => Some((t, xy + hv, rot, mir, pr, e)),
                            None => None,
                        },
                        None => None,
                    },
                    None => None,
                },
                None => None,
            },
            None => None,
        },
        None => None,
    }
}

/// `C`: symbol reference, position, rotation, flip, attributes.
pub open spec fn component_fields(s: Seq<char>, p: int) -> Option<(Seq<char>, Seq<Seq<char>>, i32, i32, PropsV, int)> {
    match braced_field(s, p) {
        Some((sym, p1)) => match num_fields(s, p1, 2) {
            Some((xy, p2)) => match int_field(s, p2) {
                Some((rot, p3)) => match int_field(s, p3) {
                    Some((flip, p4)) => match props_field(s, p4) {
                        Some((pr, e)) => Some((sym, xy, rot, flip, pr, e)),
                        None => None,
                    },
                    None => None,
                },
                None => None,
            },
            None => None,
        },
        None => None,
    }
}

/// The point list of a polygon, up to and including its attributes.
pub open spec fn poly_points(s: Seq<char>, p: int, acc: Seq<(Seq<char>, Seq<char>)>)
    -> Option<(Seq<(Seq<char>, Seq<char>)>, PropsV, int)>
    decreases s.len() - p,
{
    let q = skip_blanks(s, p);
    if p < 0 || q < p || q > s.len() {
        None
    } else if at(s, q, '{') {
        match pairs(s, q + 1, Map::empty()) {
            Some((pr, e)) => Some((acc, pr, e)),
            None => None,
        }
    } else {
        match num_fields(s, q, 2) {
            Some((xy, e)) => if q < e <= s.len() { poly_points(s, e, acc.push((xy[0], xy[1]))) } else { None },
            None => None,
        }
    }
}

/// `P`: a layer, a point count (not used), the points and attributes.
pub open spec fn polygon_fields(s: Seq<char>, p: int) -> Option<(i32, Seq<(Seq<char>, Seq<char>)>, PropsV, int)> {
    match int_field(s, p) {
        Some((layer, p1)) => match int_field(s, p1) {
            Some((_count, p2)) => match poly_points(s, p2, Seq::empty()) {
                Some((pts, pr, e)) => Some((layer, pts, pr, e)),
                None => None,
            },
            None => None,
        },
        None => None,
    }
}

/// The object that a netlist text block letter stands for.
pub open spec fn text_block(c: char, t: Seq<char>) -> ObjectV {
    if c == 'S' {
        ObjectV::Spice { text: t }
    } else if c == 'V' {
        ObjectV::Verilog { text: t }
    } else if c == 'F' {
        ObjectV::Spectre { text: t }
    } else if c == 'G' {
        ObjectV::Vhdl { text: t }
    } else {
        ObjectV::Tedax { text: t }
    }
}

/// One item other than an embedded symbol, starting with its letter at `p`.
pub open spec fn plain_item(s: Seq<char>, p: int) -> Option<(ObjectV, int)> {
    if !(0 <= p < s.len()) {
        None
    } else {
        let c = s[p];
        if c == 'v' {
            match braced_field(s, p + 1) {
                Some((body, e)) => match version_fields(body) {
                    Some(v) => Some((ObjectV::Version { version: v }, e)),
                    None => None,
                },
                None => None,
            }
        } else if c == 'S' || c == 'V' || c == 'F' || c == 'G' || c == 'E' {
            match braced_field(s, p + 1) {
                Some((t, e)) => Some((text_block(c, t), e)),
                None => None,
            }
        } else if c == 'K' {
            match props_field(s, p + 1) {
                Some((pr, e)) => Some((ObjectV::GlobalProperties { props: pr }, e)),
                None => None,
            }
        } else if c == 'L' || c == 'B' {
            match layered4(s, p + 1) {
                Some((layer, cs, pr, e)) => Some((
                    if c == 'L' {
                        ObjectV::Line { layer, coords: cs, props: pr }
                    } else {
                        ObjectV::Rectangle { layer, coords: cs, props: pr }
                    },
                    e,
                )),
                None => None,
            }
        } else if c == 'A' {
            match arc_fields(s, p + 1) {
                Some((layer, cs, pr, e)) => Some((ObjectV::Arc { layer, coords: cs, props: pr }, e)),
                None => None,
            }
        } else if c == 'P' {
            match polygon_fields(s, p + 1) {
                Some((layer, pts, pr, e)) => Some((ObjectV::Polygon { layer, points: pts, props: pr }, e)),
                None => None,
            }
        } else if c == 'T' {
            match text_fields(s, p + 1) {
                Some((t, cs, rot, mir, pr, e)) => Some((
                    ObjectV::Text { text: t, coords: cs, rotation: rot, mirror: mir, props: pr },
                    e,
                )),
                None => None,
            }
        } else if c == 'N' {
            match wire_fields(s, p + 1) {
                Some((cs, pr, e)) => Some((ObjectV::Wire { coords: cs, props: pr }, e)),
                None => None,
            }
        } else if c == 'C' {
            match component_fields(s, p + 1) {
                Some((sym, cs, rot, flip, pr, e)) => Some((
                    ObjectV::Component { symbol: sym, coords: cs, rotation: rot, flip, props: pr },
                    e,
                )),
                None => None,
            }
        } else {
            None
        }
    }
}

/// The items of an embedded symbol from `p` up to and past its `]`; `K` attributes are dropped.
pub open spec fn embedded_items(s: Seq<char>, p: int, acc: Seq<ObjectV>) -> Option<(Seq<ObjectV>, int)>
    decreases s.len() - p,
{
    let q = skip_blanks(s, p);
    if p < 0 || q < p || q >= s.len() {
        None
    } else if s[q] == ']' {
        Some((acc, q + 1))
    } else if s[q] == '[' {
        None
    } else {
        match plain_item(s, q) {
            Some((o, e)) => if q < e <= s.len() {
                embedded_items(s, e, if o is GlobalProperties { acc } else { acc.push(o) })
            } else {
                None
            },
            None => None,
        }
    }
}

/// One item starting at `p`.
pub open spec fn item(s: Seq<char>, p: int) -> Option<(ObjectV, int)> {
    if at(s, p, '[') {
        match embedded_items(s, p + 1, Seq::empty()) {
            Some((objs, e)) => Some((ObjectV::EmbeddedSymbol { objects: objs }, e)),
            None => None,
        }
    } else {
        plain_item(s, p)
    }
}

/// The items from `p` to the end of the text, after those already read into `acc`.
pub open spec fn items(s: Seq<char>, p: int, acc: Seq<ObjectV>) -> Option<Seq<ObjectV>>
    decreases s.len() - p,
{
    let q = skip_blanks(s, p);
    if p < 0 || q < p {
        None
    } else if q >= s.len() {
        Some(acc)
    } else {
        match item(s, q) {
            Some((o, e)) => if q < e <= s.len() { items(s, e, acc.push(o)) } else { None },
            None => None,
        }
    }
}

/// What a whole file holds, or `None` where it does not follow the grammar.
pub open spec fn file_items(s: Seq<char>) -> Option<Seq<ObjectV>> {
    items(s, 0, Seq::empty())
}

} // verus!
