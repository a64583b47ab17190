//! Renderer configuration and the text-level pieces of SVG output.
use vstd::prelude::*;
use crate::models::PropsV;
use crate::text_layout::{HAlign, VBaseline};
use crate::text::{chars_of, concat, string_of};
use crate::theme::{dark_palette, dark_strs, layer_color, light_palette, light_strs, palette_strings, white};

verus! {

broadcast use vstd::string::group_string_axioms;

pub open spec fn strings_view(v: Seq<String>) -> Seq<Seq<char>> {
    v.map_values(|s: String| s@)
}

/// The dark palette.
pub fn dark_theme() -> (r: Vec<String>)
    ensures strings_view(r@) == dark_palette(),
{
    let p = dark_strs();
    let r = palette_strings(&p);
    assert(strings_view(r@) =~= dark_palette());
    r
}

/// The light palette.
pub fn light_theme() -> (r: Vec<String>)
    ensures strings_view(r@) == light_palette(),
{
    let p = light_strs();
    let r = palette_strings(&p);
    assert(strings_view(r@) =~= light_palette());
    r
}

/// What the renderer draws with: a palette, and where to look for `.sym` files.
pub struct RenderOptions {
    pub colors: Vec<String>,
    /// Directories searched for `.sym` files, in order.
    pub symbol_paths: Vec<String>,
}

impl RenderOptions {
    /// Dark palette, no symbol paths.
    pub fn dark() -> (r: RenderOptions)
        ensures
            strings_view(r.colors@) == dark_palette(),
            r.symbol_paths@.len() == 0,
    {
        RenderOptions { colors: dark_theme(), symbol_paths: Vec::new() }
    }

    /// Light palette, no symbol paths.
    pub fn light() -> (r: RenderOptions)
        ensures
            strings_view(r.colors@) == light_palette(),
            r.symbol_paths@.len() == 0,
    {
        RenderOptions { colors: light_theme(), symbol_paths: Vec::new() }
    }

    /// The same options with one more directory to search, after the others.
    pub fn with_sym_path(self, path: String) -> (r: RenderOptions)
        ensures
            r.colors == self.colors,
            r.symbol_paths@ == self.symbol_paths@.push(path),
    {
        let mut s = self;
        s.symbol_paths.push(path);
        s
    }

    /// The same options with each of `paths` appended, in order, as repeated
    /// calls of `with_sym_path` would give.
    pub fn with_sym_paths(self, paths: Vec<String>) -> (r: RenderOptions)
        ensures
            r.colors == self.colors,
            r.symbol_paths@ == self.symbol_paths@ + paths@,
    {
        let mut s = self;
        let mut p = paths;
        s.symbol_paths.append(&mut p);
        s
    }
}

/// The result of rendering: the SVG document and the symbols that could not be found.
pub struct RenderResult {
    pub svg: String,
    pub missing_symbols: Vec<String>,
}

/// A renderer with its options.
pub struct Renderer {
    opts: RenderOptions,
}

impl Renderer {
    pub fn new(opts: RenderOptions) -> (r: Renderer)
        ensures r.options() == opts,
    {
        Renderer { opts }
    }

    pub closed spec fn options(&self) -> RenderOptions {
        self.opts
    }

    /// The options this renderer was made with.
    pub fn opts(&self) -> (r: &RenderOptions)
        ensures *r == self.options(),
    {
        &self.opts
    }
}

/// The colour of layer `index`; white where the palette has no such layer.
pub fn color(opts: &RenderOptions, index: usize) -> (r: &str)
    ensures r@ == layer_color(strings_view(opts.colors@), index as int),
{
    if index < opts.colors.len() {
        opts.colors[index].as_str()
    } else {
        let w = "#ffffff";
        proof { reveal_strlit("#ffffff"); assert(w@ =~= white()); }
        w
    }
}

/// SVG's `text-anchor` keyword for a horizontal alignment.
pub open spec fn anchor_of(h: HAlign) -> Seq<char> {
    match h {
        HAlign::Start => "start"@,
        HAlign::Middle => "middle"@,
        HAlign::End => "end"@,
    }
}

/// SVG's `alignment-baseline` keyword for a vertical alignment.
pub open spec fn baseline_of(v: VBaseline) -> Seq<char> {
    match v {
        VBaseline::Top => "before-edge"@,
        VBaseline::Middle => "middle"@,
        VBaseline::Bottom => "after-edge"@,
    }
}

pub fn text_anchor(h: HAlign) -> (r: &'static str)
    ensures r@ == anchor_of(h),
{
    match h {
        HAlign::Start => "start",
        HAlign::Middle => "middle",
        HAlign::End => "end",
    }
}

pub fn text_baseline(v: VBaseline) -> (r: &'static str)
    ensures r@ == baseline_of(v),
{
    match v {
        VBaseline::Top => "before-edge",
        VBaseline::Middle => "middle",
        VBaseline::Bottom => "after-edge",
    }
}

/// The XML text that stands for one character.
pub open spec fn escape_char(c: char) -> Seq<char> {
    if c == '&' {
        seq!['&', 'a', 'm', 'p', ';']
    } else if c == '<' {
        seq!['&', 'l', 't', ';']
    } else if c == '>' {
        seq!['&', 'g', 't', ';']
    } else if c == '"' {
        seq!['&', 'q', 'u', 'o', 't', ';']
    } else {
        seq![c]
    }
}

/// `t` with `&`, `<`, `>` and `"` written as XML entities.
pub open spec fn escape_seq(t: Seq<char>) -> Seq<char>
    decreases t.len(),
{
    if t.len() == 0 { t } else { escape_seq(t.drop_last()) + escape_char(t.last()) }
}

pub proof fn lemma_escape_clean(t: Seq<char>)
    ensures
        forall|i: int| 0 <= i < escape_seq(t).len() ==> {
            let c = #[trigger] escape_seq(t)[i];
            c != '<' && c != '>' && c != '"'
        },
    decreases t.len(),
{
    if t.len() > 0 {
        let p = escape_seq(t.drop_last());
        let q = escape_char(t.last());
        lemma_escape_clean(t.drop_last());
        assert forall|i: int| 0 <= i < escape_seq(t).len() implies {
            let c = #[trigger] escape_seq(t)[i];
            c != '<' && c != '>' && c != '"'
        } by {
            assert(escape_seq(t) == p + q);
            if i < p.len() {
                assert(escape_seq(t)[i] == p[i]);
            } else {
                assert(escape_seq(t)[i] == q[i - p.len()]);
            }
        }
    }
}

/// Escapes text for use inside SVG: the result holds no `<`, `>` or `"`.
pub fn escape_xml(s: &str) -> (r: String)
    ensures
        r@ == escape_seq(s@),
        forall|i: int| 0 <= i < r@.len() ==> #[trigger] r@[i] != '<' && r@[i] != '>' && r@[i] != '"',
{
    let v = chars_of(s);
    let mut r = String::new();
    let mut i: usize = 0;
    while i < v.len()
        invariant
            i <= v@.len(),
            v@ == s@,
            r@ == escape_seq(s@.take(i as int)),
        decreases v@.len() - i,
    {
        let c = v[i];
        proof { assert(s@.take(i + 1).drop_last() =~= s@.take(i as int)); }
        if c == '&' {
            r.push('&'); r.push('a'); r.push('m'); r.push('p'); r.push(';');
        } else if c == '<' {
            r.push('&'); r.push('l'); r.push('t'); r.push(';');
        } else if c == '>' {
            r.push('&'); r.push('g'); r.push('t'); r.push(';');
        } else if c == '"' {
            r.push('&'); r.push('q'); r.push('u'); r.push('o'); r.push('t'); r.push(';');
        } else {
            r.push(c);
        }
        proof { assert(r@ =~= escape_seq(s@.take(i + 1))); }
        i = i + 1;
    }
    proof {
        assert(s@.take(i as int) =~= s@);
        lemma_escape_clean(s@);
    }
    r
}

/// Rust's `char::is_alphanumeric` (Unicode `Alphabetic` or `Numeric`).
pub uninterp spec fn char_is_alphanumeric(c: char) -> bool;

/// Calls `char::is_alphanumeric`. Claimed: the result is a function of the
/// character alone, and ASCII letters and digits are alphanumeric while the
/// other ASCII characters are not.
#[verifier::external_body]
fn is_alphanumeric(c: char) -> (r: bool)
    ensures
        r == char_is_alphanumeric(c),
        ('a' <= c <= 'z' || 'A' <= c <= 'Z' || '0' <= c <= '9') ==> r,
        (c as u32) < 128 && !('a' <= c <= 'z' || 'A' <= c <= 'Z' || '0' <= c <= '9') ==> !r,
{
    c.is_alphanumeric()
}

/// An ASCII letter or digit.
pub open spec fn is_ascii_alnum(c: char) -> bool {
    'a' <= c <= 'z' || 'A' <= c <= 'Z' || '0' <= c <= '9'
}

/// The characters an attribute name after `@` may hold: letters and digits
/// (among ASCII characters exactly `a`-`z`, `A`-`Z`, `0`-`9`; beyond ASCII
/// those that `char::is_alphanumeric` accepts), `_`, `#` and `:`.
pub open spec fn is_attr_char(c: char) -> bool {
    (if (c as u32) < 128 { is_ascii_alnum(c) } else { char_is_alphanumeric(c) })
        || c == '_' || c == '#' || c == ':'
}

/// Among ASCII characters, an attribute name holds exactly the letters, the
/// digits, `_`, `#` and `:`.
pub proof fn lemma_attr_char_ascii(c: char)
    requires
        (c as u32) < 128,
    ensures
        is_attr_char(c) <==> ('a' <= c <= 'z' || 'A' <= c <= 'Z' || '0' <= c <= '9' || c == '_' || c == '#' || c == ':'),
{
}

pub open spec fn attr_end(t: Seq<char>, i: int) -> int
    decreases t.len() - i,
{
    if 0 <= i < t.len() && is_attr_char(t[i]) { attr_end(t, i + 1) } else { i }
}

/// `t[i..]` with every `@name` replaced by the value of attribute `name`, or by nothing.
pub open spec fn substitute_from(t: Seq<char>, i: int, props: PropsV) -> Seq<char>
    decreases t.len() - i,
{
    if i < 0 || i >= t.len() {
        Seq::empty()
    } else if t[i] == '@' {
        let e = attr_end(t, i + 1);
        let name = t.subrange(i + 1, e);
        if i < e <= t.len() {
            (if props.contains_key(name) { props[name] } else { Seq::empty() }) + substitute_from(t, e, props)
        } else {
            Seq::empty()
        }
    } else {
        seq![t[i]] + substitute_from(t, i + 1, props)
    }
}

proof fn lemma_attr_end(t: Seq<char>, i: int)
    requires 0 <= i <= t.len(),
    ensures i <= attr_end(t, i) <= t.len(),
    decreases t.len() - i,
{
    if i < t.len() && is_attr_char(t[i]) {
        lemma_attr_end(t, i + 1);
    }
}

/// Replaces each `@name` in `text` by the value of attribute `name`, or by
/// nothing where there is no such attribute.
pub fn substitute_attrs(text: &str, props: &crate::models::Properties) -> (r: String)
    ensures r@ == substitute_from(text@, 0, props@),
{
    let v = chars_of(text);
    let mut r = String::new();
    let mut i: usize = 0;
    while i < v.len()
        invariant
            i <= v@.len(),
            v@ == text@,
            r@ + substitute_from(v@, i as int, props@) == substitute_from(v@, 0, props@),
        decreases v@.len() - i,
    {
        if v[i] == '@' {
            let mut e = i + 1;
            while e < v.len() && (is_alphanumeric(v[e]) || v[e] == '_' || v[e] == '#' || v[e] == ':')
                invariant
                    i + 1 <= e <= v@.len(),
                    attr_end(v@, e as int) == attr_end(v@, i + 1),
                decreases v@.len() - e,
            {
                e = e + 1;
            }
            let name = string_of(v.as_slice(), i + 1, e);
            let ghost before = r@;
            match props.get(name.as_str()) {
                Some(val) => {
                    let ghost vv = val@;
                    let joined = concat(r.as_str(), val.as_str());
                    r = joined;
                    proof { assert(r@ == before + vv); }
                },
                None => {
                    proof { assert(r@ =~= before + Seq::<char>::empty()); }
                },
            }
            proof {
                assert(r@ + substitute_from(v@, e as int, props@) =~= before + substitute_from(v@, i as int, props@));
            }
            i = e;
        } else {
            let ghost before = r@;
            r.push(v[i]);
            proof {
                assert(r@ + substitute_from(v@, i + 1, props@) =~= before + substitute_from(v@, i as int, props@));
            }
            i = i + 1;
        }
    }
    proof { assert(r@ =~= r@ + substitute_from(v@, i as int, props@)); }
    r
}

} // verus!
