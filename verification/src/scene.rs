//! The rules by which a schematic's objects become drawing elements, apart
//! from the coordinate arithmetic: which objects are drawn, with what layer
//! and fill, how symbols are named and looked up, and what a component hands
//! down to the objects of its symbol.
use vstd::prelude::*;
use crate::grammar::{digits_end, digits_value, is_digit};
use crate::models::{Properties, PropsV};
use crate::strmap::StrMap;
use crate::text::{
    after_last, after_last_char, before_first, before_first_char, chars_of, concat, ends_with,
    first_index_from, lemma_first_index_bounds, str_eq, sym_suffix,
};
use crate::xschemrc::{join_path, path_join};

verus! {

broadcast use vstd::string::group_string_axioms;

// ─── Symbols ─────────────────────────────────────────────────────────────────

/// The file a symbol reference names: the reference itself when it ends in
/// `.sym`, else the reference with `.sym` added.
pub open spec fn symbol_file_of(reference: Seq<char>) -> Seq<char> {
    if ends_with(reference, sym_suffix()) { reference } else { reference + sym_suffix() }
}

/// The short name of a symbol: the last `/`-separated part of the reference,
/// up to its first `.`.
pub open spec fn symbol_name_of(reference: Seq<char>) -> Seq<char> {
    before_first(after_last(reference, '/'), '.')
}

pub fn symbol_file(reference: &str) -> (r: String)
    ensures r@ == symbol_file_of(reference@),
{
    let v = chars_of(reference);
    let n = v.len();
    if n >= 4 && v[n - 4] == '.' && v[n - 3] == 's' && v[n - 2] == 'y' && v[n - 1] == 'm' {
        proof { assert(reference@.subrange(n - 4, n as int) =~= sym_suffix()); }
        reference.to_string()
    } else {
        proof {
            if n >= 4 {
                let t = reference@.subrange(n - 4, n as int);
                assert(t[0] == v@[n - 4]);
                assert(t[1] == v@[n - 3]);
                assert(t[2] == v@[n - 2]);
                assert(t[3] == v@[n - 1]);
            }
            assert(!ends_with(reference@, sym_suffix()));
            reveal_strlit(".sym");
            assert(".sym"@ =~= sym_suffix());
        }
        concat(reference, ".sym")
    }
}

pub fn symbol_name(reference: &str) -> (r: String)
    ensures r@ == symbol_name_of(reference@),
{
    let last = after_last_char(reference, '/');
    before_first_char(last.as_str(), '.')
}

/// The files to try, in order, for the symbol file `sym_file` under one
/// search directory: the path as given, the bare file name, and, for a
/// reference without `/`, the file under `devices`.
pub open spec fn candidates_under(base: Seq<char>, sym_file: Seq<char>) -> Seq<Seq<char>> {
    let filename = after_last(sym_file, '/');
    let first = seq![path_join(base, sym_file), path_join(base, filename)];
    if first_index_from(sym_file, '/', 0) == sym_file.len() {
        first.push(path_join(path_join(base, "devices"@), filename))
    } else {
        first
    }
}

/// The files to try for `sym_file`, directory by directory.
pub open spec fn symbol_candidates_of(paths: Seq<Seq<char>>, sym_file: Seq<char>) -> Seq<Seq<char>>
    decreases paths.len(),
{
    if paths.len() == 0 {
        Seq::empty()
    } else {
        symbol_candidates_of(paths.drop_last(), sym_file) + candidates_under(paths.last(), sym_file)
    }
}

/// Where to look for the symbol file `sym_file`, in order.
pub fn symbol_candidates(paths: &Vec<String>, sym_file: &str) -> (r: Vec<String>)
    ensures crate::renderer::strings_view(r@) == symbol_candidates_of(crate::renderer::strings_view(paths@), sym_file@),
{
    let filename = after_last_char(sym_file, '/');
    let sv = chars_of(sym_file);
    let mut k: usize = 0;
    while k < sv.len() && sv[k] != '/'
        invariant
            k <= sv@.len(),
            sv@ == sym_file@,
            first_index_from(sv@, '/', k as int) == first_index_from(sv@, '/', 0),
        decreases sv@.len() - k,
    {
        k = k + 1;
    }
    let no_slash = k == sv.len();
    proof { lemma_first_index_bounds(sv@, '/', k as int); }
    let ghost pv = crate::renderer::strings_view(paths@);
    let mut r: Vec<String> = Vec::new();
    let mut i: usize = 0;
    while i < paths.len()
        invariant
            i <= paths@.len(),
            pv == crate::renderer::strings_view(paths@),
            sv@ == sym_file@,
            filename@ == after_last(sym_file@, '/'),
            no_slash == (first_index_from(sym_file@, '/', 0) == sym_file@.len()),
            crate::renderer::strings_view(r@) == symbol_candidates_of(pv.take(i as int), sym_file@),
        decreases paths@.len() - i,
    {
        let base = paths[i].as_str();
        let ghost r0 = crate::renderer::strings_view(r@);
        r.push(join_path(base, sym_file));
        r.push(join_path(base, filename.as_str()));
        if no_slash {
            let dev = join_path(base, "devices");
            r.push(join_path(dev.as_str(), filename.as_str()));
        }
        proof {
            assert(pv.take(i + 1).drop_last() =~= pv.take(i as int));
            assert(pv.take(i + 1).last() == paths@[i as int]@);
            assert(crate::renderer::strings_view(r@) =~= r0 + candidates_under(paths@[i as int]@, sym_file@));
        }
        i = i + 1;
    }
    proof { assert(pv.take(i as int) =~= pv); }
    r
}

// ─── Attribute tests ─────────────────────────────────────────────────────────

/// The value of attribute `key`, if any.
pub open spec fn attr(p: PropsV, key: Seq<char>) -> Option<Seq<char>> {
    if p.contains_key(key) { Some(p[key]) } else { None }
}

/// The `,`-separated parts of `t` from index `k` on.
pub open spec fn comma_parts_from(t: Seq<char>, k: int) -> Seq<Seq<char>>
    decreases t.len() + 1 - k,
{
    if k < 0 || k > t.len() {
        Seq::empty()
    } else {
        let m = first_index_from(t, ',', k);
        proof { lemma_first_index_bounds(t, ',', k); }
        if m >= t.len() {
            seq![t.subrange(k, m)]
        } else {
            seq![t.subrange(k, m)] + comma_parts_from(t, m + 1)
        }
    }
}

/// A rectangle whose `flags` list holds `graph`: a plot, not drawn.
pub open spec fn is_graph_of(p: PropsV) -> bool {
    let flags = match attr(p, "flags"@) { Some(f) => f, None => Seq::empty() };
    comma_parts_from(flags, 0).contains("graph"@)
}

/// Rectangles are filled unless `fill=false`.
pub open spec fn rect_filled_of(p: PropsV) -> bool {
    attr(p, "fill"@) != Some("false"@)
}

/// Whether attribute `key` is exactly `true` (`fill` of a polygon, `hide`,
/// `hcenter` and `vcenter` of a text).
pub open spec fn flag_of(p: PropsV, key: Seq<char>) -> bool {
    attr(p, key) == Some("true"@)
}

fn get_attr<'a>(p: &'a Properties, key: &str) -> (r: Option<&'a String>)
    ensures
        match attr(p@, key@) {
            Some(v) => r matches Some(s) && s@ == v,
            None => r is None,
        },
{
    p.get(key)
}

fn attr_is(p: &Properties, key: &str, value: &str) -> (r: bool)
    ensures r == (attr(p@, key@) == Some(value@)),
{
    match get_attr(p, key) {
        Some(v) => str_eq(v.as_str(), value),
        None => false,
    }
}

pub fn is_graph(p: &Properties) -> (r: bool)
    ensures r == is_graph_of(p@),
{
    let flags: Vec<char> = match get_attr(p, "flags") {
        Some(f) => chars_of(f.as_str()),
        None => Vec::new(),
    };
    let graph = chars_of("graph");
    let ghost t = flags@;
    let mut k: usize = 0;
    let mut found = false;
    let mut fin = false;
    proof {
        let f0 = match attr(p@, "flags"@) { Some(f) => f, None => Seq::<char>::empty() };
        assert(t =~= f0);
    }
    while !fin
        invariant
            k <= t.len(),
            t == flags@,
            graph@ == "graph"@,
            is_graph_of(p@) == (found || (!fin && comma_parts_from(t, k as int).contains("graph"@))),
            comma_parts_from(t, 0).contains("graph"@) == (found || (!fin && comma_parts_from(t, k as int).contains("graph"@))),
        decreases t.len() - k + (if fin { 0int } else { 1int }),
    {
        let mut m = k;
        while m < flags.len() && flags[m] != ','
            invariant
                k <= m <= t.len(),
                t == flags@,
                first_index_from(t, ',', m as int) == first_index_from(t, ',', k as int),
            decreases t.len() - m,
        {
            m = m + 1;
        }
        let part_is_graph = m - k == graph.len() && crate::parser::lit_at(flags.as_slice(), k, graph.as_slice());
        proof {
            let part = t.subrange(k as int, m as int);
            if part_is_graph {
                assert(part =~= graph@);
            } else if part == "graph"@ {
                assert(crate::grammar::lit_at(t, k as int, graph@));
            }
            if m >= t.len() {
                assert(comma_parts_from(t, k as int) == seq![part]);
            } else {
                assert(comma_parts_from(t, k as int) == seq![part] + comma_parts_from(t, m + 1));
            }
            assert(comma_parts_from(t, k as int).contains("graph"@)
                == (part == "graph"@ || (m < t.len() && comma_parts_from(t, m + 1).contains("graph"@)))) by {
                if m < t.len() {
                    let rest = comma_parts_from(t, m + 1);
                    let all = seq![part] + rest;
                    assert(all[0] == part);
                    if rest.contains("graph"@) {
                        let j = choose|j: int| 0 <= j < rest.len() && rest[j] == "graph"@;
                        assert(all[j + 1] == "graph"@);
                    }
                    if all.contains("graph"@) {
                        let j = choose|j: int| 0 <= j < all.len() && all[j] == "graph"@;
                        if j > 0 { assert(rest[j - 1] == "graph"@); }
                    }
                } else {
                    let all = seq![part];
                    assert(all[0] == part);
                    if all.contains("graph"@) {
                        let j = choose|j: int| 0 <= j < all.len() && all[j] == "graph"@;
                    }
                }
            }
        }
        if part_is_graph {
            found = true;
        }
        if m >= flags.len() {
            fin = true;
        } else {
            k = m + 1;
        }
    }
    found
}

pub fn rect_filled(p: &Properties) -> (r: bool)
    ensures r == rect_filled_of(p@),
{
    !attr_is(p, "fill", "false")
}

/// Whether attribute `key` is exactly `true`.
pub fn flag(p: &Properties, key: &str) -> (r: bool)
    ensures r == flag_of(p@, key@),
{
    attr_is(p, key, "true")
}

// ─── Integers ────────────────────────────────────────────────────────────────

/// `str::parse::<i32>`: an optional sign and at least one decimal digit,
/// nothing else, in range.
pub open spec fn parse_i32_of(t: Seq<char>) -> Option<i32> {
    let start: int = if t.len() > 0 && (t[0] == '+' || t[0] == '-') { 1 } else { 0 };
    if t.len() <= start || digits_end(t, start) != t.len() {
        None
    } else {
        let v = digits_value(t, start, t.len() as int);
        if t[0] == '-' {
            if v <= 0x8000_0000 { Some((-v) as i32) } else { None }
        } else {
            if v <= 0x7fff_ffff { Some(v as i32) } else { None }
        }
    }
}

proof fn lemma_digits_end_all(t: Seq<char>, start: int, i: int)
    requires
        0 <= start <= i <= t.len(),
        forall|j: int| start <= j < i ==> is_digit(#[trigger] t[j]),
    ensures
        digits_end(t, start) == digits_end(t, i),
    decreases i - start,
{
    if start < i {
        lemma_digits_end_all(t, start + 1, i);
    }
}

/// The `i32` that `t` spells, as `str::parse` reads it.
pub fn parse_i32(t: &str) -> (r: Option<i32>)
    ensures r == parse_i32_of(t@),
{
    let v = chars_of(t);
    let n = v.len();
    if n == 0 {
        return None;
    }
    let neg = v[0] == '-';
    let start: usize = if v[0] == '+' || v[0] == '-' { 1 } else { 0 };
    if n <= start {
        return None;
    }
    let mut acc: u64 = 0;
    let mut big = false;
    let mut i = start;
    while i < n
        invariant
            v@ == t@,
            n == v@.len(),
            start <= i <= n,
            start == (if v@.len() > 0 && (v@[0] == '+' || v@[0] == '-') { 1int } else { 0int }),
            forall|j: int| start <= j < i ==> is_digit(#[trigger] v@[j]),
            !big ==> acc == digits_value(v@, start as int, i as int) && acc <= 0x8000_0000,
            big ==> digits_value(v@, start as int, i as int) > 0x8000_0000,
        decreases n - i,
    {
        let c = v[i];
        if !('0' <= c && c <= '9') {
            proof {
                lemma_digits_end_all(v@, start as int, i as int);
                assert(digits_end(v@, i as int) == i);
            }
            return None;
        }
        let d: u64 = (c as u32 - '0' as u32) as u64;
        if !big {
            let nv = acc * 10 + d;
            if nv > 0x8000_0000 {
                big = true;
            } else {
                acc = nv;
            }
        }
        i = i + 1;
    }
    proof {
        lemma_digits_end_all(v@, start as int, n as int);
    }
    if big {
        return None;
    }
    if neg {
        let x: i64 = 0 - (acc as i64);
        Some(x as i32)
    } else if acc <= 0x7fff_ffff {
        Some(acc as i32)
    } else {
        None
    }
}

/// The layer of a text: its `layer` attribute when that is an `i32`, else 3.
pub open spec fn text_layer_of(p: PropsV) -> i32 {
    match attr(p, "layer"@) {
        Some(t) => match parse_i32_of(t) {
            Some(n) => n,
            None => 3,
        },
        None => 3,
    }
}

pub fn text_layer(p: &Properties) -> (r: i32)
    ensures r == text_layer_of(p@),
{
    match get_attr(p, "layer") {
        Some(t) => match parse_i32(t.as_str()) {
            Some(n) => n,
            None => 3,
        },
        None => 3,
    }
}

/// Rust's `%` on integers: the remainder takes the sign of the dividend.
pub open spec fn rem4(x: int) -> int {
    if x >= 0 { x % 4 } else { -((-x) % 4) }
}

// ─── Components ──────────────────────────────────────────────────────────────

/// The id of a component: its `name` attribute, or else its symbol's name.
pub open spec fn component_id_of(p: PropsV, sym_name: Seq<char>) -> Seq<char> {
    match attr(p, "name"@) {
        Some(n) => n,
        None => sym_name,
    }
}

pub fn component_id(p: &Properties, sym_name: &str) -> (r: String)
    ensures r@ == component_id_of(p@, sym_name@),
{
    match get_attr(p, "name") {
        Some(n) => n.clone(),
        None => sym_name.to_string(),
    }
}

/// The attributes a component hands down to the objects of its symbol: its
/// own, `symname` set to the symbol's name, and `spice_get_voltage` and
/// `spice_get_current` empty unless set.
pub open spec fn symbol_scope_of(p: PropsV, sym_name: Seq<char>) -> PropsV {
    let a = p.insert("symname"@, sym_name);
    let b = if a.contains_key("spice_get_voltage"@) { a } else { a.insert("spice_get_voltage"@, Seq::empty()) };
    if b.contains_key("spice_get_current"@) { b } else { b.insert("spice_get_current"@, Seq::empty()) }
}

pub fn symbol_scope(p: &Properties, sym_name: &str) -> (r: Properties)
    ensures r@ == symbol_scope_of(p@, sym_name@),
{
    let mut m = p.duplicate();
    m.insert("symname".to_string(), sym_name.to_string());
    m.insert_if_absent("spice_get_voltage".to_string(), String::new());
    m.insert_if_absent("spice_get_current".to_string(), String::new());
    m
}

/// Pin symbols: `ipin`, `opin`, `iopin`.
pub open spec fn is_pin_symbol(sym_name: Seq<char>) -> bool {
    sym_name == "ipin"@ || sym_name == "opin"@ || sym_name == "iopin"@
}

/// The pin that a component inside a symbol declares: for a pin symbol with
/// a non-empty `lab`, that label.
pub open spec fn pin_label_of(sym_name: Seq<char>, p: PropsV) -> Option<Seq<char>> {
    if is_pin_symbol(sym_name) {
        match attr(p, "lab"@) {
            Some(l) => if l.len() > 0 { Some(l) } else { None },
            None => None,
        }
    } else {
        None
    }
}

pub fn pin_label(sym_name: &str, p: &Properties) -> (r: Option<String>)
    ensures
        match pin_label_of(sym_name@, p@) {
            Some(l) => r matches Some(s) && s@ == l,
            None => r is None,
        },
{
    let pin = str_eq(sym_name, "ipin") || str_eq(sym_name, "opin") || str_eq(sym_name, "iopin");
    if !pin {
        return None;
    }
    match get_attr(p, "lab") {
        Some(l) => {
            let lc = chars_of(l.as_str());
            if lc.len() > 0 { Some(l.clone()) } else { None }
        },
        None => None,
    }
}

// ─── Junctions ───────────────────────────────────────────────────────────────

/// How many times `k` occurs in `keys`.
pub open spec fn count_of(keys: Seq<(i64, i64)>, k: (i64, i64)) -> nat {
    keys.filter(same_key(k)).len()
}

pub open spec fn same_key(k: (i64, i64)) -> spec_fn((i64, i64)) -> bool {
    |x: (i64, i64)| x == k
}

/// A wire end shared by at least three wire ends.
pub open spec fn busy(keys: Seq<(i64, i64)>) -> spec_fn((i64, i64)) -> bool {
    |k: (i64, i64)| count_of(keys, k) >= 3
}

/// `s` without repetitions, each element where it first occurs.
pub open spec fn dedup(s: Seq<(i64, i64)>) -> Seq<(i64, i64)>
    decreases s.len(),
{
    if s.len() == 0 {
        s
    } else {
        let d = dedup(s.drop_last());
        if d.contains(s.last()) { d } else { d.push(s.last()) }
    }
}

/// The junctions that wire ends alone make: the points (as rounded keys)
/// where three or more wire ends meet, each once, in order of first
/// occurrence.
pub open spec fn junctions_of(keys: Seq<(i64, i64)>) -> Seq<(i64, i64)> {
    dedup(keys.filter(busy(keys)))
}

fn count_key(keys: &Vec<(i64, i64)>, k: (i64, i64)) -> (c: usize)
    ensures c == count_of(keys@, k),
{
    let ghost eq = same_key(k);
    let mut c: usize = 0;
    let mut j: usize = 0;
    while j < keys.len()
        invariant
            j <= keys@.len(),
            c <= j,
            eq == same_key(k),
            c == keys@.take(j as int).filter(eq).len(),
        decreases keys@.len() - j,
    {
        proof {
            assert(keys@.take(j + 1) =~= keys@.take(j as int).push(keys@[j as int]));
            keys@.take(j as int).lemma_filter_push(keys@[j as int], eq);
        }
        if keys[j].0 == k.0 && keys[j].1 == k.1 {
            c = c + 1;
        }
        j = j + 1;
    }
    proof { assert(keys@.take(j as int) =~= keys@); }
    c
}

/// The points where three or more of the given wire ends meet.
pub fn endpoint_junctions(keys: &Vec<(i64, i64)>) -> (r: Vec<(i64, i64)>)
    ensures
        r@ == junctions_of(keys@),
{
    let ghost p = busy(keys@);
    let mut out: Vec<(i64, i64)> = Vec::new();
    let mut i: usize = 0;
    while i < keys.len()
        invariant
            i <= keys@.len(),
            p == busy(keys@),
            out@ == dedup(keys@.take(i as int).filter(p)),
        decreases keys@.len() - i,
    {
        let k = keys[i];
        let c = count_key(keys, k);
        proof {
            assert(keys@.take(i + 1) =~= keys@.take(i as int).push(k));
            keys@.take(i as int).lemma_filter_push(k, p);
        }
        if c >= 3 {
            let mut q: usize = 0;
            let mut seen = false;
            while q < out.len()
                invariant
                    q <= out@.len(),
                    seen == (exists|t: int| 0 <= t < q && out@[t] == k),
                decreases out@.len() - q,
            {
                if out[q].0 == k.0 && out[q].1 == k.1 {
                    seen = true;
                }
                q = q + 1;
            }
            let ghost before = out@;
            let ghost f = keys@.take(i as int).filter(p);
            proof {
                assert(f.push(k).drop_last() =~= f);
                assert(seen == before.contains(k));
            }
            if !seen {
                out.push(k);
            }
        }
        i = i + 1;
    }
    proof { assert(keys@.take(i as int) =~= keys@); }
    out
}

proof fn lemma_dedup(s: Seq<(i64, i64)>)
    ensures
        forall|k: (i64, i64)| dedup(s).contains(k) <==> s.contains(k),
        forall|i: int, j: int| 0 <= i < j < dedup(s).len() ==> dedup(s)[i] != dedup(s)[j],
    decreases s.len(),
{
    if s.len() > 0 {
        let t = s.drop_last();
        lemma_dedup(t);
        let d = dedup(t);
        assert forall|k: (i64, i64)| dedup(s).contains(k) <==> s.contains(k) by {
            if s.contains(k) {
                let i = choose|i: int| 0 <= i < s.len() && s[i] == k;
                if i < s.len() - 1 {
                    assert(t[i] == k);
                    assert(t.contains(k));
                    assert(d.contains(k));
                    if !d.contains(s.last()) {
                        let j = choose|j: int| 0 <= j < d.len() && d[j] == k;
                        assert(d.push(s.last())[j] == k);
                    }
                } else {
                    if !d.contains(s.last()) {
                        assert(d.push(s.last())[d.len() as int] == k);
                    }
                }
            }
            if dedup(s).contains(k) {
                let j = choose|j: int| 0 <= j < dedup(s).len() && dedup(s)[j] == k;
                if j < d.len() {
                    assert(d[j] == k);
                    assert(d.contains(k));
                    assert(t.contains(k));
                    let i = choose|i: int| 0 <= i < t.len() && t[i] == k;
                    assert(s[i] == k);
                } else {
                    assert(s[s.len() - 1] == k);
                }
            }
        }
        if !d.contains(s.last()) {
            assert forall|i: int, j: int| 0 <= i < j < dedup(s).len() implies dedup(s)[i] != dedup(s)[j] by {
                if j == d.len() {
                    assert(dedup(s)[i] == d[i]);
                    if d[i] == s.last() {
                        assert(d.contains(s.last()));
                    }
                } else {
                    assert(dedup(s)[i] == d[i]);
                    assert(dedup(s)[j] == d[j]);
                }
            }
        }
    }
}

/// The junctions of a set of wire ends are exactly the points where three or
/// more of them meet, each listed once.
pub proof fn lemma_junctions(keys: Seq<(i64, i64)>)
    ensures
        forall|k: (i64, i64)| junctions_of(keys).contains(k) <==> count_of(keys, k) >= 3,
        forall|i: int, j: int| 0 <= i < j < junctions_of(keys).len() ==> junctions_of(keys)[i] != junctions_of(keys)[j],
{
    broadcast use vstd::seq_lib::group_filter_ensures;
    let f = keys.filter(busy(keys));
    lemma_dedup(f);
    assert forall|k: (i64, i64)| f.contains(k) <==> count_of(keys, k) >= 3 by {
        if f.contains(k) {
            let j = choose|j: int| 0 <= j < f.len() && f[j] == k;
            assert(busy(keys)(f[j]));
        }
        if count_of(keys, k) >= 3 {
            let g = keys.filter(same_key(k));
            assert(same_key(k)(g[0]));
            assert(g.contains(g[0]));
            keys.lemma_filter_contains_rev(same_key(k), g[0]);
            let i = choose|i: int| 0 <= i < keys.len() && keys[i] == k;
            keys.lemma_filter_contains(busy(keys), i);
        }
    }
    assert forall|k: (i64, i64)| junctions_of(keys).contains(k) <==> count_of(keys, k) >= 3 by {
        assert(dedup(f).contains(k) <==> f.contains(k));
    }
}

} // verus!
