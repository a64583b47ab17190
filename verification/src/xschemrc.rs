//! Reading symbol search paths out of an `xschemrc` file.
//!
//! An `xschemrc` is a Tcl script; only four kinds of line matter here:
//! `set PDK_ROOT ..`, `set PDK ..`, `set XSCHEM_SHAREDIR ..` and
//! `append XSCHEM_LIBRARY_PATH ..`. The functions below turn such a file into
//! the list of candidate directories, in the order xschem would search them.
//! Which of them exist on disk is for the caller to find out.
use vstd::prelude::*;
use crate::grammar::{lit_at, trim};
use crate::parser::trim_chars;
use crate::renderer::strings_view;
use crate::text::{chars_of, first_index_from, lemma_first_index_bounds, string_of};

verus! {

broadcast use vstd::string::group_string_axioms;

// ─── Text replacement ────────────────────────────────────────────────────────

/// `t[i..]` with every occurrence of `pat`, scanning left to right without
/// overlap, replaced by `rep` (`str::replace` for a non-empty pattern).
pub open spec fn replace_from(t: Seq<char>, i: int, pat: Seq<char>, rep: Seq<char>) -> Seq<char>
    decreases t.len() - i,
{
    if i < 0 || i >= t.len() {
        Seq::empty()
    } else if pat.len() > 0 && lit_at(t, i, pat) {
        rep + replace_from(t, i + pat.len(), pat, rep)
    } else {
        seq![t[i]] + replace_from(t, i + 1, pat, rep)
    }
}

pub open spec fn replace_all(t: Seq<char>, pat: Seq<char>, rep: Seq<char>) -> Seq<char> {
    replace_from(t, 0, pat, rep)
}

/// Appends `t` to `r`.
fn append_chars(r: &mut Vec<char>, t: &[char])
    ensures final(r)@ == old(r)@ + t@,
{
    let ghost before = r@;
    let mut k: usize = 0;
    while k < t.len()
        invariant
            k <= t@.len(),
            r@ == before + t@.take(k as int),
        decreases t@.len() - k,
    {
        r.push(t[k]);
        proof { assert(t@.take(k + 1) =~= t@.take(k as int).push(t@[k as int])); }
        k = k + 1;
    }
    proof { assert(t@.take(k as int) =~= t@); }
}

/// `t` with every `pat` replaced by `rep`.
fn replace_chars(t: &[char], pat: &[char], rep: &[char]) -> (r: Vec<char>)
    requires pat@.len() > 0,
    ensures r@ == replace_all(t@, pat@, rep@),
{
    let mut r: Vec<char> = Vec::new();
    let mut i: usize = 0;
    while i < t.len()
        invariant
            i <= t@.len(),
            pat@.len() > 0,
            r@ + replace_from(t@, i as int, pat@, rep@) == replace_from(t@, 0, pat@, rep@),
        decreases t@.len() - i,
    {
        let ghost before = r@;
        if crate::parser::lit_at(t, i, pat) {
            append_chars(&mut r, rep);
            proof {
                assert(before + rep@ + replace_from(t@, i + pat@.len(), pat@, rep@)
                    =~= before + replace_from(t@, i as int, pat@, rep@));
            }
            i = i + pat.len();
        } else {
            r.push(t[i]);
            proof {
                assert(before.push(t@[i as int]) + replace_from(t@, i + 1, pat@, rep@)
                    =~= before + replace_from(t@, i as int, pat@, rep@));
            }
            i = i + 1;
        }
    }
    proof { assert(r@ + replace_from(t@, i as int, pat@, rep@) =~= r@); }
    r
}

// ─── Tcl variables ───────────────────────────────────────────────────────────

pub open spec fn opt_chars(o: Option<String>) -> Option<Seq<char>> {
    match o {
        Some(s) => Some(s@),
        None => None,
    }
}

/// Both spellings of one variable replaced by its value, if it has one.
pub open spec fn expand_var(t: Seq<char>, braced: Seq<char>, bare: Seq<char>, v: Option<Seq<char>>) -> Seq<char> {
    match v {
        Some(v) => replace_all(replace_all(t, braced, v), bare, v),
        None => t,
    }
}

/// `$PDK_ROOT`, `$PDK` and `$XSCHEM_SHAREDIR` (also written `${..}`) replaced
/// by their values, in that order; a variable without a value stays as written.
pub open spec fn expand_vars(
    t: Seq<char>,
    pdk_root: Option<Seq<char>>,
    pdk: Option<Seq<char>>,
    sharedir: Option<Seq<char>>,
) -> Seq<char> {
    let a = expand_var(t, "${PDK_ROOT}"@, "$PDK_ROOT"@, pdk_root);
    let b = expand_var(a, "${PDK}"@, "$PDK"@, pdk);
    expand_var(b, "${XSCHEM_SHAREDIR}"@, "$XSCHEM_SHAREDIR"@, sharedir)
}

/// `t` holds no `$`.
pub open spec fn no_dollar(t: Seq<char>) -> bool {
    forall|k: int| 0 <= k < t.len() ==> t[k] != '$'
}

proof fn lemma_replace_none_from(t: Seq<char>, i: int, pat: Seq<char>, rep: Seq<char>)
    requires
        0 <= i <= t.len(),
        forall|k: int| 0 <= k < t.len() ==> !lit_at(t, k, pat),
    ensures
        replace_from(t, i, pat, rep) == t.subrange(i, t.len() as int),
    decreases t.len() - i,
{
    if i < t.len() {
        lemma_replace_none_from(t, i + 1, pat, rep);
        assert(t.subrange(i, t.len() as int) =~= seq![t[i]] + t.subrange(i + 1, t.len() as int));
    } else {
        assert(t.subrange(i, t.len() as int) =~= Seq::<char>::empty());
    }
}

/// Where `pat` occurs nowhere in `t`, replacing it changes nothing.
proof fn lemma_replace_none(t: Seq<char>, pat: Seq<char>, rep: Seq<char>)
    requires
        forall|k: int| 0 <= k < t.len() ==> !lit_at(t, k, pat),
    ensures
        replace_all(t, pat, rep) == t,
{
    lemma_replace_none_from(t, 0, pat, rep);
    assert(t.subrange(0, t.len() as int) =~= t);
}

/// A pattern that starts with `$` occurs nowhere in a text without `$`.
proof fn lemma_dollar_pattern_absent(t: Seq<char>, pat: Seq<char>)
    requires
        no_dollar(t),
        pat.len() > 0,
        pat[0] == '$',
    ensures
        forall|k: int| 0 <= k < t.len() ==> !lit_at(t, k, pat),
{
    assert forall|k: int| 0 <= k < t.len() implies !lit_at(t, k, pat) by {
        if lit_at(t, k, pat) {
            assert(t.subrange(k, k + pat.len())[0] == t[k]);
        }
    }
}

/// Replacing goes on in `y` as it would on its own after a prefix `x`.
proof fn lemma_replace_shift(x: Seq<char>, y: Seq<char>, j: int, pat: Seq<char>, rep: Seq<char>)
    requires
        0 <= j,
    ensures
        replace_from(x + y, x.len() + j, pat, rep) == replace_from(y, j, pat, rep),
    decreases y.len() - j,
{
    let t = x + y;
    let i = x.len() + j;
    if j < y.len() {
        assert(lit_at(t, i, pat) == lit_at(y, j, pat)) by {
            if i + pat.len() <= t.len() {
                assert(t.subrange(i, i + pat.len()) =~= y.subrange(j, j + pat.len()));
            }
        }
        assert(t[i] == y[j]);
        if pat.len() > 0 && lit_at(y, j, pat) {
            lemma_replace_shift(x, y, j + pat.len(), pat, rep);
        } else {
            lemma_replace_shift(x, y, j + 1, pat, rep);
        }
    }
}

/// A prefix without `$` is kept as it is by replacing a pattern that starts with `$`.
proof fn lemma_replace_skip(x: Seq<char>, y: Seq<char>, i: int, pat: Seq<char>, rep: Seq<char>)
    requires
        no_dollar(x),
        pat.len() > 0,
        pat[0] == '$',
        0 <= i <= x.len(),
    ensures
        replace_from(x + y, i, pat, rep) == x.subrange(i, x.len() as int) + replace_all(y, pat, rep),
    decreases x.len() - i,
{
    let t = x + y;
    if i < x.len() {
        assert(!lit_at(t, i, pat)) by {
            if lit_at(t, i, pat) {
                assert(t.subrange(i, i + pat.len())[0] == t[i]);
            }
        }
        lemma_replace_skip(x, y, i + 1, pat, rep);
        assert(x.subrange(i, x.len() as int) =~= seq![x[i]] + x.subrange(i + 1, x.len() as int));
        assert(seq![t[i]] + (x.subrange(i + 1, x.len() as int) + replace_all(y, pat, rep))
            =~= x.subrange(i, x.len() as int) + replace_all(y, pat, rep));
    } else {
        lemma_replace_shift(x, y, 0, pat, rep);
        assert(x.subrange(i, x.len() as int) =~= Seq::<char>::empty());
        assert(Seq::<char>::empty() + replace_all(y, pat, rep) =~= replace_all(y, pat, rep));
    }
}

/// A text without `$` is left as it is, whatever the variables hold.
pub proof fn lemma_expand_plain(t: Seq<char>, pdk_root: Option<Seq<char>>, pdk: Option<Seq<char>>, sharedir: Option<Seq<char>>)
    requires
        no_dollar(t),
    ensures
        expand_vars(t, pdk_root, pdk, sharedir) == t,
{
    reveal_strlit("${PDK_ROOT}");
    reveal_strlit("$PDK_ROOT");
    reveal_strlit("${PDK}");
    reveal_strlit("$PDK");
    reveal_strlit("${XSCHEM_SHAREDIR}");
    reveal_strlit("$XSCHEM_SHAREDIR");
    lemma_expand_var_plain(t, "${PDK_ROOT}"@, "$PDK_ROOT"@, pdk_root);
    lemma_expand_var_plain(t, "${PDK}"@, "$PDK"@, pdk);
    lemma_expand_var_plain(t, "${XSCHEM_SHAREDIR}"@, "$XSCHEM_SHAREDIR"@, sharedir);
}

/// With `PDK_ROOT` set to `r` and `PDK` to `p` (values without `$`), a path
/// written `$PDK_ROOT`, then `s1`, then `$PDK`, then `s2` expands to `r`,
/// `s1`, `p`, `s2`: `$PDK_ROOT` stands for `r` as a whole and is never read
/// as `$PDK` followed by `_ROOT` (`s1` and `s2` hold no `$`, and `s2` does
/// not go on with `_`). So `$PDK_ROOT/$PDK` expands to `r/p`.
pub proof fn lemma_expand_pdk_path(
    r: Seq<char>,
    p: Seq<char>,
    sharedir: Option<Seq<char>>,
    s1: Seq<char>,
    s2: Seq<char>,
)
    requires
        no_dollar(r),
        no_dollar(p),
        no_dollar(s1),
        no_dollar(s2),
        s2.len() == 0 || s2[0] != '_',
    ensures
        expand_vars("$PDK_ROOT"@ + s1 + "$PDK"@ + s2, Some(r), Some(p), sharedir) == r + s1 + p + s2,
{
    reveal_strlit("${PDK_ROOT}");
    reveal_strlit("$PDK_ROOT");
    reveal_strlit("${PDK}");
    reveal_strlit("$PDK");
    let root_b = "${PDK_ROOT}"@;
    let root = "$PDK_ROOT"@;
    let pdk_b = "${PDK}"@;
    let pdk = "$PDK"@;
    let w = root + s1 + pdk + s2;
    let z = s1 + pdk + s2;
    assert(w =~= root + z);
    // No `${PDK_ROOT}` in `w`: each `$` is followed by `P`.
    assert forall|k: int| 0 <= k < w.len() implies !lit_at(w, k, root_b) by {
        if lit_at(w, k, root_b) {
            let sub = w.subrange(k, k + root_b.len());
            assert(sub[0] == w[k] && sub[1] == w[k + 1]);
            if k < 9 {
                assert(w[k] == root[k]);
            } else if k < 9 + s1.len() {
                assert(w[k] == s1[k - 9]);
            } else if k < 13 + s1.len() {
                assert(w[k] == pdk[k - 9 - s1.len()]);
                assert(w[k + 1] == pdk[k + 1 - 9 - s1.len()]);
            } else {
                assert(w[k] == s2[k - 13 - s1.len()]);
            }
        }
    }
    lemma_replace_none(w, root_b, r);
    // `$PDK_ROOT` only at the start.
    assert(lit_at(w, 0, root)) by { assert(w.subrange(0, 9) =~= root); }
    assert forall|k: int| 0 <= k < z.len() implies !lit_at(z, k, root) by {
        if lit_at(z, k, root) {
            let sub = z.subrange(k, k + root.len());
            assert(sub[0] == z[k] && sub[4] == z[k + 4]);
            if k < s1.len() {
                assert(z[k] == s1[k]);
            } else if k < s1.len() + 4 {
                assert(z[k] == pdk[k - s1.len()]);
                if k == s1.len() {
                    assert(z[k + 4] == s2[0]);
                }
            } else {
                assert(z[k] == s2[k - s1.len() - 4]);
            }
        }
    }
    lemma_replace_shift(root, z, 0, root, r);
    lemma_replace_none(z, root, r);
    assert(replace_all(w, root, r) == r + z);
    let a = r + z;
    assert(expand_var(w, root_b, root, Some(r)) == a);
    // No `${PDK}` in `a`.
    assert forall|k: int| 0 <= k < a.len() implies !lit_at(a, k, pdk_b) by {
        if lit_at(a, k, pdk_b) {
            let sub = a.subrange(k, k + pdk_b.len());
            assert(sub[0] == a[k] && sub[1] == a[k + 1]);
            if k < r.len() {
                assert(a[k] == r[k]);
            } else if k < r.len() + s1.len() {
                assert(a[k] == s1[k - r.len()]);
            } else if k < r.len() + s1.len() + 4 {
                assert(a[k] == pdk[k - r.len() - s1.len()]);
                assert(a[k + 1] == pdk[k + 1 - r.len() - s1.len()]);
            } else {
                assert(a[k] == s2[k - r.len() - s1.len() - 4]);
            }
        }
    }
    lemma_replace_none(a, pdk_b, p);
    let x = r + s1;
    assert(no_dollar(x));
    assert(a =~= x + (pdk + s2));
    lemma_replace_skip(x, pdk + s2, 0, pdk, p);
    assert(x.subrange(0, x.len() as int) =~= x);
    assert(lit_at(pdk + s2, 0, pdk)) by { assert((pdk + s2).subrange(0, 4) =~= pdk); }
    lemma_replace_shift(pdk, s2, 0, pdk, p);
    lemma_dollar_pattern_absent(s2, pdk);
    lemma_replace_none(s2, pdk, p);
    assert(replace_all(pdk + s2, pdk, p) == p + s2);
    let b = x + (p + s2);
    assert(expand_var(a, pdk_b, pdk, Some(p)) == b);
    assert(b =~= r + s1 + p + s2);
    assert(no_dollar(b));
    reveal_strlit("${XSCHEM_SHAREDIR}");
    reveal_strlit("$XSCHEM_SHAREDIR");
    lemma_expand_var_plain(b, "${XSCHEM_SHAREDIR}"@, "$XSCHEM_SHAREDIR"@, sharedir);
}

/// A text whose only `$` is its first character holds no occurrence of a
/// pattern that starts with `$` and differs from the text at index `m`.
proof fn lemma_absent_one_dollar(w: Seq<char>, pat: Seq<char>, m: int)
    requires
        pat.len() > 0,
        pat[0] == '$',
        0 <= m < pat.len(),
        forall|k: int| 1 <= k < w.len() ==> w[k] != '$',
        m < w.len() ==> w[m] != pat[m],
    ensures
        forall|k: int| 0 <= k < w.len() ==> !lit_at(w, k, pat),
{
    assert forall|k: int| 0 <= k < w.len() implies !lit_at(w, k, pat) by {
        if lit_at(w, k, pat) {
            let sub = w.subrange(k, k + pat.len());
            assert(sub[0] == w[k]);
            if k == 0 {
                assert(sub[m] == w[m]);
            }
        }
    }
}

/// With `PDK_ROOT` set to `r` and `PDK` to `p` (values without `$`), a path
/// written `${PDK_ROOT}`, then `s1`, then `${PDK}`, then `s2` (`s1` and `s2`
/// without `$`) expands to `r`, `s1`, `p`, `s2`.
pub proof fn lemma_expand_braced_pdk_path(
    r: Seq<char>,
    p: Seq<char>,
    sharedir: Option<Seq<char>>,
    s1: Seq<char>,
    s2: Seq<char>,
)
    requires
        no_dollar(r),
        no_dollar(p),
        no_dollar(s1),
        no_dollar(s2),
    ensures
        expand_vars("${PDK_ROOT}"@ + s1 + "${PDK}"@ + s2, Some(r), Some(p), sharedir) == r + s1 + p + s2,
{
    reveal_strlit("${PDK_ROOT}");
    reveal_strlit("$PDK_ROOT");
    reveal_strlit("${PDK}");
    reveal_strlit("$PDK");
    reveal_strlit("${XSCHEM_SHAREDIR}");
    reveal_strlit("$XSCHEM_SHAREDIR");
    let root_b = "${PDK_ROOT}"@;
    let root = "$PDK_ROOT"@;
    let pdk_b = "${PDK}"@;
    let pdk = "$PDK"@;
    let tail = pdk_b + s2;
    let x = r + s1;
    let w = root_b + s1 + pdk_b + s2;
    let z = s1 + tail;
    assert(w =~= root_b + z);
    assert(no_dollar(x));
    assert forall|k: int| 1 <= k < tail.len() implies tail[k] != '$' by {
        if k < 6 { assert(tail[k] == pdk_b[k]); } else { assert(tail[k] == s2[k - 6]); }
    }
    assert(tail[0] == '$' && tail[1] == '{' && tail[2] == 'P' && tail[5] == '}');
    // `${PDK_ROOT}`: at the start only.
    assert(lit_at(w, 0, root_b)) by { assert(w.subrange(0, 11) =~= root_b); }
    lemma_replace_shift(root_b, z, 0, root_b, r);
    lemma_replace_skip(s1, tail, 0, root_b, r);
    assert(s1.subrange(0, s1.len() as int) =~= s1);
    lemma_absent_one_dollar(tail, root_b, 5);
    lemma_replace_none(tail, root_b, r);
    let a = r + z;
    assert(replace_all(w, root_b, r) == a);
    // `$PDK_ROOT`: nowhere.
    assert(a =~= x + tail);
    lemma_replace_skip(x, tail, 0, root, r);
    assert(x.subrange(0, x.len() as int) =~= x);
    lemma_absent_one_dollar(tail, root, 1);
    lemma_replace_none(tail, root, r);
    assert(expand_var(w, root_b, root, Some(r)) == a);
    // `${PDK}`: where it was written.
    lemma_replace_skip(x, tail, 0, pdk_b, p);
    assert(lit_at(tail, 0, pdk_b)) by { assert(tail.subrange(0, 6) =~= pdk_b); }
    lemma_replace_shift(pdk_b, s2, 0, pdk_b, p);
    lemma_dollar_pattern_absent(s2, pdk_b);
    lemma_replace_none(s2, pdk_b, p);
    let b = x + (p + s2);
    assert(replace_all(a, pdk_b, p) == b);
    assert(no_dollar(b));
    lemma_dollar_pattern_absent(b, pdk);
    lemma_replace_none(b, pdk, p);
    assert(expand_var(a, pdk_b, pdk, Some(p)) == b);
    assert(b =~= r + s1 + p + s2);
    lemma_expand_var_plain(b, "${XSCHEM_SHAREDIR}"@, "$XSCHEM_SHAREDIR"@, sharedir);
}

/// With `XSCHEM_SHAREDIR` set to `d` (a value without `$`), a path written
/// `$XSCHEM_SHAREDIR` or `${XSCHEM_SHAREDIR}` and then `s` (without `$`)
/// expands to `d` and `s`, whatever `PDK_ROOT` and `PDK` hold.
pub proof fn lemma_expand_sharedir_path(
    d: Seq<char>,
    pdk_root: Option<Seq<char>>,
    pdk: Option<Seq<char>>,
    s: Seq<char>,
)
    requires
        no_dollar(d),
        no_dollar(s),
    ensures
        expand_vars("$XSCHEM_SHAREDIR"@ + s, pdk_root, pdk, Some(d)) == d + s,
        expand_vars("${XSCHEM_SHAREDIR}"@ + s, pdk_root, pdk, Some(d)) == d + s,
{
    reveal_strlit("${PDK_ROOT}");
    reveal_strlit("$PDK_ROOT");
    reveal_strlit("${PDK}");
    reveal_strlit("$PDK");
    reveal_strlit("${XSCHEM_SHAREDIR}");
    reveal_strlit("$XSCHEM_SHAREDIR");
    let sh = "$XSCHEM_SHAREDIR"@;
    let sh_b = "${XSCHEM_SHAREDIR}"@;
    let w = sh + s;
    let wb = sh_b + s;
    assert forall|k: int| 1 <= k < w.len() implies w[k] != '$' by {
        if k < 16 { assert(w[k] == sh[k]); } else { assert(w[k] == s[k - 16]); }
    }
    assert forall|k: int| 1 <= k < wb.len() implies wb[k] != '$' by {
        if k < 18 { assert(wb[k] == sh_b[k]); } else { assert(wb[k] == s[k - 18]); }
    }
    assert(w[1] == 'X' && wb[1] == '{' && wb[2] == 'X');
    // The variables of the PDK occur in neither.
    lemma_absent_one_dollar(w, "${PDK_ROOT}"@, 1);
    lemma_absent_one_dollar(w, "$PDK_ROOT"@, 1);
    lemma_absent_one_dollar(w, "${PDK}"@, 1);
    lemma_absent_one_dollar(w, "$PDK"@, 1);
    lemma_absent_one_dollar(wb, "${PDK_ROOT}"@, 2);
    lemma_absent_one_dollar(wb, "$PDK_ROOT"@, 1);
    lemma_absent_one_dollar(wb, "${PDK}"@, 2);
    lemma_absent_one_dollar(wb, "$PDK"@, 1);
    if let Some(v) = pdk_root {
        lemma_replace_none(w, "${PDK_ROOT}"@, v);
        lemma_replace_none(w, "$PDK_ROOT"@, v);
        lemma_replace_none(wb, "${PDK_ROOT}"@, v);
        lemma_replace_none(wb, "$PDK_ROOT"@, v);
    }
    if let Some(v) = pdk {
        lemma_replace_none(w, "${PDK}"@, v);
        lemma_replace_none(w, "$PDK"@, v);
        lemma_replace_none(wb, "${PDK}"@, v);
        lemma_replace_none(wb, "$PDK"@, v);
    }
    assert(expand_var(expand_var(w, "${PDK_ROOT}"@, "$PDK_ROOT"@, pdk_root), "${PDK}"@, "$PDK"@, pdk) == w);
    assert(expand_var(expand_var(wb, "${PDK_ROOT}"@, "$PDK_ROOT"@, pdk_root), "${PDK}"@, "$PDK"@, pdk) == wb);
    // The bare spelling.
    lemma_absent_one_dollar(w, sh_b, 1);
    lemma_replace_none(w, sh_b, d);
    assert(lit_at(w, 0, sh)) by { assert(w.subrange(0, 16) =~= sh); }
    lemma_replace_shift(sh, s, 0, sh, d);
    lemma_dollar_pattern_absent(s, sh);
    lemma_replace_none(s, sh, d);
    // The braced spelling.
    assert(lit_at(wb, 0, sh_b)) by { assert(wb.subrange(0, 18) =~= sh_b); }
    lemma_replace_shift(sh_b, s, 0, sh_b, d);
    lemma_dollar_pattern_absent(s, sh_b);
    lemma_replace_none(s, sh_b, d);
    assert(no_dollar(d + s));
    lemma_dollar_pattern_absent(d + s, sh);
    lemma_replace_none(d + s, sh, d);
}

proof fn lemma_expand_var_plain(t: Seq<char>, braced: Seq<char>, bare: Seq<char>, v: Option<Seq<char>>)
    requires
        no_dollar(t),
        braced.len() > 0,
        braced[0] == '$',
        bare.len() > 0,
        bare[0] == '$',
    ensures
        expand_var(t, braced, bare, v) == t,
{
    if let Some(val) = v {
        lemma_dollar_pattern_absent(t, braced);
        lemma_replace_none(t, braced, val);
        lemma_dollar_pattern_absent(t, bare);
        lemma_replace_none(t, bare, val);
    }
}

fn expand_one(t: Vec<char>, braced: &str, bare: &str, v: &Option<String>) -> (r: Vec<char>)
    requires
        braced@.len() > 0,
        bare@.len() > 0,
    ensures r@ == expand_var(t@, braced@, bare@, opt_chars(*v)),
{
    match v {
        Some(val) => {
            let vc = chars_of(val.as_str());
            let bc = chars_of(braced);
            let pc = chars_of(bare);
            let a = replace_chars(t.as_slice(), bc.as_slice(), vc.as_slice());
            replace_chars(a.as_slice(), pc.as_slice(), vc.as_slice())
        },
        None => t,
    }
}

/// Replaces `$PDK_ROOT`, `$PDK` and `$XSCHEM_SHAREDIR` (and their `${..}`
/// forms) in `s` by the values given, in that order.
pub fn expand_tcl_vars(
    s: &str,
    pdk_root: &Option<String>,
    pdk: &Option<String>,
    sharedir: &Option<String>,
) -> (r: String)
    ensures r@ == expand_vars(s@, opt_chars(*pdk_root), opt_chars(*pdk), opt_chars(*sharedir)),
{
    proof {
        reveal_strlit("${PDK_ROOT}");
        reveal_strlit("$PDK_ROOT");
        reveal_strlit("${PDK}");
        reveal_strlit("$PDK");
        reveal_strlit("${XSCHEM_SHAREDIR}");
        reveal_strlit("$XSCHEM_SHAREDIR");
    }
    let t = chars_of(s);
    let a = expand_one(t, "${PDK_ROOT}", "$PDK_ROOT", pdk_root);
    let b = expand_one(a, "${PDK}", "$PDK", pdk);
    let c = expand_one(b, "${XSCHEM_SHAREDIR}", "$XSCHEM_SHAREDIR", sharedir);
    string_of(c.as_slice(), 0, c.len())
}

// ─── Paths ───────────────────────────────────────────────────────────────────

/// `Path::join` on Unix: an absolute `part` replaces `base`; otherwise one `/`
/// goes between them unless `base` is empty or already ends in `/`.
pub open spec fn path_join(base: Seq<char>, part: Seq<char>) -> Seq<char> {
    if part.len() > 0 && part[0] == '/' {
        part
    } else if base.len() == 0 || base.last() == '/' {
        base + part
    } else {
        base + seq!['/'] + part
    }
}

/// `base` joined with `part`, as `Path::join` does on Unix.
pub fn join_path(base: &str, part: &str) -> (r: String)
    ensures r@ == path_join(base@, part@),
{
    let pc = chars_of(part);
    if pc.len() > 0 && pc[0] == '/' {
        return part.to_string();
    }
    let bc = chars_of(base);
    let mut r: Vec<char> = Vec::new();
    append_chars(&mut r, bc.as_slice());
    if bc.len() > 0 && bc[bc.len() - 1] != '/' {
        r.push('/');
    }
    append_chars(&mut r, pc.as_slice());
    proof {
        if !(bc@.len() == 0 || bc@.last() == '/') {
            assert(r@ =~= base@ + seq!['/'] + part@);
        } else {
            assert(r@ =~= base@ + part@);
        }
    }
    string_of(r.as_slice(), 0, r.len())
}

/// `<root>/<pdk>/libs.tech/xschem`, where a PDK keeps its xschem symbols.
pub open spec fn pdk_symbol_dir_of(root: Seq<char>, pdk: Seq<char>) -> Seq<char> {
    path_join(path_join(path_join(root, pdk), "libs.tech"@), "xschem"@)
}

/// `<dir>/xschem_library/devices`, where xschem keeps its own symbols.
pub open spec fn devices_dir_of(dir: Seq<char>) -> Seq<char> {
    path_join(path_join(dir, "xschem_library"@), "devices"@)
}

/// `<tools>/xschem/share/xschem/xschem_library/devices`.
pub open spec fn tools_devices_dir_of(tools: Seq<char>) -> Seq<char> {
    devices_dir_of(path_join(path_join(path_join(tools, "xschem"@), "share"@), "xschem"@))
}

pub fn pdk_symbol_dir(root: &str, pdk: &str) -> (r: String)
    ensures r@ == pdk_symbol_dir_of(root@, pdk@),
{
    let a = join_path(root, pdk);
    let b = join_path(a.as_str(), "libs.tech");
    join_path(b.as_str(), "xschem")
}

pub fn devices_dir(dir: &str) -> (r: String)
    ensures r@ == devices_dir_of(dir@),
{
    let a = join_path(dir, "xschem_library");
    join_path(a.as_str(), "devices")
}

pub fn tools_devices_dir(tools: &str) -> (r: String)
    ensures r@ == tools_devices_dir_of(tools@),
{
    let a = join_path(tools, "xschem");
    let b = join_path(a.as_str(), "share");
    let c = join_path(b.as_str(), "xschem");
    devices_dir(c.as_str())
}

/// Appends `p` unless `paths` already holds it.
pub fn push_unique(paths: &mut Vec<String>, p: String)
    ensures
        (exists|i: int| 0 <= i < old(paths)@.len() && old(paths)@[i]@ == p@) ==> final(paths)@ == old(paths)@,
        !(exists|i: int| 0 <= i < old(paths)@.len() && old(paths)@[i]@ == p@) ==> final(paths)@ == old(paths)@.push(p),
{
    let mut i: usize = 0;
    while i < paths.len()
        invariant
            i <= paths@.len(),
            paths@ == old(paths)@,
            forall|k: int| 0 <= k < i ==> (#[trigger] paths@[k])@ != p@,
        decreases paths@.len() - i,
    {
        if crate::text::str_eq(paths[i].as_str(), p.as_str()) {
            return;
        }
        i = i + 1;
    }
    paths.push(p);
}

// ─── The rc file ─────────────────────────────────────────────────────────────

/// The lines of `t` from index `i` on, as `str::lines` yields them: split at
/// `\n`, a `\r` before the `\n` dropped, no empty line after a final `\n`.
pub open spec fn lines_from(t: Seq<char>, i: int) -> Seq<Seq<char>>
    decreases t.len() - i,
{
    if i < 0 || i >= t.len() {
        Seq::empty()
    } else {
        let j = first_index_from(t, '\n', i);
        proof { lemma_first_index_bounds(t, '\n', i); }
        let raw = t.subrange(i, j);
        let line = if j < t.len() && raw.len() > 0 && raw.last() == '\r' { raw.drop_last() } else { raw };
        if j >= t.len() { seq![line] } else { seq![line] + lines_from(t, j + 1) }
    }
}

/// The entries of an `append XSCHEM_LIBRARY_PATH` value from index `k` on:
/// the `:`-separated parts, trimmed, the empty ones dropped, variables expanded.
pub open spec fn lib_parts_from(
    t: Seq<char>,
    k: int,
    pdk_root: Option<Seq<char>>,
    pdk: Option<Seq<char>>,
    sharedir: Option<Seq<char>>,
) -> Seq<Seq<char>>
    decreases t.len() + 1 - k,
{
    if k < 0 || k > t.len() {
        Seq::empty()
    } else {
        let m = first_index_from(t, ':', k);
        proof { lemma_first_index_bounds(t, ':', k); }
        let part = trim(t.subrange(k, m));
        let here = if part.len() > 0 { seq![expand_vars(part, pdk_root, pdk, sharedir)] } else { Seq::empty() };
        if m >= t.len() { here } else { here + lib_parts_from(t, m + 1, pdk_root, pdk, sharedir) }
    }
}

/// What an `xschemrc` has set so far.
pub struct RcVars {
    pub pdk_root: Option<Seq<char>>,
    pub pdk: Option<Seq<char>>,
    pub sharedir: Option<Seq<char>>,
    pub lib_paths: Seq<Seq<char>>,
}

/// The value after a prefix, trimmed.
pub open spec fn rest_after(l: Seq<char>, prefix: Seq<char>) -> Seq<char> {
    trim(l.subrange(prefix.len() as int, l.len() as int))
}

/// The effect of one line.
pub open spec fn rc_step(v: RcVars, line: Seq<char>) -> RcVars {
    let l = trim(line);
    if lit_at(l, 0, "set PDK_ROOT "@) {
        RcVars { pdk_root: Some(rest_after(l, "set PDK_ROOT "@)), pdk: v.pdk, sharedir: v.sharedir, lib_paths: v.lib_paths }
    } else if lit_at(l, 0, "set PDK "@) {
        RcVars { pdk_root: v.pdk_root, pdk: Some(rest_after(l, "set PDK "@)), sharedir: v.sharedir, lib_paths: v.lib_paths }
    } else if lit_at(l, 0, "set XSCHEM_SHAREDIR "@) {
        RcVars { pdk_root: v.pdk_root, pdk: v.pdk, sharedir: Some(rest_after(l, "set XSCHEM_SHAREDIR "@)), lib_paths: v.lib_paths }
    } else if lit_at(l, 0, "append XSCHEM_LIBRARY_PATH "@) {
        let rest = l.subrange("append XSCHEM_LIBRARY_PATH "@.len() as int, l.len() as int);
        RcVars {
            pdk_root: v.pdk_root,
            pdk: v.pdk,
            sharedir: v.sharedir,
            lib_paths: v.lib_paths + lib_parts_from(rest, 0, v.pdk_root, v.pdk, v.sharedir),
        }
    } else {
        v
    }
}

/// The variables after reading `lines` in order.
pub open spec fn rc_vars(lines: Seq<Seq<char>>) -> RcVars
    decreases lines.len(),
{
    if lines.len() == 0 {
        RcVars { pdk_root: None, pdk: None, sharedir: None, lib_paths: Seq::empty() }
    } else {
        rc_step(rc_vars(lines.drop_last()), lines.last())
    }
}

/// The directories an `xschemrc` names, in search order: the PDK's symbol
/// directory (when both `PDK_ROOT` and `PDK` are set), xschem's own devices
/// (when `XSCHEM_SHAREDIR` is set), then each library path entry.
pub open spec fn rc_candidates(content: Seq<char>) -> Seq<Seq<char>> {
    let v = rc_vars(lines_from(content, 0));
    let pdk_dir = match (v.pdk_root, v.pdk) {
        (Some(r), Some(p)) => seq![pdk_symbol_dir_of(r, p)],
        _ => Seq::empty(),
    };
    let devices = match v.sharedir {
        Some(d) => seq![devices_dir_of(d)],
        None => Seq::empty(),
    };
    pdk_dir + devices + v.lib_paths
}

fn sub_chars(t: &[char], lo: usize, hi: usize) -> (r: Vec<char>)
    requires lo <= hi <= t@.len(),
    ensures r@ == t@.subrange(lo as int, hi as int),
{
    let mut r: Vec<char> = Vec::new();
    let mut k = lo;
    while k < hi
        invariant
            lo <= k <= hi <= t@.len(),
            r@ == t@.subrange(lo as int, k as int),
        decreases hi - k,
    {
        r.push(t[k]);
        k = k + 1;
    }
    r
}

fn find_char(t: &[char], c: char, i: usize) -> (r: usize)
    requires i <= t@.len(),
    ensures
        r == first_index_from(t@, c, i as int),
        i <= r <= t@.len(),
{
    proof { lemma_first_index_bounds(t@, c, i as int); }
    let mut k = i;
    while k < t.len() && t[k] != c
        invariant
            i <= k <= t@.len(),
            first_index_from(t@, c, k as int) == first_index_from(t@, c, i as int),
        decreases t@.len() - k,
    {
        k = k + 1;
    }
    k
}

fn trimmed(t: &[char], lo: usize, hi: usize) -> (r: Vec<char>)
    requires lo <= hi <= t@.len(),
    ensures r@ == trim(t@.subrange(lo as int, hi as int)),
{
    let sub = sub_chars(t, lo, hi);
    let s = trim_chars(sub.as_slice());
    chars_of(s.as_str())
}

fn lib_parts(
    rest: &[char],
    pdk_root: &Option<String>,
    pdk: &Option<String>,
    sharedir: &Option<String>,
    out: &mut Vec<String>,
)
    ensures
        strings_view(final(out)@) == strings_view(old(out)@)
            + lib_parts_from(rest@, 0, opt_chars(*pdk_root), opt_chars(*pdk), opt_chars(*sharedir)),
{
    let ghost target = strings_view(old(out)@)
        + lib_parts_from(rest@, 0, opt_chars(*pdk_root), opt_chars(*pdk), opt_chars(*sharedir));
    let mut k: usize = 0;
    let mut fin = false;
    while !fin
        invariant
            k <= rest@.len(),
            fin ==> strings_view(out@) == target,
            !fin ==> strings_view(out@)
                + lib_parts_from(rest@, k as int, opt_chars(*pdk_root), opt_chars(*pdk), opt_chars(*sharedir)) == target,
        decreases rest@.len() - k + (if fin { 0int } else { 1int }),
    {
        let m = find_char(rest, ':', k);
        let part = trimmed(rest, k, m);
        let ghost before = strings_view(out@);
        let ghost here = if part@.len() > 0 {
            seq![expand_vars(part@, opt_chars(*pdk_root), opt_chars(*pdk), opt_chars(*sharedir))]
        } else {
            Seq::<Seq<char>>::empty()
        };
        if part.len() > 0 {
            let ps = string_of(part.as_slice(), 0, part.len());
            let ex = expand_tcl_vars(ps.as_str(), pdk_root, pdk, sharedir);
            out.push(ex);
            proof { assert(part@.subrange(0, part@.len() as int) =~= part@); }
        }
        proof {
            assert(strings_view(out@) =~= before + here);
        }
        if m >= rest.len() {
            proof { assert(strings_view(out@) =~= target); }
            fin = true;
        } else {
            proof {
                assert(strings_view(out@)
                    + lib_parts_from(rest@, m + 1, opt_chars(*pdk_root), opt_chars(*pdk), opt_chars(*sharedir))
                    =~= before + lib_parts_from(rest@, k as int, opt_chars(*pdk_root), opt_chars(*pdk), opt_chars(*sharedir)));
            }
            k = m + 1;
        }
    }
}

/// The directories named by the `xschemrc` text `content`, in search order,
/// whether or not they exist.
pub fn xschemrc_candidates(content: &str) -> (r: Vec<String>)
    ensures strings_view(r@) == rc_candidates(content@),
{
    let s = chars_of(content);
    let set_root = chars_of("set PDK_ROOT ");
    let set_pdk = chars_of("set PDK ");
    let set_share = chars_of("set XSCHEM_SHAREDIR ");
    let append_lib = chars_of("append XSCHEM_LIBRARY_PATH ");
    let mut root: Option<String> = None;
    let mut pdk: Option<String> = None;
    let mut share: Option<String> = None;
    let mut libs: Vec<String> = Vec::new();
    let ghost mut done: Seq<Seq<char>> = Seq::empty();
    let mut i: usize = 0;
    proof { assert(strings_view(libs@) =~= Seq::<Seq<char>>::empty()); }
    while i < s.len()
        invariant
            i <= s@.len(),
            s@ == content@,
            set_root@ == "set PDK_ROOT "@,
            set_pdk@ == "set PDK "@,
            set_share@ == "set XSCHEM_SHAREDIR "@,
            append_lib@ == "append XSCHEM_LIBRARY_PATH "@,
            done + lines_from(s@, i as int) == lines_from(s@, 0),
            rc_vars(done) == (RcVars {
                pdk_root: opt_chars(root),
                pdk: opt_chars(pdk),
                sharedir: opt_chars(share),
                lib_paths: strings_view(libs@),
            }),
        decreases s@.len() - i,
    {
        let j = find_char(s.as_slice(), '\n', i);
        let e = if j < s.len() && j > i && s[j - 1] == '\r' { j - 1 } else { j };
        let l = trimmed(s.as_slice(), i, e);
        let ghost line = s@.subrange(i as int, e as int);
        proof {
            let raw = s@.subrange(i as int, j as int);
            if j < s@.len() && raw.len() > 0 && raw.last() == '\r' {
                assert(line =~= raw.drop_last());
            } else {
                assert(line =~= raw);
            }
            assert(lines_from(s@, i as int) == seq![line] + lines_from(s@, j + 1));
        }
        if crate::parser::lit_at(l.as_slice(), 0, set_root.as_slice()) {
            let v = trimmed(l.as_slice(), set_root.len(), l.len());
            root = Some(string_of(v.as_slice(), 0, v.len()));
            proof { assert(v@.subrange(0, v@.len() as int) =~= v@); }
        } else if crate::parser::lit_at(l.as_slice(), 0, set_pdk.as_slice()) {
            let v = trimmed(l.as_slice(), set_pdk.len(), l.len());
            pdk = Some(string_of(v.as_slice(), 0, v.len()));
            proof { assert(v@.subrange(0, v@.len() as int) =~= v@); }
        } else if crate::parser::lit_at(l.as_slice(), 0, set_share.as_slice()) {
            let v = trimmed(l.as_slice(), set_share.len(), l.len());
            share = Some(string_of(v.as_slice(), 0, v.len()));
            proof { assert(v@.subrange(0, v@.len() as int) =~= v@); }
        } else if crate::parser::lit_at(l.as_slice(), 0, append_lib.as_slice()) {
            let rest = sub_chars(l.as_slice(), append_lib.len(), l.len());
            lib_parts(rest.as_slice(), &root, &pdk, &share, &mut libs);
        }
        proof {
            assert(done.push(line).drop_last() =~= done);
            assert(rc_vars(done.push(line)) == rc_step(rc_vars(done), line));
            assert(done.push(line) + lines_from(s@, j + 1) =~= done + lines_from(s@, i as int));
            done = done.push(line);
        }
        if j < s.len() {
            i = j + 1;
        } else {
            i = j;
        }
    }
    proof { assert(done + lines_from(s@, i as int) =~= done); }
    let mut r: Vec<String> = Vec::new();
    match (&root, &pdk) {
        (Some(a), Some(b)) => {
            r.push(pdk_symbol_dir(a.as_str(), b.as_str()));
        },
        _ => {},
    }
    match &share {
        Some(d) => {
            r.push(devices_dir(d.as_str()));
        },
        None => {},
    }
    let ghost head = r@;
    let ghost tail = libs@;
    r.append(&mut libs);
    proof { assert(strings_view(r@) =~= strings_view(head) + strings_view(tail)); }
    r
}

/// The entries of `paths` whose flag in `keep` is set, in their order.
pub open spec fn kept(paths: Seq<Seq<char>>, keep: Seq<bool>) -> Seq<Seq<char>>
    decreases paths.len(),
{
    if paths.len() == 0 {
        Seq::empty()
    } else {
        let prev = kept(paths.drop_last(), keep);
        if keep[paths.len() - 1] { prev.push(paths.last()) } else { prev }
    }
}

/// The candidate directories that exist: `exists[i]` tells whether
/// `candidates[i]` is a directory on this machine. Each candidate is kept
/// exactly when it exists, and the order stays.
pub fn existing_paths(candidates: Vec<String>, exists: &[bool]) -> (r: Vec<String>)
    requires
        candidates@.len() == exists@.len(),
    ensures
        strings_view(r@) == kept(strings_view(candidates@), exists@),
{
    let ghost cv = strings_view(candidates@);
    let mut r: Vec<String> = Vec::new();
    let mut i: usize = 0;
    while i < candidates.len()
        invariant
            i <= candidates@.len(),
            candidates@.len() == exists@.len(),
            cv == strings_view(candidates@),
            strings_view(r@) == kept(cv.take(i as int), exists@),
        decreases candidates@.len() - i,
    {
        let ghost r0 = r@;
        proof {
            assert(cv.take(i + 1).drop_last() =~= cv.take(i as int));
            assert(cv.take(i + 1).last() == candidates@[i as int]@);
        }
        if exists[i] {
            r.push(candidates[i].clone());
            proof { assert(strings_view(r@) =~= strings_view(r0).push(candidates@[i as int]@)); }
        }
        i = i + 1;
    }
    proof { assert(cv.take(i as int) =~= cv); }
    r
}

} // verus!
