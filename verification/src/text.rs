//! Character-level helpers shared by the parser and the string-processing code.
use vstd::prelude::*;
use crate::order::lex_compare;

verus! {

broadcast use vstd::string::group_string_axioms;

/// `String::push` appends one character.
pub assume_specification[ String::push ](s: &mut String, ch: char)
    ensures
        final(s)@ == old(s)@.push(ch),
;

/// The characters of a string, in order.
pub fn chars_of(s: &str) -> (v: Vec<char>)
    ensures
        v@ == s@,
{
    let mut v: Vec<char> = Vec::new();
    for c in it: s.chars()
        invariant
            v@ == it.seq().take(it.index() as int),
    {
        v.push(c);
    }
    v
}

/// A string holding `chars[lo..hi]`.
pub fn string_of(chars: &[char], lo: usize, hi: usize) -> (r: String)
    requires
        lo <= hi <= chars@.len(),
    ensures
        r@ == chars@.subrange(lo as int, hi as int),
{
    let mut r = String::new();
    let mut i = lo;
    while i < hi
        invariant
            lo <= i <= hi <= chars@.len(),
            r@ == chars@.subrange(lo as int, i as int),
        decreases hi - i,
    {
        r.push(chars[i]);
        i = i + 1;
    }
    r
}

/// `a` followed by `b`.
pub fn concat(a: &str, b: &str) -> (r: String)
    ensures r@ == a@ + b@,
{
    let mut r = a.to_string();
    let bc = chars_of(b);
    let mut i: usize = 0;
    while i < bc.len()
        invariant
            i <= bc@.len(),
            bc@ == b@,
            r@ == a@ + b@.take(i as int),
        decreases bc@.len() - i,
    {
        r.push(bc[i]);
        proof { assert(b@.take(i + 1) =~= b@.take(i as int).push(bc@[i as int])); }
        i = i + 1;
    }
    proof { assert(b@.take(i as int) =~= b@); }
    r
}

/// Whether two strings hold the same characters.
pub fn str_eq(a: &str, b: &str) -> (r: bool)
    ensures r == (a@ == b@),
{
    let ac = chars_of(a);
    let bc = chars_of(b);
    lex_compare(ac.as_slice(), bc.as_slice()) == 0
}

/// Whether a string holds exactly the characters of `lit`.
pub fn eq_chars(a: &str, lit: &[char]) -> (r: bool)
    ensures r == (a@ == lit@),
{
    let ac = chars_of(a);
    lex_compare(ac.as_slice(), lit) == 0
}

pub open spec fn ends_with(t: Seq<char>, suffix: Seq<char>) -> bool {
    t.len() >= suffix.len() && t.subrange(t.len() - suffix.len(), t.len() as int) == suffix
}

pub open spec fn sym_suffix() -> Seq<char> {
    seq!['.', 's', 'y', 'm']
}

/// `str::trim_end_matches(".sym")`: every trailing `.sym` removed.
pub open spec fn trim_sym(t: Seq<char>) -> Seq<char>
    decreases t.len(),
{
    if ends_with(t, sym_suffix()) { trim_sym(t.subrange(0, t.len() - 4)) } else { t }
}

/// The index of the last `c` before `j`, or -1.
pub open spec fn last_index_before(t: Seq<char>, c: char, j: int) -> int
    decreases j,
{
    if j <= 0 || j > t.len() { -1 } else if t[j - 1] == c { j - 1 } else { last_index_before(t, c, j - 1) }
}

/// The index of the first `c` at or after `i`, or the length.
pub open spec fn first_index_from(t: Seq<char>, c: char, i: int) -> int
    decreases t.len() - i,
{
    if i < 0 || i >= t.len() { t.len() as int } else if t[i] == c { i } else { first_index_from(t, c, i + 1) }
}

/// `t.split(c).last()`: what follows the last `c`, or all of `t`.
pub open spec fn after_last(t: Seq<char>, c: char) -> Seq<char> {
    t.subrange(last_index_before(t, c, t.len() as int) + 1, t.len() as int)
}

/// `t.split(c).next()`: what precedes the first `c`, or all of `t`.
pub open spec fn before_first(t: Seq<char>, c: char) -> Seq<char> {
    t.subrange(0, first_index_from(t, c, 0))
}

pub proof fn lemma_last_index_bounds(t: Seq<char>, c: char, j: int)
    requires 0 <= j <= t.len(),
    ensures -1 <= last_index_before(t, c, j) < j,
    decreases j,
{
    if j > 0 && t[j - 1] != c {
        lemma_last_index_bounds(t, c, j - 1);
    }
}

pub proof fn lemma_first_index_bounds(t: Seq<char>, c: char, i: int)
    requires 0 <= i <= t.len(),
    ensures i <= first_index_from(t, c, i) <= t.len(),
    decreases t.len() - i,
{
    if i < t.len() && t[i] != c {
        lemma_first_index_bounds(t, c, i + 1);
    }
}

/// What follows the last `c` in `s` (all of `s` without one).
pub fn after_last_char(s: &str, c: char) -> (r: String)
    ensures r@ == after_last(s@, c),
{
    let v = chars_of(s);
    let mut j = v.len();
    while j > 0 && v[j - 1] != c
        invariant
            j <= v@.len(),
            v@ == s@,
            last_index_before(v@, c, j as int) == last_index_before(v@, c, v@.len() as int),
        decreases j,
    {
        j = j - 1;
    }
    string_of(v.as_slice(), j, v.len())
}

/// What precedes the first `c` in `s` (all of `s` without one).
pub fn before_first_char(s: &str, c: char) -> (r: String)
    ensures r@ == before_first(s@, c),
{
    let v = chars_of(s);
    let mut i: usize = 0;
    while i < v.len() && v[i] != c
        invariant
            i <= v@.len(),
            v@ == s@,
            first_index_from(v@, c, i as int) == first_index_from(v@, c, 0),
        decreases v@.len() - i,
    {
        i = i + 1;
    }
    string_of(v.as_slice(), 0, i)
}

/// `s.trim_end_matches(".sym")`.
pub fn trim_sym_suffix(s: &str) -> (r: String)
    ensures r@ == trim_sym(s@),
{
    let v = chars_of(s);
    let mut j = v.len();
    proof { assert(v@.subrange(0, j as int) =~= s@); }
    while j >= 4 && v[j - 4] == '.' && v[j - 3] == 's' && v[j - 2] == 'y' && v[j - 1] == 'm'
        invariant
            j <= v@.len(),
            v@ == s@,
            trim_sym(v@.subrange(0, j as int)) == trim_sym(s@),
        decreases j,
    {
        proof {
            let t = v@.subrange(0, j as int);
            assert(t.subrange(t.len() - 4, t.len() as int) =~= sym_suffix());
            assert(t.subrange(0, t.len() - 4) =~= v@.subrange(0, j - 4));
        }
        j = j - 4;
    }
    proof {
        let t = v@.subrange(0, j as int);
        if j >= 4 {
            assert(t.subrange(t.len() - 4, t.len() as int)[0] == v@[j - 4]);
            assert(t.subrange(t.len() - 4, t.len() as int)[1] == v@[j - 3]);
            assert(t.subrange(t.len() - 4, t.len() as int)[2] == v@[j - 2]);
            assert(t.subrange(t.len() - 4, t.len() as int)[3] == v@[j - 1]);
        }
        assert(!ends_with(t, sym_suffix()));
    }
    string_of(v.as_slice(), 0, j)
}

} // verus!
