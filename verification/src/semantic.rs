//! A semantic view of a schematic — components by name with their
//! parameters and pin connections, labelled wires, nets — and a structural
//! diff between two such views.
//!
//! Coordinates are held as the decimal text of the position.
use vstd::prelude::*;
use crate::models::{components_of, wires_of, Component, Properties, PropsV, Schematic};
use crate::netlist::{Net, Netlist, Pin};
use crate::strmap::{StrMap, StrSet};
use crate::text::{chars_of, str_eq};

verus! {

broadcast use vstd::string::group_string_axioms;

// ─── The model ───────────────────────────────────────────────────────────────

/// A component instance.
#[derive(Debug)]
pub struct SemanticComponent {
    pub name: String,
    pub symbol: String,
    pub params: Properties,
    /// Pin name → net name; empty where connectivity could not be resolved.
    pub pins: StrMap<String>,
    pub x: String,
    pub y: String,
    pub rotation: i32,
    pub mirror: i32,
}

pub struct SemanticComponentV {
    pub name: Seq<char>,
    pub symbol: Seq<char>,
    pub params: PropsV,
    pub pins: PropsV,
    pub x: Seq<char>,
    pub y: Seq<char>,
    pub rotation: i32,
    pub mirror: i32,
}

impl View for SemanticComponent {
    type V = SemanticComponentV;

    open spec fn view(&self) -> SemanticComponentV {
        SemanticComponentV {
            name: self.name@,
            symbol: self.symbol@,
            params: self.params@,
            pins: self.pins@,
            x: self.x@,
            y: self.y@,
            rotation: self.rotation,
            mirror: self.mirror,
        }
    }
}

/// A wire and its label (empty when it has none).
#[derive(Debug)]
pub struct SemanticWire {
    pub x1: String,
    pub y1: String,
    pub x2: String,
    pub y2: String,
    pub label: String,
}

impl View for SemanticWire {
    type V = (Seq<char>, Seq<char>, Seq<char>, Seq<char>, Seq<char>);

    open spec fn view(&self) -> (Seq<char>, Seq<char>, Seq<char>, Seq<char>, Seq<char>) {
        (self.x1@, self.y1@, self.x2@, self.y2@, self.label@)
    }
}

/// Components by name, wires, and the names of the nets.
#[derive(Debug)]
pub struct SemanticSchematic {
    pub components: StrMap<SemanticComponent>,
    pub wires: Vec<SemanticWire>,
    pub nets: StrSet,
}

impl SemanticSchematic {
    /// A schematic with nothing in it.
    pub fn new() -> (r: SemanticSchematic)
        ensures
            r.components@ == Map::<Seq<char>, SemanticComponentV>::empty(),
            r.components.key_seq().len() == 0,
            r.wires@.len() == 0,
            r.nets@ == Set::<Seq<char>>::empty(),
    {
        let r = SemanticSchematic { components: StrMap::new(), wires: Vec::new(), nets: StrSet::new() };
        proof { assert(r.components@ =~= Map::<Seq<char>, SemanticComponentV>::empty()); }
        r
    }
}

impl Default for SemanticSchematic {
    fn default() -> (r: SemanticSchematic)
        ensures
            r.components@ == Map::<Seq<char>, SemanticComponentV>::empty(),
            r.wires@.len() == 0,
            r.nets@ == Set::<Seq<char>>::empty(),
    {
        SemanticSchematic::new()
    }
}

// ─── The diff ────────────────────────────────────────────────────────────────

#[derive(Clone, Copy, Debug, PartialEq, Eq, Structural)]
pub enum ChangeKind {
    Added,
    Removed,
    Modified,
}

/// One changed component.
#[derive(Debug)]
pub struct ComponentDiff {
    pub name: String,
    pub kind: ChangeKind,
    /// Only the placement changed.
    pub cosmetic: bool,
    /// Position, rotation or mirror changed, whatever else did.
    pub position_changed: bool,
    pub before: Option<Properties>,
    pub after: Option<Properties>,
}

pub struct ComponentDiffV {
    pub name: Seq<char>,
    pub kind: ChangeKind,
    pub cosmetic: bool,
    pub position_changed: bool,
    pub before: Option<PropsV>,
    pub after: Option<PropsV>,
}

pub open spec fn opt_props(o: Option<Properties>) -> Option<PropsV> {
    match o {
        Some(p) => Some(p@),
        None => None,
    }
}

impl View for ComponentDiff {
    type V = ComponentDiffV;

    open spec fn view(&self) -> ComponentDiffV {
        ComponentDiffV {
            name: self.name@,
            kind: self.kind,
            cosmetic: self.cosmetic,
            position_changed: self.position_changed,
            before: opt_props(self.before),
            after: opt_props(self.after),
        }
    }
}

/// What changed between two schematics.
#[derive(Debug)]
pub struct DiffReport {
    pub components: Vec<ComponentDiff>,
    pub nets_added: Vec<String>,
    pub nets_removed: Vec<String>,
    /// Most of the components present in both only moved.
    pub is_move_all: bool,
}

impl DiffReport {
    /// No change beyond placement: every component entry is cosmetic and no
    /// net came or went.
    pub fn is_empty(&self) -> (r: bool)
        ensures
            r == ((forall|i: int| 0 <= i < self.components@.len() ==> (#[trigger] self.components@[i]).cosmetic)
                && self.nets_added@.len() == 0 && self.nets_removed@.len() == 0),
    {
        let mut i: usize = 0;
        while i < self.components.len()
            invariant
                i <= self.components@.len(),
                forall|j: int| 0 <= j < i ==> (#[trigger] self.components@[j]).cosmetic,
            decreases self.components@.len() - i,
        {
            if !self.components[i].cosmetic {
                return false;
            }
            i = i + 1;
        }
        self.nets_added.len() == 0 && self.nets_removed.len() == 0
    }
}

// ─── Recognising a schematic ─────────────────────────────────────────────────

/// The bytes of `xschem version=`.
pub open spec fn version_marker() -> Seq<u8> {
    seq![0x78u8, 0x73, 0x63, 0x68, 0x65, 0x6d, 0x20, 0x76, 0x65, 0x72, 0x73, 0x69, 0x6f, 0x6e, 0x3d]
}

/// `xschem version=` occurs within the first 240 bytes of `content`.
pub open spec fn has_version_header(content: Seq<u8>) -> bool {
    let n = if content.len() < 240 { content.len() as int } else { 240 };
    exists|i: int| 0 <= i && i + 15 <= n && #[trigger] content.subrange(i, i + 15) == version_marker()
}

/// Whether `content` starts like an Xschem file: its header (the first 240
/// bytes) holds `xschem version=`.
pub fn is_xschem(content: &[u8]) -> (r: bool)
    ensures r == has_version_header(content@),
{
    let marker: [u8; 15] = [0x78, 0x73, 0x63, 0x68, 0x65, 0x6d, 0x20, 0x76, 0x65, 0x72, 0x73, 0x69, 0x6f, 0x6e, 0x3d];
    proof { assert(marker@ =~= version_marker()); }
    let n: usize = if content.len() < 240 { content.len() } else { 240 };
    let mut i: usize = 0;
    while i + 15 <= n
        invariant
            i <= n,
            n <= content@.len(),
            n <= 240,
            marker@ == version_marker(),
            forall|j: int| 0 <= j < i && j + 15 <= n ==> #[trigger] content@.subrange(j, j + 15) != version_marker(),
        decreases n - i,
    {
        let mut k: usize = 0;
        while k < 15 && content[i + k] == marker[k]
            invariant
                i + 15 <= n <= content@.len(),
                k <= 15,
                marker@ == version_marker(),
                forall|q: int| 0 <= q < k ==> content@[i + q] == #[trigger] marker@[q],
            decreases 15 - k,
        {
            k = k + 1;
        }
        if k == 15 {
            proof { assert(content@.subrange(i as int, i + 15) =~= version_marker()); }
            return true;
        }
        proof {
            assert(content@.subrange(i as int, i + 15)[k as int] != version_marker()[k as int]);
        }
        i = i + 1;
    }
    false
}

// ─── Similarity ──────────────────────────────────────────────────────────────

/// How alike two components' parameters are: `matching / total`.
#[derive(Clone, Copy, Debug)]
pub struct Similarity {
    /// Parameters that both have, with the same value.
    pub matching: usize,
    /// Parameters that either has.
    pub total: usize,
}

/// The parameter keys of `a` whose value `b` shares.
pub open spec fn shared_keys(a: SemanticComponent, b: SemanticComponent) -> Seq<Seq<char>> {
    a.params.key_seq().filter(|k: Seq<char>| b.params@.contains_key(k) && b.params@[k] == a.params@[k])
}

/// The parameter keys of `b` that `a` lacks.
pub open spec fn extra_keys(a: SemanticComponent, b: SemanticComponent) -> Seq<Seq<char>> {
    b.params.key_seq().filter(|k: Seq<char>| !a.params@.contains_key(k))
}

/// `(matching, total)`: zero for different symbols, one when neither has
/// parameters, else the shared entries over all keys of either.
pub open spec fn similarity(a: SemanticComponent, b: SemanticComponent) -> (int, int) {
    if a.symbol@ != b.symbol@ {
        (0, 1)
    } else if a.params.key_seq().len() == 0 && b.params.key_seq().len() == 0 {
        (1, 1)
    } else {
        (shared_keys(a, b).len() as int, (a.params.key_seq().len() + extra_keys(a, b).len()) as int)
    }
}

/// A similarity high enough for a rename: at least four fifths.
pub open spec fn rename_worthy(s: (int, int)) -> bool {
    5 * s.0 >= 4 * s.1
}

/// How alike the parameters of `a` and `b` are.
pub fn param_similarity(a: &SemanticComponent, b: &SemanticComponent) -> (r: Similarity)
    ensures
        (r.matching as int, r.total as int) == similarity(*a, *b),
        r.total > 0,
        r.matching <= r.total,
{
    if !str_eq(a.symbol.as_str(), b.symbol.as_str()) {
        return Similarity { matching: 0, total: 1 };
    }
    if a.params.is_empty() && b.params.is_empty() {
        return Similarity { matching: 1, total: 1 };
    }
    let ghost ka = a.params.key_seq();
    let ghost kb = b.params.key_seq();
    let ghost shared = |k: Seq<char>| b.params@.contains_key(k) && b.params@[k] == a.params@[k];
    let ghost extra = |k: Seq<char>| !a.params@.contains_key(k);
    let na = a.params.len();
    let nb = b.params.len();
    let mut matching: usize = 0;
    let mut all: Vec<&String> = Vec::new();
    let mut i: usize = 0;
    while i < na
        invariant
            na == ka.len(),
            ka == a.params.key_seq(),
            a.params.shape(),
            i <= na,
            matching as int == ka.take(i as int).filter(shared).len(),
            shared == (|k: Seq<char>| b.params@.contains_key(k) && b.params@[k] == a.params@[k]),
            matching <= i,
            all@.len() == i,
        decreases na - i,
    {
        let k = a.params.key_at(i);
        let v = a.params.val_at(i);
        all.push(k);
        proof {
            crate::strmap::lemma_entries_map_at(a.params.key_seq(), a.params.val_seq(), i as int);
            assert(ka.take(i + 1) =~= ka.take(i as int).push(ka[i as int]));
            ka.take(i as int).lemma_filter_push(ka[i as int], shared);   
        }
        let ghost before = matching;
        match b.params.get(k.as_str()) {
            Some(w) => {
                if str_eq(v.as_str(), w.as_str()) {
                    matching = matching + 1;
                }
            },
            None => {},
        }
        proof {
            assert(k@ == ka[i as int]);
            assert(a.params@[k@] == v@);
            if shared(ka[i as int]) {
                assert(matching == before + 1);
            } else {
                assert(matching == before);
            }
        }
        i = i + 1;
    }
    proof { assert(ka.take(na as int) =~= ka); }
    let mut j: usize = 0;
    while j < nb
        invariant
            nb == kb.len(),
            kb == b.params.key_seq(),
            b.params.shape(),
            j <= nb,
            all@.len() == na + kb.take(j as int).filter(extra).len(),
            na == 0 ==> all@.len() == j,
            extra == (|k: Seq<char>| !a.params@.contains_key(k)),
            na == a.params.key_seq().len(),
        decreases nb - j,
    {
        let k = b.params.key_at(j);
        proof {
            assert(kb.take(j + 1) =~= kb.take(j as int).push(kb[j as int]));
            kb.take(j as int).lemma_filter_push(kb[j as int], extra);
        }
        let present = a.params.contains_key(k.as_str());
        proof {
            assert(k@ == kb[j as int]);
            assert(a.params@.dom().contains(k@) == a.params.map().dom().contains(k@));
            if na == 0 {
                assert(!a.params.key_seq().contains(k@));
            }
        }
        if !present {
            all.push(k);
        }
        j = j + 1;
    }
    proof { assert(kb.take(nb as int) =~= kb); }
    Similarity { matching, total: all.len() }
}

// ─── Snapshots ───────────────────────────────────────────────────────────────

/// The decimal digits of `n`.
pub open spec fn digits_text(n: nat) -> Seq<char>
    decreases n,
{
    if n < 10 {
        seq![(('0' as u32) + n) as char]
    } else {
        digits_text(n / 10) + seq![(('0' as u32) + n % 10) as char]
    }
}

/// `i32::to_string`: the decimal text of `n`, with `-` before a negative one.
pub open spec fn int_text(n: i32) -> Seq<char> {
    if n < 0 { seq!['-'] + digits_text((-n) as nat) } else { digits_text(n as nat) }
}

fn digit_char(d: u64) -> (c: char)
    requires d < 10,
    ensures c == (('0' as u32) + d) as char,
{
    if d == 0 { '0' } else if d == 1 { '1' } else if d == 2 { '2' } else if d == 3 { '3' }
    else if d == 4 { '4' } else if d == 5 { '5' } else if d == 6 { '6' } else if d == 7 { '7' }
    else if d == 8 { '8' } else { '9' }
}

/// The decimal text of `n`.
pub fn int_to_text(n: i32) -> (r: String)
    ensures r@ == int_text(n),
{
    let neg = n < 0;
    let mut m: u64 = if neg { (0i64 - (n as i64)) as u64 } else { n as u64 };
    let ghost full: nat = m as nat;
    // The digits, last first.
    let mut rev: Vec<char> = Vec::new();
    let mut done = false;
    let ghost mut suffix: Seq<char> = Seq::empty();
    while !done
        invariant
            !done ==> digits_text(full) == digits_text(m as nat) + suffix,
            done ==> digits_text(full) == suffix,
            rev@.len() == suffix.len(),
            forall|q: int| 0 <= q < suffix.len() ==> #[trigger] suffix[q] == rev@[suffix.len() - 1 - q],
        decreases m, (if done { 0int } else { 1int }),
    {
        let d = m % 10;
        let c = digit_char(d);
        rev.push(c);
        let ghost old_m = m;
        if m < 10 {
            proof {
                assert(digits_text(m as nat) == seq![c]);
                suffix = seq![c] + suffix;
            }
            done = true;
        } else {
            m = m / 10;
            proof {
                assert(digits_text(old_m as nat) == digits_text(m as nat) + seq![c]);
                assert(digits_text(full) == digits_text(m as nat) + (seq![c] + suffix)) by {
                    assert(digits_text(m as nat) + seq![c] + suffix =~= digits_text(m as nat) + (seq![c] + suffix));
                }
                suffix = seq![c] + suffix;
            }
        }
    }
    let mut out: Vec<char> = Vec::new();
    if neg {
        out.push('-');
    }
    let ghost head = out@;
    let mut k: usize = rev.len();
    while k > 0
        invariant
            k <= rev@.len(),
            rev@.len() == suffix.len(),
            forall|q: int| 0 <= q < suffix.len() ==> #[trigger] suffix[q] == rev@[suffix.len() - 1 - q],
            out@ == head + suffix.take(rev@.len() - k),
        decreases k,
    {
        k = k - 1;
        out.push(rev[k]);
        proof {
            assert(suffix.take(rev@.len() - k) =~= suffix.take(rev@.len() - k - 1).push(suffix[rev@.len() - k - 1]));
        }
    }
    proof {
        assert(suffix.take(rev@.len() as int) =~= suffix);
        if neg {
            assert(full == (-n) as nat);
            assert(out@ =~= seq!['-'] + digits_text(full));
        } else {
            assert(out@ =~= digits_text(full));
        }
    }
    crate::text::string_of(out.as_slice(), 0, out.len())
}

/// `"pin:" + p` for each pin `p`, mapped to its net.
pub open spec fn pin_entries(pins: PropsV) -> PropsV {
    Map::new(
        |k: Seq<char>| k.len() >= 4 && k.take(4) == "pin:"@ && pins.contains_key(k.skip(4)),
        |k: Seq<char>| pins[k.skip(4)],
    )
}

/// The placement entries of a snapshot.
pub open spec fn coords_entries(c: SemanticComponent) -> PropsV {
    map!["x"@ => c.x@, "y"@ => c.y@, "rotation"@ => int_text(c.rotation), "mirror"@ => int_text(c.mirror)]
}

/// A component as a flat map: its symbol, its placement (when asked for),
/// its parameters and its pins, a later entry replacing an earlier one of
/// the same key.
pub open spec fn snapshot(c: SemanticComponent, include_coords: bool) -> PropsV {
    let base = map!["symbol"@ => c.symbol@];
    let placed = if include_coords { base.union_prefer_right(coords_entries(c)) } else { base };
    placed.union_prefer_right(c.params@).union_prefer_right(pin_entries(c.pins@))
}

proof fn lemma_pin_entries_insert(m: PropsV, k: Seq<char>, v: Seq<char>)
    ensures pin_entries(m.insert(k, v)) == pin_entries(m).insert("pin:"@ + k, v),
{
    reveal_strlit("pin:");
    let key = "pin:"@ + k;
    assert(key.take(4) =~= "pin:"@);
    assert(key.skip(4) =~= k);
    assert forall|q: Seq<char>| pin_entries(m.insert(k, v)).contains_key(q)
        == pin_entries(m).insert(key, v).contains_key(q) by {
        if q.len() >= 4 && q.take(4) == "pin:"@ && q.skip(4) == k {
            assert(q =~= key);
        }
    }
    assert forall|q: Seq<char>| #[trigger] pin_entries(m.insert(k, v)).contains_key(q)
        implies pin_entries(m.insert(k, v))[q] == pin_entries(m).insert(key, v)[q] by {
        if q.skip(4) == k {
            assert(q =~= key);
        }
    }
    assert(pin_entries(m.insert(k, v)) =~= pin_entries(m).insert(key, v));
}

/// Inserts every entry of `src`, in key order, into `out`.
fn insert_all(out: &mut Properties, src: &Properties, prefix: &str)
    ensures
        prefix@.len() == 0 ==> final(out)@ == old(out)@.union_prefer_right(src@),
        prefix@ == "pin:"@ ==> final(out)@ == old(out)@.union_prefer_right(pin_entries(src@)),
{
    let ghost start = out@;
    let ghost ks = src.key_seq();
    let ghost vs = src.val_seq();
    let n = src.len();
    let mut i: usize = 0;
    proof {
        reveal_strlit("pin:");
        assert(crate::strmap::entries_map(ks.take(0), vs.take(0)) =~= Map::<Seq<char>, String>::empty());
        assert(start.union_prefer_right(Map::<Seq<char>, Seq<char>>::empty()) =~= start);
        assert(pin_entries(Map::<Seq<char>, Seq<char>>::empty()) =~= Map::<Seq<char>, Seq<char>>::empty());
    }
    while i < n
        invariant
            n == ks.len(),
            ks == src.key_seq(),
            vs == src.val_seq(),
            src.shape(),
            i <= n,
            prefix@.len() == 0 ==> out@ == start.union_prefer_right(
                crate::strmap::entries_map(ks.take(i as int), vs.take(i as int)).map_values(|v: String| v@)),
            prefix@ == "pin:"@ ==> out@ == start.union_prefer_right(pin_entries(
                crate::strmap::entries_map(ks.take(i as int), vs.take(i as int)).map_values(|v: String| v@))),
        decreases n - i,
    {
        let k = src.key_at(i);
        let v = src.val_at(i);
        let key = crate::text::concat(prefix, k.as_str());
        let ghost m = crate::strmap::entries_map(ks.take(i as int), vs.take(i as int)).map_values(|v: String| v@);
        proof {
            crate::strmap::lemma_entries_map_take(ks, vs, i as int);
            crate::strmap::lemma_view_insert(crate::strmap::entries_map(ks.take(i as int), vs.take(i as int)), ks[i as int], vs[i as int]);
            lemma_pin_entries_insert(m, k@, v@);
            assert(start.union_prefer_right(m.insert(k@, v@)) =~= start.union_prefer_right(m).insert(k@, v@));
            assert(start.union_prefer_right(pin_entries(m).insert("pin:"@ + k@, v@))
                =~= start.union_prefer_right(pin_entries(m)).insert("pin:"@ + k@, v@));
            if prefix@.len() == 0 {
                assert(key@ =~= k@);
            }
        }
        out.insert(key, v.clone());
        i = i + 1;
    }
    proof {
        assert(ks.take(n as int) =~= ks);
        assert(vs.take(n as int) =~= vs);
    }
}

/// A component as a flat map of strings (see `snapshot`).
pub fn component_snapshot(c: &SemanticComponent, include_coords: bool) -> (r: Properties)
    ensures r@ == snapshot(*c, include_coords),
{
    let mut out: Properties = StrMap::new();
    proof { assert(out@ =~= Map::<Seq<char>, Seq<char>>::empty()); }
    out.insert("symbol".to_string(), c.symbol.clone());
    if include_coords {
        out.insert("x".to_string(), c.x.clone());
        out.insert("y".to_string(), c.y.clone());
        out.insert("rotation".to_string(), int_to_text(c.rotation));
        out.insert("mirror".to_string(), int_to_text(c.mirror));
        proof {
            assert(out@ =~= map!["symbol"@ => c.symbol@].union_prefer_right(coords_entries(*c)));
        }
    } else {
        proof { assert(out@ =~= map!["symbol"@ => c.symbol@]); }
    }
    proof { reveal_strlit(""); reveal_strlit("pin:"); }
    insert_all(&mut out, &c.params, "");
    insert_all(&mut out, &c.pins, "pin:");
    out
}

// ─── Renames ─────────────────────────────────────────────────────────────────

/// The components that a list of references points to.
pub open spec fn derefs(s: Seq<&SemanticComponent>) -> Seq<SemanticComponent> {
    s.map_values(|c: &SemanticComponent| *c)
}

/// A rename candidate: removed index, added index, and their similarity.
pub open spec fn cand_view(c: (usize, usize, Similarity)) -> (int, int, int, int) {
    (c.0 as int, c.1 as int, c.2.matching as int, c.2.total as int)
}

pub open spec fn cands_view(v: Seq<(usize, usize, Similarity)>) -> Seq<(int, int, int, int)> {
    v.map_values(|c: (usize, usize, Similarity)| cand_view(c))
}

/// The candidates pairing `a` (removed index `i`) with the components of
/// `added`, in order, that are similar enough.
pub open spec fn cand_row(a: SemanticComponent, i: int, added: Seq<SemanticComponent>) -> Seq<(int, int, int, int)>
    decreases added.len(),
{
    if added.len() == 0 {
        Seq::empty()
    } else {
        let j = added.len() - 1;
        let s = similarity(a, added[j]);
        cand_row(a, i, added.drop_last()) + (if rename_worthy(s) { seq![(i, j, s.0, s.1)] } else { Seq::empty() })
    }
}

/// Every (removed, added) pair similar enough for a rename, removed-major.
pub open spec fn candidates(removed: Seq<SemanticComponent>, added: Seq<SemanticComponent>) -> Seq<(int, int, int, int)>
    decreases removed.len(),
{
    if removed.len() == 0 {
        Seq::empty()
    } else {
        candidates(removed.drop_last(), added) + cand_row(removed.last(), removed.len() - 1, added)
    }
}

/// Candidate `x` is strictly more similar than `y`.
pub open spec fn more_similar(x: (int, int, int, int), y: (int, int, int, int)) -> bool {
    x.2 * y.3 > y.2 * x.3
}

/// `x` put into the list `s` (most similar first) after every entry at
/// least as similar as it.
pub open spec fn insert_sorted(s: Seq<(int, int, int, int)>, x: (int, int, int, int)) -> Seq<(int, int, int, int)>
    decreases s.len(),
{
    if s.len() == 0 {
        seq![x]
    } else if more_similar(x, s.last()) {
        insert_sorted(s.drop_last(), x).push(s.last())
    } else {
        s.push(x)
    }
}

/// `s` sorted, most similar first, equally similar entries in their order in `s`.
pub open spec fn sort_desc(s: Seq<(int, int, int, int)>) -> Seq<(int, int, int, int)>
    decreases s.len(),
{
    if s.len() == 0 { s } else { insert_sorted(sort_desc(s.drop_last()), s.last()) }
}

/// `c` shares its removed or its added component with an entry of `taken`.
pub open spec fn clashes(taken: Seq<(int, int, int, int)>, c: (int, int, int, int)) -> bool {
    exists|k: int| 0 <= k < taken.len() && ((#[trigger] taken[k]).0 == c.0 || taken[k].1 == c.1)
}

/// The entries of `s` taken in order, each unless it clashes with one taken before.
pub open spec fn greedy(s: Seq<(int, int, int, int)>) -> Seq<(int, int, int, int)>
    decreases s.len(),
{
    if s.len() == 0 {
        s
    } else {
        let prev = greedy(s.drop_last());
        if clashes(prev, s.last()) { prev } else { prev.push(s.last()) }
    }
}

/// The renames: candidates, most similar first, each removed and each added
/// component used at most once.
pub open spec fn renames(removed: Seq<SemanticComponent>, added: Seq<SemanticComponent>) -> Seq<(int, int, int, int)> {
    greedy(sort_desc(candidates(removed, added)))
}

proof fn lemma_insert_sorted_at(s: Seq<(int, int, int, int)>, x: (int, int, int, int), p: int)
    requires
        0 <= p <= s.len(),
        forall|q: int| p <= q < s.len() ==> more_similar(x, #[trigger] s[q]),
        p == 0 || !more_similar(x, s[p - 1]),
    ensures
        insert_sorted(s, x) == s.take(p).push(x) + s.skip(p),
    decreases s.len(),
{
    if s.len() == 0 {
        assert(s.take(p).push(x) + s.skip(p) =~= seq![x]);
    } else if more_similar(x, s.last()) {
        assert(p < s.len());
        let t = s.drop_last();
        assert forall|q: int| p <= q < t.len() implies more_similar(x, #[trigger] t[q]) by {
            assert(t[q] == s[q]);
        }
        if p > 0 { assert(t[p - 1] == s[p - 1]); }
        lemma_insert_sorted_at(t, x, p);
        assert(t.take(p).push(x) + t.skip(p) + seq![s.last()] =~= s.take(p).push(x) + s.skip(p));
        assert(insert_sorted(t, x).push(s.last()) =~= t.take(p).push(x) + t.skip(p) + seq![s.last()]);
    } else {
        if p < s.len() {
            assert(more_similar(x, s[s.len() - 1]));
        }
        assert(s.take(p).push(x) + s.skip(p) =~= s.push(x));
    }
}

/// Whether candidate `x` is strictly more similar than `y`.
fn more_similar_exec(x: &(usize, usize, Similarity), y: &(usize, usize, Similarity)) -> (r: bool)
    ensures r == more_similar(cand_view(*x), cand_view(*y)),
{
    let a = x.2.matching as u128;
    let b = y.2.total as u128;
    let c = y.2.matching as u128;
    let d = x.2.total as u128;
    proof {
        assert(a * b <= 0xffff_ffff_ffff_ffffu128 * 0xffff_ffff_ffff_ffffu128) by (nonlinear_arith)
            requires a <= 0xffff_ffff_ffff_ffffu128, b <= 0xffff_ffff_ffff_ffffu128;
        assert(c * d <= 0xffff_ffff_ffff_ffffu128 * 0xffff_ffff_ffff_ffffu128) by (nonlinear_arith)
            requires c <= 0xffff_ffff_ffff_ffffu128, d <= 0xffff_ffff_ffff_ffffu128;
    }
    a * b > c * d
}

/// Pairs removed components with added ones that look like them renamed:
/// same symbol, at least four fifths of the parameters alike. The most
/// similar pairs are taken first (in candidate order among equals), and each
/// component is used at most once. Each entry gives the old name, the new
/// name and the similarity.
pub fn detect_renames(removed: &[&SemanticComponent], added: &[&SemanticComponent]) -> (r: Vec<(String, String, Similarity)>)
    ensures
        r@.len() == renames(derefs(removed@), derefs(added@)).len(),
        forall|k: int| 0 <= k < r@.len() ==> {
            let c = #[trigger] renames(derefs(removed@), derefs(added@))[k];
            &&& 0 <= c.0 < removed@.len()
            &&& 0 <= c.1 < added@.len()
            &&& r@[k].0@ == removed@[c.0].name@
            &&& r@[k].1@ == added@[c.1].name@
            &&& r@[k].2.matching == c.2
            &&& r@[k].2.total == c.3
        },
{
    // All candidates, removed-major.
    let mut cands: Vec<(usize, usize, Similarity)> = Vec::new();
    let mut i: usize = 0;
    while i < removed.len()
        invariant
            i <= removed@.len(),
            cands_view(cands@) == candidates(derefs(removed@).take(i as int), derefs(added@)),
            forall|q: int| 0 <= q < cands@.len() ==> (#[trigger] cands@[q]).0 < removed@.len() && cands@[q].1 < added@.len(),
        decreases removed@.len() - i,
    {
        let ghost head = cands_view(cands@);
        let mut j: usize = 0;
        while j < added.len()
            invariant
                i < removed@.len(),
                j <= added@.len(),
                cands_view(cands@) == head + cand_row(*removed@[i as int], i as int, derefs(added@).take(j as int)),
                forall|q: int| 0 <= q < cands@.len() ==> (#[trigger] cands@[q]).0 < removed@.len() && cands@[q].1 < added@.len(),
            decreases added@.len() - j,
        {
            let s = param_similarity(removed[i], added[j]);
            let ghost before = cands@;
            proof {
                assert(derefs(added@).take(j + 1).drop_last() =~= derefs(added@).take(j as int));
                assert(derefs(added@).take(j + 1).last() == *added@[j as int]);
            }
            if (s.matching as u128) * 5 >= (s.total as u128) * 4 {
                cands.push((i, j, s));
                proof {
                    assert(cands_view(cands@) =~= cands_view(before).push(cand_view((i, j, s))));
                }
            }
            proof {
                assert(cands_view(cands@) =~= head + cand_row(*removed@[i as int], i as int, derefs(added@).take(j + 1)));
            }
            j = j + 1;
        }
        proof {
            assert(derefs(added@).take(j as int) =~= derefs(added@));
            assert(derefs(removed@).take(i + 1).drop_last() =~= derefs(removed@).take(i as int));
            assert(derefs(removed@).take(i + 1).last() == *removed@[i as int]);
        }
        i = i + 1;
    }
    proof { assert(derefs(removed@).take(i as int) =~= derefs(removed@)); }
    // Most similar first, stable among equals.
    let mut sorted: Vec<(usize, usize, Similarity)> = Vec::new();
    let mut k: usize = 0;
    while k < cands.len()
        invariant
            k <= cands@.len(),
            cands_view(sorted@) == sort_desc(cands_view(cands@).take(k as int)),
            forall|q: int| 0 <= q < cands@.len() ==> (#[trigger] cands@[q]).0 < removed@.len() && cands@[q].1 < added@.len(),
            forall|q: int| 0 <= q < sorted@.len() ==> (#[trigger] sorted@[q]).0 < removed@.len() && sorted@[q].1 < added@.len(),
        decreases cands@.len() - k,
    {
        let x = cands[k];
        let mut p = sorted.len();
        while p > 0 && more_similar_exec(&x, &sorted[p - 1])
            invariant
                p <= sorted@.len(),
                forall|q: int| p <= q < sorted@.len() ==> more_similar(cand_view(x), #[trigger] cands_view(sorted@)[q]),
            decreases p,
        {
            p = p - 1;
        }
        let ghost s0 = cands_view(sorted@);
        proof {
            lemma_insert_sorted_at(s0, cand_view(x), p as int);
            assert(cands_view(cands@).take(k + 1).drop_last() =~= cands_view(cands@).take(k as int));
            assert(cands_view(cands@).take(k + 1).last() == cand_view(x));
        }
        sorted.insert(p, x);
        proof {
            assert(cands_view(sorted@) =~= s0.take(p as int).push(cand_view(x)) + s0.skip(p as int));
        }
        k = k + 1;
    }
    proof { assert(cands_view(cands@).take(k as int) =~= cands_view(cands@)); }
    // Greedy matching.
    let mut taken: Vec<(usize, usize, Similarity)> = Vec::new();
    let mut k: usize = 0;
    while k < sorted.len()
        invariant
            k <= sorted@.len(),
            cands_view(taken@) == greedy(cands_view(sorted@).take(k as int)),
            forall|q: int| 0 <= q < sorted@.len() ==> (#[trigger] sorted@[q]).0 < removed@.len() && sorted@[q].1 < added@.len(),
            forall|q: int| 0 <= q < taken@.len() ==> (#[trigger] taken@[q]).0 < removed@.len() && taken@[q].1 < added@.len(),
        decreases sorted@.len() - k,
    {
        let c = sorted[k];
        let mut q: usize = 0;
        let mut clash = false;
        while q < taken.len()
            invariant
                q <= taken@.len(),
                clash == (exists|t: int| 0 <= t < q && ((#[trigger] taken@[t]).0 == c.0 || taken@[t].1 == c.1)),
            decreases taken@.len() - q,
        {
            if taken[q].0 == c.0 || taken[q].1 == c.1 {
                clash = true;
            }
            q = q + 1;
        }
        proof {
            assert(cands_view(sorted@).take(k + 1).drop_last() =~= cands_view(sorted@).take(k as int));
            assert(cands_view(sorted@).take(k + 1).last() == cand_view(c));
            let tv = cands_view(taken@);
            if clash {
                let t = choose|t: int| 0 <= t < q && ((#[trigger] taken@[t]).0 == c.0 || taken@[t].1 == c.1);
                assert(tv[t] == cand_view(taken@[t]));
                assert(clashes(tv, cand_view(c)));
            } else {
                if clashes(tv, cand_view(c)) {
                    let t = choose|t: int| 0 <= t < tv.len() && ((#[trigger] tv[t]).0 == cand_view(c).0 || tv[t].1 == cand_view(c).1);
                    assert(tv[t] == cand_view(taken@[t]));
                }
            }
        }
        let ghost before = taken@;
        if !clash {
            taken.push(c);
            proof { assert(cands_view(taken@) =~= cands_view(before).push(cand_view(c))); }
        }
        k = k + 1;
    }
    proof { assert(cands_view(sorted@).take(k as int) =~= cands_view(sorted@)); }
    // Names.
    let ghost rv = cands_view(taken@);
    let mut r: Vec<(String, String, Similarity)> = Vec::new();
    let mut k: usize = 0;
    while k < taken.len()
        invariant
            k <= taken@.len(),
            rv == cands_view(taken@),
            r@.len() == k,
            forall|q: int| 0 <= q < taken@.len() ==> (#[trigger] taken@[q]).0 < removed@.len() && taken@[q].1 < added@.len(),
            forall|q: int| 0 <= q < k ==> {
                let c = #[trigger] rv[q];
                &&& 0 <= c.0 < removed@.len()
                &&& 0 <= c.1 < added@.len()
                &&& r@[q].0@ == removed@[c.0].name@
                &&& r@[q].1@ == added@[c.1].name@
                &&& r@[q].2.matching == c.2
                &&& r@[q].2.total == c.3
            },
        decreases taken@.len() - k,
    {
        let c = taken[k];
        let from = removed[c.0].name.clone();
        let to = added[c.1].name.clone();
        r.push((from, to, c.2));
        proof { assert(rv[k as int] == cand_view(c)); }
        k = k + 1;
    }
    r
}

// ─── The diff, as a specification ────────────────────────────────────────────

/// Every component is stored under its own name.
pub open spec fn keyed_by_name(s: SemanticSchematic) -> bool {
    forall|k: Seq<char>| #[trigger] s.components@.contains_key(k) ==> s.components@[k].name == k
}

/// The component stored under `n`.
pub open spec fn comp_at(s: SemanticSchematic, n: Seq<char>) -> SemanticComponent {
    s.components.map()[n]
}

/// The component names of `s`, in increasing order.
pub open spec fn names_of(s: SemanticSchematic) -> Seq<Seq<char>> {
    s.components.key_seq()
}

pub open spec fn absent_from(y: Seq<Seq<char>>) -> spec_fn(Seq<char>) -> bool {
    |n: Seq<char>| !y.contains(n)
}

pub open spec fn present_in(y: Seq<Seq<char>>) -> spec_fn(Seq<char>) -> bool {
    |n: Seq<char>| y.contains(n)
}

/// The entries of `x` that `y` lacks, in their order.
pub open spec fn only_in(x: Seq<Seq<char>>, y: Seq<Seq<char>>) -> Seq<Seq<char>> {
    x.filter(absent_from(y))
}

/// The entries of `x` that `y` has too, in their order.
pub open spec fn in_both(x: Seq<Seq<char>>, y: Seq<Seq<char>>) -> Seq<Seq<char>> {
    x.filter(present_in(y))
}

pub open spec fn comps_named(s: SemanticSchematic, names: Seq<Seq<char>>) -> Seq<SemanticComponent> {
    names.map_values(|n: Seq<char>| comp_at(s, n))
}

/// The position, rotation or mirror differs.
pub open spec fn moved(ca: SemanticComponent, cb: SemanticComponent) -> bool {
    !same_coord(ca.x@, cb.x@) || !same_coord(ca.y@, cb.y@) || ca.rotation != cb.rotation || ca.mirror != cb.mirror
}

/// The text that `f64`'s `Display` gives for zero or for minus zero.
pub open spec fn is_zero_text(t: Seq<char>) -> bool {
    t == "0"@ || t == "-0"@
}

/// Two coordinates, written as `f64`'s `Display` writes them, stand for
/// equal numbers: the same text other than `NaN` (which equals nothing), or
/// zero and minus zero in either order.
pub open spec fn same_coord(a: Seq<char>, b: Seq<char>) -> bool {
    (a == b && a != "NaN"@) || (is_zero_text(a) && is_zero_text(b))
}

/// Whether the coordinates `a` and `b` (as `f64`'s `Display` writes them)
/// stand for equal numbers.
pub fn same_coordinate(a: &str, b: &str) -> (r: bool)
    ensures r == same_coord(a@, b@),
{
    let za = str_eq(a, "0") || str_eq(a, "-0");
    let zb = str_eq(b, "0") || str_eq(b, "-0");
    (str_eq(a, b) && !str_eq(a, "NaN")) || (za && zb)
}

fn moved_exec(ca: &SemanticComponent, cb: &SemanticComponent) -> (r: bool)
    ensures r == moved(*ca, *cb),
{
    !same_coordinate(ca.x.as_str(), cb.x.as_str()) || !same_coordinate(ca.y.as_str(), cb.y.as_str())
        || ca.rotation != cb.rotation || ca.mirror != cb.mirror
}

/// The parameters or the symbol differ.
pub open spec fn changed(ca: SemanticComponent, cb: SemanticComponent) -> bool {
    ca.params@ != cb.params@ || ca.symbol@ != cb.symbol@
}

/// The renames between the components only `a` has and those only `b` has.
pub open spec fn diff_renames(a: SemanticSchematic, b: SemanticSchematic) -> Seq<(int, int, int, int)> {
    renames(
        comps_named(a, only_in(names_of(a), names_of(b))),
        comps_named(b, only_in(names_of(b), names_of(a))),
    )
}

/// `n` is the old name (the `name` of the removed component) of one of the renames.
pub open spec fn renamed_from(rn: Seq<(int, int, int, int)>, rem: Seq<SemanticComponent>, n: Seq<char>) -> bool {
    exists|k: int| 0 <= k < rn.len() && rem[(#[trigger] rn[k]).0].name@ == n
}

/// `n` is the new name (the `name` of the added component) of one of the renames.
pub open spec fn renamed_to(rn: Seq<(int, int, int, int)>, add: Seq<SemanticComponent>, n: Seq<char>) -> bool {
    exists|k: int| 0 <= k < rn.len() && add[(#[trigger] rn[k]).1].name@ == n
}

/// The removed components, in name order.
pub open spec fn removed_comps(a: SemanticSchematic, b: SemanticSchematic) -> Seq<SemanticComponent> {
    comps_named(a, only_in(names_of(a), names_of(b)))
}

/// The added components, in name order.
pub open spec fn added_comps(a: SemanticSchematic, b: SemanticSchematic) -> Seq<SemanticComponent> {
    comps_named(b, only_in(names_of(b), names_of(a)))
}

/// The names of both components of every rename are keys of their
/// schematics: the components of a rename are looked up by their names.
pub open spec fn renames_found(a: SemanticSchematic, b: SemanticSchematic) -> bool {
    forall|k: int| 0 <= k < diff_renames(a, b).len() ==> {
        let c = #[trigger] diff_renames(a, b)[k];
        &&& a.components@.contains_key(removed_comps(a, b)[c.0].name@)
        &&& b.components@.contains_key(added_comps(a, b)[c.1].name@)
    }
}

/// The arrow between the two names of a rename.
pub open spec fn arrow() -> Seq<char> {
    seq![' ', '\u{2192}', ' ']
}

/// The entry of a rename from `na` to `nb`, where `ca` and `cb` are the
/// components stored under those names.
pub open spec fn rename_entry(na: Seq<char>, nb: Seq<char>, ca: SemanticComponent, cb: SemanticComponent) -> ComponentDiffV {
    ComponentDiffV {
        name: na + arrow() + nb,
        kind: ChangeKind::Modified,
        cosmetic: false,
        position_changed: moved(ca, cb),
        before: Some(snapshot(ca, false).insert("name"@, na)),
        after: Some(snapshot(cb, false).insert("name"@, nb)),
    }
}

pub open spec fn removed_entry(n: Seq<char>, c: SemanticComponent) -> ComponentDiffV {
    ComponentDiffV {
        name: n,
        kind: ChangeKind::Removed,
        cosmetic: false,
        position_changed: false,
        before: Some(snapshot(c, false)),
        after: None,
    }
}

pub open spec fn added_entry(n: Seq<char>, c: SemanticComponent) -> ComponentDiffV {
    ComponentDiffV {
        name: n,
        kind: ChangeKind::Added,
        cosmetic: false,
        position_changed: false,
        before: None,
        after: Some(snapshot(c, false)),
    }
}

pub open spec fn modified_entry(n: Seq<char>, ca: SemanticComponent, cb: SemanticComponent) -> ComponentDiffV {
    ComponentDiffV {
        name: n,
        kind: ChangeKind::Modified,
        cosmetic: false,
        position_changed: moved(ca, cb),
        before: Some(snapshot(ca, false)),
        after: Some(snapshot(cb, false)),
    }
}

pub open spec fn cosmetic_entry(n: Seq<char>, ca: SemanticComponent, cb: SemanticComponent) -> ComponentDiffV {
    ComponentDiffV {
        name: n,
        kind: ChangeKind::Modified,
        cosmetic: true,
        position_changed: true,
        before: Some(snapshot(ca, true)),
        after: Some(snapshot(cb, true)),
    }
}

pub open spec fn not_renamed_from(rn: Seq<(int, int, int, int)>, rem: Seq<SemanticComponent>) -> spec_fn(Seq<char>) -> bool {
    |n: Seq<char>| !renamed_from(rn, rem, n)
}

pub open spec fn not_renamed_to(rn: Seq<(int, int, int, int)>, add: Seq<SemanticComponent>) -> spec_fn(Seq<char>) -> bool {
    |n: Seq<char>| !renamed_to(rn, add, n)
}

pub open spec fn changed_in(a: SemanticSchematic, b: SemanticSchematic) -> spec_fn(Seq<char>) -> bool {
    |n: Seq<char>| changed(comp_at(a, n), comp_at(b, n))
}

pub open spec fn only_moved_in(a: SemanticSchematic, b: SemanticSchematic) -> spec_fn(Seq<char>) -> bool {
    |n: Seq<char>| !changed(comp_at(a, n), comp_at(b, n)) && moved(comp_at(a, n), comp_at(b, n))
}

/// The names only `a` has, but for the old names of renames.
pub open spec fn removed_names(a: SemanticSchematic, b: SemanticSchematic) -> Seq<Seq<char>> {
    only_in(names_of(a), names_of(b)).filter(not_renamed_from(diff_renames(a, b), removed_comps(a, b)))
}

/// The names only `b` has, but for the new names of renames.
pub open spec fn added_names(a: SemanticSchematic, b: SemanticSchematic) -> Seq<Seq<char>> {
    only_in(names_of(b), names_of(a)).filter(not_renamed_to(diff_renames(a, b), added_comps(a, b)))
}

/// Components in both whose parameters or symbol changed.
pub open spec fn changed_names(a: SemanticSchematic, b: SemanticSchematic) -> Seq<Seq<char>> {
    in_both(names_of(a), names_of(b)).filter(changed_in(a, b))
}

/// Components in both that only moved.
pub open spec fn moved_names(a: SemanticSchematic, b: SemanticSchematic) -> Seq<Seq<char>> {
    in_both(names_of(a), names_of(b)).filter(only_moved_in(a, b))
}

/// The entries of the renames, each with the components stored under the
/// old and the new name.
pub open spec fn rename_entries(a: SemanticSchematic, b: SemanticSchematic) -> Seq<ComponentDiffV> {
    let rem = removed_comps(a, b);
    let add = added_comps(a, b);
    diff_renames(a, b).map_values(|c: (int, int, int, int)|
        rename_entry(rem[c.0].name@, add[c.1].name@, comp_at(a, rem[c.0].name@), comp_at(b, add[c.1].name@)))
}

pub open spec fn removed_entry_in(a: SemanticSchematic) -> spec_fn(Seq<char>) -> ComponentDiffV {
    |n: Seq<char>| removed_entry(n, comp_at(a, n))
}

pub open spec fn added_entry_in(b: SemanticSchematic) -> spec_fn(Seq<char>) -> ComponentDiffV {
    |n: Seq<char>| added_entry(n, comp_at(b, n))
}

pub open spec fn modified_entry_in(a: SemanticSchematic, b: SemanticSchematic) -> spec_fn(Seq<char>) -> ComponentDiffV {
    |n: Seq<char>| modified_entry(n, comp_at(a, n), comp_at(b, n))
}

pub open spec fn cosmetic_entry_in(a: SemanticSchematic, b: SemanticSchematic) -> spec_fn(Seq<char>) -> ComponentDiffV {
    |n: Seq<char>| cosmetic_entry(n, comp_at(a, n), comp_at(b, n))
}

/// The component entries of the diff from `a` to `b`: renames (most similar
/// first), then removed, added and changed components (each by name), then
/// the components that only moved.
pub open spec fn diff_components(a: SemanticSchematic, b: SemanticSchematic) -> Seq<ComponentDiffV> {
    rename_entries(a, b)
        + removed_names(a, b).map_values(removed_entry_in(a))
        + added_names(a, b).map_values(added_entry_in(b))
        + changed_names(a, b).map_values(modified_entry_in(a, b))
        + moved_names(a, b).map_values(cosmetic_entry_in(a, b))
}

pub struct DiffReportV {
    pub components: Seq<ComponentDiffV>,
    pub nets_added: Seq<Seq<char>>,
    pub nets_removed: Seq<Seq<char>>,
    pub is_move_all: bool,
}

impl View for DiffReport {
    type V = DiffReportV;

    open spec fn view(&self) -> DiffReportV {
        DiffReportV {
            components: self.components@.map_values(|c: ComponentDiff| c@),
            nets_added: crate::renderer::strings_view(self.nets_added@),
            nets_removed: crate::renderer::strings_view(self.nets_removed@),
            is_move_all: self.is_move_all,
        }
    }
}

pub open spec fn not_in_set(y: Set<Seq<char>>) -> spec_fn(Seq<char>) -> bool {
    |n: Seq<char>| !y.contains(n)
}

/// The diff from `a` to `b`. Nets are compared by name, in increasing order;
/// it is a "move all" when more than four fifths of the components in both
/// only moved.
pub open spec fn diff_spec(a: SemanticSchematic, b: SemanticSchematic) -> DiffReportV {
    let common = in_both(names_of(a), names_of(b));
    DiffReportV {
        components: diff_components(a, b),
        nets_added: b.nets.elems().filter(not_in_set(a.nets@)),
        nets_removed: a.nets.elems().filter(not_in_set(b.nets@)),
        is_move_all: common.len() > 0 && 5 * moved_names(a, b).len() > 4 * common.len(),
    }
}

// ─── The diff ────────────────────────────────────────────────────────────────

proof fn lemma_filter_step<A>(x: Seq<A>, i: int, p: spec_fn(A) -> bool)
    requires 0 <= i < x.len(),
    ensures
        x.take(i + 1).filter(p) == (if p(x[i]) { x.take(i).filter(p).push(x[i]) } else { x.take(i).filter(p) }),
{
    assert(x.take(i + 1) =~= x.take(i).push(x[i]));
    x.take(i).lemma_filter_push(x[i], p);
}

proof fn lemma_keyed(s: SemanticSchematic, n: Seq<char>)
    requires
        keyed_by_name(s),
        s.components.map().contains_key(n),
    ensures
        comp_at(s, n).name@ == n,
{
    assert(s.components@.contains_key(n));
}

/// The keys of `x` that `y` lacks, and those that it has, in increasing order.
fn split_names(x: &StrMap<SemanticComponent>, y: &StrMap<SemanticComponent>) -> (r: (Vec<String>, Vec<String>))
    ensures
        crate::renderer::strings_view(r.0@) == only_in(x.key_seq(), y.key_seq()),
        crate::renderer::strings_view(r.1@) == in_both(x.key_seq(), y.key_seq()),
        forall|i: int| 0 <= i < r.0@.len() ==> x.map().contains_key(#[trigger] r.0@[i]@),
        forall|i: int| 0 <= i < r.1@.len() ==> x.map().contains_key(#[trigger] r.1@[i]@) && y.map().contains_key(r.1@[i]@),
{
    let ghost ks = x.key_seq();
    let ghost ky = y.key_seq();
    let n = x.len();
    let mut only: Vec<String> = Vec::new();
    let mut both: Vec<String> = Vec::new();
    let mut i: usize = 0;
    while i < n
        invariant
            n == ks.len(),
            ks == x.key_seq(),
            ky == y.key_seq(),
            x.shape(),
            i <= n,
            crate::renderer::strings_view(only@) == ks.take(i as int).filter(absent_from(ky)),
            crate::renderer::strings_view(both@) == ks.take(i as int).filter(present_in(ky)),
            forall|q: int| 0 <= q < only@.len() ==> x.map().contains_key(#[trigger] only@[q]@),
            forall|q: int| 0 <= q < both@.len() ==> x.map().contains_key(#[trigger] both@[q]@) && y.map().contains_key(both@[q]@),
        decreases n - i,
    {
        let k = x.key_at(i);
        let inb = y.contains_key(k.as_str());
        proof {
            lemma_filter_step(ks, i as int, absent_from(ky));
            lemma_filter_step(ks, i as int, present_in(ky));
            crate::strmap::lemma_entries_map_at(ks, x.val_seq(), i as int);
        }
        let ghost o0 = only@;
        let ghost b0 = both@;
        if !inb {
            only.push(k.clone());
            proof { assert(crate::renderer::strings_view(only@) =~= crate::renderer::strings_view(o0).push(k@)); }
        } else {
            both.push(k.clone());
            proof { assert(crate::renderer::strings_view(both@) =~= crate::renderer::strings_view(b0).push(k@)); }
        }
        i = i + 1;
    }
    proof { assert(ks.take(n as int) =~= ks); }
    (only, both)
}

/// The components stored under `names`, in order.
fn lookup_all<'a>(s: &'a SemanticSchematic, names: &Vec<String>) -> (r: Vec<&'a SemanticComponent>)
    requires
        forall|i: int| 0 <= i < names@.len() ==> s.components.map().contains_key(#[trigger] names@[i]@),
    ensures
        derefs(r@) == comps_named(*s, crate::renderer::strings_view(names@)),
{
    let ghost nv = crate::renderer::strings_view(names@);
    let mut r: Vec<&'a SemanticComponent> = Vec::new();
    let mut i: usize = 0;
    while i < names.len()
        invariant
            i <= names@.len(),
            nv == crate::renderer::strings_view(names@),
            forall|q: int| 0 <= q < names@.len() ==> s.components.map().contains_key(#[trigger] names@[q]@),
            derefs(r@) == comps_named(*s, nv.take(i as int)),
        decreases names@.len() - i,
    {
        let opt = s.components.get(names[i].as_str());
        let c = opt.unwrap();
        let ghost r0 = r@;
        r.push(c);
        proof {
            assert(*c == s.components.map()[names@[i as int]@]);
            assert(nv[i as int] == names@[i as int]@);
            assert(derefs(r@) =~= derefs(r0).push(*c));
            assert(nv.take(i + 1) =~= nv.take(i as int).push(nv[i as int]));
            assert(derefs(r@) =~= comps_named(*s, nv.take(i + 1)));
        }
        i = i + 1;
    }
    proof { assert(nv.take(i as int) =~= nv); }
    r
}

/// `a`, then `" → "`, then `b`.
fn arrow_join(a: &str, b: &str) -> (r: String)
    ensures r@ == a@ + arrow() + b@,
{
    let mut s = a.to_string();
    s.push(' ');
    s.push('\u{2192}');
    s.push(' ');
    let r = crate::text::concat(s.as_str(), b);
    proof { assert(r@ =~= a@ + arrow() + b@); }
    r
}

/// The snapshot of `c` with its name added.
fn named_snapshot(c: &SemanticComponent) -> (r: Properties)
    ensures r@ == snapshot(*c, false).insert("name"@, c.name@),
{
    let mut m = component_snapshot(c, false);
    m.insert("name".to_string(), c.name.clone());
    m
}

pub open spec fn diffs_view(v: Seq<ComponentDiff>) -> Seq<ComponentDiffV> {
    v.map_values(|c: ComponentDiff| c@)
}

/// The rename entries.
fn rename_diffs(a: &SemanticSchematic, b: &SemanticSchematic, rn: &Vec<(String, String, Similarity)>) -> (r: Vec<ComponentDiff>)
    requires
        rn@.len() == diff_renames(*a, *b).len(),
        forall|k: int| 0 <= k < rn@.len() ==> {
            let c = #[trigger] diff_renames(*a, *b)[k];
            &&& 0 <= c.0 < removed_comps(*a, *b).len()
            &&& 0 <= c.1 < added_comps(*a, *b).len()
            &&& rn@[k].0@ == removed_comps(*a, *b)[c.0].name@
            &&& rn@[k].1@ == added_comps(*a, *b)[c.1].name@
            &&& a.components.map().contains_key(rn@[k].0@)
            &&& b.components.map().contains_key(rn@[k].1@)
        },
    ensures
        diffs_view(r@) == rename_entries(*a, *b),
{
    let ghost rem = removed_comps(*a, *b);
    let ghost add = added_comps(*a, *b);
    let ghost rs = diff_renames(*a, *b);
    let ghost f = |c: (int, int, int, int)|
        rename_entry(rem[c.0].name@, add[c.1].name@, comp_at(*a, rem[c.0].name@), comp_at(*b, add[c.1].name@));
    let mut r: Vec<ComponentDiff> = Vec::new();
    let mut k: usize = 0;
    while k < rn.len()
        invariant
            k <= rn@.len(),
            rn@.len() == rs.len(),
            rs == diff_renames(*a, *b),
            rem == removed_comps(*a, *b),
            add == added_comps(*a, *b),
            f == (|c: (int, int, int, int)|
                rename_entry(rem[c.0].name@, add[c.1].name@, comp_at(*a, rem[c.0].name@), comp_at(*b, add[c.1].name@))),
            forall|q: int| 0 <= q < rn@.len() ==> {
                let c = #[trigger] rs[q];
                &&& 0 <= c.0 < rem.len()
                &&& 0 <= c.1 < add.len()
                &&& rn@[q].0@ == rem[c.0].name@
                &&& rn@[q].1@ == add[c.1].name@
                &&& a.components.map().contains_key(rn@[q].0@)
                &&& b.components.map().contains_key(rn@[q].1@)
            },
            diffs_view(r@) == rs.take(k as int).map_values(f),
        decreases rn@.len() - k,
    {
        let ghost c = rs[k as int];
        let from = &rn[k].0;
        let to = &rn[k].1;
        let ca = a.components.get(from.as_str()).unwrap();
        let cb = b.components.get(to.as_str()).unwrap();
        let name = arrow_join(from.as_str(), to.as_str());
        let moved_now = moved_exec(ca, cb);
        let mut before = component_snapshot(ca, false);
        before.insert("name".to_string(), from.clone());
        let mut after = component_snapshot(cb, false);
        after.insert("name".to_string(), to.clone());
        let d = ComponentDiff {
            name,
            kind: ChangeKind::Modified,
            cosmetic: false,
            position_changed: moved_now,
            before: Some(before),
            after: Some(after),
        };
        let ghost r0 = r@;
        r.push(d);
        proof {
            assert(*ca == comp_at(*a, rem[c.0].name@));
            assert(*cb == comp_at(*b, add[c.1].name@));
            assert(d@ == f(c));
            assert(rs.take(k + 1) =~= rs.take(k as int).push(c));
            assert(diffs_view(r@) =~= diffs_view(r0).push(d@));
        }
        k = k + 1;
    }
    proof { assert(rs.take(k as int) =~= rs); }
    r
}

/// Whether `n` is the old (`from`) or new name of one of the renames.
fn is_renamed(rn: &Vec<(String, String, Similarity)>, n: &str, from: bool) -> (r: bool)
    ensures
        from ==> r == exists|k: int| 0 <= k < rn@.len() && (#[trigger] rn@[k]).0@ == n@,
        !from ==> r == exists|k: int| 0 <= k < rn@.len() && (#[trigger] rn@[k]).1@ == n@,
{
    let mut k: usize = 0;
    while k < rn.len()
        invariant
            k <= rn@.len(),
            from ==> forall|t: int| 0 <= t < k ==> (#[trigger] rn@[t]).0@ != n@,
            !from ==> forall|t: int| 0 <= t < k ==> (#[trigger] rn@[t]).1@ != n@,
        decreases rn@.len() - k,
    {
        let hit = if from { str_eq(rn[k].0.as_str(), n) } else { str_eq(rn[k].1.as_str(), n) };
        if hit {
            return true;
        }
        k = k + 1;
    }
    false
}

/// The entries of the components only in `a` that were not renamed.
fn removed_diffs(a: &SemanticSchematic, b: &SemanticSchematic, only_a: &Vec<String>, rn: &Vec<(String, String, Similarity)>) -> (r: Vec<ComponentDiff>)
    requires
        crate::renderer::strings_view(only_a@) == only_in(names_of(*a), names_of(*b)),
        forall|i: int| 0 <= i < only_a@.len() ==> a.components.map().contains_key(#[trigger] only_a@[i]@),
        rn@.len() == diff_renames(*a, *b).len(),
        forall|k: int| 0 <= k < rn@.len() ==> {
            let c = #[trigger] diff_renames(*a, *b)[k];
            &&& 0 <= c.0 < only_a@.len()
            &&& rn@[k].0@ == removed_comps(*a, *b)[c.0].name@
        },
    ensures
        diffs_view(r@) == removed_names(*a, *b).map_values(removed_entry_in(*a)),
{
    let ghost names = only_in(names_of(*a), names_of(*b));
    let ghost rs = diff_renames(*a, *b);
    let ghost comps = removed_comps(*a, *b);
    let mut r: Vec<ComponentDiff> = Vec::new();
    let mut i: usize = 0;
    while i < only_a.len()
        invariant
            i <= only_a@.len(),
            names == crate::renderer::strings_view(only_a@),
            names == only_in(names_of(*a), names_of(*b)),
            rs == diff_renames(*a, *b),
            comps == removed_comps(*a, *b),
            comps.len() == names.len(),
            forall|q: int| 0 <= q < only_a@.len() ==> a.components.map().contains_key(#[trigger] only_a@[q]@),
            rn@.len() == rs.len(),
            forall|k: int| 0 <= k < rn@.len() ==> {
                let c = #[trigger] rs[k];
                &&& 0 <= c.0 < only_a@.len()
                &&& rn@[k].0@ == comps[c.0].name@
            },
            diffs_view(r@) == names.take(i as int).filter(not_renamed_from(rs, comps)).map_values(removed_entry_in(*a)),
        decreases only_a@.len() - i,
    {
        let n = &only_a[i];
        let hit = is_renamed(rn, n.as_str(), true);
        proof {
            assert(names[i as int] == n@);
            lemma_filter_step(names, i as int, not_renamed_from(rs, comps));
            if hit {
                let k = choose|k: int| 0 <= k < rn@.len() && (#[trigger] rn@[k]).0@ == n@;
                assert(comps[rs[k].0].name@ == n@);
                assert(renamed_from(rs, comps, n@));
            } else {
                if renamed_from(rs, comps, n@) {
                    let k = choose|k: int| 0 <= k < rs.len() && comps[(#[trigger] rs[k]).0].name@ == n@;
                    assert(rn@[k].0@ == n@);
                }
            }
        }
        if !hit {
            let c = a.components.get(n.as_str()).unwrap();
            let d = ComponentDiff {
                name: n.clone(),
                kind: ChangeKind::Removed,
                cosmetic: false,
                position_changed: false,
                before: Some(component_snapshot(c, false)),
                after: None,
            };
            let ghost r0 = r@;
            r.push(d);
            proof {
                assert(d@ == removed_entry_in(*a)(n@));
                assert(diffs_view(r@) =~= diffs_view(r0).push(d@));
            }
        }
        i = i + 1;
    }
    proof { assert(names.take(i as int) =~= names); }
    r
}

/// The entries of the components only in `b` that were not renamed.
fn added_diffs(a: &SemanticSchematic, b: &SemanticSchematic, only_b: &Vec<String>, rn: &Vec<(String, String, Similarity)>) -> (r: Vec<ComponentDiff>)
    requires
        crate::renderer::strings_view(only_b@) == only_in(names_of(*b), names_of(*a)),
        forall|i: int| 0 <= i < only_b@.len() ==> b.components.map().contains_key(#[trigger] only_b@[i]@),
        rn@.len() == diff_renames(*a, *b).len(),
        forall|k: int| 0 <= k < rn@.len() ==> {
            let c = #[trigger] diff_renames(*a, *b)[k];
            &&& 0 <= c.1 < only_b@.len()
            &&& rn@[k].1@ == added_comps(*a, *b)[c.1].name@
        },
    ensures
        diffs_view(r@) == added_names(*a, *b).map_values(added_entry_in(*b)),
{
    let ghost names = only_in(names_of(*b), names_of(*a));
    let ghost rs = diff_renames(*a, *b);
    let ghost comps = added_comps(*a, *b);
    let mut r: Vec<ComponentDiff> = Vec::new();
    let mut i: usize = 0;
    while i < only_b.len()
        invariant
            i <= only_b@.len(),
            names == crate::renderer::strings_view(only_b@),
            names == only_in(names_of(*b), names_of(*a)),
            rs == diff_renames(*a, *b),
            comps == added_comps(*a, *b),
            comps.len() == names.len(),
            forall|q: int| 0 <= q < only_b@.len() ==> b.components.map().contains_key(#[trigger] only_b@[q]@),
            rn@.len() == rs.len(),
            forall|k: int| 0 <= k < rn@.len() ==> {
                let c = #[trigger] rs[k];
                &&& 0 <= c.1 < only_b@.len()
                &&& rn@[k].1@ == comps[c.1].name@
            },
            diffs_view(r@) == names.take(i as int).filter(not_renamed_to(rs, comps)).map_values(added_entry_in(*b)),
        decreases only_b@.len() - i,
    {
        let n = &only_b[i];
        let hit = is_renamed(rn, n.as_str(), false);
        proof {
            assert(names[i as int] == n@);
            lemma_filter_step(names, i as int, not_renamed_to(rs, comps));
            if hit {
                let k = choose|k: int| 0 <= k < rn@.len() && (#[trigger] rn@[k]).1@ == n@;
                assert(comps[rs[k].1].name@ == n@);
                assert(renamed_to(rs, comps, n@));
            } else {
                if renamed_to(rs, comps, n@) {
                    let k = choose|k: int| 0 <= k < rs.len() && comps[(#[trigger] rs[k]).1].name@ == n@;
                    assert(rn@[k].1@ == n@);
                }
            }
        }
        if !hit {
            let c = b.components.get(n.as_str()).unwrap();
            let d = ComponentDiff {
                name: n.clone(),
                kind: ChangeKind::Added,
                cosmetic: false,
                position_changed: false,
                before: None,
                after: Some(component_snapshot(c, false)),
            };
            let ghost r0 = r@;
            r.push(d);
            proof {
                assert(d@ == added_entry_in(*b)(n@));
                assert(diffs_view(r@) =~= diffs_view(r0).push(d@));
            }
        }
        i = i + 1;
    }
    proof { assert(names.take(i as int) =~= names); }
    r
}

/// The entries of the components in both: those whose parameters or symbol
/// changed, and those that only moved.
fn common_diffs(a: &SemanticSchematic, b: &SemanticSchematic, common: &Vec<String>) -> (r: (Vec<ComponentDiff>, Vec<ComponentDiff>))
    requires
        crate::renderer::strings_view(common@) == in_both(names_of(*a), names_of(*b)),
        forall|i: int| 0 <= i < common@.len() ==> a.components.map().contains_key(#[trigger] common@[i]@)
            && b.components.map().contains_key(common@[i]@),
    ensures
        diffs_view(r.0@) == changed_names(*a, *b).map_values(modified_entry_in(*a, *b)),
        diffs_view(r.1@) == moved_names(*a, *b).map_values(cosmetic_entry_in(*a, *b)),
        r.1@.len() == moved_names(*a, *b).len(),
{
    let ghost names = in_both(names_of(*a), names_of(*b));
    let mut mods: Vec<ComponentDiff> = Vec::new();
    let mut moves: Vec<ComponentDiff> = Vec::new();
    let mut i: usize = 0;
    while i < common.len()
        invariant
            i <= common@.len(),
            names == crate::renderer::strings_view(common@),
            names == in_both(names_of(*a), names_of(*b)),
            forall|q: int| 0 <= q < common@.len() ==> a.components.map().contains_key(#[trigger] common@[q]@)
                && b.components.map().contains_key(common@[q]@),
            diffs_view(mods@) == names.take(i as int).filter(changed_in(*a, *b)).map_values(modified_entry_in(*a, *b)),
            diffs_view(moves@) == names.take(i as int).filter(only_moved_in(*a, *b)).map_values(cosmetic_entry_in(*a, *b)),
        decreases common@.len() - i,
    {
        let n = &common[i];
        let ca = a.components.get(n.as_str()).unwrap();
        let cb = b.components.get(n.as_str()).unwrap();
        let ch = !ca.params.same_as(&cb.params) || !str_eq(ca.symbol.as_str(), cb.symbol.as_str());
        let mv = moved_exec(ca, cb);
        proof {
            assert(names[i as int] == n@);
            assert(*ca == comp_at(*a, n@));
            assert(*cb == comp_at(*b, n@));
            lemma_filter_step(names, i as int, changed_in(*a, *b));
            lemma_filter_step(names, i as int, only_moved_in(*a, *b));
        }
        if ch {
            let d = ComponentDiff {
                name: n.clone(),
                kind: ChangeKind::Modified,
                cosmetic: false,
                position_changed: mv,
                before: Some(component_snapshot(ca, false)),
                after: Some(component_snapshot(cb, false)),
            };
            let ghost r0 = mods@;
            mods.push(d);
            proof {
                assert(d@ == modified_entry_in(*a, *b)(n@));
                assert(diffs_view(mods@) =~= diffs_view(r0).push(d@));
            }
        } else if mv {
            let d = ComponentDiff {
                name: n.clone(),
                kind: ChangeKind::Modified,
                cosmetic: true,
                position_changed: true,
                before: Some(component_snapshot(ca, true)),
                after: Some(component_snapshot(cb, true)),
            };
            let ghost r0 = moves@;
            moves.push(d);
            proof {
                assert(d@ == cosmetic_entry_in(*a, *b)(n@));
                assert(diffs_view(moves@) =~= diffs_view(r0).push(d@));
            }
        }
        i = i + 1;
    }
    proof { assert(names.take(i as int) =~= names); }
    (mods, moves)
}

/// The members of `x` that `y` lacks, in increasing order.
fn set_difference(x: &StrSet, y: &StrSet) -> (r: Vec<String>)
    ensures
        crate::renderer::strings_view(r@) == x.elems().filter(not_in_set(y@)),
        crate::order::strictly_sorted(x.elems()),
{
    let ghost es = x.elems();
    let n = x.len();
    let mut r: Vec<String> = Vec::new();
    let mut i: usize = 0;
    while i < n
        invariant
            n == es.len(),
            es == x.elems(),
            i <= n,
            crate::renderer::strings_view(r@) == es.take(i as int).filter(not_in_set(y@)),
        decreases n - i,
    {
        let k = x.at(i);
        let inside = y.contains(k.as_str());
        proof { lemma_filter_step(es, i as int, not_in_set(y@)); }
        if !inside {
            let ghost r0 = r@;
            r.push(k.clone());
            proof { assert(crate::renderer::strings_view(r@) =~= crate::renderer::strings_view(r0).push(k@)); }
        }
        i = i + 1;
    }
    proof { assert(es.take(n as int) =~= es); }
    r
}

/// Whether the components of every rename that `diff` finds are stored under
/// their own names, so that `diff` can look them up by name.
pub fn rename_names_present(sch_a: &SemanticSchematic, sch_b: &SemanticSchematic) -> (r: bool)
    ensures r == renames_found(*sch_a, *sch_b),
{
    let (only_a, _) = split_names(&sch_a.components, &sch_b.components);
    let (only_b, _) = split_names(&sch_b.components, &sch_a.components);
    let removed = lookup_all(sch_a, &only_a);
    let added = lookup_all(sch_b, &only_b);
    let rn = detect_renames(removed.as_slice(), added.as_slice());
    let ghost rem = removed_comps(*sch_a, *sch_b);
    let ghost add = added_comps(*sch_a, *sch_b);
    let ghost rs = diff_renames(*sch_a, *sch_b);
    proof {
        assert(derefs(removed@) == rem);
        assert(derefs(added@) == add);
        assert(rs == renames(derefs(removed@), derefs(added@)));
    }
    let mut k: usize = 0;
    while k < rn.len()
        invariant
            k <= rn@.len(),
            rn@.len() == rs.len(),
            rs == diff_renames(*sch_a, *sch_b),
            rem == removed_comps(*sch_a, *sch_b),
            add == added_comps(*sch_a, *sch_b),
            rem == derefs(removed@),
            add == derefs(added@),
            rs == renames(derefs(removed@), derefs(added@)),
            forall|q: int| 0 <= q < rn@.len() ==> {
                let c = #[trigger] rs[q];
                &&& 0 <= c.0 < removed@.len()
                &&& 0 <= c.1 < added@.len()
                &&& rn@[q].0@ == removed@[c.0].name@
                &&& rn@[q].1@ == added@[c.1].name@
            },
            forall|q: int| 0 <= q < k ==> {
                let c = #[trigger] rs[q];
                &&& sch_a.components@.contains_key(rem[c.0].name@)
                &&& sch_b.components@.contains_key(add[c.1].name@)
            },
        decreases rn@.len() - k,
    {
        let ghost c = rs[k as int];
        let in_a = sch_a.components.contains_key(rn[k].0.as_str());
        let in_b = sch_b.components.contains_key(rn[k].1.as_str());
        proof {
            assert(rem[c.0] == *removed@[c.0]);
            assert(add[c.1] == *added@[c.1]);
        }
        if !in_a || !in_b {
            proof {
                assert(rem[c.0].name@ == rn@[k as int].0@);
                assert(add[c.1].name@ == rn@[k as int].1@);
                if renames_found(*sch_a, *sch_b) {
                    assert(sch_a.components@.contains_key(rem[c.0].name@));
                    assert(sch_b.components@.contains_key(add[c.1].name@));
                }
            }
            return false;
        }
        k = k + 1;
    }
    true
}

/// Where every component is stored under its own name (as `semantic_view`
/// stores them), the components of every rename are found under their names.
pub proof fn lemma_keyed_renames_found(a: SemanticSchematic, b: SemanticSchematic)
    requires
        keyed_by_name(a),
        keyed_by_name(b),
    ensures
        renames_found(a, b),
{
    broadcast use vstd::seq_lib::group_filter_ensures;
    let rem = removed_comps(a, b);
    let add = added_comps(a, b);
    let oa = only_in(names_of(a), names_of(b));
    let ob = only_in(names_of(b), names_of(a));
    lemma_renames_one_to_one(rem, add);
    assert forall|k: int| 0 <= k < diff_renames(a, b).len() implies {
        let c = #[trigger] diff_renames(a, b)[k];
        &&& a.components@.contains_key(removed_comps(a, b)[c.0].name@)
        &&& b.components@.contains_key(added_comps(a, b)[c.1].name@)
    } by {
        let c = diff_renames(a, b)[k];
        assert(valid_candidate(rem, add, c));
        let na = oa[c.0];
        let nb = ob[c.1];
        assert(oa.contains(na));
        assert(ob.contains(nb));
        names_of(a).lemma_filter_contains_rev(absent_from(names_of(b)), na);
        names_of(b).lemma_filter_contains_rev(absent_from(names_of(a)), nb);
        assert(a.components.map().contains_key(na));
        assert(b.components.map().contains_key(nb));
        lemma_keyed(a, na);
        lemma_keyed(b, nb);
        assert(rem[c.0] == comp_at(a, na));
        assert(add[c.1] == comp_at(b, nb));
        assert(a.components@.contains_key(na));
        assert(b.components@.contains_key(nb));
    }
}

/// Compares two schematics: components added, removed, renamed (same
/// symbol, similar parameters), changed, or only moved; nets added and
/// removed; and whether most common components only moved.
pub fn diff(sch_a: &SemanticSchematic, sch_b: &SemanticSchematic) -> (r: DiffReport)
    requires
        renames_found(*sch_a, *sch_b),
    ensures
        r@ == diff_spec(*sch_a, *sch_b),
        crate::order::strictly_sorted(r@.nets_added),
        crate::order::strictly_sorted(r@.nets_removed),
{
    let (only_a, common) = split_names(&sch_a.components, &sch_b.components);
    let (only_b, _) = split_names(&sch_b.components, &sch_a.components);
    let removed = lookup_all(sch_a, &only_a);
    let added = lookup_all(sch_b, &only_b);
    let rn = detect_renames(removed.as_slice(), added.as_slice());
    let ghost rem = removed_comps(*sch_a, *sch_b);
    let ghost add = added_comps(*sch_a, *sch_b);
    let ghost rs = diff_renames(*sch_a, *sch_b);
    proof {
        assert(derefs(removed@) == rem);
        assert(derefs(added@) == add);
        assert(rs == renames(derefs(removed@), derefs(added@)));
        assert forall|k: int| 0 <= k < rn@.len() implies {
            let c = #[trigger] rs[k];
            &&& 0 <= c.0 < rem.len()
            &&& 0 <= c.1 < add.len()
            &&& rn@[k].0@ == rem[c.0].name@
            &&& rn@[k].1@ == add[c.1].name@
            &&& sch_a.components.map().contains_key(rn@[k].0@)
            &&& sch_b.components.map().contains_key(rn@[k].1@)
        } by {
            let c = rs[k];
            assert(sch_a.components@.contains_key(rem[c.0].name@));
            assert(sch_b.components@.contains_key(add[c.1].name@));
        }
        assert forall|k: int| 0 <= k < rn@.len() implies {
            let c = #[trigger] rs[k];
            &&& 0 <= c.0 < only_a@.len()
            &&& 0 <= c.1 < only_b@.len()
        } by {
            let c = rs[k];
        }
    }
    let mut comps = rename_diffs(sch_a, sch_b, &rn);
    let mut gone = removed_diffs(sch_a, sch_b, &only_a, &rn);
    let mut new = added_diffs(sch_a, sch_b, &only_b, &rn);
    let (mut mods, mut moves) = common_diffs(sch_a, sch_b, &common);
    let count = moves.len();
    let ghost v1 = diffs_view(comps@);
    let ghost v2 = diffs_view(gone@);
    let ghost v3 = diffs_view(new@);
    let ghost v4 = diffs_view(mods@);
    let ghost v5 = diffs_view(moves@);
    comps.append(&mut gone);
    comps.append(&mut new);
    comps.append(&mut mods);
    comps.append(&mut moves);
    let n_common = common.len();
    let is_move_all = n_common > 0 && (count as u128) * 5 > (n_common as u128) * 4;
    let nets_added = set_difference(&sch_b.nets, &sch_a.nets);
    let nets_removed = set_difference(&sch_a.nets, &sch_b.nets);
    let r = DiffReport { components: comps, nets_added, nets_removed, is_move_all };
    proof {
        lemma_filter_sorted(sch_b.nets.elems(), not_in_set(sch_a.nets@));
        lemma_filter_sorted(sch_a.nets.elems(), not_in_set(sch_b.nets@));
        assert(diffs_view(r.components@) =~= v1 + v2 + v3 + v4 + v5);
        assert(r@.components == diffs_view(r.components@));
        assert(r@.components =~= diff_components(*sch_a, *sch_b));
        assert(crate::renderer::strings_view(common@).len() == common@.len());
    }
    r
}

// ─── Laws ────────────────────────────────────────────────────────────────────

proof fn lemma_filter_none<A>(x: Seq<A>, p: spec_fn(A) -> bool)
    requires forall|i: int| 0 <= i < x.len() ==> !p(#[trigger] x[i]),
    ensures x.filter(p).len() == 0,
{
    broadcast use vstd::seq_lib::group_filter_ensures;
    if x.filter(p).len() > 0 {
        assert(p(x.filter(p)[0]));
        x.lemma_filter_contains_rev(p, x.filter(p)[0]);
    }
}

proof fn lemma_filter_all<A>(x: Seq<A>, p: spec_fn(A) -> bool)
    requires forall|i: int| 0 <= i < x.len() ==> p(#[trigger] x[i]),
    ensures x.filter(p) == x,
    decreases x.len(),
{
    reveal(Seq::filter);
    if x.len() > 0 {
        lemma_filter_all(x.drop_last(), p);
        assert(x.drop_last().push(x.last()) =~= x);
    }
}

/// No component of `s` has `NaN` for a coordinate.
pub open spec fn no_nan(s: SemanticSchematic) -> bool {
    forall|n: Seq<char>| #[trigger] s.components@.contains_key(n) ==> s.components@[n].x != "NaN"@ && s.components@[n].y != "NaN"@
}

/// A schematic compared with itself: every component entry is cosmetic (a
/// `NaN` coordinate never equals itself), and no net is added or removed.
pub proof fn lemma_diff_self_cosmetic(s: SemanticSchematic)
    ensures
        forall|i: int| 0 <= i < diff_spec(s, s).components.len() ==> (#[trigger] diff_spec(s, s).components[i]).cosmetic,
        diff_spec(s, s).components == moved_names(s, s).map_values(cosmetic_entry_in(s, s)),
        diff_spec(s, s).nets_added.len() == 0,
        diff_spec(s, s).nets_removed.len() == 0,
{
    let ns = names_of(s);
    assert forall|i: int| 0 <= i < ns.len() implies !absent_from(ns)(#[trigger] ns[i]) by {
        assert(ns.contains(ns[i]));
    }
    lemma_filter_none(ns, absent_from(ns));
    let only = only_in(ns, ns);
    assert(comps_named(s, only) =~= Seq::<SemanticComponent>::empty());
    assert(candidates(Seq::<SemanticComponent>::empty(), Seq::<SemanticComponent>::empty()).len() == 0);
    assert(diff_renames(s, s).len() == 0);
    lemma_filter_none(only, not_renamed_from(diff_renames(s, s), removed_comps(s, s)));
    lemma_filter_none(only, not_renamed_to(diff_renames(s, s), added_comps(s, s)));
    let common = in_both(ns, ns);
    assert forall|i: int| 0 <= i < common.len() implies !changed_in(s, s)(#[trigger] common[i]) by {}
    lemma_filter_none(common, changed_in(s, s));
    s.nets.lemma_elems();
    let es = s.nets.elems();
    assert forall|i: int| 0 <= i < es.len() implies !not_in_set(s.nets@)(#[trigger] es[i]) by {
        assert(es.contains(es[i]));
    }
    lemma_filter_none(es, not_in_set(s.nets@));
    let mv = moved_names(s, s);
    assert(diff_spec(s, s).components =~= mv.map_values(cosmetic_entry_in(s, s)));
}

/// A schematic without `NaN` coordinates compared with itself: no component
/// entry, no net added or removed, not a "move all" — the report is empty.
pub proof fn lemma_diff_self_empty(s: SemanticSchematic)
    requires
        no_nan(s),
    ensures
        diff_spec(s, s).components.len() == 0,
        diff_spec(s, s).nets_added.len() == 0,
        diff_spec(s, s).nets_removed.len() == 0,
        !diff_spec(s, s).is_move_all,
{
    broadcast use vstd::seq_lib::group_filter_ensures;
    lemma_diff_self_cosmetic(s);
    let ns = names_of(s);
    let common = in_both(ns, ns);
    assert forall|i: int| 0 <= i < common.len() implies !only_moved_in(s, s)(#[trigger] common[i]) by {
        let n = common[i];
        assert(ns.contains(n));
        assert(s.components.map().contains_key(n));
        assert(s.components@.contains_key(n));
        assert(s.components@[n] == comp_at(s, n)@);
    }
    lemma_filter_none(common, only_moved_in(s, s));
}

/// Two components with the same symbol and the same parameters are fully
/// alike: `matching == total`.
pub proof fn lemma_similarity_identical(a: SemanticComponent, b: SemanticComponent)
    requires
        a.symbol@ == b.symbol@,
        a.params@ == b.params@,
    ensures
        similarity(a, b).0 == similarity(a, b).1,
        similarity(a, b).1 > 0,
{
    a.params.lemma_shape();
    b.params.lemma_shape();
    let ka = a.params.key_seq();
    let kb = b.params.key_seq();
    assert forall|k: Seq<char>| ka.contains(k) <==> kb.contains(k) by {
        assert(a.params@.dom().contains(k) == ka.contains(k));
        assert(b.params@.dom().contains(k) == kb.contains(k));
    }
    crate::strmap::lemma_sorted_same_members(ka, kb);
    if ka.len() > 0 {
        let shared = |k: Seq<char>| b.params@.contains_key(k) && b.params@[k] == a.params@[k];
        let extra = |k: Seq<char>| !a.params@.contains_key(k);
        assert forall|i: int| 0 <= i < ka.len() implies shared(#[trigger] ka[i]) by {
            assert(ka.contains(ka[i]));
            assert(a.params@.contains_key(ka[i]));
        }
        lemma_filter_all(ka, shared);
        assert forall|i: int| 0 <= i < kb.len() implies !extra(#[trigger] kb[i]) by {
            assert(kb.contains(kb[i]));
            assert(b.params@.contains_key(kb[i]));
        }
        lemma_filter_none(kb, extra);
    }
}

proof fn lemma_filter_sorted(s: Seq<Seq<char>>, p: spec_fn(Seq<char>) -> bool)
    requires crate::order::strictly_sorted(s),
    ensures crate::order::strictly_sorted(s.filter(p)),
    decreases s.len(),
{
    reveal(Seq::filter);
    if s.len() > 0 {
        let t = s.drop_last();
        lemma_filter_sorted(t, p);
        let f = t.filter(p);
        if p(s.last()) {
            assert forall|i: int, j: int| 0 <= i < j < f.push(s.last()).len() implies
                crate::order::lex_lt(#[trigger] f.push(s.last())[i], #[trigger] f.push(s.last())[j]) by {
                if j == f.len() {
                    assert(f.contains(f[i]));
                    t.lemma_filter_contains_rev(p, f[i]);
                    let q = choose|q: int| 0 <= q < t.len() && t[q] == f[i];
                    assert(s[q] == f[i]);
                    assert(s[s.len() - 1] == s.last());
                } else {
                    assert(f.push(s.last())[i] == f[i]);
                    assert(f.push(s.last())[j] == f[j]);
                }
            }
        }
    }
}

proof fn lemma_filter_members(s: Seq<Seq<char>>, p: spec_fn(Seq<char>) -> bool, x: Seq<char>)
    ensures s.filter(p).contains(x) <==> (s.contains(x) && p(x)),
{
    broadcast use vstd::seq_lib::group_filter_ensures;
    if s.filter(p).contains(x) {
        s.lemma_filter_contains_rev(p, x);
        let j = choose|j: int| 0 <= j < s.filter(p).len() && s.filter(p)[j] == x;
        assert(p(s.filter(p)[j]));
    }
    if s.contains(x) && p(x) {
        let i = choose|i: int| 0 <= i < s.len() && s[i] == x;
        s.lemma_filter_contains(p, i);
    }
}

proof fn lemma_filter_partition(s: Seq<Seq<char>>, p: spec_fn(Seq<char>) -> bool, q: spec_fn(Seq<char>) -> bool)
    requires forall|x: Seq<char>| #[trigger] q(x) == !p(x),
    ensures s.filter(p).len() + s.filter(q).len() == s.len(),
    decreases s.len(),
{
    if s.len() > 0 {
        lemma_filter_partition(s.drop_last(), p, q);
        assert(s.drop_last().push(s.last()) =~= s);
        s.drop_last().lemma_filter_push(s.last(), p);
        s.drop_last().lemma_filter_push(s.last(), q);
        assert(q(s.last()) == !p(s.last()));
    }
}

/// Similarity does not depend on the order of the two components.
pub proof fn lemma_similarity_symmetric(a: SemanticComponent, b: SemanticComponent)
    ensures
        similarity(a, b) == similarity(b, a),
{
    a.params.lemma_shape();
    b.params.lemma_shape();
    let ka = a.params.key_seq();
    let kb = b.params.key_seq();
    if a.symbol@ == b.symbol@ && !(ka.len() == 0 && kb.len() == 0) {
        assert forall|k: Seq<char>| #[trigger] ka.contains(k) <==> a.params@.contains_key(k) by {
            assert(a.params@.dom().contains(k) == ka.contains(k));
        }
        assert forall|k: Seq<char>| #[trigger] kb.contains(k) <==> b.params@.contains_key(k) by {
            assert(b.params@.dom().contains(k) == kb.contains(k));
        }
        // The shared entries, read from either side, are the same sequence.
        let sab = |k: Seq<char>| b.params@.contains_key(k) && b.params@[k] == a.params@[k];
        let sba = |k: Seq<char>| a.params@.contains_key(k) && a.params@[k] == b.params@[k];
        lemma_filter_sorted(ka, sab);
        lemma_filter_sorted(kb, sba);
        assert forall|k: Seq<char>| ka.filter(sab).contains(k) <==> kb.filter(sba).contains(k) by {
            lemma_filter_members(ka, sab, k);
            lemma_filter_members(kb, sba, k);
        }
        crate::strmap::lemma_sorted_same_members(ka.filter(sab), kb.filter(sba));
        assert(shared_keys(a, b) == ka.filter(sab));
        assert(shared_keys(b, a) == kb.filter(sba));
        // So are the keys both have.
        let in_b = |k: Seq<char>| b.params@.contains_key(k);
        let in_a = |k: Seq<char>| a.params@.contains_key(k);
        let not_in_b = |k: Seq<char>| !b.params@.contains_key(k);
        let not_in_a = |k: Seq<char>| !a.params@.contains_key(k);
        lemma_filter_sorted(ka, in_b);
        lemma_filter_sorted(kb, in_a);
        assert forall|k: Seq<char>| ka.filter(in_b).contains(k) <==> kb.filter(in_a).contains(k) by {
            lemma_filter_members(ka, in_b, k);
            lemma_filter_members(kb, in_a, k);
        }
        crate::strmap::lemma_sorted_same_members(ka.filter(in_b), kb.filter(in_a));
        lemma_filter_partition(ka, in_b, not_in_b);
        lemma_filter_partition(kb, in_a, not_in_a);
        assert(extra_keys(a, b) == kb.filter(not_in_a));
        assert(extra_keys(b, a) == ka.filter(not_in_b));
    }
}

/// The nets reported added are exactly those of `b` that `a` lacks, and the
/// nets reported removed exactly those of `a` that `b` lacks, each list in
/// increasing order; the nets added from `a` to `b` are those removed from
/// `b` to `a`.
pub proof fn lemma_diff_nets(a: SemanticSchematic, b: SemanticSchematic)
    ensures
        forall|n: Seq<char>| diff_spec(a, b).nets_added.contains(n) <==> (b.nets@.contains(n) && !a.nets@.contains(n)),
        forall|n: Seq<char>| diff_spec(a, b).nets_removed.contains(n) <==> (a.nets@.contains(n) && !b.nets@.contains(n)),
        crate::order::strictly_sorted(diff_spec(a, b).nets_added),
        crate::order::strictly_sorted(diff_spec(a, b).nets_removed),
        diff_spec(a, b).nets_added == diff_spec(b, a).nets_removed,
{
    broadcast use vstd::seq_lib::group_filter_ensures;
    a.nets.lemma_elems();
    b.nets.lemma_elems();
    a.nets.lemma_sorted();
    b.nets.lemma_sorted();
    lemma_filter_sorted(b.nets.elems(), not_in_set(a.nets@));
    lemma_filter_sorted(a.nets.elems(), not_in_set(b.nets@));
    let ea = a.nets.elems();
    let eb = b.nets.elems();
    assert forall|n: Seq<char>| diff_spec(a, b).nets_added.contains(n) <==> (b.nets@.contains(n) && !a.nets@.contains(n)) by {
        let f = eb.filter(not_in_set(a.nets@));
        if f.contains(n) {
            let j = choose|j: int| 0 <= j < f.len() && f[j] == n;
            assert(not_in_set(a.nets@)(f[j]));
            eb.lemma_filter_contains_rev(not_in_set(a.nets@), n);
        }
        if b.nets@.contains(n) && !a.nets@.contains(n) {
            assert(eb.contains(n));
            let i = choose|i: int| 0 <= i < eb.len() && eb[i] == n;
            eb.lemma_filter_contains(not_in_set(a.nets@), i);
        }
    }
    assert forall|n: Seq<char>| diff_spec(a, b).nets_removed.contains(n) <==> (a.nets@.contains(n) && !b.nets@.contains(n)) by {
        let f = ea.filter(not_in_set(b.nets@));
        if f.contains(n) {
            let j = choose|j: int| 0 <= j < f.len() && f[j] == n;
            assert(not_in_set(b.nets@)(f[j]));
            ea.lemma_filter_contains_rev(not_in_set(b.nets@), n);
        }
        if a.nets@.contains(n) && !b.nets@.contains(n) {
            assert(ea.contains(n));
            let i = choose|i: int| 0 <= i < ea.len() && ea[i] == n;
            ea.lemma_filter_contains(not_in_set(b.nets@), i);
        }
    }
}

/// A candidate of the rename search for the components `rem` and `add`:
/// indices within range, the similarity of that pair, and high enough.
pub open spec fn valid_candidate(rem: Seq<SemanticComponent>, add: Seq<SemanticComponent>, c: (int, int, int, int)) -> bool {
    &&& 0 <= c.0 < rem.len()
    &&& 0 <= c.1 < add.len()
    &&& (c.2, c.3) == similarity(rem[c.0], add[c.1])
    &&& rename_worthy((c.2, c.3))
}

proof fn lemma_cand_row(a: SemanticComponent, i: int, rem: Seq<SemanticComponent>, add: Seq<SemanticComponent>, full: Seq<SemanticComponent>)
    requires
        0 <= i < rem.len(),
        rem[i] == a,
        add.len() <= full.len(),
        forall|j: int| 0 <= j < add.len() ==> add[j] == full[j],
    ensures
        forall|k: int| 0 <= k < cand_row(a, i, add).len() ==> valid_candidate(rem, full, #[trigger] cand_row(a, i, add)[k]),
    decreases add.len(),
{
    if add.len() > 0 {
        lemma_cand_row(a, i, rem, add.drop_last(), full);
        let prev = cand_row(a, i, add.drop_last());
        assert forall|k: int| 0 <= k < cand_row(a, i, add).len() implies valid_candidate(rem, full, #[trigger] cand_row(a, i, add)[k]) by {
            if k < prev.len() {
                assert(cand_row(a, i, add)[k] == prev[k]);
            }
        }
    }
}

proof fn lemma_candidates_valid(rem: Seq<SemanticComponent>, add: Seq<SemanticComponent>, full: Seq<SemanticComponent>)
    requires
        rem.len() <= full.len(),
        forall|j: int| 0 <= j < rem.len() ==> rem[j] == full[j],
    ensures
        forall|k: int| 0 <= k < candidates(rem, add).len() ==> valid_candidate(full, add, #[trigger] candidates(rem, add)[k]),
    decreases rem.len(),
{
    if rem.len() > 0 {
        lemma_candidates_valid(rem.drop_last(), add, full);
        lemma_cand_row(rem.last(), rem.len() - 1, full, add, add);
        let prev = candidates(rem.drop_last(), add);
        let row = cand_row(rem.last(), rem.len() - 1, add);
        assert forall|k: int| 0 <= k < candidates(rem, add).len() implies valid_candidate(full, add, #[trigger] candidates(rem, add)[k]) by {
            if k < prev.len() {
                assert(candidates(rem, add)[k] == prev[k]);
            } else {
                assert(candidates(rem, add)[k] == row[k - prev.len()]);
            }
        }
    }
}

proof fn lemma_insert_sorted_from(s: Seq<(int, int, int, int)>, x: (int, int, int, int))
    ensures
        forall|k: int| 0 <= k < insert_sorted(s, x).len() ==>
            #[trigger] insert_sorted(s, x)[k] == x || s.contains(insert_sorted(s, x)[k]),
    decreases s.len(),
{
    if s.len() > 0 {
        if more_similar(x, s.last()) {
            lemma_insert_sorted_from(s.drop_last(), x);
            let t = insert_sorted(s.drop_last(), x);
            assert forall|k: int| 0 <= k < insert_sorted(s, x).len() implies
                #[trigger] insert_sorted(s, x)[k] == x || s.contains(insert_sorted(s, x)[k]) by {
                if k < t.len() {
                    assert(insert_sorted(s, x)[k] == t[k]);
                    if t[k] != x {
                        let j = choose|j: int| 0 <= j < s.drop_last().len() && s.drop_last()[j] == t[k];
                        assert(s[j] == t[k]);
                    }
                } else {
                    assert(s[s.len() - 1] == s.last());
                }
            }
        } else {
            assert forall|k: int| 0 <= k < insert_sorted(s, x).len() implies
                #[trigger] insert_sorted(s, x)[k] == x || s.contains(insert_sorted(s, x)[k]) by {
                if k < s.len() {
                    assert(insert_sorted(s, x)[k] == s[k]);
                }
            }
        }
    }
}

proof fn lemma_sort_desc_from(s: Seq<(int, int, int, int)>)
    ensures
        forall|k: int| 0 <= k < sort_desc(s).len() ==> s.contains(#[trigger] sort_desc(s)[k]),
    decreases s.len(),
{
    if s.len() > 0 {
        lemma_sort_desc_from(s.drop_last());
        let t = sort_desc(s.drop_last());
        lemma_insert_sorted_from(t, s.last());
        assert forall|k: int| 0 <= k < sort_desc(s).len() implies s.contains(#[trigger] sort_desc(s)[k]) by {
            let e = sort_desc(s)[k];
            if e == s.last() {
                assert(s[s.len() - 1] == e);
            } else {
                let j = choose|j: int| 0 <= j < t.len() && t[j] == e;
                assert(s.drop_last().contains(t[j]));
                let q = choose|q: int| 0 <= q < s.drop_last().len() && s.drop_last()[q] == e;
                assert(s[q] == e);
            }
        }
    }
}

proof fn lemma_greedy(s: Seq<(int, int, int, int)>)
    ensures
        forall|k: int| 0 <= k < greedy(s).len() ==> s.contains(#[trigger] greedy(s)[k]),
        forall|k1: int, k2: int| 0 <= k1 < k2 < greedy(s).len() ==>
            (#[trigger] greedy(s)[k1]).0 != (#[trigger] greedy(s)[k2]).0 && greedy(s)[k1].1 != greedy(s)[k2].1,
    decreases s.len(),
{
    if s.len() > 0 {
        lemma_greedy(s.drop_last());
        let prev = greedy(s.drop_last());
        assert forall|k: int| 0 <= k < greedy(s).len() implies s.contains(#[trigger] greedy(s)[k]) by {
            if k < prev.len() {
                assert(greedy(s)[k] == prev[k]);
                let q = choose|q: int| 0 <= q < s.drop_last().len() && s.drop_last()[q] == prev[k];
                assert(s[q] == prev[k]);
            } else {
                assert(s[s.len() - 1] == s.last());
            }
        }
        if !clashes(prev, s.last()) {
            assert forall|k1: int, k2: int| 0 <= k1 < k2 < greedy(s).len() implies
                (#[trigger] greedy(s)[k1]).0 != (#[trigger] greedy(s)[k2]).0 && greedy(s)[k1].1 != greedy(s)[k2].1 by {
                assert(greedy(s)[k1] == prev[k1]);
                if k2 < prev.len() {
                    assert(greedy(s)[k2] == prev[k2]);
                } else {
                    assert(!((prev[k1]).0 == s.last().0 || prev[k1].1 == s.last().1));
                }
            }
        }
    }
}

/// The renames pair each removed component with at most one added one and
/// each added component with at most one removed one; each pair has the
/// same symbol and at least four fifths of its parameters alike, and the
/// similarity reported is that of the pair.
pub proof fn lemma_renames_one_to_one(removed: Seq<SemanticComponent>, added: Seq<SemanticComponent>)
    ensures
        forall|k: int| 0 <= k < renames(removed, added).len() ==>
            valid_candidate(removed, added, #[trigger] renames(removed, added)[k]),
        forall|k1: int, k2: int| 0 <= k1 < k2 < renames(removed, added).len() ==>
            (#[trigger] renames(removed, added)[k1]).0 != (#[trigger] renames(removed, added)[k2]).0
            && renames(removed, added)[k1].1 != renames(removed, added)[k2].1,
        forall|k: int| 0 <= k < renames(removed, added).len() ==>
            removed[(#[trigger] renames(removed, added)[k]).0].symbol@ == added[renames(removed, added)[k].1].symbol@,
{
    let c = candidates(removed, added);
    lemma_candidates_valid(removed, added, removed);
    lemma_sort_desc_from(c);
    lemma_greedy(sort_desc(c));
    let g = renames(removed, added);
    assert forall|k: int| 0 <= k < g.len() implies valid_candidate(removed, added, #[trigger] g[k]) by {
        let e = g[k];
        let q = choose|q: int| 0 <= q < sort_desc(c).len() && sort_desc(c)[q] == e;
        assert(c.contains(sort_desc(c)[q]));
        let p = choose|p: int| 0 <= p < c.len() && c[p] == e;
        assert(valid_candidate(removed, added, c[p]));
    }
    assert forall|k: int| 0 <= k < g.len() implies
        removed[(#[trigger] g[k]).0].symbol@ == added[g[k].1].symbol@ by {
        assert(valid_candidate(removed, added, g[k]));
        let sim = similarity(removed[g[k].0], added[g[k].1]);
        if removed[g[k].0].symbol@ != added[g[k].1].symbol@ {
            assert(sim == (0int, 1int));
        }
    }
}

/// Every similarity is a fraction between zero and one: its total is
/// positive, and at most that many parameters match.
pub proof fn lemma_similarity_total(a: SemanticComponent, b: SemanticComponent)
    ensures
        similarity(a, b).1 > 0,
        0 <= similarity(a, b).0 <= similarity(a, b).1,
{
    broadcast use vstd::seq_lib::group_filter_ensures;
    if a.symbol@ == b.symbol@ && !(a.params.key_seq().len() == 0 && b.params.key_seq().len() == 0) {
        if a.params.key_seq().len() == 0 {
            let kb = b.params.key_seq();
            let extra = |k: Seq<char>| !a.params@.contains_key(k);
            assert forall|i: int| 0 <= i < kb.len() implies extra(#[trigger] kb[i]) by {
                if a.params@.contains_key(kb[i]) {
                    assert(a.params.key_seq().contains(kb[i]));
                }
            }
            lemma_filter_all(kb, extra);
            assert(extra_keys(a, b) == kb.filter(extra));
        }
    }
}

/// Each entry is at most as similar as every entry before it.
pub open spec fn similarity_non_increasing(s: Seq<(int, int, int, int)>) -> bool {
    forall|i: int, j: int| 0 <= i < j < s.len() ==> !more_similar(#[trigger] s[j], #[trigger] s[i])
}

pub open spec fn totals_positive(s: Seq<(int, int, int, int)>) -> bool {
    forall|i: int| 0 <= i < s.len() ==> (#[trigger] s[i]).3 > 0
}

proof fn lemma_at_most_transitive(x: (int, int, int, int), y: (int, int, int, int), z: (int, int, int, int))
    requires
        x.3 > 0,
        y.3 > 0,
        z.3 > 0,
        !more_similar(x, y),
        !more_similar(y, z),
    ensures
        !more_similar(x, z),
{
    let (a, b, c, d, e, f) = (x.2, x.3, y.2, y.3, z.2, z.3);
    assert(a * f <= e * b) by (nonlinear_arith)
        requires a * d <= c * b, c * f <= e * d, b > 0, d > 0, f > 0,
    {
        assert(a * d * f <= c * b * f);
        assert(c * f * b <= e * d * b);
        assert(a * f * d <= e * b * d);
    }
}

proof fn lemma_insert_sorted_order(s: Seq<(int, int, int, int)>, x: (int, int, int, int))
    requires
        similarity_non_increasing(s),
        totals_positive(s),
        x.3 > 0,
    ensures
        similarity_non_increasing(insert_sorted(s, x)),
    decreases s.len(),
{
    if s.len() > 0 {
        let l = s.last();
        assert(s[s.len() - 1] == l);
        if more_similar(x, l) {
            let d = s.drop_last();
            assert(similarity_non_increasing(d)) by {
                assert forall|i: int, j: int| 0 <= i < j < d.len() implies !more_similar(#[trigger] d[j], #[trigger] d[i]) by {
                    assert(d[i] == s[i] && d[j] == s[j]);
                }
            }
            lemma_insert_sorted_order(d, x);
            lemma_insert_sorted_from(d, x);
            let t = insert_sorted(d, x);
            let r = insert_sorted(s, x);
            assert(r == t.push(l));
            assert forall|i: int, j: int| 0 <= i < j < r.len() implies !more_similar(#[trigger] r[j], #[trigger] r[i]) by {
                if j < t.len() {
                    assert(r[i] == t[i] && r[j] == t[j]);
                } else {
                    assert(r[j] == l);
                    assert(r[i] == t[i]);
                    if t[i] != x {
                        assert(d.contains(t[i]));
                        let q = choose|q: int| 0 <= q < d.len() && d[q] == t[i];
                        assert(s[q] == t[i]);
                    }
                }
            }
        } else {
            let r = s.push(x);
            assert forall|i: int, j: int| 0 <= i < j < r.len() implies !more_similar(#[trigger] r[j], #[trigger] r[i]) by {
                if j < s.len() {
                    assert(r[i] == s[i] && r[j] == s[j]);
                } else {
                    assert(r[i] == s[i]);
                    if i < s.len() - 1 {
                        assert(!more_similar(s[s.len() - 1], s[i]));
                        lemma_at_most_transitive(x, l, s[i]);
                    }
                }
            }
        }
    }
}

proof fn lemma_sort_desc_order(s: Seq<(int, int, int, int)>)
    requires
        totals_positive(s),
    ensures
        similarity_non_increasing(sort_desc(s)),
    decreases s.len(),
{
    if s.len() > 0 {
        let d = s.drop_last();
        assert(totals_positive(d)) by {
            assert forall|i: int| 0 <= i < d.len() implies (#[trigger] d[i]).3 > 0 by { assert(d[i] == s[i]); }
        }
        lemma_sort_desc_order(d);
        lemma_sort_desc_from(d);
        let t = sort_desc(d);
        assert(totals_positive(t)) by {
            assert forall|i: int| 0 <= i < t.len() implies (#[trigger] t[i]).3 > 0 by {
                assert(d.contains(t[i]));
                let q = choose|q: int| 0 <= q < d.len() && d[q] == t[i];
            }
        }
        assert(s[s.len() - 1] == s.last());
        lemma_insert_sorted_order(t, s.last());
    }
}

proof fn lemma_greedy_order(s: Seq<(int, int, int, int)>)
    requires
        similarity_non_increasing(s),
    ensures
        similarity_non_increasing(greedy(s)),
    decreases s.len(),
{
    if s.len() > 0 {
        let d = s.drop_last();
        assert(similarity_non_increasing(d)) by {
            assert forall|i: int, j: int| 0 <= i < j < d.len() implies !more_similar(#[trigger] d[j], #[trigger] d[i]) by {
                assert(d[i] == s[i] && d[j] == s[j]);
            }
        }
        lemma_greedy_order(d);
        lemma_greedy(d);
        let prev = greedy(d);
        if !clashes(prev, s.last()) {
            let r = greedy(s);
            assert(r == prev.push(s.last()));
            assert forall|i: int, j: int| 0 <= i < j < r.len() implies !more_similar(#[trigger] r[j], #[trigger] r[i]) by {
                assert(r[i] == prev[i]);
                if j < prev.len() {
                    assert(r[j] == prev[j]);
                } else {
                    assert(d.contains(prev[i]));
                    let q = choose|q: int| 0 <= q < d.len() && d[q] == prev[i];
                    assert(s[q] == prev[i]);
                    assert(s[s.len() - 1] == s.last());
                }
            }
        }
    }
}

/// Every entry of `s` shares a component with an entry that `greedy` took.
proof fn lemma_greedy_covers(s: Seq<(int, int, int, int)>)
    ensures
        forall|i: int| 0 <= i < s.len() ==> clashes(greedy(s), #[trigger] s[i]),
    decreases s.len(),
{
    if s.len() > 0 {
        let d = s.drop_last();
        lemma_greedy_covers(d);
        let prev = greedy(d);
        assert forall|i: int| 0 <= i < s.len() implies clashes(greedy(s), #[trigger] s[i]) by {
            if i < d.len() {
                assert(d[i] == s[i]);
                assert(clashes(prev, d[i]));
                let k = choose|k: int| 0 <= k < prev.len() && ((#[trigger] prev[k]).0 == d[i].0 || prev[k].1 == d[i].1);
                assert(greedy(s)[k] == prev[k]);
            } else if !clashes(prev, s.last()) {
                assert(greedy(s)[prev.len() as int] == s.last());
            }
        }
    }
}

proof fn lemma_insert_sorted_keeps(s: Seq<(int, int, int, int)>, x: (int, int, int, int))
    ensures
        insert_sorted(s, x).contains(x),
        forall|i: int| 0 <= i < s.len() ==> insert_sorted(s, x).contains(#[trigger] s[i]),
    decreases s.len(),
{
    if s.len() == 0 {
        assert(insert_sorted(s, x)[0] == x);
    } else if more_similar(x, s.last()) {
        let d = s.drop_last();
        lemma_insert_sorted_keeps(d, x);
        let t = insert_sorted(d, x);
        let r = insert_sorted(s, x);
        let p = choose|p: int| 0 <= p < t.len() && t[p] == x;
        assert(r[p] == x);
        assert forall|i: int| 0 <= i < s.len() implies r.contains(#[trigger] s[i]) by {
            if i < d.len() {
                assert(d[i] == s[i]);
                let q = choose|q: int| 0 <= q < t.len() && t[q] == d[i];
                assert(r[q] == s[i]);
            } else {
                assert(r[t.len() as int] == s[i]);
            }
        }
    } else {
        let r = s.push(x);
        assert(r[s.len() as int] == x);
        assert forall|i: int| 0 <= i < s.len() implies r.contains(#[trigger] s[i]) by {
            assert(r[i] == s[i]);
        }
    }
}

proof fn lemma_sort_desc_keeps(s: Seq<(int, int, int, int)>)
    ensures
        forall|i: int| 0 <= i < s.len() ==> sort_desc(s).contains(#[trigger] s[i]),
    decreases s.len(),
{
    if s.len() > 0 {
        let d = s.drop_last();
        lemma_sort_desc_keeps(d);
        let t = sort_desc(d);
        lemma_insert_sorted_keeps(t, s.last());
        assert forall|i: int| 0 <= i < s.len() implies sort_desc(s).contains(#[trigger] s[i]) by {
            if i < d.len() {
                assert(d[i] == s[i]);
                let q = choose|q: int| 0 <= q < t.len() && t[q] == d[i];
                assert(insert_sorted(t, s.last()).contains(t[q]));
            } else {
                assert(s[i] == s.last());
            }
        }
    }
}

proof fn lemma_cand_row_has(a: SemanticComponent, i: int, add: Seq<SemanticComponent>, j: int)
    requires
        0 <= j < add.len(),
        rename_worthy(similarity(a, add[j])),
    ensures
        cand_row(a, i, add).contains((i, j, similarity(a, add[j]).0, similarity(a, add[j]).1)),
    decreases add.len(),
{
    let e = (i, j, similarity(a, add[j]).0, similarity(a, add[j]).1);
    let prev = cand_row(a, i, add.drop_last());
    let r = cand_row(a, i, add);
    if j == add.len() - 1 {
        assert(r[prev.len() as int] == e);
    } else {
        assert(add.drop_last()[j] == add[j]);
        lemma_cand_row_has(a, i, add.drop_last(), j);
        let q = choose|q: int| 0 <= q < prev.len() && prev[q] == e;
        assert(r[q] == e);
    }
}

proof fn lemma_candidates_has(rem: Seq<SemanticComponent>, add: Seq<SemanticComponent>, i: int, j: int)
    requires
        0 <= i < rem.len(),
        0 <= j < add.len(),
        rename_worthy(similarity(rem[i], add[j])),
    ensures
        candidates(rem, add).contains((i, j, similarity(rem[i], add[j]).0, similarity(rem[i], add[j]).1)),
    decreases rem.len(),
{
    let e = (i, j, similarity(rem[i], add[j]).0, similarity(rem[i], add[j]).1);
    let prev = candidates(rem.drop_last(), add);
    let row = cand_row(rem.last(), rem.len() - 1, add);
    let r = candidates(rem, add);
    assert(r == prev + row);
    if i == rem.len() - 1 {
        assert(rem[i] == rem.last());
        lemma_cand_row_has(rem.last(), i, add, j);
        let q = choose|q: int| 0 <= q < row.len() && row[q] == e;
        assert(r[prev.len() + q] == e);
    } else {
        assert(rem.drop_last()[i] == rem[i]);
        lemma_candidates_has(rem.drop_last(), add, i, j);
        let q = choose|q: int| 0 <= q < prev.len() && prev[q] == e;
        assert(r[q] == e);
    }
}

/// The renames are taken most similar first: no rename is more similar than
/// one listed before it. And no more could be added: every pair of a
/// removed and an added component similar enough for a rename shares its
/// removed or its added component with one of the renames.
pub proof fn lemma_renames_greedy(removed: Seq<SemanticComponent>, added: Seq<SemanticComponent>)
    ensures
        similarity_non_increasing(renames(removed, added)),
        forall|i: int, j: int| 0 <= i < removed.len() && 0 <= j < added.len()
            && rename_worthy(#[trigger] similarity(removed[i], added[j])) ==>
            exists|k: int| 0 <= k < renames(removed, added).len()
                && ((#[trigger] renames(removed, added)[k]).0 == i || renames(removed, added)[k].1 == j),
{
    let c = candidates(removed, added);
    lemma_candidates_valid(removed, added, removed);
    assert(totals_positive(c)) by {
        assert forall|q: int| 0 <= q < c.len() implies (#[trigger] c[q]).3 > 0 by {
            assert(valid_candidate(removed, added, c[q]));
            lemma_similarity_total(removed[c[q].0], added[c[q].1]);
        }
    }
    lemma_sort_desc_order(c);
    lemma_greedy_order(sort_desc(c));
    lemma_sort_desc_keeps(c);
    lemma_greedy_covers(sort_desc(c));
    let g = renames(removed, added);
    assert forall|i: int, j: int| 0 <= i < removed.len() && 0 <= j < added.len()
        && rename_worthy(#[trigger] similarity(removed[i], added[j])) implies
        exists|k: int| 0 <= k < g.len() && ((#[trigger] g[k]).0 == i || g[k].1 == j) by {
        let e = (i, j, similarity(removed[i], added[j]).0, similarity(removed[i], added[j]).1);
        lemma_candidates_has(removed, added, i, j);
        let p = choose|p: int| 0 <= p < c.len() && c[p] == e;
        assert(sort_desc(c).contains(c[p]));
        let q = choose|q: int| 0 <= q < sort_desc(c).len() && sort_desc(c)[q] == e;
        assert(clashes(g, sort_desc(c)[q]));
    }
}

/// How the diff sorts the components, where each is stored under its own
/// name: a name only `a` has is reported removed exactly when it is not the
/// old name of a rename, and one only `b` has added exactly when it is not
/// the new name of a rename; each rename goes from a name only `a` has to a
/// name only `b` has, with the same symbol, and no name is the old (or the
/// new) name of two renames; a name both have is reported changed exactly
/// when its parameters or symbol differ, and as only moved exactly when
/// they do not but its position, rotation or mirror does.
pub proof fn lemma_diff_partition(a: SemanticSchematic, b: SemanticSchematic)
    requires
        keyed_by_name(a),
        keyed_by_name(b),
    ensures
        forall|n: Seq<char>| #[trigger] removed_names(a, b).contains(n) <==>
            (a.components@.contains_key(n) && !b.components@.contains_key(n)
                && !renamed_from(diff_renames(a, b), removed_comps(a, b), n)),
        forall|n: Seq<char>| #[trigger] added_names(a, b).contains(n) <==>
            (b.components@.contains_key(n) && !a.components@.contains_key(n)
                && !renamed_to(diff_renames(a, b), added_comps(a, b), n)),
        forall|k: int| 0 <= k < diff_renames(a, b).len() ==> {
            let c = #[trigger] diff_renames(a, b)[k];
            let na = removed_comps(a, b)[c.0].name@;
            let nb = added_comps(a, b)[c.1].name@;
            &&& a.components@.contains_key(na) && !b.components@.contains_key(na)
            &&& b.components@.contains_key(nb) && !a.components@.contains_key(nb)
            &&& a.components@[na].symbol == b.components@[nb].symbol
        },
        forall|k1: int, k2: int| 0 <= k1 < k2 < diff_renames(a, b).len() ==>
            removed_comps(a, b)[(#[trigger] diff_renames(a, b)[k1]).0].name@
                != removed_comps(a, b)[(#[trigger] diff_renames(a, b)[k2]).0].name@
            && added_comps(a, b)[diff_renames(a, b)[k1].1].name@ != added_comps(a, b)[diff_renames(a, b)[k2].1].name@,
        forall|n: Seq<char>| #[trigger] changed_names(a, b).contains(n) <==>
            (a.components@.contains_key(n) && b.components@.contains_key(n) && changed(comp_at(a, n), comp_at(b, n))),
        forall|n: Seq<char>| #[trigger] moved_names(a, b).contains(n) <==>
            (a.components@.contains_key(n) && b.components@.contains_key(n)
                && !changed(comp_at(a, n), comp_at(b, n)) && moved(comp_at(a, n), comp_at(b, n))),
{
    broadcast use vstd::seq_lib::group_filter_ensures;
    let ka = names_of(a);
    let kb = names_of(b);
    let oa = only_in(ka, kb);
    let ob = only_in(kb, ka);
    let rem = removed_comps(a, b);
    let add = added_comps(a, b);
    let rs = diff_renames(a, b);
    a.components.lemma_shape();
    b.components.lemma_shape();
    lemma_filter_sorted(ka, absent_from(kb));
    lemma_filter_sorted(kb, absent_from(ka));
    lemma_renames_one_to_one(rem, add);
    assert forall|n: Seq<char>| #[trigger] removed_names(a, b).contains(n) <==>
        (a.components@.contains_key(n) && !b.components@.contains_key(n) && !renamed_from(rs, rem, n)) by {
        lemma_filter_members(oa, not_renamed_from(rs, rem), n);
        lemma_filter_members(ka, absent_from(kb), n);
        assert(a.components@.contains_key(n) == ka.contains(n));
        assert(b.components@.contains_key(n) == kb.contains(n));
    }
    assert forall|n: Seq<char>| #[trigger] added_names(a, b).contains(n) <==>
        (b.components@.contains_key(n) && !a.components@.contains_key(n) && !renamed_to(rs, add, n)) by {
        lemma_filter_members(ob, not_renamed_to(rs, add), n);
        lemma_filter_members(kb, absent_from(ka), n);
        assert(a.components@.contains_key(n) == ka.contains(n));
        assert(b.components@.contains_key(n) == kb.contains(n));
    }
    assert forall|k: int| 0 <= k < rs.len() implies {
        let c = #[trigger] rs[k];
        let na = rem[c.0].name@;
        let nb = add[c.1].name@;
        &&& a.components@.contains_key(na) && !b.components@.contains_key(na)
        &&& b.components@.contains_key(nb) && !a.components@.contains_key(nb)
        &&& a.components@[na].symbol == b.components@[nb].symbol
    } by {
        let c = rs[k];
        assert(valid_candidate(rem, add, c));
        let na = oa[c.0];
        let nb = ob[c.1];
        assert(oa.contains(na));
        assert(ob.contains(nb));
        lemma_filter_members(ka, absent_from(kb), na);
        lemma_filter_members(kb, absent_from(ka), nb);
        assert(a.components.map().contains_key(na));
        assert(b.components.map().contains_key(nb));
        lemma_keyed(a, na);
        lemma_keyed(b, nb);
        assert(rem[c.0] == comp_at(a, na));
        assert(add[c.1] == comp_at(b, nb));
        assert(a.components@.contains_key(na) == ka.contains(na));
        assert(b.components@.contains_key(na) == kb.contains(na));
        assert(a.components@.contains_key(nb) == ka.contains(nb));
        assert(b.components@.contains_key(nb) == kb.contains(nb));
        assert(a.components@[na] == comp_at(a, na)@);
        assert(b.components@[nb] == comp_at(b, nb)@);
    }
    assert forall|k1: int, k2: int| 0 <= k1 < k2 < rs.len() implies
        rem[(#[trigger] rs[k1]).0].name@ != rem[(#[trigger] rs[k2]).0].name@
        && add[rs[k1].1].name@ != add[rs[k2].1].name@ by {
        let c1 = rs[k1];
        let c2 = rs[k2];
        assert(valid_candidate(rem, add, c1));
        assert(valid_candidate(rem, add, c2));
        assert(oa.contains(oa[c1.0]) && oa.contains(oa[c2.0]));
        assert(ob.contains(ob[c1.1]) && ob.contains(ob[c2.1]));
        lemma_filter_members(ka, absent_from(kb), oa[c1.0]);
        lemma_filter_members(ka, absent_from(kb), oa[c2.0]);
        lemma_filter_members(kb, absent_from(ka), ob[c1.1]);
        lemma_filter_members(kb, absent_from(ka), ob[c2.1]);
        lemma_keyed(a, oa[c1.0]);
        lemma_keyed(a, oa[c2.0]);
        lemma_keyed(b, ob[c1.1]);
        lemma_keyed(b, ob[c2.1]);
        assert(rem[c1.0].name@ == oa[c1.0]);
        assert(rem[c2.0].name@ == oa[c2.0]);
        assert(add[c1.1].name@ == ob[c1.1]);
        assert(add[c2.1].name@ == ob[c2.1]);
        if oa[c1.0] == oa[c2.0] {
            if c1.0 < c2.0 {
                crate::order::lemma_lex_irreflexive(oa[c1.0]);
            } else {
                crate::order::lemma_lex_irreflexive(oa[c2.0]);
            }
        }
        if ob[c1.1] == ob[c2.1] {
            if c1.1 < c2.1 {
                crate::order::lemma_lex_irreflexive(ob[c1.1]);
            } else {
                crate::order::lemma_lex_irreflexive(ob[c2.1]);
            }
        }
    }
    let common = in_both(ka, kb);
    assert forall|n: Seq<char>| #[trigger] changed_names(a, b).contains(n) <==>
        (a.components@.contains_key(n) && b.components@.contains_key(n) && changed(comp_at(a, n), comp_at(b, n))) by {
        lemma_filter_members(common, changed_in(a, b), n);
        lemma_filter_members(ka, present_in(kb), n);
        assert(a.components@.contains_key(n) == ka.contains(n));
        assert(b.components@.contains_key(n) == kb.contains(n));
    }
    assert forall|n: Seq<char>| #[trigger] moved_names(a, b).contains(n) <==>
        (a.components@.contains_key(n) && b.components@.contains_key(n)
            && !changed(comp_at(a, n), comp_at(b, n)) && moved(comp_at(a, n), comp_at(b, n))) by {
        lemma_filter_members(common, only_moved_in(a, b), n);
        lemma_filter_members(ka, present_in(kb), n);
        assert(a.components@.contains_key(n) == ka.contains(n));
        assert(b.components@.contains_key(n) == kb.contains(n));
    }
}

/// Two coordinates, written as `f64`'s `Display` writes them, stand for
/// different numbers: the texts differ other than as `0` against `-0`, or
/// they are `NaN`.
pub open spec fn coords_differ(u: Seq<char>, v: Seq<char>) -> bool {
    if u == v { u == "NaN"@ } else { !((u == "0"@ || u == "-0"@) && (v == "0"@ || v == "-0"@)) }
}

proof fn lemma_coords_differ(u: Seq<char>, v: Seq<char>)
    ensures coords_differ(u, v) == !same_coord(u, v),
{
    reveal_strlit("NaN");
    reveal_strlit("0");
    reveal_strlit("-0");
    if u == "NaN"@ {
        assert(u != "0"@ && u != "-0"@) by {
            assert(u[0] != "0"@[0]);
            assert(u.len() != "-0"@.len());
        }
    }
}

/// For a component that both schematics hold under name `n`:
/// - with the same symbol and parameters, the diff holds a cosmetic entry
///   named `n` exactly when the component moved: its rotation or its mirror
///   differs, or its x or y coordinate stands for a different number; such
///   an entry is a modification marked as a change of position;
/// - with another symbol or other parameters, the diff holds a modification
///   named `n` that is not cosmetic and is marked as a change of position
///   exactly when the component also moved.
pub proof fn lemma_diff_moves(a: SemanticSchematic, b: SemanticSchematic, n: Seq<char>)
    requires
        a.components@.contains_key(n),
        b.components@.contains_key(n),
    ensures ({
        let ca = a.components@[n];
        let cb = b.components@[n];
        let cs = diff_spec(a, b).components;
        let has_moved = ca.rotation != cb.rotation || ca.mirror != cb.mirror
            || coords_differ(ca.x, cb.x) || coords_differ(ca.y, cb.y);
        let same = ca.symbol == cb.symbol && ca.params == cb.params;
        &&& same ==> ((exists|i: int| 0 <= i < cs.len() && (#[trigger] cs[i]).name == n && cs[i].cosmetic) <==> has_moved)
        &&& same && has_moved ==> exists|i: int| 0 <= i < cs.len() && (#[trigger] cs[i]).name == n && cs[i].cosmetic
                && cs[i].position_changed && cs[i].kind == ChangeKind::Modified
        &&& !same ==> exists|i: int| 0 <= i < cs.len() && (#[trigger] cs[i]).name == n && !cs[i].cosmetic
                && cs[i].kind == ChangeKind::Modified && cs[i].position_changed == has_moved
    }),
{
    let ca = a.components@[n];
    let cb = b.components@[n];
    let cs = diff_spec(a, b).components;
    let has_moved = ca.rotation != cb.rotation || ca.mirror != cb.mirror
        || coords_differ(ca.x, cb.x) || coords_differ(ca.y, cb.y);
    let same = ca.symbol == cb.symbol && ca.params == cb.params;
    let ka = names_of(a);
    let kb = names_of(b);
    assert(comp_at(a, n)@ == ca);
    assert(comp_at(b, n)@ == cb);
    assert(changed(comp_at(a, n), comp_at(b, n)) == !same);
    lemma_coords_differ(ca.x, cb.x);
    lemma_coords_differ(ca.y, cb.y);
    assert(moved(comp_at(a, n), comp_at(b, n)) == has_moved);
    assert(ka.contains(n) && kb.contains(n));
    lemma_filter_members(ka, present_in(kb), n);
    let common = in_both(ka, kb);
    lemma_filter_members(common, only_moved_in(a, b), n);
    lemma_filter_members(common, changed_in(a, b), n);
    let mv = moved_names(a, b);
    let ch = changed_names(a, b);
    assert(mv.contains(n) == (same && has_moved));
    assert(ch.contains(n) == !same);
    let p1 = rename_entries(a, b);
    let p2 = removed_names(a, b).map_values(removed_entry_in(a));
    let p3 = added_names(a, b).map_values(added_entry_in(b));
    let p4 = ch.map_values(modified_entry_in(a, b));
    let p5 = mv.map_values(cosmetic_entry_in(a, b));
    let pre = p1 + p2 + p3 + p4;
    assert(cs == pre + p5);
    assert forall|i: int| 0 <= i < pre.len() implies !(#[trigger] pre[i]).cosmetic by {
        if i < p1.len() {
            assert(pre[i] == p1[i]);
        } else if i < p1.len() + p2.len() {
            assert(pre[i] == p2[i - p1.len()]);
        } else if i < p1.len() + p2.len() + p3.len() {
            assert(pre[i] == p3[i - p1.len() - p2.len()]);
        } else {
            assert(pre[i] == p4[i - p1.len() - p2.len() - p3.len()]);
        }
    }
    if same {
        if exists|i: int| 0 <= i < cs.len() && (#[trigger] cs[i]).name == n && cs[i].cosmetic {
            let i = choose|i: int| 0 <= i < cs.len() && (#[trigger] cs[i]).name == n && cs[i].cosmetic;
            if i < pre.len() {
                assert(cs[i] == pre[i]);
            } else {
                let j = i - pre.len();
                assert(cs[i] == p5[j]);
                assert(mv[j] == n);
            }
        }
        if has_moved {
            let j = choose|j: int| 0 <= j < mv.len() && mv[j] == n;
            let i = pre.len() + j;
            assert(cs[i] == p5[j]);
            assert(cs[i].name == n && cs[i].cosmetic && cs[i].position_changed && cs[i].kind == ChangeKind::Modified);
        }
    } else {
        let j = choose|j: int| 0 <= j < ch.len() && ch[j] == n;
        let i = p1.len() + p2.len() + p3.len() + j;
        assert(pre[i] == p4[j]);
        assert(cs[i] == pre[i]);
        assert(cs[i].name == n && !cs[i].cosmetic && cs[i].kind == ChangeKind::Modified && cs[i].position_changed == has_moved);
    }
}

// ─── From a parsed schematic ─────────────────────────────────────────────────

/// The name a component goes by: its `name` attribute, else its `Name`.
pub open spec fn name_attr(p: PropsV) -> Option<Seq<char>> {
    if p.contains_key("name"@) {
        Some(p["name"@])
    } else if p.contains_key("Name"@) {
        Some(p["Name"@])
    } else {
        None
    }
}

/// The index of the last of `comps` that goes by the name `n`, or -1.
pub open spec fn last_named(comps: Seq<Component>, n: Seq<char>) -> int
    decreases comps.len(),
{
    if comps.len() == 0 {
        -1
    } else if name_attr(comps.last().properties@) == Some(n) {
        comps.len() - 1
    } else {
        last_named(comps.drop_last(), n)
    }
}

/// The pin map of instance `n` after reading `pins` of the net `net`: each
/// pin of `n` mapped to `net`, a later entry replacing an earlier one.
pub open spec fn net_pins_fold(m: PropsV, pins: Seq<Pin>, net: Seq<char>, n: Seq<char>) -> PropsV
    decreases pins.len(),
{
    if pins.len() == 0 {
        m
    } else {
        let m2 = net_pins_fold(m, pins.drop_last(), net, n);
        if pins.last().instance@ == n { m2.insert(pins.last().pin@, net) } else { m2 }
    }
}

/// The pin map of instance `n` after reading the nets `names` / `nets` in order.
pub open spec fn pins_fold(names: Seq<Seq<char>>, nets: Seq<Net>, n: Seq<char>) -> PropsV
    decreases names.len(),
{
    if names.len() == 0 || nets.len() == 0 {
        Map::empty()
    } else {
        net_pins_fold(pins_fold(names.drop_last(), nets.drop_last(), n), nets.last().pins@, names.last(), n)
    }
}

/// Pin name → net name for instance `n`: the nets in name order, their pins
/// in order, a later connection of the same pin replacing an earlier one.
pub open spec fn pin_nets(netlist: Netlist, n: Seq<char>) -> PropsV {
    pins_fold(netlist.nets.key_seq(), netlist.nets.val_seq(), n)
}

/// The semantic component for instance `n`: from the netlist its symbol and
/// parameters; from the last top-level component of that name its position
/// (the text given for it in `positions`), rotation and mirror, or `0`,
/// `0`, 0, 0 when there is none.
pub open spec fn semantic_component(sch: Schematic, netlist: Netlist, positions: Seq<(String, String)>, n: Seq<char>) -> SemanticComponentV {
    let comps = components_of(sch.objects@);
    let i = last_named(comps, n);
    let inst = netlist.instances@[n];
    SemanticComponentV {
        name: n,
        symbol: inst.symbol,
        params: inst.params,
        pins: pin_nets(netlist, n),
        x: if i >= 0 { positions[i].0@ } else { "0"@ },
        y: if i >= 0 { positions[i].1@ } else { "0"@ },
        rotation: if i >= 0 { comps[i].rotation } else { 0 },
        mirror: if i >= 0 { comps[i].flip } else { 0 },
    }
}

/// The label of a wire: its `lab` attribute, or nothing.
pub open spec fn wire_label(p: PropsV) -> Seq<char> {
    if p.contains_key("lab"@) { p["lab"@] } else { Seq::empty() }
}

/// The semantic wire for the `i`-th top-level wire.
pub open spec fn semantic_wire(sch: Schematic, ends: Seq<(String, String, String, String)>, i: int)
    -> (Seq<char>, Seq<char>, Seq<char>, Seq<char>, Seq<char>)
{
    (ends[i].0@, ends[i].1@, ends[i].2@, ends[i].3@, wire_label(wires_of(sch.objects@)[i].properties@))
}

/// The nets: every non-empty wire label and every net of the netlist.
pub open spec fn semantic_nets(sch: Schematic, netlist: Netlist) -> Set<Seq<char>> {
    Set::new(|k: Seq<char>|
        (k.len() > 0 && exists|i: int| 0 <= i < wires_of(sch.objects@).len()
            && wire_label((#[trigger] wires_of(sch.objects@)[i]).properties@) == k)
        || netlist.nets@.contains_key(k))
}

fn name_of(c: &Component) -> (r: Option<&String>)
    ensures
        match name_attr(c.properties@) {
            Some(n) => r matches Some(s) && s@ == n,
            None => r is None,
        },
{
    match c.properties.get("name") {
        Some(n) => Some(n),
        None => c.properties.get("Name"),
    }
}

fn pins_of(netlist: &Netlist, n: &str) -> (r: StrMap<String>)
    ensures r@ == pin_nets(*netlist, n@),
{
    let ghost ks = netlist.nets.key_seq();
    let ghost vs = netlist.nets.val_seq();
    let mut m: StrMap<String> = StrMap::new();
    proof { assert(m@ =~= Map::<Seq<char>, Seq<char>>::empty()); }
    let count = netlist.nets.len();
    let mut i: usize = 0;
    while i < count
        invariant
            count == ks.len(),
            ks == netlist.nets.key_seq(),
            vs == netlist.nets.val_seq(),
            netlist.nets.shape(),
            i <= count,
            m@ == pins_fold(ks.take(i as int), vs.take(i as int), n@),
        decreases count - i,
    {
        let net_name = netlist.nets.key_at(i);
        let net = netlist.nets.val_at(i);
        let ghost start = m@;
        let mut j: usize = 0;
        while j < net.pins.len()
            invariant
                j <= net.pins@.len(),
                m@ == net_pins_fold(start, net.pins@.take(j as int), net_name@, n@),
            decreases net.pins@.len() - j,
        {
            let p = &net.pins[j];
            proof {
                assert(net.pins@.take(j + 1).drop_last() =~= net.pins@.take(j as int));
                assert(net.pins@.take(j + 1).last() == *p);
            }
            if str_eq(p.instance.as_str(), n) {
                m.insert(p.pin.clone(), net_name.clone());
            }
            j = j + 1;
        }
        proof {
            assert(net.pins@.take(j as int) =~= net.pins@);
            assert(ks.take(i + 1).drop_last() =~= ks.take(i as int));
            assert(vs.take(i + 1).drop_last() =~= vs.take(i as int));
            assert(ks.take(i + 1).last() == net_name@);
            assert(vs.take(i + 1).last() == *net);
        }
        i = i + 1;
    }
    proof {
        assert(ks.take(count as int) =~= ks);
        assert(vs.take(count as int) =~= vs);
    }
    m
}

/// The semantic view of a parsed schematic and its netlist (pin connections
/// as the netlist records them). `positions` gives, for each top-level
/// component in order, the decimal text of its x and y; `wire_ends` the same
/// for the ends of each top-level wire.
pub fn semantic_view(
    sch: &Schematic,
    netlist: &Netlist,
    positions: &Vec<(String, String)>,
    wire_ends: &Vec<(String, String, String, String)>,
) -> (r: SemanticSchematic)
    requires
        positions@.len() == components_of(sch.objects@).len(),
        wire_ends@.len() == wires_of(sch.objects@).len(),
    ensures
        r.components@ == Map::new(
            |k: Seq<char>| netlist.instances@.contains_key(k),
            |k: Seq<char>| semantic_component(*sch, *netlist, positions@, k),
        ),
        r.wires@.len() == wires_of(sch.objects@).len(),
        forall|i: int| 0 <= i < r.wires@.len() ==> (#[trigger] r.wires@[i])@ == semantic_wire(*sch, wire_ends@, i),
        r.nets@ == semantic_nets(*sch, *netlist),
        keyed_by_name(r),
{
    let comps = sch.components();
    let ghost cs = components_of(sch.objects@);
    let mut out = SemanticSchematic::new();
    let ghost target = Map::new(
        |k: Seq<char>| netlist.instances@.contains_key(k),
        |k: Seq<char>| semantic_component(*sch, *netlist, positions@, k),
    );
    let ghost iks = netlist.instances.key_seq();
    let ghost ivs = netlist.instances.val_seq();
    let n_inst = netlist.instances.len();
    let mut i: usize = 0;
    proof {
        assert(out.components@ =~= target.restrict(iks.take(0).to_set()));
    }
    while i < n_inst
        invariant
            n_inst == iks.len(),
            iks == netlist.instances.key_seq(),
            ivs == netlist.instances.val_seq(),
            netlist.instances.shape(),
            comps@.len() == cs.len(),
            cs == components_of(sch.objects@),
            forall|q: int| 0 <= q < comps@.len() ==> *#[trigger] comps@[q] == cs[q],
            positions@.len() == cs.len(),
            i <= n_inst,
            target == Map::new(
                |k: Seq<char>| netlist.instances@.contains_key(k),
                |k: Seq<char>| semantic_component(*sch, *netlist, positions@, k),
            ),
            out.components@ == target.restrict(iks.take(i as int).to_set()),
            out.wires@.len() == 0,
            out.nets@ == Set::<Seq<char>>::empty(),
        decreases n_inst - i,
    {
        let name = netlist.instances.key_at(i);
        let inst = netlist.instances.val_at(i);
        proof {
            crate::strmap::lemma_entries_map_at(iks, ivs, i as int);
            assert(netlist.instances@[name@] == inst@);
        }
        // The last top-level component of that name.
        let mut j: usize = comps.len();
        let mut found = false;
        proof { assert(cs.take(cs.len() as int) =~= cs); }
        while j > 0 && !found
            invariant
                j <= comps@.len(),
                comps@.len() == cs.len(),
                forall|q: int| 0 <= q < comps@.len() ==> *#[trigger] comps@[q] == cs[q],
                !found ==> last_named(cs, name@) == last_named(cs.take(j as int), name@),
                found ==> j > 0 && last_named(cs, name@) == j - 1,
            decreases j + (if found { 0int } else { 1int }),
        {
            let c = comps[j - 1];
            let hit = match name_of(c) {
                Some(nm) => str_eq(nm.as_str(), name.as_str()),
                None => false,
            };
            proof {
                let t = cs.take(j as int);
                assert(t.last() == cs[j - 1]);
                assert(t.drop_last() =~= cs.take(j - 1));
            }
            if hit {
                found = true;
            } else {
                j = j - 1;
            }
        }
        proof {
            if !found {
                assert(j == 0);
                assert(cs.take(0).len() == 0);
            }
        }
        let (x, y, rotation, mirror) = if found {
            let c = comps[j - 1];
            (positions[j - 1].0.clone(), positions[j - 1].1.clone(), c.rotation, c.flip)
        } else {
            ("0".to_string(), "0".to_string(), 0i32, 0i32)
        };
        let pins = pins_of(netlist, name.as_str());
        let comp = SemanticComponent {
            name: name.clone(),
            symbol: inst.symbol.clone(),
            params: inst.params.duplicate(),
            pins,
            x,
            y,
            rotation,
            mirror,
        };
        let ghost cv = comp@;
        let ghost before = out.components@;
        proof {
            assert(cv == semantic_component(*sch, *netlist, positions@, name@));
            assert(netlist.instances@.contains_key(name@));
            assert(target.contains_key(name@));
            assert(target[name@] == cv);
        }
        out.components.insert(name.clone(), comp);
        proof {
            assert(out.components@ == before.insert(name@, cv));
            assert(iks.take(i + 1).to_set() =~= iks.take(i as int).to_set().insert(name@)) by {
                assert(iks.take(i + 1) =~= iks.take(i as int).push(name@));
                iks.take(i as int).lemma_push_to_set_commute(name@);
            }
            assert(out.components@ =~= target.restrict(iks.take(i + 1).to_set()));
        }
        i = i + 1;
    }
    proof {
        assert(iks.take(n_inst as int) =~= iks);
        assert(out.components@ =~= target) by {
            assert forall|k: Seq<char>| target.contains_key(k) <==> iks.to_set().contains(k) by {
                assert(netlist.instances@.dom().contains(k) == iks.contains(k));
            }
        }
    }
    // Wires.
    let ws = sch.wires();
    let ghost wv = wires_of(sch.objects@);
    let mut w: usize = 0;
    proof { assert(out.nets@ =~= Set::new(|k: Seq<char>| k.len() > 0 && exists|q: int| 0 <= q < 0 && wire_label((#[trigger] wv[q]).properties@) == k)); }
    while w < ws.len()
        invariant
            ws@.len() == wv.len(),
            wv == wires_of(sch.objects@),
            forall|q: int| 0 <= q < ws@.len() ==> *#[trigger] ws@[q] == wv[q],
            wire_ends@.len() == wv.len(),
            w <= ws@.len(),
            out.wires@.len() == w,
            forall|q: int| 0 <= q < w ==> (#[trigger] out.wires@[q])@ == semantic_wire(*sch, wire_ends@, q),
            out.nets@ == Set::new(|k: Seq<char>| k.len() > 0 && exists|q: int| 0 <= q < w && wire_label((#[trigger] wv[q]).properties@) == k),
            out.components@ == target,
        decreases ws@.len() - w,
    {
        let wire = ws[w];
        let label = match wire.properties.get("lab") {
            Some(l) => l.clone(),
            None => String::new(),
        };
        proof { assert(label@ == wire_label(wv[w as int].properties@)); }
        let lc = chars_of(label.as_str());
        let ghost nets0 = out.nets@;
        if lc.len() > 0 {
            out.nets.insert(label.clone());
        }
        let ends = &wire_ends[w];
        out.wires.push(SemanticWire {
            x1: ends.0.clone(),
            y1: ends.1.clone(),
            x2: ends.2.clone(),
            y2: ends.3.clone(),
            label,
        });
        proof {
            assert(out.nets@ =~= Set::new(|k: Seq<char>| k.len() > 0 && exists|q: int| 0 <= q < w + 1 && wire_label((#[trigger] wv[q]).properties@) == k)) by {
                assert forall|k: Seq<char>| out.nets@.contains(k) <==>
                    (k.len() > 0 && exists|q: int| 0 <= q < w + 1 && wire_label((#[trigger] wv[q]).properties@) == k) by {
                    if k.len() > 0 && wire_label(wv[w as int].properties@) == k {
                        assert(out.nets@.contains(k));
                    }
                    if out.nets@.contains(k) && !nets0.contains(k) {
                        assert(wire_label(wv[w as int].properties@) == k);
                    }
                }
            }
        }
        w = w + 1;
    }
    // The netlist's nets.
    let ghost nks = netlist.nets.key_seq();
    let ghost wire_nets = out.nets@;
    let n_nets = netlist.nets.len();
    let mut k: usize = 0;
    proof { assert(wire_nets.union(nks.take(0).to_set()) =~= wire_nets); }
    while k < n_nets
        invariant
            n_nets == nks.len(),
            nks == netlist.nets.key_seq(),
            netlist.nets.shape(),
            k <= n_nets,
            out.nets@ == wire_nets.union(nks.take(k as int).to_set()),
            out.components@ == target,
            out.wires@.len() == wv.len(),
            forall|q: int| 0 <= q < out.wires@.len() ==> (#[trigger] out.wires@[q])@ == semantic_wire(*sch, wire_ends@, q),
        decreases n_nets - k,
    {
        let key = netlist.nets.key_at(k);
        out.nets.insert(key.clone());
        proof {
            assert(nks.take(k + 1) =~= nks.take(k as int).push(key@));
            nks.take(k as int).lemma_push_to_set_commute(key@);
            assert(out.nets@ =~= wire_nets.union(nks.take(k + 1).to_set()));
        }
        k = k + 1;
    }
    proof {
        assert(nks.take(n_nets as int) =~= nks);
        assert forall|q: Seq<char>| netlist.nets@.contains_key(q) <==> nks.to_set().contains(q) by {
            assert(netlist.nets@.dom().contains(q) == nks.contains(q));
        }
        assert(out.nets@ =~= semantic_nets(*sch, *netlist));
        assert forall|q: Seq<char>| #[trigger] out.components@.contains_key(q) implies out.components@[q].name == q by {}
    }
    out
}

} // verus!
