//! A map keyed by strings that keeps its entries in key order, as the
//! ordered maps of the standard library do.
use vstd::prelude::*;
use crate::order::{lemma_lex_irreflexive, lemma_lex_total, lemma_lex_transitive, lex_compare, lex_lt, strictly_sorted};
use crate::text::chars_of;

verus! {

broadcast use vstd::string::group_string_axioms;

/// The map that a strictly sorted key sequence and its value sequence spell out.
pub open spec fn entries_map<V>(ks: Seq<Seq<char>>, vs: Seq<V>) -> Map<Seq<char>, V> {
    Map::new(|k: Seq<char>| ks.contains(k), |k: Seq<char>| vs[ks.index_of(k)])
}

/// In a strictly sorted key sequence each key stands at one index only.
pub proof fn lemma_sorted_unique(ks: Seq<Seq<char>>, i: int, j: int)
    requires
        strictly_sorted(ks),
        0 <= i < ks.len(),
        0 <= j < ks.len(),
        ks[i] == ks[j],
    ensures
        i == j,
{
    if i < j {
        lemma_lex_irreflexive(ks[i]);
    } else if j < i {
        lemma_lex_irreflexive(ks[j]);
    }
}

/// Two strictly sorted key sequences with the same members are the same sequence.
pub proof fn lemma_sorted_same_members(a: Seq<Seq<char>>, b: Seq<Seq<char>>)
    requires
        strictly_sorted(a),
        strictly_sorted(b),
        forall|k: Seq<char>| a.contains(k) <==> b.contains(k),
    ensures
        a == b,
    decreases a.len(),
{
    if a.len() == 0 {
        if b.len() > 0 {
            assert(b.contains(b[0]));
        }
        assert(a =~= b);
    } else if b.len() == 0 {
        assert(a.contains(a[0]));
    } else {
        assert(a.contains(a[0]));
        assert(b.contains(b[0]));
        let j = choose|j: int| 0 <= j < b.len() && b[j] == a[0];
        let i = choose|i: int| 0 <= i < a.len() && a[i] == b[0];
        if j > 0 {
            assert(lex_lt(b[0], b[j]));
            if i > 0 {
                assert(lex_lt(a[0], a[i]));
                lemma_lex_transitive(a[0], b[0], a[0]);
                lemma_lex_irreflexive(a[0]);
            } else {
                lemma_lex_irreflexive(a[0]);
            }
        }
        assert(a[0] == b[0]);
        let a1 = a.drop_first();
        let b1 = b.drop_first();
        assert forall|k: Seq<char>| a1.contains(k) <==> b1.contains(k) by {
            if a1.contains(k) {
                let p = choose|p: int| 0 <= p < a1.len() && a1[p] == k;
                assert(a.contains(k)) by { assert(a[p + 1] == k); }
                let q = choose|q: int| 0 <= q < b.len() && b[q] == k;
                if q == 0 {
                    assert(lex_lt(a[0], a[p + 1]));
                    lemma_lex_irreflexive(k);
                }
                assert(b1[q - 1] == k);
            }
            if b1.contains(k) {
                let p = choose|p: int| 0 <= p < b1.len() && b1[p] == k;
                assert(b.contains(k)) by { assert(b[p + 1] == k); }
                let q = choose|q: int| 0 <= q < a.len() && a[q] == k;
                if q == 0 {
                    assert(lex_lt(b[0], b[p + 1]));
                    lemma_lex_irreflexive(k);
                }
                assert(a1[q - 1] == k);
            }
        }
        lemma_sorted_same_members(a1, b1);
        assert(a =~= seq![a[0]] + a1);
        assert(b =~= seq![b[0]] + b1);
    }
}

/// The value that `entries_map` gives a key is the one stored at the key's index.
pub proof fn lemma_entries_map_at<V>(ks: Seq<Seq<char>>, vs: Seq<V>, i: int)
    requires
        strictly_sorted(ks),
        ks.len() == vs.len(),
        0 <= i < ks.len(),
    ensures
        entries_map(ks, vs).contains_key(ks[i]),
        entries_map(ks, vs)[ks[i]] == vs[i],
{
    assert(ks.contains(ks[i]));
    let j = ks.index_of(ks[i]);
    lemma_sorted_unique(ks, i, j);
}

/// Reading the entries in order one at a time builds the map up by insertions.
pub proof fn lemma_entries_map_take<V>(ks: Seq<Seq<char>>, vs: Seq<V>, i: int)
    requires
        strictly_sorted(ks),
        ks.len() == vs.len(),
        0 <= i < ks.len(),
    ensures
        entries_map(ks.take(i + 1), vs.take(i + 1)) == entries_map(ks.take(i), vs.take(i)).insert(ks[i], vs[i]),
{
    let a = ks.take(i + 1);
    let b = ks.take(i);
    assert(strictly_sorted(a));
    assert(strictly_sorted(b));
    let m1 = entries_map(a, vs.take(i + 1));
    let m2 = entries_map(b, vs.take(i)).insert(ks[i], vs[i]);
    assert forall|k: Seq<char>| m1.contains_key(k) == m2.contains_key(k) by {
        if a.contains(k) {
            let j = choose|j: int| 0 <= j < a.len() && a[j] == k;
            if j < i { assert(b[j] == k); }
        }
        if b.contains(k) {
            let j = choose|j: int| 0 <= j < b.len() && b[j] == k;
            assert(a[j] == k);
        }
        if k == ks[i] { assert(a[i] == k); }
    }
    assert forall|k: Seq<char>| #[trigger] m1.contains_key(k) implies m1[k] == m2[k] by {
        let j = a.index_of(k);
        lemma_entries_map_at(a, vs.take(i + 1), j);
        if j < i {
            lemma_entries_map_at(b, vs.take(i), j);
            if k == ks[i] {
                assert(ks[j] == a[j]);
                lemma_sorted_unique(ks, j, i);
            }
        }
    }
    assert(m1 =~= m2);
}

/// Viewing the values commutes with an insertion.
pub proof fn lemma_view_insert<V: View>(m: Map<Seq<char>, V>, k: Seq<char>, v: V)
    ensures
        m.insert(k, v).map_values(|x: V| x@) == m.map_values(|x: V| x@).insert(k, v@),
{
    assert(m.insert(k, v).map_values(|x: V| x@) =~= m.map_values(|x: V| x@).insert(k, v@));
}

/// A string-keyed map whose entries stay sorted by key.
#[derive(Debug)]
pub struct StrMap<V> {
    keys: Vec<String>,
    vals: Vec<V>,
}

impl<V> StrMap<V> {
    /// The stored keys, as they stand in the vector.
    spec fn stored_keys(&self) -> Seq<Seq<char>> {
        self.keys@.map_values(|k: String| k@)
    }

    /// The stored keys are strictly increasing, with one value each.
    spec fn well_formed(&self) -> bool {
        &&& self.stored_keys().len() == self.vals@.len()
        &&& strictly_sorted(self.stored_keys())
    }

    /// The keys, in increasing order. (Only a value that breaks the type
    /// invariant, which none can, would have none.)
    pub closed spec fn key_seq(&self) -> Seq<Seq<char>> {
        if self.well_formed() { self.stored_keys() } else { Seq::empty() }
    }

    /// The values, in the order of their keys.
    pub closed spec fn val_seq(&self) -> Seq<V> {
        if self.well_formed() { self.vals@ } else { Seq::empty() }
    }

    /// The entries as a mathematical map.
    pub open spec fn map(&self) -> Map<Seq<char>, V> {
        entries_map(self.key_seq(), self.val_seq())
    }

    /// Keys strictly increasing, one value per key.
    pub open spec fn shape(&self) -> bool {
        &&& self.key_seq().len() == self.val_seq().len()
        &&& strictly_sorted(self.key_seq())
    }

    /// The keys of every map are strictly increasing, with one value each.
    pub proof fn lemma_shape(&self)
        ensures
            self.shape(),
    {
    }

    #[verifier::type_invariant]
    closed spec fn inv(&self) -> bool {
        self.well_formed()
    }
}

impl<V: View> StrMap<V> {
    /// An empty map.
    pub fn new() -> (r: Self)
        ensures
            r.key_seq().len() == 0,
            r.val_seq().len() == 0,
            r.shape(),
    {
        let r = StrMap { keys: Vec::new(), vals: Vec::new() };
        proof {
            assert(r.key_seq() =~= Seq::<Seq<char>>::empty());
        }
        r
    }

    /// The number of entries.
    pub fn len(&self) -> (r: usize)
        ensures
            r == self.key_seq().len(),
            self.shape(),
    {
        proof { use_type_invariant(self); }
        self.keys.len()
    }

    /// Whether the map has no entries.
    pub fn is_empty(&self) -> (r: bool)
        ensures
            r == (self.key_seq().len() == 0),
            self.shape(),
    {
        proof { use_type_invariant(self); }
        self.keys.len() == 0
    }

    /// The key of the `i`-th entry.
    pub fn key_at(&self, i: usize) -> (r: &String)
        requires
            i < self.key_seq().len(),
        ensures
            r@ == self.key_seq()[i as int],
            self.shape(),
    {
        proof { use_type_invariant(self); }
        &self.keys[i]
    }

    /// The value of the `i`-th entry.
    pub fn val_at(&self, i: usize) -> (r: &V)
        requires
            i < self.key_seq().len(),
        ensures
            *r == self.val_seq()[i as int],
            self.shape(),
    {
        proof { use_type_invariant(self); }
        &self.vals[i]
    }

    /// Binary search: the index of `k`, or the index at which it would be inserted.
    fn search(&self, k: &str) -> (r: (bool, usize))
        ensures
            r.1 <= self.key_seq().len(),
            forall|i: int| 0 <= i < r.1 ==> lex_lt(#[trigger] self.key_seq()[i], k@),
            forall|i: int| r.1 <= i < self.key_seq().len() ==> !lex_lt(#[trigger] self.key_seq()[i], k@),
            r.0 == (r.1 < self.key_seq().len() && self.key_seq()[r.1 as int] == k@),
            self.shape(),
    {
        proof { use_type_invariant(self); }
        let kc = chars_of(k);
        let mut lo: usize = 0;
        let mut hi: usize = self.keys.len();
        while lo < hi
            invariant
                self.shape(),
                kc@ == k@,
                lo <= hi <= self.key_seq().len(),
                self.keys@.len() == self.key_seq().len(),
                forall|i: int| 0 <= i < lo ==> lex_lt(#[trigger] self.key_seq()[i], k@),
                forall|i: int| hi <= i < self.key_seq().len() ==> !lex_lt(#[trigger] self.key_seq()[i], k@),
            decreases hi - lo,
        {
            let mid = lo + (hi - lo) / 2;
            let mc = chars_of(self.keys[mid].as_str());
            let c = lex_compare(mc.as_slice(), kc.as_slice());
            assert(self.key_seq()[mid as int] == self.keys@[mid as int]@);
            if c < 0 {
                proof {
                    assert forall|i: int| 0 <= i < mid + 1 implies lex_lt(#[trigger] self.key_seq()[i], k@) by {
                        if i < mid {
                            lemma_lex_transitive(self.key_seq()[i], self.key_seq()[mid as int], k@);
                        }
                    }
                }
                lo = mid + 1;
            } else {
                proof {
                    assert forall|i: int| mid <= i < self.key_seq().len() implies !lex_lt(#[trigger] self.key_seq()[i], k@) by {
                        if i > mid && lex_lt(self.key_seq()[i], k@) {
                            lemma_lex_transitive(self.key_seq()[mid as int], self.key_seq()[i], k@);
                        }
                    }
                }
                hi = mid;
            }
        }
        if lo < self.keys.len() {
            let lc = chars_of(self.keys[lo].as_str());
            let found = lex_compare(lc.as_slice(), kc.as_slice()) == 0;
            assert(self.key_seq()[lo as int] == self.keys@[lo as int]@);
            (found, lo)
        } else {
            (false, lo)
        }
    }

    /// Whether `k` is a key of the map.
    pub fn contains_key(&self, k: &str) -> (r: bool)
        ensures
            r == self.key_seq().contains(k@),
            r == self.map().contains_key(k@),
            self.shape(),
    {
        let (found, idx) = self.search(k);
        proof {
            if !found && self.key_seq().contains(k@) {
                let j = choose|j: int| 0 <= j < self.key_seq().len() && self.key_seq()[j] == k@;
                lemma_lex_irreflexive(k@);
                if j > idx {
                    lemma_lex_total(self.key_seq()[idx as int], k@);
                    assert(lex_lt(self.key_seq()[idx as int], self.key_seq()[j]));
                }
            }
        }
        found
    }

    /// The value stored under `k`, if any.
    pub fn get(&self, k: &str) -> (r: Option<&V>)
        ensures
            r.is_some() == self.map().contains_key(k@),
            r.is_some() ==> *r.unwrap() == self.map()[k@],
            r.is_some() == self@.contains_key(k@),
            r.is_some() ==> r.unwrap()@ == self@[k@],
            self.shape(),
    {
        let (found, idx) = self.search(k);
        if found {
            proof { lemma_entries_map_at(self.key_seq(), self.val_seq(), idx as int); }
            Some(&self.vals[idx])
        } else {
            proof {
                if self.key_seq().contains(k@) {
                    let j = choose|j: int| 0 <= j < self.key_seq().len() && self.key_seq()[j] == k@;
                    lemma_lex_irreflexive(k@);
                    if j > idx {
                        lemma_lex_total(self.key_seq()[idx as int], k@);
                        assert(lex_lt(self.key_seq()[idx as int], self.key_seq()[j]));
                    }
                }
            }
            None
        }
    }

    /// Stores `v` under `k`, replacing an earlier value.
    pub fn insert(&mut self, k: String, v: V)
        ensures
            final(self).map() == old(self).map().insert(k@, v),
            final(self)@ == old(self)@.insert(k@, v@),
            final(self).shape(),
    {
        proof {
            use_type_invariant(&*self);
            lemma_view_insert(self.map(), k@, v);
        }
        let (found, idx) = self.search(k.as_str());
        let ghost ks = self.key_seq();
        let ghost vs = self.val_seq();
        let mut whole = StrMap::new();
        std::mem::swap(&mut whole, self);
        let StrMap { keys: mut keys, vals: mut vals } = whole;
        if found {
            vals.set(idx, v);
            *self = StrMap { keys, vals };
            proof {
                assert(self.key_seq() =~= ks);
                assert(self.map() =~= old(self).map().insert(k@, v)) by {
                    assert forall|key: Seq<char>| #[trigger] self.map().contains_key(key)
                        implies self.map()[key] == old(self).map().insert(k@, v)[key] by {
                        let j = ks.index_of(key);
                        lemma_entries_map_at(ks, self.val_seq(), j);
                        lemma_entries_map_at(ks, vs, j);
                        if key == k@ {
                            lemma_sorted_unique(ks, j, idx as int);
                        }
                    }
                    assert(ks.contains(k@)) by { assert(ks[idx as int] == k@); }
                }
            }
        } else {
            proof {
                lemma_lex_irreflexive(k@);
                if idx < ks.len() {
                    lemma_lex_total(ks[idx as int], k@);
                }
            }
            keys.insert(idx, k);
            vals.insert(idx, v);
            let ghost nks = keys@.map_values(|s: String| s@);
            proof {
                assert(nks =~= ks.insert(idx as int, k@));
                assert(strictly_sorted(nks)) by {
                    assert forall|i: int, j: int| 0 <= i < j < nks.len()
                        implies lex_lt(#[trigger] nks[i], #[trigger] nks[j]) by {
                        if j < idx {
                        } else if j == idx {
                        } else if i < idx {
                            if j - 1 > idx {
                                lemma_lex_transitive(k@, ks[idx as int], ks[j - 1]);
                            }
                            lemma_lex_transitive(nks[i], k@, nks[j]);
                        } else if i == idx {
                            if j - 1 > idx {
                                lemma_lex_transitive(k@, ks[idx as int], ks[j - 1]);
                            }
                        } else {
                        }
                    }
                }
            }
            *self = StrMap { keys, vals };
            proof {
                assert(self.key_seq() == nks);
                assert(self.val_seq() =~= vs.insert(idx as int, v));
                assert(self.map() =~= old(self).map().insert(k@, v)) by {
                    assert forall|key: Seq<char>|
                        self.map().contains_key(key) == old(self).map().insert(k@, v).contains_key(key) by {
                        if nks.contains(key) {
                            let j = choose|j: int| 0 <= j < nks.len() && nks[j] == key;
                            if j < idx { assert(ks[j] == key); }
                            else if j > idx { assert(ks[j - 1] == key); }
                        }
                        if ks.contains(key) {
                            let j = choose|j: int| 0 <= j < ks.len() && ks[j] == key;
                            if j < idx { assert(nks[j] == key); } else { assert(nks[j + 1] == key); }
                        }
                        if key == k@ { assert(nks[idx as int] == key); }
                    }
                    assert forall|key: Seq<char>| #[trigger] self.map().contains_key(key)
                        implies self.map()[key] == old(self).map().insert(k@, v)[key] by {
                        let j = nks.index_of(key);
                        lemma_entries_map_at(nks, self.val_seq(), j);
                        if j < idx {
                            lemma_entries_map_at(ks, vs, j);
                        } else if j > idx {
                            lemma_entries_map_at(ks, vs, j - 1);
                        }
                    }
                }
            }
        }
    }

    /// Stores `v` under `k` unless `k` is already a key.
    pub fn insert_if_absent(&mut self, k: String, v: V)
        ensures
            final(self).map() == (if old(self).map().contains_key(k@) { old(self).map() } else { old(self).map().insert(k@, v) }),
            final(self)@ == (if old(self)@.contains_key(k@) { old(self)@ } else { old(self)@.insert(k@, v@) }),
            final(self).shape(),
    {
        if !self.contains_key(k.as_str()) {
            self.insert(k, v);
        }
    }
}

impl StrMap<String> {
    /// A copy of the map.
    pub fn duplicate(&self) -> (r: StrMap<String>)
        ensures r@ == self@,
    {
        let mut r: StrMap<String> = StrMap::new();
        let n = self.len();
        let ghost ks = self.key_seq();
        let ghost vs = self.val_seq();
        proof { assert(r@ =~= entries_map(ks.take(0), vs.take(0)).map_values(|v: String| v@)); }
        let mut i: usize = 0;
        while i < n
            invariant
                n == ks.len(),
                ks == self.key_seq(),
                vs == self.val_seq(),
                self.shape(),
                i <= n,
                r@ == entries_map(ks.take(i as int), vs.take(i as int)).map_values(|v: String| v@),
            decreases n - i,
        {
            let k = self.key_at(i);
            let v = self.val_at(i);
            proof {
                lemma_entries_map_take(ks, vs, i as int);
                lemma_view_insert(entries_map(ks.take(i as int), vs.take(i as int)), ks[i as int], vs[i as int]);
            }
            r.insert(k.clone(), v.clone());
            i = i + 1;
        }
        proof {
            assert(ks.take(n as int) =~= ks);
            assert(vs.take(n as int) =~= vs);
        }
        r
    }

    /// Whether the two maps hold the same entries.
    pub fn same_as(&self, other: &StrMap<String>) -> (r: bool)
        ensures r == (self@ == other@),
    {
        proof {
            use_type_invariant(self);
            use_type_invariant(other);
        }
        let ghost ka = self.key_seq();
        let ghost kb = other.key_seq();
        let ghost va = self.val_seq();
        let ghost vb = other.val_seq();
        proof {
            if self@ == other@ {
                assert forall|k: Seq<char>| ka.contains(k) <==> kb.contains(k) by {
                    assert(self@.dom().contains(k) == ka.contains(k));
                    assert(other@.dom().contains(k) == kb.contains(k));
                }
                lemma_sorted_same_members(ka, kb);
            }
        }
        let n = self.len();
        if n != other.len() {
            return false;
        }
        let mut i: usize = 0;
        while i < n
            invariant
                self.shape(),
                other.shape(),
                ka == self.key_seq(),
                kb == other.key_seq(),
                va == self.val_seq(),
                vb == other.val_seq(),
                n == ka.len(),
                n == kb.len(),
                i <= n,
                self@ == other@ ==> ka == kb,
                forall|j: int| 0 <= j < i ==> #[trigger] ka[j] == kb[j],
                forall|j: int| 0 <= j < i ==> (#[trigger] va[j])@ == vb[j]@,
            decreases n - i,
        {
            let ka_i = self.key_at(i);
            let kb_i = other.key_at(i);
            if !crate::text::str_eq(ka_i.as_str(), kb_i.as_str()) {
                return false;
            }
            let va_i = self.val_at(i);
            let vb_i = other.val_at(i);
            if !crate::text::str_eq(va_i.as_str(), vb_i.as_str()) {
                proof {
                    if self@ == other@ {
                        lemma_entries_map_at(ka, va, i as int);
                        lemma_entries_map_at(kb, vb, i as int);
                        assert(self@[ka[i as int]] == va[i as int]@);
                    }
                }
                return false;
            }
            proof {
                assert(ka[i as int] == ka_i@);
                assert(kb[i as int] == kb_i@);
                assert(va[i as int]@ == va_i@);
                assert(vb[i as int]@ == vb_i@);
                assert(ka[i as int] == kb[i as int] && va[i as int]@ == vb[i as int]@);
            }
            i = i + 1;
        }
        proof {
            assert forall|j: int| 0 <= j < ka.len() implies ka[j] == kb[j] by {
                assert(va[j]@ == vb[j]@);
            }
            assert(ka =~= kb);
            assert forall|k: Seq<char>| #[trigger] self@.contains_key(k) implies self@[k] == other@[k] by {
                let j = ka.index_of(k);
                lemma_entries_map_at(ka, va, j);
                lemma_entries_map_at(kb, vb, j);
            }
            assert(self@ =~= other@);
        }
        true
    }
}

impl<V: View> View for StrMap<V> {
    type V = Map<Seq<char>, V::V>;

    open spec fn view(&self) -> Map<Seq<char>, V::V> {
        self.map().map_values(|v: V| v@)
    }
}

/// A set of strings, kept in increasing order.
#[derive(Debug)]
pub struct StrSet {
    members: StrMap<bool>,
}

impl StrSet {
    /// The members, in increasing order.
    pub closed spec fn elems(&self) -> Seq<Seq<char>> {
        self.members.key_seq()
    }

    /// The members in order are exactly the members of the set.
    pub proof fn lemma_elems(&self)
        ensures
            forall|k: Seq<char>| self.elems().contains(k) <==> #[trigger] self@.contains(k),
    {
    }

    /// The members of every set come in strictly increasing order.
    pub proof fn lemma_sorted(&self)
        ensures
            strictly_sorted(self.elems()),
    {
        self.members.lemma_shape();
    }

    pub fn new() -> (r: StrSet)
        ensures
            r@ == Set::<Seq<char>>::empty(),
            r.elems().len() == 0,
    {
        let r = StrSet { members: StrMap::new() };
        proof { assert(r@ =~= Set::<Seq<char>>::empty()); }
        r
    }

    pub fn len(&self) -> (r: usize)
        ensures
            r == self.elems().len(),
            strictly_sorted(self.elems()),
            self@ == self.elems().to_set(),
    {
        let r = self.members.len();
        proof { assert(self@ =~= self.elems().to_set()); }
        r
    }

    pub fn is_empty(&self) -> (r: bool)
        ensures
            r == (self@ == Set::<Seq<char>>::empty()),
            r == (self.elems().len() == 0),
    {
        let r = self.members.is_empty();
        proof {
            if !r {
                assert(self@.contains(self.elems()[0]));
            } else {
                assert(self@ =~= Set::<Seq<char>>::empty());
            }
        }
        r
    }

    /// The `i`-th smallest member.
    pub fn at(&self, i: usize) -> (r: &String)
        requires i < self.elems().len(),
        ensures r@ == self.elems()[i as int],
    {
        self.members.key_at(i)
    }

    pub fn contains(&self, k: &str) -> (r: bool)
        ensures r == self@.contains(k@),
    {
        self.members.contains_key(k)
    }

    pub fn insert(&mut self, k: String)
        ensures final(self)@ == old(self)@.insert(k@),
    {
        self.members.insert(k, true);
        proof { assert(self@ =~= old(self)@.insert(k@)); }
    }
}

impl View for StrSet {
    type V = Set<Seq<char>>;

    closed spec fn view(&self) -> Set<Seq<char>> {
        self.members.map().dom()
    }
}

} // verus!
