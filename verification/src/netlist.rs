//! Flat netlists: the named instances of a schematic and the nets that its
//! labels name.
use vstd::prelude::*;
use crate::models::{view_object, view_objects, Object, ObjectV, Properties, PropsV, Schematic};
use crate::strmap::{entries_map, lemma_entries_map_take, lemma_view_insert, StrMap, StrSet};
use crate::text::{after_last, after_last_char, eq_chars, trim_sym, trim_sym_suffix};

verus! {

broadcast use vstd::string::group_string_axioms;

/// A pin of an instance.
#[derive(Debug)]
pub struct Pin {
    /// Component instance name, e.g. "R1"
    pub instance: String,
    /// Pin name as declared in the symbol, e.g. "DRAIN"
    pub pin: String,
}

impl View for Pin {
    type V = (Seq<char>, Seq<char>);

    open spec fn view(&self) -> (Seq<char>, Seq<char>) {
        (self.instance@, self.pin@)
    }
}

#[derive(Debug)]
pub struct Net {
    pub name: String,
    /// All pins connected to this net
    pub pins: Vec<Pin>,
}

pub struct NetV {
    pub name: Seq<char>,
    pub pins: Seq<(Seq<char>, Seq<char>)>,
}

impl View for Net {
    type V = NetV;

    open spec fn view(&self) -> NetV {
        NetV { name: self.name@, pins: self.pins@.map_values(|p: Pin| p@) }
    }
}

#[derive(Debug)]
pub struct Instance {
    /// Value of the `name` attribute, e.g. "R1"
    pub name: String,
    /// Symbol path without its `.sym` ending, e.g. "sky130_fd_pr/nfet_01v8"
    pub symbol: String,
    /// All other attributes (value, W, L, model, ...)
    pub params: Properties,
}

pub struct InstanceV {
    pub name: Seq<char>,
    pub symbol: Seq<char>,
    pub params: PropsV,
}

impl View for Instance {
    type V = InstanceV;

    open spec fn view(&self) -> InstanceV {
        InstanceV { name: self.name@, symbol: self.symbol@, params: self.params@ }
    }
}

#[derive(Debug)]
pub struct Netlist {
    /// Instances keyed by instance name
    pub instances: StrMap<Instance>,
    /// Nets keyed by net name
    pub nets: StrMap<Net>,
}

pub open spec fn name_key() -> Seq<char> {
    seq!['n', 'a', 'm', 'e']
}

pub open spec fn lab_key() -> Seq<char> {
    seq!['l', 'a', 'b']
}

/// The instance that a component names: its `name` attribute, when present and not empty.
pub open spec fn instance_of(o: ObjectV) -> Option<InstanceV> {
    match o {
        ObjectV::Component { symbol, props, .. } =>
            if props.contains_key(name_key()) && props[name_key()].len() > 0 {
                Some(InstanceV {
                    name: props[name_key()],
                    symbol: trim_sym(symbol),
                    params: props.remove(name_key()),
                })
            } else {
                None
            },
        _ => None,
    }
}

/// The instances of a list of objects; a later instance replaces an earlier one of the same name.
pub open spec fn instances_of(objs: Seq<ObjectV>) -> Map<Seq<char>, InstanceV>
    decreases objs.len(),
{
    if objs.len() == 0 {
        Map::empty()
    } else {
        let m = instances_of(objs.drop_last());
        match instance_of(objs.last()) {
            Some(inst) => m.insert(inst.name, inst),
            None => m,
        }
    }
}

/// Symbols whose `lab` attribute names a net.
pub open spec fn is_label_symbol(t: Seq<char>) -> bool {
    t == seq!['i', 'p', 'i', 'n'] || t == seq!['o', 'p', 'i', 'n'] || t == seq!['i', 'o', 'p', 'i', 'n']
        || t == seq!['l', 'a', 'b', 'e', 'l']
}

/// A non-empty `lab` attribute.
pub open spec fn label_in(props: PropsV) -> Option<Seq<char>> {
    if props.contains_key(lab_key()) && props[lab_key()].len() > 0 { Some(props[lab_key()]) } else { None }
}

/// The net that an object names: a labelled wire or text, or a labelled pin or label symbol.
pub open spec fn net_label_of(o: ObjectV) -> Option<Seq<char>> {
    match o {
        ObjectV::Wire { props, .. } => label_in(props),
        ObjectV::Text { props, .. } => label_in(props),
        ObjectV::Component { symbol, props, .. } =>
            if is_label_symbol(trim_sym(after_last(symbol, '/'))) { label_in(props) } else { None },
        _ => None,
    }
}

/// The names of the nets that a list of objects names.
pub open spec fn net_names_of(objs: Seq<ObjectV>) -> Set<Seq<char>> {
    Set::new(|k: Seq<char>| exists|i: int| 0 <= i < objs.len() && net_label_of(#[trigger] objs[i]) == Some(k))
}

/// A net with a name and, as yet, no pins.
pub open spec fn bare_net(k: Seq<char>) -> NetV {
    NetV { name: k, pins: Seq::empty() }
}

pub open spec fn nets_of(objs: Seq<ObjectV>) -> Map<Seq<char>, NetV> {
    Map::new(|k: Seq<char>| net_names_of(objs).contains(k), |k: Seq<char>| bare_net(k))
}

impl Netlist {
    /// The names of the nets of this netlist.
    pub fn net_names(&self) -> (r: StrSet)
        ensures r@ == self.nets@.dom(),
    {
        let mut r = StrSet::new();
        let n = self.nets.len();
        let mut i: usize = 0;
        while i < n
            invariant
                n == self.nets.key_seq().len(),
                self.nets.shape(),
                i <= n,
                r@ == self.nets.key_seq().take(i as int).to_set(),
            decreases n - i,
        {
            let k = self.nets.key_at(i);
            r.insert(k.clone());
            proof {
                assert(self.nets.key_seq().take(i + 1) =~= self.nets.key_seq().take(i as int).push(k@));
                self.nets.key_seq().take(i as int).lemma_push_to_set_commute(k@);
                assert(r@ =~= self.nets.key_seq().take(i + 1).to_set());
            }
            i = i + 1;
        }
        proof {
            assert(self.nets.key_seq().take(n as int) =~= self.nets.key_seq());
            assert(r@ =~= self.nets@.dom());
        }
        r
    }
}

/// The attributes without the one named `key`.
pub fn props_without(p: &Properties, key: &[char]) -> (r: Properties)
    ensures r@ == p@.remove(key@),
{
    let mut r: Properties = StrMap::new();
    let n = p.len();
    let ghost ks = p.key_seq();
    let ghost vs = p.val_seq();
    proof { assert(r@ =~= entries_map(ks.take(0), vs.take(0)).map_values(|v: String| v@).remove(key@)); }
    let mut i: usize = 0;
    while i < n
        invariant
            n == ks.len(),
            ks == p.key_seq(),
            vs == p.val_seq(),
            p.shape(),
            i <= n,
            r@ == entries_map(ks.take(i as int), vs.take(i as int)).map_values(|v: String| v@).remove(key@),
        decreases n - i,
    {
        let k = p.key_at(i);
        let v = p.val_at(i);
        proof {
            lemma_entries_map_take(ks, vs, i as int);
            lemma_view_insert(entries_map(ks.take(i as int), vs.take(i as int)), ks[i as int], vs[i as int]);
        }
        if !eq_chars(k.as_str(), key) {
            let ghost before = r@;
            r.insert(k.clone(), v.clone());
            proof {
                assert(r@ =~= entries_map(ks.take(i + 1), vs.take(i + 1)).map_values(|v: String| v@).remove(key@));
            }
        } else {
            proof {
                assert(r@ =~= entries_map(ks.take(i + 1), vs.take(i + 1)).map_values(|v: String| v@).remove(key@));
            }
        }
        i = i + 1;
    }
    proof {
        assert(ks.take(n as int) =~= ks);
        assert(vs.take(n as int) =~= vs);
        assert(r@ =~= p@.remove(key@));
    }
    r
}

fn lab_of(props: &Properties) -> (r: Option<String>)
    ensures
        match label_in(props@) {
            Some(l) => r matches Some(rl) && rl@ == l,
            None => r is None,
        },
{
    let lab = ['l', 'a', 'b'];
    let mut key = String::new();
    key.push('l');
    key.push('a');
    key.push('b');
    assert(key@ =~= lab_key());
    match props.get(key.as_str()) {
        Some(v) => if v.as_str().is_empty() { None } else { Some(v.clone()) },
        None => None,
    }
}

/// The net that an object names, if any.
fn net_label(o: &Object) -> (r: Option<String>)
    ensures
        match net_label_of(view_object(*o)) {
            Some(l) => r matches Some(rl) && rl@ == l,
            None => r is None,
        },
{
    match o {
        Object::Wire(w) => lab_of(&w.properties),
        Object::Text(t) => lab_of(&t.properties),
        Object::Component(c) => {
            let base = after_last_char(c.symbol_reference.as_str(), '/');
            let sym = trim_sym_suffix(base.as_str());
            let ipin = ['i', 'p', 'i', 'n'];
            let opin = ['o', 'p', 'i', 'n'];
            let iopin = ['i', 'o', 'p', 'i', 'n'];
            let label = ['l', 'a', 'b', 'e', 'l'];
            assert(ipin@ =~= seq!['i', 'p', 'i', 'n']);
            assert(opin@ =~= seq!['o', 'p', 'i', 'n']);
            assert(iopin@ =~= seq!['i', 'o', 'p', 'i', 'n']);
            assert(label@ =~= seq!['l', 'a', 'b', 'e', 'l']);
            if eq_chars(sym.as_str(), &ipin) || eq_chars(sym.as_str(), &opin) || eq_chars(sym.as_str(), &iopin)
                || eq_chars(sym.as_str(), &label) {
                lab_of(&c.properties)
            } else {
                None
            }
        },
        _ => None,
    }
}

/// The instance that an object names, if any.
fn instance(o: &Object) -> (r: Option<Instance>)
    ensures
        match instance_of(view_object(*o)) {
            Some(inst) => r matches Some(ri) && ri@ == inst,
            None => r is None,
        },
{
    match o {
        Object::Component(c) => {
            let name = ['n', 'a', 'm', 'e'];
            assert(name@ =~= name_key());
            let mut key = String::new();
            key.push('n');
            key.push('a');
            key.push('m');
            key.push('e');
            assert(key@ =~= name_key());
            match c.properties.get(key.as_str()) {
                Some(v) => if v.as_str().is_empty() {
                    None
                } else {
                    let inst = Instance {
                        name: v.clone(),
                        symbol: trim_sym_suffix(c.symbol_reference.as_str()),
                        params: props_without(&c.properties, &name),
                    };
                    assert(inst.name@ == c.properties@[name_key()]);
                    assert(inst.params@ == c.properties@.remove(name_key()));
                    Some(inst)
                },
                None => None,
            }
        },
        _ => None,
    }
}

pub proof fn lemma_view_objects_len(objs: Seq<Object>)
    ensures
        view_objects(objs).len() == objs.len(),
        forall|j: int| 0 <= j < objs.len() ==> #[trigger] view_objects(objs)[j] == view_object(objs[j]),
    decreases objs.len(),
{
    if objs.len() > 0 {
        lemma_view_objects_len(objs.drop_last());
    }
}

/// Object `o` is a component whose instance is named `k`.
pub open spec fn names_instance(o: ObjectV, k: Seq<char>) -> bool {
    instance_of(o) is Some && instance_of(o)->0.name == k
}

/// The instances are keyed by the non-empty `name`s of the components:
/// each such name is a key and each key is one. The entry under a key is the
/// instance of the last component of that name, so its `name` is its key.
/// Each net is stored under its own name, with no pins.
pub proof fn lemma_netlist_entries(objs: Seq<ObjectV>)
    ensures
        forall|k: Seq<char>| #[trigger] instances_of(objs).contains_key(k) <==>
            exists|i: int| 0 <= i < objs.len() && #[trigger] names_instance(objs[i], k),
        forall|k: Seq<char>| #[trigger] instances_of(objs).contains_key(k) ==> {
            &&& instances_of(objs)[k].name == k
            &&& exists|i: int| 0 <= i < objs.len() && instance_of(#[trigger] objs[i]) == Some(instances_of(objs)[k])
                && forall|j: int| i < j < objs.len() ==> !names_instance(#[trigger] objs[j], k)
        },
        forall|k: Seq<char>| #[trigger] nets_of(objs).contains_key(k) ==> nets_of(objs)[k] == bare_net(k),
    decreases objs.len(),
{
    if objs.len() > 0 {
        let d = objs.drop_last();
        let l = objs.last();
        let n = objs.len() - 1;
        assert(objs[n] == l);
        lemma_netlist_entries(d);
        let m = instances_of(d);
        let r = instances_of(objs);
        assert forall|k: Seq<char>| #[trigger] r.contains_key(k) <==>
            exists|i: int| 0 <= i < objs.len() && #[trigger] names_instance(objs[i], k) by {
            if r.contains_key(k) {
                if m.contains_key(k) {
                    let i = choose|i: int| 0 <= i < d.len() && #[trigger] names_instance(d[i], k);
                    assert(objs[i] == d[i]);
                } else {
                    assert(names_instance(objs[n], k));
                }
            }
            if exists|i: int| 0 <= i < objs.len() && #[trigger] names_instance(objs[i], k) {
                let i = choose|i: int| 0 <= i < objs.len() && #[trigger] names_instance(objs[i], k);
                if i < n {
                    assert(d[i] == objs[i]);
                    assert(m.contains_key(k));
                }
            }
        }
        assert forall|k: Seq<char>| #[trigger] r.contains_key(k) implies {
            &&& r[k].name == k
            &&& exists|i: int| 0 <= i < objs.len() && instance_of(#[trigger] objs[i]) == Some(r[k])
                && forall|j: int| i < j < objs.len() ==> !names_instance(#[trigger] objs[j], k)
        } by {
            if names_instance(l, k) {
                assert(instance_of(objs[n]) == Some(r[k]));
            } else {
                assert(m.contains_key(k));
                assert(r[k] == m[k]);
                let i = choose|i: int| 0 <= i < d.len() && instance_of(#[trigger] d[i]) == Some(m[k])
                    && forall|j: int| i < j < d.len() ==> !names_instance(#[trigger] d[j], k);
                assert(objs[i] == d[i]);
                assert forall|j: int| i < j < objs.len() implies !names_instance(#[trigger] objs[j], k) by {
                    if j < n {
                        assert(objs[j] == d[j]);
                    }
                }
            }
        }
    }
}

/// Each instance is stored under the non-empty `name` attribute of a
/// component; its symbol is that component's symbol reference without its
/// `.sym` endings, and its parameters are the component's other attributes.
pub proof fn lemma_instance_fields(objs: Seq<ObjectV>, k: Seq<char>)
    requires
        instances_of(objs).contains_key(k),
    ensures
        k.len() > 0,
        exists|i: int| 0 <= i < objs.len() && (#[trigger] objs[i] matches ObjectV::Component { symbol, props, .. }
            && props.contains_key("name"@) && props["name"@] == k
            && instances_of(objs)[k] == (InstanceV { name: k, symbol: trim_sym(symbol), params: props.remove("name"@) })),
{
    reveal_strlit("name");
    assert(name_key() =~= "name"@);
    lemma_netlist_entries(objs);
    let e = instances_of(objs)[k];
    let i = choose|i: int| 0 <= i < objs.len() && instance_of(#[trigger] objs[i]) == Some(e)
        && forall|j: int| i < j < objs.len() ==> !names_instance(#[trigger] objs[j], k);
    assert(e.name == k);
    match objs[i] {
        ObjectV::Component { symbol, props, .. } => {
            assert(props.contains_key("name"@) && props["name"@] == k);
        },
        _ => {},
    }
}

/// Every component with a non-empty `name` attribute is an instance,
/// stored under that name.
pub proof fn lemma_named_components_are_instances(objs: Seq<ObjectV>, i: int)
    requires
        0 <= i < objs.len(),
    ensures
        objs[i] matches ObjectV::Component { props, .. } ==> (props.contains_key("name"@) && props["name"@].len() > 0
            ==> instances_of(objs).contains_key(props["name"@])),
{
    reveal_strlit("name");
    assert(name_key() =~= "name"@);
    lemma_netlist_entries(objs);
    match objs[i] {
        ObjectV::Component { props, .. } => {
            if props.contains_key("name"@) && props["name"@].len() > 0 {
                assert(names_instance(objs[i], props["name"@]));
            }
        },
        _ => {},
    }
}

/// Every non-empty `lab` of a wire, a text, or a component whose symbol's
/// base name (after the last `/`, without `.sym`) is `ipin`, `opin`, `iopin`
/// or `label` names a net: a key of the nets, stored under its own name.
pub proof fn lemma_labels_name_nets(objs: Seq<ObjectV>, i: int)
    requires
        0 <= i < objs.len(),
    ensures
        objs[i] matches ObjectV::Component { symbol, props, .. } ==> ({
            let base = trim_sym(after_last(symbol, '/'));
            (base == "ipin"@ || base == "opin"@ || base == "iopin"@ || base == "label"@)
                && props.contains_key("lab"@) && props["lab"@].len() > 0
                ==> nets_of(objs).contains_key(props["lab"@]) && nets_of(objs)[props["lab"@]].name == props["lab"@]
        }),
        objs[i] matches ObjectV::Wire { props, .. } ==> (props.contains_key("lab"@) && props["lab"@].len() > 0
            ==> nets_of(objs).contains_key(props["lab"@]) && nets_of(objs)[props["lab"@]].name == props["lab"@]),
        objs[i] matches ObjectV::Text { props, .. } ==> (props.contains_key("lab"@) && props["lab"@].len() > 0
            ==> nets_of(objs).contains_key(props["lab"@]) && nets_of(objs)[props["lab"@]].name == props["lab"@]),
{
    reveal_strlit("lab");
    reveal_strlit("ipin");
    reveal_strlit("opin");
    reveal_strlit("iopin");
    reveal_strlit("label");
    assert(lab_key() =~= "lab"@);
    assert(seq!['i', 'p', 'i', 'n'] =~= "ipin"@);
    assert(seq!['o', 'p', 'i', 'n'] =~= "opin"@);
    assert(seq!['i', 'o', 'p', 'i', 'n'] =~= "iopin"@);
    assert(seq!['l', 'a', 'b', 'e', 'l'] =~= "label"@);
    match objs[i] {
        ObjectV::Component { symbol, props, .. } => {
            if props.contains_key("lab"@) && props["lab"@].len() > 0 {
                assert(label_in(props) == Some(props["lab"@]));
            }
        },
        ObjectV::Wire { props, .. } => {
            if props.contains_key("lab"@) && props["lab"@].len() > 0 {
                assert(label_in(props) == Some(props["lab"@]));
                assert(net_label_of(objs[i]) == Some(props["lab"@]));
            }
        },
        ObjectV::Text { props, .. } => {
            if props.contains_key("lab"@) && props["lab"@].len() > 0 {
                assert(label_in(props) == Some(props["lab"@]));
                assert(net_label_of(objs[i]) == Some(props["lab"@]));
            }
        },
        _ => {},
    }
}

/// Extracts a flat netlist from a parsed schematic.
///
/// The instances are the components with a non-empty `name` attribute, keyed
/// by that name; their symbol loses its `.sym` ending and their parameters
/// are all other attributes. The nets are the non-empty `lab` attributes of
/// wires, texts and `ipin`/`opin`/`iopin`/`label` symbols; their pin lists
/// are empty.
pub fn extract_netlist(schematic: &Schematic) -> (r: Netlist)
    ensures
        r.instances@ == instances_of(view_objects(schematic.objects@)),
        r.nets@ == nets_of(view_objects(schematic.objects@)),
{
    let objs = &schematic.objects;
    let ghost ov = view_objects(objs@);
    proof { lemma_view_objects_len(objs@); }
    let mut instances: StrMap<Instance> = StrMap::new();
    proof { assert(instances@ =~= instances_of(ov.take(0))); }
    let mut i: usize = 0;
    while i < objs.len()
        invariant
            i <= objs@.len(),
            ov == view_objects(objs@),
            ov.len() == objs@.len(),
            forall|j: int| 0 <= j < objs@.len() ==> #[trigger] ov[j] == view_object(objs@[j]),
            instances@ == instances_of(ov.take(i as int)),
        decreases objs@.len() - i,
    {
        proof { assert(ov.take(i + 1).drop_last() =~= ov.take(i as int)); }
        match instance(&objs[i]) {
            Some(inst) => {
                let ghost iv = inst@;
                let name = inst.name.clone();
                instances.insert(name, inst);
                proof { assert(instances@ =~= instances_of(ov.take(i + 1))); }
            },
            None => {
                proof { assert(instances@ =~= instances_of(ov.take(i + 1))); }
            },
        }
        i = i + 1;
    }
    proof { assert(ov.take(objs@.len() as int) =~= ov); }
    let nets = collect_nets(schematic);
    Netlist { instances, nets }
}

fn collect_nets(schematic: &Schematic) -> (r: StrMap<Net>)
    ensures r@ == nets_of(view_objects(schematic.objects@)),
{
    let objs = &schematic.objects;
    let ghost ov = view_objects(objs@);
    proof { lemma_view_objects_len(objs@); }
    let mut nets: StrMap<Net> = StrMap::new();
    proof { assert(nets@ =~= nets_of(ov.take(0))); }
    let mut i: usize = 0;
    while i < objs.len()
        invariant
            i <= objs@.len(),
            ov == view_objects(objs@),
            ov.len() == objs@.len(),
            forall|j: int| 0 <= j < objs@.len() ==> #[trigger] ov[j] == view_object(objs@[j]),
            nets@ == nets_of(ov.take(i as int)),
        decreases objs@.len() - i,
    {
        let ghost pre = ov.take(i as int);
        let ghost post = ov.take(i + 1);
        proof { assert(post =~= pre.push(ov[i as int])); }
        match net_label(&objs[i]) {
            Some(lab) => {
                let net = Net { name: lab.clone(), pins: Vec::new() };
                proof { assert(net@.pins =~= Seq::<(Seq<char>, Seq<char>)>::empty()); }
                nets.insert_if_absent(lab, net);
                proof {
                    assert forall|k: Seq<char>| net_names_of(post).contains(k) == (net_names_of(pre).contains(k) || k == lab@) by {
                        if net_names_of(post).contains(k) {
                            let j = choose|j: int| 0 <= j < post.len() && net_label_of(#[trigger] post[j]) == Some(k);
                            if j < i { assert(pre[j] == post[j]); }
                        }
                        if net_names_of(pre).contains(k) {
                            let j = choose|j: int| 0 <= j < pre.len() && net_label_of(#[trigger] pre[j]) == Some(k);
                            assert(pre[j] == post[j]);
                        }
                        if k == lab@ { assert(post[i as int] == ov[i as int]); }
                    }
                    assert(nets@ =~= nets_of(post));
                }
            },
            None => {
                proof {
                    assert forall|k: Seq<char>| net_names_of(post).contains(k) == net_names_of(pre).contains(k) by {
                        if net_names_of(post).contains(k) {
                            let j = choose|j: int| 0 <= j < post.len() && net_label_of(#[trigger] post[j]) == Some(k);
                            if j < i { assert(pre[j] == post[j]); }
                        }
                        if net_names_of(pre).contains(k) {
                            let j = choose|j: int| 0 <= j < pre.len() && net_label_of(#[trigger] pre[j]) == Some(k);
                            assert(pre[j] == post[j]);
                        }
                    }
                    assert(nets@ =~= nets_of(post));
                }
            },
        }
        i = i + 1;
    }
    proof { assert(ov.take(objs@.len() as int) =~= ov); }
    nets
}

} // verus!
