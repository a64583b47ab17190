//! The walk over a schematic and the symbols it places: which drawing
//! elements come out, in which order, under which placements.
//!
//! The walk does no coordinate arithmetic. It reports each element with the
//! coordinates as the file writes them, and brackets the elements of a
//! placed symbol between `Enter` (with the symbol's placement) and `Leave`;
//! whoever evaluates the events keeps the stack of placements and applies it.
//! Rotations and flips, which are whole numbers, are combined here.
use vstd::prelude::*;
use crate::models::{view_object, view_objects, Object, ObjectV, Properties, PropsV, Schematic};
use crate::renderer::{substitute_attrs, substitute_from};
use crate::scene::{
    attr, component_id, component_id_of, flag, flag_of, is_graph, is_graph_of, pin_label, pin_label_of,
    rect_filled, rect_filled_of, rem4, symbol_file, symbol_file_of, symbol_name, symbol_name_of, symbol_scope,
    symbol_scope_of, text_layer, text_layer_of,
};
use crate::strmap::StrMap;
use crate::text::str_eq;
use crate::netlist::lemma_view_objects_len;

verus! {

broadcast use vstd::string::group_string_axioms;

/// One step of the walk.
#[derive(Debug)]
#[allow(inconsistent_fields)]
pub enum SceneEvent {
    /// Widen the bounding box by this point, as written (a component's own position).
    Anchor { x: String, y: String },
    Wire { x1: String, y1: String, x2: String, y2: String, label: Option<String>, component: Option<String> },
    Line { x1: String, y1: String, x2: String, y2: String, layer: i32, component: Option<String> },
    Rect { x1: String, y1: String, x2: String, y2: String, layer: i32, filled: bool, component: Option<String> },
    /// An arc; a full turn or more is drawn as a circle.
    Arc { cx: String, cy: String, r: String, start: String, sweep: String, layer: i32, component: Option<String> },
    Polygon { points: Vec<(String, String)>, layer: i32, filled: bool, component: Option<String> },
    Text {
        x: String,
        y: String,
        content: String,
        h_size: String,
        v_size: String,
        rotation: i32,
        mirror: i32,
        h_center: bool,
        v_center: bool,
        layer: i32,
        component: Option<String>,
    },
    /// The pin `label` of component `instance`, at this point under the current placement.
    Pin { instance: String, label: String, x: String, y: String },
    /// A symbol that could not be found, at this point under the current placement.
    Missing { name: String, x: String, y: String, component: String },
    /// The objects of a symbol follow, placed at this point (under the current
    /// placement) with the given total rotation and flip.
    Enter { x: String, y: String, rotation: i32, flip: bool },
    /// The objects of the symbol last entered are done.
    Leave,
}

#[allow(inconsistent_fields)]
pub enum SceneEventV {
    Anchor { x: Seq<char>, y: Seq<char> },
    Wire { coords: Seq<Seq<char>>, label: Option<Seq<char>>, component: Option<Seq<char>> },
    Line { coords: Seq<Seq<char>>, layer: i32, component: Option<Seq<char>> },
    Rect { coords: Seq<Seq<char>>, layer: i32, filled: bool, component: Option<Seq<char>> },
    Arc { coords: Seq<Seq<char>>, layer: i32, component: Option<Seq<char>> },
    Polygon { points: Seq<(Seq<char>, Seq<char>)>, layer: i32, filled: bool, component: Option<Seq<char>> },
    Text {
        x: Seq<char>,
        y: Seq<char>,
        content: Seq<char>,
        h_size: Seq<char>,
        v_size: Seq<char>,
        rotation: i32,
        mirror: i32,
        h_center: bool,
        v_center: bool,
        layer: i32,
        component: Option<Seq<char>>,
    },
    Pin { instance: Seq<char>, label: Seq<char>, x: Seq<char>, y: Seq<char> },
    Missing { name: Seq<char>, x: Seq<char>, y: Seq<char>, component: Seq<char> },
    Enter { x: Seq<char>, y: Seq<char>, rotation: i32, flip: bool },
    Leave,
}

pub open spec fn opt_view(o: Option<String>) -> Option<Seq<char>> {
    match o {
        Some(s) => Some(s@),
        None => None,
    }
}

impl View for SceneEvent {
    type V = SceneEventV;

    open spec fn view(&self) -> SceneEventV {
        match *self {
            SceneEvent::Anchor { x, y } => SceneEventV::Anchor { x: x@, y: y@ },
            SceneEvent::Wire { x1, y1, x2, y2, label, component } =>
                SceneEventV::Wire { coords: seq![x1@, y1@, x2@, y2@], label: opt_view(label), component: opt_view(component) },
            SceneEvent::Line { x1, y1, x2, y2, layer, component } =>
                SceneEventV::Line { coords: seq![x1@, y1@, x2@, y2@], layer, component: opt_view(component) },
            SceneEvent::Rect { x1, y1, x2, y2, layer, filled, component } =>
                SceneEventV::Rect { coords: seq![x1@, y1@, x2@, y2@], layer, filled, component: opt_view(component) },
            SceneEvent::Arc { cx, cy, r, start, sweep, layer, component } =>
                SceneEventV::Arc { coords: seq![cx@, cy@, r@, start@, sweep@], layer, component: opt_view(component) },
            SceneEvent::Polygon { points, layer, filled, component } => SceneEventV::Polygon {
                points: points@.map_values(|p: (String, String)| (p.0@, p.1@)),
                layer,
                filled,
                component: opt_view(component),
            },
            SceneEvent::Text { x, y, content, h_size, v_size, rotation, mirror, h_center, v_center, layer, component } =>
                SceneEventV::Text {
                    x: x@,
                    y: y@,
                    content: content@,
                    h_size: h_size@,
                    v_size: v_size@,
                    rotation,
                    mirror,
                    h_center,
                    v_center,
                    layer,
                    component: opt_view(component),
                },
            SceneEvent::Pin { instance, label, x, y } => SceneEventV::Pin { instance: instance@, label: label@, x: x@, y: y@ },
            SceneEvent::Missing { name, x, y, component } =>
                SceneEventV::Missing { name: name@, x: x@, y: y@, component: component@ },
            SceneEvent::Enter { x, y, rotation, flip } => SceneEventV::Enter { x: x@, y: y@, rotation, flip },
            SceneEvent::Leave => SceneEventV::Leave,
        }
    }
}

pub open spec fn events_view(v: Seq<SceneEvent>) -> Seq<SceneEventV> {
    v.map_values(|e: SceneEvent| e@)
}

/// The symbols at hand: file name and objects.
pub open spec fn table_view(t: Seq<(String, Schematic)>) -> Seq<(Seq<char>, Seq<ObjectV>)> {
    t.map_values(|e: (String, Schematic)| (e.0@, view_objects(e.1.objects@)))
}

/// The index of the first symbol named `name`, or the table's length.
pub open spec fn find_symbol(t: Seq<(Seq<char>, Seq<ObjectV>)>, name: Seq<char>, i: int) -> int
    decreases t.len() - i,
{
    if i < 0 || i >= t.len() { t.len() as int } else if t[i].0 == name { i } else { find_symbol(t, name, i + 1) }
}

/// Two quarter-turn counts combined as `(a + b) % 4`, the sum wrapping
/// around as an optimized build's `i32` arithmetic does.
pub open spec fn turn(a: i32, b: i32) -> i32 {
    rem4(a.wrapping_add(b) as int) as i32
}

/// A text's mirror under a flipped placement: `1 - mirror`, wrapping.
pub open spec fn mirror_under(flip: bool, mirror: i32) -> i32 {
    if flip { 1i32.wrapping_sub(mirror) } else { mirror }
}

/// The events for the objects `objs`, under a placement of total rotation
/// `rot` and flip `flip`, with the attributes `props` handed down and
/// belonging to component `comp`. Symbols nest at most `depth` deep.
pub open spec fn walk_objects(
    objs: Seq<ObjectV>,
    rot: i32,
    flip: bool,
    props: PropsV,
    comp: Option<Seq<char>>,
    table: Seq<(Seq<char>, Seq<ObjectV>)>,
    depth: nat,
) -> Seq<SceneEventV>
    decreases depth, objs,
{
    if objs.len() == 0 {
        Seq::empty()
    } else {
        walk_objects(objs.drop_last(), rot, flip, props, comp, table, depth)
            + walk_object(objs.last(), rot, flip, props, comp, table, depth)
    }
}

/// The events for one object (see `walk_objects`).
pub open spec fn walk_object(
    o: ObjectV,
    rot: i32,
    flip: bool,
    props: PropsV,
    comp: Option<Seq<char>>,
    table: Seq<(Seq<char>, Seq<ObjectV>)>,
    depth: nat,
) -> Seq<SceneEventV>
    decreases depth, o,
{
    match o {
        ObjectV::Wire { coords, props: p } =>
            seq![SceneEventV::Wire { coords, label: attr(p, "lab"@), component: comp }],
        ObjectV::Line { layer, coords, .. } => seq![SceneEventV::Line { coords, layer, component: comp }],
        ObjectV::Rectangle { layer, coords, props: p } =>
            if is_graph_of(p) {
                Seq::empty()
            } else {
                seq![SceneEventV::Rect { coords, layer, filled: rect_filled_of(p), component: comp }]
            },
        ObjectV::Arc { layer, coords, .. } => seq![SceneEventV::Arc { coords, layer, component: comp }],
        ObjectV::Polygon { layer, points, props: p } =>
            if points.len() == 0 {
                Seq::empty()
            } else {
                seq![SceneEventV::Polygon { points, layer, filled: flag_of(p, "fill"@), component: comp }]
            },
        ObjectV::Text { text, coords, rotation, mirror, props: p } =>
            if flag_of(p, "hide"@) {
                Seq::empty()
            } else {
                seq![SceneEventV::Text {
                    x: coords[0],
                    y: coords[1],
                    content: substitute_from(text, 0, props),
                    h_size: coords[2],
                    v_size: coords[3],
                    rotation: turn(rotation, rot),
                    mirror: mirror_under(flip, mirror),
                    h_center: flag_of(p, "hcenter"@),
                    v_center: flag_of(p, "vcenter"@),
                    layer: text_layer_of(p),
                    component: comp,
                }]
            },
        ObjectV::Component { symbol, coords, rotation, flip: cflip, props: p } => {
            let sym_file = symbol_file_of(symbol);
            let sym_name = symbol_name_of(symbol);
            let cid = component_id_of(p, sym_name);
            let anchor = seq![SceneEventV::Anchor { x: coords[0], y: coords[1] }];
            let pin = match comp {
                Some(parent) => match pin_label_of(sym_name, p) {
                    Some(l) => seq![SceneEventV::Pin { instance: parent, label: l, x: coords[0], y: coords[1] }],
                    None => Seq::empty(),
                },
                None => Seq::empty(),
            };
            let k = find_symbol(table, sym_file, 0);
            let body = if k < table.len() {
                if depth > 0 {
                    let child_rot = turn(rot, rotation);
                    let child_flip = if cflip != 0 { !flip } else { flip };
                    seq![SceneEventV::Enter { x: coords[0], y: coords[1], rotation: child_rot, flip: child_flip }]
                        + walk_objects(table[k].1, child_rot, child_flip, symbol_scope_of(p, sym_name), Some(cid), table, (depth - 1) as nat)
                        + seq![SceneEventV::Leave]
                } else {
                    Seq::empty()
                }
            } else {
                seq![SceneEventV::Missing { name: sym_file, x: coords[0], y: coords[1], component: cid }]
            };
            anchor + pin + body
        },
        ObjectV::EmbeddedSymbol { objects } => walk_objects(objects, rot, flip, props, comp, table, depth),
        _ => Seq::empty(),
    }
}

/// The walk of a whole schematic: the top level unplaced, no attributes
/// handed down, symbols nesting at most as deep as the table is long (deeper
/// only where a symbol places itself, directly or not).
pub open spec fn scene_walk(objs: Seq<ObjectV>, table: Seq<(Seq<char>, Seq<ObjectV>)>) -> Seq<SceneEventV> {
    walk_objects(objs, 0, false, Map::empty(), None, table, table.len())
}

// ─── The walk, executed ──────────────────────────────────────────────────────

fn find_symbol_index(table: &Vec<(String, Schematic)>, name: &str) -> (r: usize)
    ensures
        r == find_symbol(table_view(table@), name@, 0),
        r <= table@.len(),
{
    let ghost tv = table_view(table@);
    let mut i: usize = 0;
    while i < table.len()
        invariant
            i <= table@.len(),
            tv == table_view(table@),
            find_symbol(tv, name@, i as int) == find_symbol(tv, name@, 0),
        decreases table@.len() - i,
    {
        if str_eq(table[i].0.as_str(), name) {
            return i;
        }
        i = i + 1;
    }
    i
}

fn turn_exec(a: i32, b: i32) -> (r: i32)
    ensures r == turn(a, b),
{
    a.wrapping_add(b) % 4
}

fn mirror_exec(flip: bool, mirror: i32) -> (r: i32)
    ensures r == mirror_under(flip, mirror),
{
    if flip { 1i32.wrapping_sub(mirror) } else { mirror }
}

fn label_of(p: &Properties) -> (r: Option<String>)
    ensures opt_view(r) == attr(p@, "lab"@),
{
    match p.get("lab") {
        Some(l) => Some(l.clone()),
        None => None,
    }
}

fn copy_points(points: &Vec<crate::models::Point>) -> (r: Vec<(String, String)>)
    ensures r@.map_values(|p: (String, String)| (p.0@, p.1@)) == points@.map_values(|q: crate::models::Point| q@),
{
    let mut r: Vec<(String, String)> = Vec::new();
    let mut i: usize = 0;
    while i < points.len()
        invariant
            i <= points@.len(),
            r@.len() == i,
            r@.map_values(|p: (String, String)| (p.0@, p.1@)) == points@.take(i as int).map_values(|q: crate::models::Point| q@),
        decreases points@.len() - i,
    {
        let ghost r0 = r@;
        let x = points[i].x.clone();
        let y = points[i].y.clone();
        proof {
            assert(x@ == points@[i as int].x@);
            assert(y@ == points@[i as int].y@);
        }
        r.push((x, y));
        proof {
            assert(r@[i as int].0@ == points@[i as int]@.0);
            assert(r0.map_values(|p: (String, String)| (p.0@, p.1@)) == points@.take(i as int).map_values(|q: crate::models::Point| q@));
            let a = r@.map_values(|p: (String, String)| (p.0@, p.1@));
            let b = points@.take(i + 1).map_values(|q: crate::models::Point| q@);
            let a0 = r0.map_values(|p: (String, String)| (p.0@, p.1@));
            let b0 = points@.take(i as int).map_values(|q: crate::models::Point| q@);
            assert forall|j: int| 0 <= j < i + 1 implies #[trigger] a[j] == b[j] by {
                if j < i {
                    assert(r@[j] == r0[j]);
                    assert(a0[j] == b0[j]);
                }
            }
            assert(a =~= b);
            assert(r@.map_values(|p: (String, String)| (p.0@, p.1@))
                =~= points@.take(i + 1).map_values(|q: crate::models::Point| q@));
        }
        i = i + 1;
    }
    proof { assert(points@.take(i as int) =~= points@); }
    r
}

fn walk_objects_exec(
    objs: &Vec<Object>,
    rot: i32,
    flip: bool,
    props: &Properties,
    comp: &Option<String>,
    table: &Vec<(String, Schematic)>,
    depth: usize,
    out: &mut Vec<SceneEvent>,
)
    ensures
        events_view(final(out)@) == events_view(old(out)@)
            + walk_objects(view_objects(objs@), rot, flip, props@, opt_view(*comp), table_view(table@), depth as nat),
    decreases depth, objs@,
{
    let ghost vo = view_objects(objs@);
    let ghost start = events_view(out@);
    proof { lemma_view_objects_len(objs@); }
    let mut i: usize = 0;
    while i < objs.len()
        invariant
            i <= objs@.len(),
            vo == view_objects(objs@),
            vo.len() == objs@.len(),
            forall|j: int| 0 <= j < objs@.len() ==> #[trigger] vo[j] == view_object(objs@[j]),
            events_view(out@) == start
                + walk_objects(vo.take(i as int), rot, flip, props@, opt_view(*comp), table_view(table@), depth as nat),
        decreases objs@.len() - i,
    {
        let ghost before = events_view(out@);
        walk_object_exec(&objs[i], rot, flip, props, comp, table, depth, out);
        proof {
            assert(vo.take(i + 1).drop_last() =~= vo.take(i as int));
            assert(vo.take(i + 1).last() == view_object(objs@[i as int]));
            assert(events_view(out@) =~= start
                + walk_objects(vo.take(i + 1), rot, flip, props@, opt_view(*comp), table_view(table@), depth as nat));
        }
        i = i + 1;
    }
    proof { assert(vo.take(i as int) =~= vo); }
}

fn push_event(out: &mut Vec<SceneEvent>, e: SceneEvent)
    ensures events_view(final(out)@) == events_view(old(out)@).push(e@),
{
    let ghost v = e@;
    out.push(e);
    proof { assert(events_view(out@) =~= events_view(old(out)@).push(v)); }
}

#[verifier::rlimit(40)]
fn walk_object_exec(
    o: &Object,
    rot: i32,
    flip: bool,
    props: &Properties,
    comp: &Option<String>,
    table: &Vec<(String, Schematic)>,
    depth: usize,
    out: &mut Vec<SceneEvent>,
)
    ensures
        events_view(final(out)@) == events_view(old(out)@)
            + walk_object(view_object(*o), rot, flip, props@, opt_view(*comp), table_view(table@), depth as nat),
    decreases depth, *o,
{
    let ghost start = events_view(out@);
    let ghost tv = table_view(table@);
    let ghost expected = walk_object(view_object(*o), rot, flip, props@, opt_view(*comp), tv, depth as nat);
    match o {
        Object::Wire(w) => {
            let e = SceneEvent::Wire {
                x1: w.x1.clone(),
                y1: w.y1.clone(),
                x2: w.x2.clone(),
                y2: w.y2.clone(),
                label: label_of(&w.properties),
                component: comp.clone(),
            };
            push_event(out, e);
            proof { assert(events_view(out@) =~= start + expected); }
        },
        Object::Line(l) => {
            let e = SceneEvent::Line {
                x1: l.x1.clone(),
                y1: l.y1.clone(),
                x2: l.x2.clone(),
                y2: l.y2.clone(),
                layer: l.layer,
                component: comp.clone(),
            };
            push_event(out, e);
            proof { assert(events_view(out@) =~= start + expected); }
        },
        Object::Rectangle(r) => {
            if !is_graph(&r.properties) {
                let e = SceneEvent::Rect {
                    x1: r.x1.clone(),
                    y1: r.y1.clone(),
                    x2: r.x2.clone(),
                    y2: r.y2.clone(),
                    layer: r.layer,
                    filled: rect_filled(&r.properties),
                    component: comp.clone(),
                };
                push_event(out, e);
            }
            proof { assert(events_view(out@) =~= start + expected); }
        },
        Object::Arc(a) => {
            let e = SceneEvent::Arc {
                cx: a.center_x.clone(),
                cy: a.center_y.clone(),
                r: a.radius.clone(),
                start: a.start_angle.clone(),
                sweep: a.sweep_angle.clone(),
                layer: a.layer,
                component: comp.clone(),
            };
            push_event(out, e);
            proof { assert(events_view(out@) =~= start + expected); }
        },
        Object::Polygon(p) => {
            if p.points.len() > 0 {
                let e = SceneEvent::Polygon {
                    points: copy_points(&p.points),
                    layer: p.layer,
                    filled: flag(&p.properties, "fill"),
                    component: comp.clone(),
                };
                push_event(out, e);
            }
            proof { assert(events_view(out@) =~= start + expected); }
        },
        Object::Text(t) => {
            if !flag(&t.properties, "hide") {
                let e = SceneEvent::Text {
                    x: t.x.clone(),
                    y: t.y.clone(),
                    content: substitute_attrs(t.text.as_str(), props),
                    h_size: t.h_size.clone(),
                    v_size: t.v_size.clone(),
                    rotation: turn_exec(t.rotation, rot),
                    mirror: mirror_exec(flip, t.mirror),
                    h_center: flag(&t.properties, "hcenter"),
                    v_center: flag(&t.properties, "vcenter"),
                    layer: text_layer(&t.properties),
                    component: comp.clone(),
                };
                push_event(out, e);
            }
            proof { assert(events_view(out@) =~= start + expected); }
        },
        Object::Component(c) => {
            let sym_file = symbol_file(c.symbol_reference.as_str());
            let sym_name = symbol_name(c.symbol_reference.as_str());
            let cid = component_id(&c.properties, sym_name.as_str());
            push_event(out, SceneEvent::Anchor { x: c.x.clone(), y: c.y.clone() });
            let ghost after_anchor = events_view(out@);
            match comp {
                Some(parent) => {
                    match pin_label(sym_name.as_str(), &c.properties) {
                        Some(l) => {
                            push_event(out, SceneEvent::Pin { instance: parent.clone(), label: l, x: c.x.clone(), y: c.y.clone() });
                        },
                        None => {},
                    }
                },
                None => {},
            }
            let ghost after_pin = events_view(out@);
            let k = find_symbol_index(table, sym_file.as_str());
            if k < table.len() {
                if depth > 0 {
                    let child_rot = turn_exec(rot, c.rotation);
                    let child_flip = if c.flip != 0 { !flip } else { flip };
                    push_event(out, SceneEvent::Enter { x: c.x.clone(), y: c.y.clone(), rotation: child_rot, flip: child_flip });
                    let scope = symbol_scope(&c.properties, sym_name.as_str());
                    let child_comp = Some(cid);
                    walk_objects_exec(&table[k].1.objects, child_rot, child_flip, &scope, &child_comp, table, depth - 1, out);
                    push_event(out, SceneEvent::Leave);
                    proof {
                        assert(tv[k as int].1 == view_objects(table@[k as int].1.objects@));
                    }
                }
            } else {
                push_event(out, SceneEvent::Missing { name: sym_file, x: c.x.clone(), y: c.y.clone(), component: cid });
            }
            proof { assert(events_view(out@) =~= start + expected); }
        },
        Object::EmbeddedSymbol(v) => {
            walk_objects_exec(v, rot, flip, props, comp, table, depth, out);
        },
        _ => {
            proof { assert(events_view(out@) =~= start + expected); }
        },
    }
}

/// The events of the walk over `sch`, with the symbols of `table` (file name
/// and parsed content; a symbol not in the table is missing).
pub fn scene_events(sch: &Schematic, table: &Vec<(String, Schematic)>) -> (r: Vec<SceneEvent>)
    ensures events_view(r@) == scene_walk(view_objects(sch.objects@), table_view(table@)),
{
    let mut out: Vec<SceneEvent> = Vec::new();
    let top: Properties = StrMap::new();
    proof {
        assert(top@ =~= Map::<Seq<char>, Seq<char>>::empty());
        assert(events_view(out@) =~= Seq::<SceneEventV>::empty());
    }
    walk_objects_exec(&sch.objects, 0, false, &top, &None, table, table.len(), &mut out);
    proof { assert(events_view(out@) =~= scene_walk(view_objects(sch.objects@), table_view(table@))); }
    out
}

// ─── Symbols a schematic refers to ──────────────────────────────────────────

/// The symbol files that the components among `objs` name, embedded
/// symbols included, in order.
pub open spec fn symbol_refs(objs: Seq<ObjectV>) -> Seq<Seq<char>>
    decreases objs,
{
    if objs.len() == 0 {
        Seq::empty()
    } else {
        symbol_refs(objs.drop_last()) + symbol_refs_of(objs.last())
    }
}

pub open spec fn symbol_refs_of(o: ObjectV) -> Seq<Seq<char>>
    decreases o,
{
    match o {
        ObjectV::Component { symbol, .. } => seq![symbol_file_of(symbol)],
        ObjectV::EmbeddedSymbol { objects } => symbol_refs(objects),
        _ => Seq::empty(),
    }
}

fn refs_of_objects(objs: &Vec<Object>, out: &mut Vec<String>)
    ensures
        crate::renderer::strings_view(final(out)@) == crate::renderer::strings_view(old(out)@) + symbol_refs(view_objects(objs@)),
    decreases objs@,
{
    let ghost vo = view_objects(objs@);
    let ghost start = crate::renderer::strings_view(out@);
    proof { lemma_view_objects_len(objs@); }
    let mut i: usize = 0;
    while i < objs.len()
        invariant
            i <= objs@.len(),
            vo == view_objects(objs@),
            vo.len() == objs@.len(),
            forall|j: int| 0 <= j < objs@.len() ==> #[trigger] vo[j] == view_object(objs@[j]),
            crate::renderer::strings_view(out@) == start + symbol_refs(vo.take(i as int)),
        decreases objs@.len() - i,
    {
        refs_of_object(&objs[i], out);
        proof {
            assert(vo.take(i + 1).drop_last() =~= vo.take(i as int));
            assert(vo.take(i + 1).last() == view_object(objs@[i as int]));
            assert(crate::renderer::strings_view(out@) =~= start + symbol_refs(vo.take(i + 1)));
        }
        i = i + 1;
    }
    proof { assert(vo.take(i as int) =~= vo); }
}

fn refs_of_object(o: &Object, out: &mut Vec<String>)
    ensures
        crate::renderer::strings_view(final(out)@) == crate::renderer::strings_view(old(out)@) + symbol_refs_of(view_object(*o)),
    decreases *o,
{
    let ghost start = crate::renderer::strings_view(out@);
    match o {
        Object::Component(c) => {
            out.push(symbol_file(c.symbol_reference.as_str()));
            proof { assert(crate::renderer::strings_view(out@) =~= start + symbol_refs_of(view_object(*o))); }
        },
        Object::EmbeddedSymbol(v) => {
            refs_of_objects(v, out);
        },
        _ => {
            proof { assert(crate::renderer::strings_view(out@) =~= start + symbol_refs_of(view_object(*o))); }
        },
    }
}

/// The symbol files that the components of `sch` name (embedded symbols
/// included), in order, each as often as it is named.
pub fn symbol_files(sch: &Schematic) -> (r: Vec<String>)
    ensures crate::renderer::strings_view(r@) == symbol_refs(view_objects(sch.objects@)),
{
    let mut r: Vec<String> = Vec::new();
    proof { assert(crate::renderer::strings_view(r@) =~= Seq::<Seq<char>>::empty()); }
    refs_of_objects(&sch.objects, &mut r);
    proof { assert(crate::renderer::strings_view(r@) =~= symbol_refs(view_objects(sch.objects@))); }
    r
}

// ─── The events nest ─────────────────────────────────────────────────────────

/// How many symbols are entered and not yet left after the events `e`.
pub open spec fn nesting(e: Seq<SceneEventV>) -> int
    decreases e.len(),
{
    if e.len() == 0 {
        0
    } else {
        nesting(e.drop_last()) + match e.last() {
            SceneEventV::Enter { .. } => 1int,
            SceneEventV::Leave => -1int,
            _ => 0int,
        }
    }
}

/// Every `Leave` closes an earlier `Enter`, and every `Enter` is closed.
pub open spec fn well_nested(e: Seq<SceneEventV>) -> bool {
    &&& nesting(e) == 0
    &&& forall|i: int| 0 <= i <= e.len() ==> nesting(#[trigger] e.take(i)) >= 0
}

proof fn lemma_nesting_add(a: Seq<SceneEventV>, b: Seq<SceneEventV>)
    ensures nesting(a + b) == nesting(a) + nesting(b),
    decreases b.len(),
{
    if b.len() == 0 {
        assert(a + b =~= a);
    } else {
        lemma_nesting_add(a, b.drop_last());
        assert((a + b).drop_last() =~= a + b.drop_last());
        assert((a + b).last() == b.last());
    }
}

proof fn lemma_well_nested_add(a: Seq<SceneEventV>, b: Seq<SceneEventV>)
    requires well_nested(a), well_nested(b),
    ensures well_nested(a + b),
{
    lemma_nesting_add(a, b);
    assert forall|i: int| 0 <= i <= (a + b).len() implies nesting(#[trigger] (a + b).take(i)) >= 0 by {
        if i <= a.len() {
            assert((a + b).take(i) =~= a.take(i));
        } else {
            assert((a + b).take(i) =~= a + b.take(i - a.len()));
            lemma_nesting_add(a, b.take(i - a.len()));
            assert(a.take(a.len() as int) =~= a);
        }
    }
}

proof fn lemma_well_nested_wrap(x: Seq<char>, y: Seq<char>, rotation: i32, flip: bool, b: Seq<SceneEventV>)
    requires well_nested(b),
    ensures well_nested(seq![SceneEventV::Enter { x, y, rotation, flip }] + b + seq![SceneEventV::Leave]),
{
    let open = seq![SceneEventV::Enter { x, y, rotation, flip }];
    let close = seq![SceneEventV::Leave];
    let w = open + b + close;
    assert(nesting(Seq::<SceneEventV>::empty()) == 0);
    assert(nesting(open) == 1) by {
        assert(open.drop_last() =~= Seq::<SceneEventV>::empty());
        assert(open.last() is Enter);
    }
    assert(nesting(close) == -1) by {
        assert(close.drop_last() =~= Seq::<SceneEventV>::empty());
        assert(close.last() is Leave);
    }
    lemma_nesting_add(open, b);
    lemma_nesting_add(open + b, close);
    assert forall|i: int| 0 <= i <= w.len() implies nesting(#[trigger] w.take(i)) >= 0 by {
        if i == 0 {
            assert(w.take(0) =~= Seq::<SceneEventV>::empty());
        } else if i <= 1 + b.len() {
            assert(w.take(i) =~= open + b.take(i - 1));
            lemma_nesting_add(open, b.take(i - 1));
        } else {
            assert(w.take(i) =~= w);
        }
    }
}

proof fn lemma_empty_nested()
    ensures well_nested(Seq::<SceneEventV>::empty()),
{
    assert forall|i: int| 0 <= i <= 0 implies nesting(#[trigger] Seq::<SceneEventV>::empty().take(i)) >= 0 by {
        assert(Seq::<SceneEventV>::empty().take(i) =~= Seq::<SceneEventV>::empty());
    }
}

proof fn lemma_flat_nested(e: Seq<SceneEventV>)
    requires forall|i: int| 0 <= i < e.len() ==> !(#[trigger] e[i] is Enter) && !(e[i] is Leave),
    ensures well_nested(e),
{
    assert forall|i: int| 0 <= i <= e.len() implies nesting(#[trigger] e.take(i)) == 0 by {
        lemma_flat_prefix(e, i);
    }
}

proof fn lemma_flat_prefix(e: Seq<SceneEventV>, i: int)
    requires
        0 <= i <= e.len(),
        forall|k: int| 0 <= k < e.len() ==> !(#[trigger] e[k] is Enter) && !(e[k] is Leave),
    ensures nesting(e.take(i)) == 0,
    decreases i,
{
    if i > 0 {
        lemma_flat_prefix(e, i - 1);
        assert(e.take(i).drop_last() =~= e.take(i - 1));
        assert(e.take(i).last() == e[i - 1]);
    }
}

proof fn lemma_walk_objects_nested(
    objs: Seq<ObjectV>,
    rot: i32,
    flip: bool,
    props: PropsV,
    comp: Option<Seq<char>>,
    table: Seq<(Seq<char>, Seq<ObjectV>)>,
    depth: nat,
)
    ensures well_nested(walk_objects(objs, rot, flip, props, comp, table, depth)),
    decreases depth, objs,
{
    if objs.len() == 0 {
        lemma_empty_nested();
    } else {
        lemma_walk_objects_nested(objs.drop_last(), rot, flip, props, comp, table, depth);
        lemma_walk_object_nested(objs.last(), rot, flip, props, comp, table, depth);
        lemma_well_nested_add(
            walk_objects(objs.drop_last(), rot, flip, props, comp, table, depth),
            walk_object(objs.last(), rot, flip, props, comp, table, depth),
        );
    }
}

proof fn lemma_walk_object_nested(
    o: ObjectV,
    rot: i32,
    flip: bool,
    props: PropsV,
    comp: Option<Seq<char>>,
    table: Seq<(Seq<char>, Seq<ObjectV>)>,
    depth: nat,
)
    ensures well_nested(walk_object(o, rot, flip, props, comp, table, depth)),
    decreases depth, o,
{
    let e = walk_object(o, rot, flip, props, comp, table, depth);
    match o {
        ObjectV::Component { symbol, coords, rotation, flip: cflip, props: p } => {
            let sym_file = symbol_file_of(symbol);
            let sym_name = symbol_name_of(symbol);
            let cid = component_id_of(p, sym_name);
            let anchor = seq![SceneEventV::Anchor { x: coords[0], y: coords[1] }];
            let pin = match comp {
                Some(parent) => match pin_label_of(sym_name, p) {
                    Some(l) => seq![SceneEventV::Pin { instance: parent, label: l, x: coords[0], y: coords[1] }],
                    None => Seq::empty(),
                },
                None => Seq::empty(),
            };
            let head = anchor + pin;
            lemma_flat_nested(head);
            let k = find_symbol(table, sym_file, 0);
            if k < table.len() && depth > 0 {
                let child_rot = turn(rot, rotation);
                let child_flip = if cflip != 0 { !flip } else { flip };
                let inner = walk_objects(table[k].1, child_rot, child_flip, symbol_scope_of(p, sym_name), Some(cid), table, (depth - 1) as nat);
                lemma_walk_objects_nested(table[k].1, child_rot, child_flip, symbol_scope_of(p, sym_name), Some(cid), table, (depth - 1) as nat);
                lemma_well_nested_wrap(coords[0], coords[1], child_rot, child_flip, inner);
                let body = seq![SceneEventV::Enter { x: coords[0], y: coords[1], rotation: child_rot, flip: child_flip }] + inner + seq![SceneEventV::Leave];
                lemma_well_nested_add(head, body);
                assert(e =~= head + body);
            } else {
                lemma_flat_nested(e);
            }
        },
        ObjectV::EmbeddedSymbol { objects } => {
            lemma_walk_objects_nested(objects, rot, flip, props, comp, table, depth);
        },
        _ => {
            lemma_flat_nested(e);
        },
    }
}

/// The walk of a schematic brackets the objects of each placed symbol:
/// every `Leave` closes an earlier `Enter` and every `Enter` is closed, so a
/// stack of placements pushed on `Enter` and popped on `Leave` never runs dry
/// and ends where it began.
pub proof fn lemma_scene_walk_nested(objs: Seq<ObjectV>, table: Seq<(Seq<char>, Seq<ObjectV>)>)
    ensures well_nested(scene_walk(objs, table)),
{
    lemma_walk_objects_nested(objs, 0, false, Map::empty(), None, table, table.len());
}

// ─── The wires of the top level ──────────────────────────────────────────────

/// A wire event outside any component.
pub open spec fn is_top_wire(e: SceneEventV) -> bool {
    e matches SceneEventV::Wire { component: None, .. }
}

pub open spec fn top_wire_filter() -> spec_fn(SceneEventV) -> bool {
    |e: SceneEventV| is_top_wire(e)
}

/// The wire events of the wires of `objs` and of the symbols embedded
/// among them, in order, outside any component.
pub open spec fn top_wires(objs: Seq<ObjectV>) -> Seq<SceneEventV>
    decreases objs,
{
    if objs.len() == 0 {
        Seq::empty()
    } else {
        top_wires(objs.drop_last()) + top_wires_of(objs.last())
    }
}

pub open spec fn top_wires_of(o: ObjectV) -> Seq<SceneEventV>
    decreases o,
{
    match o {
        ObjectV::Wire { coords, props: p } => seq![SceneEventV::Wire { coords, label: attr(p, "lab"@), component: None }],
        ObjectV::EmbeddedSymbol { objects } => top_wires(objects),
        _ => Seq::empty(),
    }
}

proof fn lemma_no_top_wire(e: Seq<SceneEventV>)
    requires
        forall|i: int| 0 <= i < e.len() ==> !is_top_wire(#[trigger] e[i]),
    ensures
        e.filter(top_wire_filter()) == Seq::<SceneEventV>::empty(),
{
    broadcast use vstd::seq_lib::group_filter_ensures;
    let f = e.filter(top_wire_filter());
    if f.len() > 0 {
        assert(top_wire_filter()(f[0]));
        e.lemma_filter_contains_rev(top_wire_filter(), f[0]);
    }
    assert(f =~= Seq::<SceneEventV>::empty());
}

proof fn lemma_walk_objects_top_wires(
    objs: Seq<ObjectV>,
    rot: i32,
    flip: bool,
    props: PropsV,
    comp: Option<Seq<char>>,
    table: Seq<(Seq<char>, Seq<ObjectV>)>,
    depth: nat,
)
    ensures
        walk_objects(objs, rot, flip, props, comp, table, depth).filter(top_wire_filter())
            == (if comp is None { top_wires(objs) } else { Seq::<SceneEventV>::empty() }),
    decreases depth, objs,
{
    if objs.len() == 0 {
        lemma_no_top_wire(Seq::<SceneEventV>::empty());
    } else {
        lemma_walk_objects_top_wires(objs.drop_last(), rot, flip, props, comp, table, depth);
        lemma_walk_object_top_wires(objs.last(), rot, flip, props, comp, table, depth);
        Seq::filter_distributes_over_add(
            walk_objects(objs.drop_last(), rot, flip, props, comp, table, depth),
            walk_object(objs.last(), rot, flip, props, comp, table, depth),
            top_wire_filter(),
        );
        if comp is Some {
            assert(Seq::<SceneEventV>::empty() + Seq::<SceneEventV>::empty() =~= Seq::<SceneEventV>::empty());
        }
    }
}

proof fn lemma_walk_object_top_wires(
    o: ObjectV,
    rot: i32,
    flip: bool,
    props: PropsV,
    comp: Option<Seq<char>>,
    table: Seq<(Seq<char>, Seq<ObjectV>)>,
    depth: nat,
)
    ensures
        walk_object(o, rot, flip, props, comp, table, depth).filter(top_wire_filter())
            == (if comp is None { top_wires_of(o) } else { Seq::<SceneEventV>::empty() }),
    decreases depth, o,
{
    let e = walk_object(o, rot, flip, props, comp, table, depth);
    match o {
        ObjectV::Wire { coords, props: p } => {
            let w = SceneEventV::Wire { coords, label: attr(p, "lab"@), component: comp };
            Seq::<SceneEventV>::empty().lemma_filter_push(w, top_wire_filter());
            lemma_no_top_wire(Seq::<SceneEventV>::empty());
            assert(e =~= Seq::<SceneEventV>::empty().push(w));
            assert(Seq::<SceneEventV>::empty().push(w) =~= seq![w]);
        },
        ObjectV::Component { symbol, coords, rotation, flip: cflip, props: p } => {
            let sym_file = symbol_file_of(symbol);
            let sym_name = symbol_name_of(symbol);
            let cid = component_id_of(p, sym_name);
            let anchor = seq![SceneEventV::Anchor { x: coords[0], y: coords[1] }];
            let pin = match comp {
                Some(parent) => match pin_label_of(sym_name, p) {
                    Some(l) => seq![SceneEventV::Pin { instance: parent, label: l, x: coords[0], y: coords[1] }],
                    None => Seq::empty(),
                },
                None => Seq::empty(),
            };
            let head = anchor + pin;
            lemma_no_top_wire(head);
            let k = find_symbol(table, sym_file, 0);
            if k < table.len() && depth > 0 {
                let child_rot = turn(rot, rotation);
                let child_flip = if cflip != 0 { !flip } else { flip };
                let inner = walk_objects(table[k].1, child_rot, child_flip, symbol_scope_of(p, sym_name), Some(cid), table, (depth - 1) as nat);
                lemma_walk_objects_top_wires(table[k].1, child_rot, child_flip, symbol_scope_of(p, sym_name), Some(cid), table, (depth - 1) as nat);
                let open = seq![SceneEventV::Enter { x: coords[0], y: coords[1], rotation: child_rot, flip: child_flip }];
                let close = seq![SceneEventV::Leave];
                lemma_no_top_wire(open);
                lemma_no_top_wire(close);
                Seq::filter_distributes_over_add(open, inner, top_wire_filter());
                Seq::filter_distributes_over_add(open + inner, close, top_wire_filter());
                Seq::filter_distributes_over_add(head, open + inner + close, top_wire_filter());
                assert(e =~= head + (open + inner + close));
                assert(Seq::<SceneEventV>::empty() + Seq::<SceneEventV>::empty() =~= Seq::<SceneEventV>::empty());
            } else {
                assert forall|i: int| 0 <= i < e.len() implies !is_top_wire(#[trigger] e[i]) by {}
                lemma_no_top_wire(e);
            }
        },
        ObjectV::EmbeddedSymbol { objects } => {
            lemma_walk_objects_top_wires(objects, rot, flip, props, comp, table, depth);
        },
        _ => {
            assert forall|i: int| 0 <= i < e.len() implies !is_top_wire(#[trigger] e[i]) by {}
            lemma_no_top_wire(e);
        },
    }
}

/// The wires the walk reports outside any component are exactly the wires
/// of the top level and of the symbols embedded there, in their order; a
/// wire inside a placed symbol is always reported with that symbol's
/// component.
pub proof fn lemma_scene_top_wires(objs: Seq<ObjectV>, table: Seq<(Seq<char>, Seq<ObjectV>)>)
    ensures
        scene_walk(objs, table).filter(top_wire_filter()) == top_wires(objs),
{
    lemma_walk_objects_top_wires(objs, 0, false, Map::empty(), None, table, table.len());
}

/// A text is drawn unless its `hide` attribute is `true`, as one text event
/// that is centred horizontally exactly when its `hcenter` attribute is
/// `true` and vertically exactly when its `vcenter` attribute is `true`.
pub proof fn lemma_text_centring(
    text: Seq<char>,
    coords: Seq<Seq<char>>,
    rotation: i32,
    mirror: i32,
    p: PropsV,
    rot: i32,
    flip: bool,
    props: PropsV,
    comp: Option<Seq<char>>,
    table: Seq<(Seq<char>, Seq<ObjectV>)>,
    depth: nat,
)
    ensures ({
        let e = walk_object(ObjectV::Text { text, coords, rotation, mirror, props: p }, rot, flip, props, comp, table, depth);
        &&& e.len() == 0 <==> (p.contains_key("hide"@) && p["hide"@] == "true"@)
        &&& e.len() <= 1
        &&& e.len() == 1 ==> (e[0] matches SceneEventV::Text { h_center, v_center, .. }
                && h_center == (p.contains_key("hcenter"@) && p["hcenter"@] == "true"@)
                && v_center == (p.contains_key("vcenter"@) && p["vcenter"@] == "true"@))
    }),
{
}

/// What the walk draws for each kind of primitive, in terms of its
/// attributes: a wire carries its `lab` (if any); lines and arcs are drawn
/// as they are; a rectangle without `flags` is drawn, filled unless its
/// `fill` is `false`, and any drawn rectangle follows that rule; a polygon
/// is drawn exactly when it has points, filled exactly when its `fill` is
/// `true`. Every event belongs to the component being walked.
pub proof fn lemma_walk_primitives(
    o: ObjectV,
    rot: i32,
    flip: bool,
    props: PropsV,
    comp: Option<Seq<char>>,
    table: Seq<(Seq<char>, Seq<ObjectV>)>,
    depth: nat,
)
    ensures ({
        let e = walk_object(o, rot, flip, props, comp, table, depth);
        &&& o matches ObjectV::Wire { coords, props: p } ==> e == seq![SceneEventV::Wire {
                coords,
                label: if p.contains_key("lab"@) { Some(p["lab"@]) } else { None },
                component: comp,
            }]
        &&& o matches ObjectV::Line { layer, coords, .. } ==> e == seq![SceneEventV::Line { coords, layer, component: comp }]
        &&& o matches ObjectV::Arc { layer, coords, .. } ==> e == seq![SceneEventV::Arc { coords, layer, component: comp }]
        &&& o matches ObjectV::Rectangle { layer, coords, props: p } ==> {
            &&& e.len() <= 1
            &&& e.len() == 1 ==> e[0] == (SceneEventV::Rect {
                    coords,
                    layer,
                    filled: !(p.contains_key("fill"@) && p["fill"@] == "false"@),
                    component: comp,
                })
            &&& !p.contains_key("flags"@) ==> e.len() == 1
        }
        &&& o matches ObjectV::Polygon { layer, points, props: p } ==> {
            &&& (e.len() == 0 <==> points.len() == 0)
            &&& points.len() > 0 ==> e == seq![SceneEventV::Polygon {
                    points,
                    layer,
                    filled: p.contains_key("fill"@) && p["fill"@] == "true"@,
                    component: comp,
                }]
        }
    }),
{
    match o {
        ObjectV::Rectangle { layer, coords, props: p } => {
            if !p.contains_key("flags"@) {
                let f = Seq::<char>::empty();
                reveal_strlit("graph");
                assert(crate::scene::comma_parts_from(f, 0) == seq![f.subrange(0, crate::text::first_index_from(f, ',', 0))]);
                assert(!crate::scene::comma_parts_from(f, 0).contains("graph"@)) by {
                    if crate::scene::comma_parts_from(f, 0).contains("graph"@) {
                        assert(crate::scene::comma_parts_from(f, 0)[0] == "graph"@);
                    }
                }
            }
        },
        _ => {},
    }
}

/// A component is anchored at its own position. Inside a placed symbol, a
/// pin symbol (short name `ipin`, `opin` or `iopin`) with a non-empty `lab`
/// declares that pin of the enclosing component at its position; at the top
/// level nothing is declared. A symbol that cannot be found is reported
/// under the component's id: its `name`, else the symbol's short name.
pub proof fn lemma_walk_component(
    symbol: Seq<char>,
    coords: Seq<Seq<char>>,
    rotation: i32,
    cflip: i32,
    p: PropsV,
    rot: i32,
    flip: bool,
    props: PropsV,
    comp: Option<Seq<char>>,
    table: Seq<(Seq<char>, Seq<ObjectV>)>,
    depth: nat,
)
    ensures ({
        let e = walk_object(ObjectV::Component { symbol, coords, rotation, flip: cflip, props: p }, rot, flip, props, comp, table, depth);
        let short = symbol_name_of(symbol);
        let declares = (short == "ipin"@ || short == "opin"@ || short == "iopin"@)
            && p.contains_key("lab"@) && p["lab"@].len() > 0;
        &&& e.len() >= 1
        &&& e[0] == (SceneEventV::Anchor { x: coords[0], y: coords[1] })
        &&& (comp is Some && declares) ==> e.len() >= 2 && e[1] == (SceneEventV::Pin {
                instance: comp->0,
                label: p["lab"@],
                x: coords[0],
                y: coords[1],
            })
        &&& (comp is None || !declares) ==> (e.len() >= 2 ==> !(e[1] is Pin))
        &&& e.last() matches SceneEventV::Missing { component, .. } ==>
                component == (if p.contains_key("name"@) { p["name"@] } else { short })
    }),
{
    let e = walk_object(ObjectV::Component { symbol, coords, rotation, flip: cflip, props: p }, rot, flip, props, comp, table, depth);
    let sym_file = symbol_file_of(symbol);
    let sym_name = symbol_name_of(symbol);
    let cid = component_id_of(p, sym_name);
    let anchor = seq![SceneEventV::Anchor { x: coords[0], y: coords[1] }];
    let pin = match comp {
        Some(parent) => match pin_label_of(sym_name, p) {
            Some(l) => seq![SceneEventV::Pin { instance: parent, label: l, x: coords[0], y: coords[1] }],
            None => Seq::empty(),
        },
        None => Seq::empty(),
    };
    let k = find_symbol(table, sym_file, 0);
    let body = if k < table.len() {
        if depth > 0 {
            let child_rot = turn(rot, rotation);
            let child_flip = if cflip != 0 { !flip } else { flip };
            seq![SceneEventV::Enter { x: coords[0], y: coords[1], rotation: child_rot, flip: child_flip }]
                + walk_objects(table[k].1, child_rot, child_flip, symbol_scope_of(p, sym_name), Some(cid), table, (depth - 1) as nat)
                + seq![SceneEventV::Leave]
        } else {
            Seq::empty()
        }
    } else {
        seq![SceneEventV::Missing { name: sym_file, x: coords[0], y: coords[1], component: cid }]
    };
    assert(e == anchor + pin + body);
    assert(e[0] == anchor[0]);
    if pin.len() == 1 {
        assert(e[1] == pin[0]);
    } else if e.len() >= 2 {
        assert(e[1] == body[0]);
    }
    if body.len() > 0 {
        assert(e.last() == body.last());
        if k < table.len() && depth > 0 {
            assert(body.last() == SceneEventV::Leave);
        }
    }
}

} // verus!
