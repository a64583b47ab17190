//! The objects of an Xschem file, as the parser reads them.
//!
//! Numeric fields that Xschem writes as decimal numbers are kept as the
//! number's text, exactly as it stands in the file; integer fields (layers,
//! rotations, flips) are read into `i32`.
use vstd::prelude::*;
use crate::strmap::StrMap;

verus! {

/// `key=value` attributes of an object.
pub type Properties = StrMap<String>;

pub type PropsV = Map<Seq<char>, Seq<char>>;

#[derive(Debug)]
pub struct Version {
    pub version: String,
    pub file_version: String,
    pub license: String,
}

pub struct VersionV {
    pub version: Seq<char>,
    pub file_version: Seq<char>,
    pub license: Seq<char>,
}

impl View for Version {
    type V = VersionV;

    open spec fn view(&self) -> VersionV {
        VersionV { version: self.version@, file_version: self.file_version@, license: self.license@ }
    }
}

#[derive(Debug)]
pub struct Point {
    pub x: String,
    pub y: String,
}

impl View for Point {
    type V = (Seq<char>, Seq<char>);

    open spec fn view(&self) -> (Seq<char>, Seq<char>) {
        (self.x@, self.y@)
    }
}

/// `L`: a line segment on a layer.
#[derive(Debug)]
pub struct Line {
    pub layer: i32,
    pub x1: String,
    pub y1: String,
    pub x2: String,
    pub y2: String,
    pub properties: Properties,
}

/// `B`: a rectangle given by two corners.
#[derive(Debug)]
pub struct Rectangle {
    pub layer: i32,
    pub x1: String,
    pub y1: String,
    pub x2: String,
    pub y2: String,
    pub properties: Properties,
}

/// `A`: an arc or circle.
#[derive(Debug)]
pub struct Arc {
    pub layer: i32,
    pub center_x: String,
    pub center_y: String,
    pub radius: String,
    pub start_angle: String,
    pub sweep_angle: String,
    pub properties: Properties,
}

/// `T`: a text; `text` keeps the file's escapes.
#[derive(Debug)]
pub struct Text {
    pub text: String,
    pub x: String,
    pub y: String,
    pub rotation: i32,
    pub mirror: i32,
    pub h_size: String,
    pub v_size: String,
    pub properties: Properties,
}

/// `P`: a polygon.
#[derive(Debug)]
pub struct Polygon {
    pub layer: i32,
    pub points: Vec<Point>,
    pub properties: Properties,
}

/// `N`: a wire.
#[derive(Debug)]
pub struct Wire {
    pub x1: String,
    pub y1: String,
    pub x2: String,
    pub y2: String,
    pub properties: Properties,
}

/// `C`: an instance of a symbol.
#[derive(Debug)]
pub struct Component {
    pub symbol_reference: String,
    pub x: String,
    pub y: String,
    pub rotation: i32,
    pub flip: i32,
    pub properties: Properties,
}

#[derive(Debug)]
pub enum Object {
    Line(Line),
    Rectangle(Rectangle),
    Arc(Arc),
    Text(Text),
    Polygon(Polygon),
    Wire(Wire),
    Component(Component),
    EmbeddedSymbol(Vec<Object>),
    GlobalProperties(Properties),
    Spice(String),
    Verilog(String),
    Spectre(String),
    Vhdl(String),
    Tedax(String),
    Version(Version),
}

/// The objects of a file, in the order in which they stand there.
#[derive(Debug)]
pub struct Schematic {
    pub objects: Vec<Object>,
}

/// The wires among `objs`, in order.
pub open spec fn wires_of(objs: Seq<Object>) -> Seq<Wire>
    decreases objs.len(),
{
    if objs.len() == 0 {
        Seq::empty()
    } else {
        let rest = wires_of(objs.drop_last());
        match objs.last() {
            Object::Wire(w) => rest.push(w),
            _ => rest,
        }
    }
}

/// The components among `objs`, in order.
pub open spec fn components_of(objs: Seq<Object>) -> Seq<Component>
    decreases objs.len(),
{
    if objs.len() == 0 {
        Seq::empty()
    } else {
        let rest = components_of(objs.drop_last());
        match objs.last() {
            Object::Component(c) => rest.push(c),
            _ => rest,
        }
    }
}

impl Schematic {
    /// The top-level wires, in file order.
    pub fn wires(&self) -> (r: Vec<&Wire>)
        ensures
            r@.len() == wires_of(self.objects@).len(),
            forall|i: int| 0 <= i < r@.len() ==> *#[trigger] r@[i] == wires_of(self.objects@)[i],
    {
        let mut r: Vec<&Wire> = Vec::new();
        let mut i: usize = 0;
        while i < self.objects.len()
            invariant
                i <= self.objects@.len(),
                r@.len() == wires_of(self.objects@.take(i as int)).len(),
                forall|j: int| 0 <= j < r@.len() ==> *#[trigger] r@[j] == wires_of(self.objects@.take(i as int))[j],
            decreases self.objects@.len() - i,
        {
            proof { assert(self.objects@.take(i + 1).drop_last() =~= self.objects@.take(i as int)); }
            match &self.objects[i] {
                Object::Wire(w) => { r.push(w); },
                _ => {},
            }
            i = i + 1;
        }
        proof { assert(self.objects@.take(i as int) =~= self.objects@); }
        r
    }

    /// The top-level components, in file order.
    pub fn components(&self) -> (r: Vec<&Component>)
        ensures
            r@.len() == components_of(self.objects@).len(),
            forall|i: int| 0 <= i < r@.len() ==> *#[trigger] r@[i] == components_of(self.objects@)[i],
    {
        let mut r: Vec<&Component> = Vec::new();
        let mut i: usize = 0;
        while i < self.objects.len()
            invariant
                i <= self.objects@.len(),
                r@.len() == components_of(self.objects@.take(i as int)).len(),
                forall|j: int| 0 <= j < r@.len() ==> *#[trigger] r@[j] == components_of(self.objects@.take(i as int))[j],
            decreases self.objects@.len() - i,
        {
            proof { assert(self.objects@.take(i + 1).drop_last() =~= self.objects@.take(i as int)); }
            match &self.objects[i] {
                Object::Component(c) => { r.push(c); },
                _ => {},
            }
            i = i + 1;
        }
        proof { assert(self.objects@.take(i as int) =~= self.objects@); }
        r
    }
}

/// The abstract value of an object: text as character sequences, attributes as a map.
pub enum ObjectV {
    Line { layer: i32, coords: Seq<Seq<char>>, props: PropsV },
    Rectangle { layer: i32, coords: Seq<Seq<char>>, props: PropsV },
    Arc { layer: i32, coords: Seq<Seq<char>>, props: PropsV },
    Text { text: Seq<char>, coords: Seq<Seq<char>>, rotation: i32, mirror: i32, props: PropsV },
    Polygon { layer: i32, points: Seq<(Seq<char>, Seq<char>)>, props: PropsV },
    Wire { coords: Seq<Seq<char>>, props: PropsV },
    Component { symbol: Seq<char>, coords: Seq<Seq<char>>, rotation: i32, flip: i32, props: PropsV },
    EmbeddedSymbol { objects: Seq<ObjectV> },
    GlobalProperties { props: PropsV },
    Spice { text: Seq<char> },
    Verilog { text: Seq<char> },
    Spectre { text: Seq<char> },
    Vhdl { text: Seq<char> },
    Tedax { text: Seq<char> },
    Version { version: VersionV },
}

pub open spec fn view_objects(objs: Seq<Object>) -> Seq<ObjectV>
    decreases objs,
{
    if objs.len() == 0 {
        Seq::empty()
    } else {
        view_objects(objs.drop_last()).push(view_object(objs.last()))
    }
}

pub open spec fn view_object(o: Object) -> ObjectV
    decreases o,
{
    match o {
        Object::Line(l) => ObjectV::Line { layer: l.layer, coords: seq![l.x1@, l.y1@, l.x2@, l.y2@], props: l.properties@ },
        Object::Rectangle(r) => ObjectV::Rectangle { layer: r.layer, coords: seq![r.x1@, r.y1@, r.x2@, r.y2@], props: r.properties@ },
        Object::Arc(a) => ObjectV::Arc {
            layer: a.layer,
            coords: seq![a.center_x@, a.center_y@, a.radius@, a.start_angle@, a.sweep_angle@],
            props: a.properties@,
        },
        Object::Text(t) => ObjectV::Text {
            text: t.text@,
            coords: seq![t.x@, t.y@, t.h_size@, t.v_size@],
            rotation: t.rotation,
            mirror: t.mirror,
            props: t.properties@,
        },
        Object::Polygon(p) => ObjectV::Polygon { layer: p.layer, points: p.points@.map_values(|q: Point| q@), props: p.properties@ },
        Object::Wire(w) => ObjectV::Wire { coords: seq![w.x1@, w.y1@, w.x2@, w.y2@], props: w.properties@ },
        Object::Component(c) => ObjectV::Component {
            symbol: c.symbol_reference@,
            coords: seq![c.x@, c.y@],
            rotation: c.rotation,
            flip: c.flip,
            props: c.properties@,
        },
        Object::EmbeddedSymbol(v) => ObjectV::EmbeddedSymbol { objects: view_objects(v@) },
        Object::GlobalProperties(p) => ObjectV::GlobalProperties { props: p@ },
        Object::Spice(s) => ObjectV::Spice { text: s@ },
        Object::Verilog(s) => ObjectV::Verilog { text: s@ },
        Object::Spectre(s) => ObjectV::Spectre { text: s@ },
        Object::Vhdl(s) => ObjectV::Vhdl { text: s@ },
        Object::Tedax(s) => ObjectV::Tedax { text: s@ },
        Object::Version(v) => ObjectV::Version { version: v@ },
    }
}

} // verus!
