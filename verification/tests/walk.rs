use xschem_viewer::models::Schematic;
use xschem_viewer::parser::parse;
use xschem_viewer::walk::{scene_events, symbol_files, SceneEvent};

fn sch(text: &str) -> Schematic {
    parse(text).unwrap()
}

fn kinds(events: &[SceneEvent]) -> Vec<&'static str> {
    events
        .iter()
        .map(|e| match e {
            SceneEvent::Anchor { .. } => "anchor",
            SceneEvent::Wire { .. } => "wire",
            SceneEvent::Line { .. } => "line",
            SceneEvent::Rect { .. } => "rect",
            SceneEvent::Arc { .. } => "arc",
            SceneEvent::Polygon { .. } => "polygon",
            SceneEvent::Text { .. } => "text",
            SceneEvent::Pin { .. } => "pin",
            SceneEvent::Missing { .. } => "missing",
            SceneEvent::Enter { .. } => "enter",
            SceneEvent::Leave => "leave",
        })
        .collect()
}

#[test]
fn top_level_objects_in_order() {
    let top = sch("N 0 0 10 0 {lab=A}\nL 4 0 0 1 1 {}\nB 5 0 0 1 1 {flags=graph}\nB 5 0 0 1 1 {fill=false}\nT {x} 0 0 0 0 1 1 {hide=true}");
    let events = scene_events(&top, &Vec::new());
    assert_eq!(kinds(&events), vec!["wire", "line", "rect"]);
    match &events[0] {
        SceneEvent::Wire { x2, label, component, .. } => {
            assert_eq!(x2, "10");
            assert_eq!(label.as_deref(), Some("A"));
            assert!(component.is_none());
        }
        _ => panic!("expected a wire"),
    }
    match &events[2] {
        SceneEvent::Rect { filled, layer, .. } => {
            assert!(!filled);
            assert_eq!(*layer, 5);
        }
        _ => panic!("expected a rect"),
    }
}

#[test]
fn missing_symbol_is_reported_where_placed() {
    let top = sch("C {devices/res.sym} 30 40 1 0 {name=R1}");
    let events = scene_events(&top, &Vec::new());
    assert_eq!(kinds(&events), vec!["anchor", "missing"]);
    match &events[1] {
        SceneEvent::Missing { name, x, y, component } => {
            assert_eq!(name, "devices/res.sym");
            assert_eq!((x.as_str(), y.as_str()), ("30", "40"));
            assert_eq!(component, "R1");
        }
        _ => panic!("expected a missing symbol"),
    }
}

#[test]
fn symbols_are_entered_with_combined_placement() {
    let top = sch("C {cell.sym} 100 200 3 1 {name=X1 w=4}");
    let cell = sch("T {@name has w=@w} 1 2 2 0 0.2 0.2 {layer=7}\nC {ipin.sym} 5 6 0 0 {name=p lab=IN}");
    let table = vec![("cell.sym".to_string(), cell)];
    let events = scene_events(&top, &table);
    assert_eq!(kinds(&events), vec!["anchor", "enter", "text", "anchor", "pin", "missing", "leave"]);
    match &events[1] {
        SceneEvent::Enter { x, y, rotation, flip } => {
            assert_eq!((x.as_str(), y.as_str()), ("100", "200"));
            assert_eq!(*rotation, 3);
            assert!(*flip);
        }
        _ => panic!("expected enter"),
    }
    match &events[2] {
        SceneEvent::Text { content, rotation, mirror, layer, component, .. } => {
            assert_eq!(content, "X1 has w=4");
            assert_eq!(*rotation, 1);
            assert_eq!(*mirror, 1);
            assert_eq!(*layer, 7);
            assert_eq!(component.as_deref(), Some("X1"));
        }
        _ => panic!("expected text"),
    }
    match &events[4] {
        SceneEvent::Pin { instance, label, .. } => {
            assert_eq!(instance, "X1");
            assert_eq!(label, "IN");
        }
        _ => panic!("expected pin"),
    }
}

#[test]
fn self_placing_symbol_stops() {
    let top = sch("C {loop.sym} 0 0 0 0 {name=L1}");
    let inner = sch("C {loop.sym} 1 1 0 0 {name=L2}");
    let table = vec![("loop.sym".to_string(), inner)];
    let events = scene_events(&top, &table);
    assert_eq!(kinds(&events), vec!["anchor", "enter", "anchor", "leave"]);
}

#[test]
fn embedded_symbols_are_walked_in_place() {
    let top = sch("C {x.sym} 0 0 0 0 {name=U1}\n[\nL 4 0 0 1 1 {}\n]\n");
    let events = scene_events(&top, &Vec::new());
    assert_eq!(kinds(&events), vec!["anchor", "missing", "line"]);
}

#[test]
fn symbol_files_of_a_schematic() {
    let top = sch("C {a} 0 0 0 0 {}\nC {b.sym} 0 0 0 0 {}\nN 0 0 1 1 {}\nC {a} 1 1 0 0 {}");
    assert_eq!(symbol_files(&top), vec!["a.sym".to_string(), "b.sym".to_string(), "a.sym".to_string()]);
}

#[test]
fn only_top_level_wires_lack_a_component() {
    let top = sch("N 0 0 1 0 {lab=A}\nC {cell.sym} 0 0 0 0 {name=X1}\nC {x.sym} 0 0 0 0 {name=U1}\n[\nN 5 5 6 6 {lab=B}\n]\n");
    let cell = sch("N 2 2 3 3 {lab=C}");
    let table = vec![("cell.sym".to_string(), cell)];
    let events = scene_events(&top, &table);
    let wires: Vec<(String, Option<String>)> = events
        .iter()
        .filter_map(|e| match e {
            SceneEvent::Wire { x1, component, .. } => Some((x1.clone(), component.clone())),
            _ => None,
        })
        .collect();
    assert_eq!(
        wires,
        vec![("0".to_string(), None), ("2".to_string(), Some("X1".to_string())), ("5".to_string(), None)]
    );
}
