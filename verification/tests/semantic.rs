use xschem_viewer::models::Properties;
use xschem_viewer::semantic::{
    component_snapshot, detect_renames, diff, int_to_text, is_xschem, param_similarity, rename_names_present,
    same_coordinate, ChangeKind,
    SemanticComponent, SemanticSchematic,
};
use xschem_viewer::strmap::StrMap;
use xschem_viewer::netlist::extract_netlist;
use xschem_viewer::parser::parse;
use xschem_viewer::semantic::semantic_view;

fn make_component(name: &str, symbol: &str, params: &[(&str, &str)]) -> SemanticComponent {
    let mut p: Properties = StrMap::new();
    for (k, v) in params {
        p.insert(k.to_string(), v.to_string());
    }
    SemanticComponent {
        name: name.to_string(),
        symbol: symbol.to_string(),
        params: p,
        pins: StrMap::new(),
        x: "0".to_string(),
        y: "0".to_string(),
        rotation: 0,
        mirror: 0,
    }
}

fn ratio(a: &SemanticComponent, b: &SemanticComponent) -> f64 {
    let s = param_similarity(a, b);
    s.matching as f64 / s.total as f64
}

#[test]
fn similitud_identico_es_uno() {
    let a = make_component("R1", "res", &[("value", "10k"), ("footprint", "0402")]);
    let b = make_component("R2", "res", &[("value", "10k"), ("footprint", "0402")]);
    assert_eq!(ratio(&a, &b), 1.0);
}

#[test]
fn similitud_diferente_simbolo_es_cero() {
    let a = make_component("R1", "res", &[("value", "10k")]);
    let b = make_component("C1", "cap", &[("value", "10k")]);
    assert_eq!(ratio(&a, &b), 0.0);
}

#[test]
fn detecta_renombrado_mismo_simbolo_y_valor() {
    let a = make_component("R1", "res", &[("value", "10k")]);
    let b = make_component("R2", "res", &[("value", "10k")]);
    let renames = detect_renames(&[&a], &[&b]);
    assert_eq!(renames.len(), 1);
    assert_eq!(renames[0].0, "R1");
    assert_eq!(renames[0].1, "R2");
}

#[test]
fn no_detecta_renombrado_diferente_simbolo() {
    let a = make_component("R1", "res", &[("value", "10k")]);
    let b = make_component("C1", "cap", &[("value", "10k")]);
    let renames = detect_renames(&[&a], &[&b]);
    assert!(renames.is_empty());
}

#[test]
fn diff_vacio_entre_schematics_iguales() {
    let mut sch = SemanticSchematic::default();
    sch.components.insert("R1".into(), make_component("R1", "res", &[("value", "10k")]));
    let report = diff(&sch, &sch);
    assert!(report.is_empty());
}

#[test]
fn diff_detecta_parametro_cambiado() {
    let mut a = SemanticSchematic::default();
    a.components.insert("R1".into(), make_component("R1", "res", &[("value", "10k")]));
    let mut b = SemanticSchematic::default();
    b.components.insert("R1".into(), make_component("R1", "res", &[("value", "22k")]));

    let report = diff(&a, &b);
    assert_eq!(report.components.len(), 1);
    assert_eq!(report.components[0].kind, ChangeKind::Modified);
    assert!(!report.components[0].cosmetic);
}

#[test]
fn similarity_counts_the_union_of_keys() {
    let a = make_component("R1", "res", &[("value", "10k"), ("w", "1"), ("l", "2"), ("m", "1")]);
    let b = make_component("R2", "res", &[("value", "10k"), ("w", "1"), ("l", "2"), ("m", "1"), ("nf", "2")]);
    let s = param_similarity(&a, &b);
    assert_eq!(s.matching, 4);
    assert_eq!(s.total, 5);
    let empty_a = make_component("X1", "sub", &[]);
    let empty_b = make_component("X2", "sub", &[]);
    let e = param_similarity(&empty_a, &empty_b);
    assert_eq!((e.matching, e.total), (1, 1));
}

#[test]
fn rename_needs_four_fifths_alike() {
    let a = make_component("R1", "res", &[("value", "10k"), ("w", "1"), ("l", "2"), ("m", "1")]);
    let b = make_component("R2", "res", &[("value", "10k"), ("w", "1"), ("l", "2"), ("m", "1"), ("nf", "2")]);
    assert_eq!(detect_renames(&[&a], &[&b]).len(), 1);
    let c = make_component("R3", "res", &[("value", "10k"), ("w", "1"), ("l", "9")]);
    assert!(detect_renames(&[&a], &[&c]).is_empty());
}

#[test]
fn renames_take_the_most_similar_pair_first() {
    let a = make_component("R1", "res", &[("value", "10k"), ("w", "1"), ("l", "2"), ("m", "1")]);
    let near = make_component("R8", "res", &[("value", "10k"), ("w", "1"), ("l", "2"), ("m", "1"), ("nf", "2")]);
    let exact = make_component("R9", "res", &[("value", "10k"), ("w", "1"), ("l", "2"), ("m", "1")]);
    let renames = detect_renames(&[&a], &[&near, &exact]);
    assert_eq!(renames.len(), 1);
    assert_eq!(renames[0].1, "R9");
    assert_eq!((renames[0].2.matching, renames[0].2.total), (4, 4));
}

#[test]
fn each_component_is_renamed_once() {
    let a = make_component("R1", "res", &[("value", "10k")]);
    let b = make_component("R2", "res", &[("value", "10k")]);
    let c = make_component("R3", "res", &[("value", "10k")]);
    let renames = detect_renames(&[&a, &b], &[&c]);
    assert_eq!(renames.len(), 1);
    assert_eq!(renames[0].0, "R1");
    assert_eq!(renames[0].1, "R3");
}

#[test]
fn diff_reports_renames_removals_additions_and_moves() {
    let mut a = SemanticSchematic::default();
    a.components.insert("R1".into(), make_component("R1", "res", &[("value", "10k")]));
    a.components.insert("C1".into(), make_component("C1", "cap", &[("value", "1p")]));
    a.components.insert("M1".into(), make_component("M1", "nmos", &[("w", "1")]));
    let mut b = SemanticSchematic::default();
    b.components.insert("R7".into(), make_component("R7", "res", &[("value", "10k")]));
    b.components.insert("L1".into(), make_component("L1", "ind", &[("value", "1n")]));
    let mut moved = make_component("M1", "nmos", &[("w", "1")]);
    moved.x = "10".to_string();
    b.components.insert("M1".into(), moved);

    let report = diff(&a, &b);
    assert_eq!(report.components.len(), 4);
    assert_eq!(report.components[0].name, "R1 \u{2192} R7");
    assert_eq!(report.components[0].kind, ChangeKind::Modified);
    let before = report.components[0].before.as_ref().unwrap();
    assert_eq!(before.get("name").map(|s| s.as_str()), Some("R1"));
    assert_eq!(report.components[1].name, "C1");
    assert_eq!(report.components[1].kind, ChangeKind::Removed);
    assert!(report.components[1].after.is_none());
    assert_eq!(report.components[2].name, "L1");
    assert_eq!(report.components[2].kind, ChangeKind::Added);
    assert_eq!(report.components[3].name, "M1");
    assert!(report.components[3].cosmetic);
    assert!(report.components[3].position_changed);
    let after = report.components[3].after.as_ref().unwrap();
    assert_eq!(after.get("x").map(|s| s.as_str()), Some("10"));
    assert_eq!(after.get("rotation").map(|s| s.as_str()), Some("0"));
    assert!(report.is_move_all);
    assert!(!report.is_empty());
}

#[test]
fn diff_lists_nets_added_and_removed() {
    let mut a = SemanticSchematic::default();
    a.nets.insert("VDD".to_string());
    a.nets.insert("A".to_string());
    let mut b = SemanticSchematic::default();
    b.nets.insert("VDD".to_string());
    b.nets.insert("B".to_string());
    b.nets.insert("C".to_string());
    let report = diff(&a, &b);
    assert_eq!(report.nets_added, vec!["B".to_string(), "C".to_string()]);
    assert_eq!(report.nets_removed, vec!["A".to_string()]);
    assert!(!report.is_empty());
}

#[test]
fn snapshot_holds_symbol_params_and_pins() {
    let mut c = make_component("M1", "nmos", &[("w", "1"), ("l", "2")]);
    c.pins.insert("D".to_string(), "out".to_string());
    c.rotation = -3;
    let plain = component_snapshot(&c, false);
    assert_eq!(plain.len(), 4);
    assert_eq!(plain.get("symbol").map(|s| s.as_str()), Some("nmos"));
    assert_eq!(plain.get("pin:D").map(|s| s.as_str()), Some("out"));
    assert!(plain.get("x").is_none());
    let placed = component_snapshot(&c, true);
    assert_eq!(placed.len(), 8);
    assert_eq!(placed.get("rotation").map(|s| s.as_str()), Some("-3"));
}

#[test]
fn int_text_matches_display() {
    for n in [0, 7, 10, -1, 123456, i32::MAX, i32::MIN] {
        assert_eq!(int_to_text(n), n.to_string());
    }
}

#[test]
fn recognises_the_version_header() {
    assert!(is_xschem(b"v {xschem version=3.4.5 file_version=1.2}\n"));
    assert!(!is_xschem(b"v {something else}\n"));
    let mut late = vec![b' '; 230];
    late.extend_from_slice(b"xschem version=3");
    assert!(!is_xschem(&late));
    let mut early = vec![b' '; 225];
    early.extend_from_slice(b"xschem version=3");
    assert!(is_xschem(&early));
    assert!(is_xschem(b"\xff\xfe xschem version="));
}

#[test]
fn semantic_view_of_a_parsed_schematic() {
    let input = "\
C {devices/res.sym} 10 20 1 0 {name=R1 value=1k}
C {devices/res.sym} 30 40 0 1 {name=R2 value=2k}
N 0 0 100 0 {lab=Vdd}
N 0 5 100 5 {}";
    let sch = parse(input).unwrap();
    let nl = extract_netlist(&sch);
    let positions = vec![("10".to_string(), "20".to_string()), ("30".to_string(), "40".to_string())];
    let ends = vec![
        ("0".to_string(), "0".to_string(), "100".to_string(), "0".to_string()),
        ("0".to_string(), "5".to_string(), "100".to_string(), "5".to_string()),
    ];
    let view = semantic_view(&sch, &nl, &positions, &ends);
    assert_eq!(view.components.len(), 2);
    let r1 = view.components.get("R1").unwrap();
    assert_eq!(r1.symbol, "devices/res");
    assert_eq!(r1.params.get("value").map(|s| s.as_str()), Some("1k"));
    assert_eq!((r1.x.as_str(), r1.y.as_str(), r1.rotation, r1.mirror), ("10", "20", 1, 0));
    let r2 = view.components.get("R2").unwrap();
    assert_eq!((r2.x.as_str(), r2.mirror), ("30", 1));
    assert_eq!(view.wires.len(), 2);
    assert_eq!(view.wires[0].label, "Vdd");
    assert_eq!(view.wires[1].label, "");
    assert!(view.nets.contains("Vdd"));
    assert_eq!(view.nets.len(), 1);
    let report = diff(&view, &view);
    assert!(report.is_empty());
}

#[test]
fn renamed_components_are_looked_up_by_name() {
    let mut a = SemanticSchematic::default();
    a.components.insert("R1".into(), make_component("R1", "res", &[("value", "10k")]));
    a.components.insert("X".into(), make_component("R1", "res", &[("value", "10k")]));
    let mut b = SemanticSchematic::default();
    b.components.insert("R1".into(), make_component("R1", "res", &[("value", "10k")]));
    b.components.insert("R5".into(), make_component("R5", "res", &[("value", "10k")]));
    assert!(rename_names_present(&a, &b));
    let report = diff(&a, &b);
    let names: Vec<&str> = report.components.iter().map(|c| c.name.as_str()).collect();
    assert_eq!(names, vec!["R1 \u{2192} R5", "X"]);
    assert_eq!(report.components[1].kind, ChangeKind::Removed);
}

#[test]
fn rename_of_a_component_missing_under_its_name() {
    let mut a = SemanticSchematic::default();
    a.components.insert("X".into(), make_component("R1", "res", &[("value", "10k")]));
    let mut b = SemanticSchematic::default();
    b.components.insert("R2".into(), make_component("R2", "res", &[("value", "10k")]));
    assert!(!rename_names_present(&a, &b));
    let mut c = SemanticSchematic::default();
    c.components.insert("R1".into(), make_component("R1", "res", &[("value", "10k")]));
    assert!(rename_names_present(&c, &b));
}

#[test]
fn minus_zero_is_the_same_coordinate() {
    assert!(same_coordinate("0", "-0"));
    assert!(same_coordinate("-0", "0"));
    assert!(same_coordinate("1.5", "1.5"));
    assert!(!same_coordinate("NaN", "NaN"));
    assert!(!same_coordinate("1", "1.5"));
    let mut a = SemanticSchematic::default();
    a.components.insert("R1".into(), make_component("R1", "res", &[("value", "10k")]));
    let mut b = SemanticSchematic::default();
    let mut r1 = make_component("R1", "res", &[("value", "10k")]);
    r1.x = "-0".to_string();
    b.components.insert("R1".into(), r1);
    assert!(diff(&a, &b).components.is_empty());
}

#[test]
fn nan_coordinate_counts_as_moved() {
    let mut a = SemanticSchematic::default();
    let mut r1 = make_component("R1", "res", &[("value", "10k")]);
    r1.y = "NaN".to_string();
    a.components.insert("R1".into(), r1);
    let report = diff(&a, &a);
    assert_eq!(report.components.len(), 1);
    assert!(report.components[0].cosmetic);
    assert!(report.nets_added.is_empty() && report.nets_removed.is_empty());
}

#[test]
fn similarity_is_symmetric() {
    let a = make_component("R1", "res", &[("value", "10k"), ("w", "1"), ("l", "2")]);
    let b = make_component("R2", "res", &[("value", "10k"), ("w", "3"), ("m", "2"), ("nf", "1")]);
    let ab = param_similarity(&a, &b);
    let ba = param_similarity(&b, &a);
    assert_eq!((ab.matching, ab.total), (ba.matching, ba.total));
    assert_eq!((ab.matching, ab.total), (1, 5));
}

#[test]
fn renames_are_listed_most_similar_first() {
    let x1 = make_component("X1", "res", &[("v", "1"), ("w", "2"), ("x", "3"), ("y", "4"), ("z", "5")]);
    let x2 = make_component("X2", "res", &[("v", "1")]);
    let y1 = make_component("Y1", "res", &[("v", "1"), ("w", "2"), ("x", "3"), ("y", "4"), ("z", "0")]);
    let y2 = make_component("Y2", "res", &[("v", "1")]);
    let renames = detect_renames(&[&x1, &x2], &[&y1, &y2]);
    let pairs: Vec<(&str, &str)> = renames.iter().map(|r| (r.0.as_str(), r.1.as_str())).collect();
    assert_eq!(pairs, vec![("X2", "Y2"), ("X1", "Y1")]);
    assert_eq!((renames[0].2.matching, renames[0].2.total), (1, 1));
    assert_eq!((renames[1].2.matching, renames[1].2.total), (4, 5));
}

#[test]
fn no_worthy_pair_is_left_without_a_rename() {
    let a = make_component("A", "res", &[("v", "1")]);
    let b = make_component("B", "res", &[("v", "1")]);
    let c = make_component("C", "res", &[("v", "1")]);
    let renames = detect_renames(&[&a, &b], &[&c]);
    assert_eq!(renames.len(), 1);
    assert_eq!((renames[0].0.as_str(), renames[0].1.as_str()), ("A", "C"));
}
