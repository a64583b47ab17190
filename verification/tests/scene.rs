use xschem_viewer::models::{Object, Properties};
use xschem_viewer::parser::parse;
use xschem_viewer::scene::{
    component_id, endpoint_junctions, flag, is_graph, parse_i32, pin_label,
    rect_filled, symbol_candidates, symbol_file, symbol_name, symbol_scope, text_layer,
};
use xschem_viewer::strmap::StrMap;

fn props(pairs: &[(&str, &str)]) -> Properties {
    let mut p: Properties = StrMap::new();
    for (k, v) in pairs {
        p.insert(k.to_string(), v.to_string());
    }
    p
}

#[test]
fn symbol_files_and_names() {
    assert_eq!(symbol_file("devices/res"), "devices/res.sym");
    assert_eq!(symbol_file("devices/res.sym"), "devices/res.sym");
    assert_eq!(symbol_name("sky130_fd_pr/nfet_01v8.sym"), "nfet_01v8");
    assert_eq!(symbol_name("ipin.sym"), "ipin");
    assert_eq!(symbol_name("a.b/c"), "c");
    assert_eq!(symbol_name(""), "");
}

#[test]
fn symbol_search_order() {
    let paths = vec!["/p1".to_string(), "/p2/".to_string()];
    assert_eq!(
        symbol_candidates(&paths, "res.sym"),
        vec![
            "/p1/res.sym".to_string(),
            "/p1/res.sym".to_string(),
            "/p1/devices/res.sym".to_string(),
            "/p2/res.sym".to_string(),
            "/p2/res.sym".to_string(),
            "/p2/devices/res.sym".to_string(),
        ]
    );
    assert_eq!(
        symbol_candidates(&paths[..1].to_vec(), "lib/x/nand.sym"),
        vec!["/p1/lib/x/nand.sym".to_string(), "/p1/nand.sym".to_string()]
    );
    assert!(symbol_candidates(&Vec::new(), "res.sym").is_empty());
}

#[test]
fn drawing_flags() {
    assert!(is_graph(&props(&[("flags", "graph")])));
    assert!(is_graph(&props(&[("flags", "unlocked,graph")])));
    assert!(!is_graph(&props(&[("flags", "graphs,ungraph")])));
    assert!(!is_graph(&props(&[])));
    assert!(rect_filled(&props(&[])));
    assert!(rect_filled(&props(&[("fill", "full")])));
    assert!(!rect_filled(&props(&[("fill", "false")])));
    assert!(flag(&props(&[("fill", "true")]), "fill"));
    assert!(!flag(&props(&[("fill", "TRUE")]), "fill"));
    assert!(!flag(&props(&[]), "hide"));
}

#[test]
fn integers_parse_like_str_parse() {
    for t in ["0", "7", "-7", "+7", "2147483647", "-2147483648", "2147483648", "", "-", "+", "1x", " 1", "007", "-0"] {
        assert_eq!(parse_i32(t), t.parse::<i32>().ok(), "{t}");
    }
    assert_eq!(text_layer(&props(&[("layer", "8")])), 8);
    assert_eq!(text_layer(&props(&[("layer", "x")])), 3);
    assert_eq!(text_layer(&props(&[])), 3);
}

#[test]
fn components_and_their_scope() {
    assert_eq!(component_id(&props(&[("name", "R1")]), "res"), "R1");
    assert_eq!(component_id(&props(&[]), "res"), "res");
    let scope = symbol_scope(&props(&[("name", "R1"), ("spice_get_current", "1")]), "res");
    assert_eq!(scope.get("symname").map(|s| s.as_str()), Some("res"));
    assert_eq!(scope.get("spice_get_voltage").map(|s| s.as_str()), Some(""));
    assert_eq!(scope.get("spice_get_current").map(|s| s.as_str()), Some("1"));
    assert_eq!(scope.len(), 4);
    assert_eq!(pin_label("ipin", &props(&[("lab", "A")])), Some("A".to_string()));
    assert_eq!(pin_label("iopin", &props(&[("lab", "")])), None);
    assert_eq!(pin_label("res", &props(&[("lab", "A")])), None);
}

#[test]
fn junctions_where_three_ends_meet() {
    let ends = vec![(0, 0), (10, 0), (0, 0), (0, 10), (0, 0), (5, 5), (10, 0), (10, 0), (10, 0)];
    assert_eq!(endpoint_junctions(&ends), vec![(0, 0), (10, 0)]);
    assert!(endpoint_junctions(&vec![(1, 1), (1, 1)]).is_empty());
}

#[test]
fn parsed_component_rules() {
    let sch = parse("C {devices/ipin.sym} 0 0 0 0 {name=p1 lab=IN}").unwrap();
    let Object::Component(c) = &sch.objects[0] else { panic!("expected Component") };
    let name = symbol_name(&c.symbol_reference);
    assert_eq!(name, "ipin");
    assert_eq!(pin_label(&name, &c.properties), Some("IN".to_string()));
    assert_eq!(component_id(&c.properties, &name), "p1");
}
