use xschem_viewer::netlist::{extract_netlist, Netlist};
use xschem_viewer::parser::parse;

fn netlist(input: &str) -> Netlist {
    extract_netlist(&parse(input).unwrap())
}

#[test]
fn empty_schematic() {
    let nl = netlist("");
    assert!(nl.instances.is_empty());
    assert!(nl.nets.is_empty());
}

#[test]
fn single_component() {
    let nl = netlist("C {devices/res.sym} 0 0 0 0 {name=R1 value=1k}");
    assert!(nl.instances.contains_key("R1"));
    let inst = nl.instances.get("R1").unwrap();
    assert_eq!(inst.symbol, "devices/res");
    assert_eq!(inst.params.get("value").map(|s| s.as_str()), Some("1k"));
    assert!(!inst.params.contains_key("name"));
}

#[test]
fn component_without_name_skipped() {
    let nl = netlist("C {corner.sym} 0 0 0 0 {only_toplevel=true}");
    assert!(nl.instances.is_empty());
}

#[test]
fn wire_with_label_creates_net() {
    let nl = netlist("N 0 0 100 0 {lab=Vdd}");
    assert!(nl.nets.contains_key("Vdd"));
}

#[test]
fn ipin_creates_net() {
    let nl = netlist("C {ipin.sym} 0 0 0 0 {name=p1 lab=Vdd}");
    assert!(nl.nets.contains_key("Vdd"));
}

#[test]
fn multiple_components_and_nets() {
    let input = "\
C {devices/res.sym} 0 0 0 0 {name=R1 value=1k}
C {devices/res.sym} 0 100 0 0 {name=R2 value=2k}
N 0 0 100 0 {lab=Vdd}
N 0 100 100 100 {lab=GND}";
    let nl = netlist(input);
    assert_eq!(nl.instances.len(), 2);
    assert_eq!(nl.nets.len(), 2);
    assert!(nl.nets.contains_key("Vdd"));
    assert!(nl.nets.contains_key("GND"));
}

#[test]
fn net_names_returns_all_nets() {
    let input = "N 0 0 10 0 {lab=A}\nN 0 10 10 10 {lab=B}";
    let nl = netlist(input);
    let names = nl.net_names();
    assert!(names.contains("A"));
    assert!(names.contains("B"));
}

#[test]
fn later_component_of_the_same_name_wins() {
    let nl = netlist("C {res.sym} 0 0 0 0 {name=R1 value=1k}\nC {cap.sym} 0 0 0 0 {name=R1 value=2p}\nC {res.sym} 0 0 0 0 {name=}");
    assert_eq!(nl.instances.len(), 1);
    let inst = nl.instances.get("R1").unwrap();
    assert_eq!(inst.name, "R1");
    assert_eq!(inst.symbol, "cap");
    assert_eq!(inst.params.get("value").map(|s| s.as_str()), Some("2p"));
}

#[test]
fn nets_are_listed_in_increasing_order() {
    let nl = netlist("N 0 0 1 0 {lab=b}\nN 0 0 1 0 {lab=a}\nT {x} 0 0 0 0 1 1 {lab=c}");
    let names: Vec<&str> = (0..nl.nets.len()).map(|i| nl.nets.key_at(i).as_str()).collect();
    assert_eq!(names, vec!["a", "b", "c"]);
    assert_eq!(nl.nets.get("a").unwrap().name, "a");
}
