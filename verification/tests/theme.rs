use xschem_viewer::theme::Theme;

#[test]
fn dark_tiene_fondo_negro() {
    assert_eq!(Theme::dark().background(), "#000000");
}

#[test]
fn light_tiene_fondo_blanco() {
    assert_eq!(Theme::light().background(), "#ffffff");
}

#[test]
fn layer_fuera_de_rango_devuelve_blanco() {
    let t = Theme::dark();
    assert_eq!(t.layer(100), "#ffffff");
}

#[test]
fn accesor_wire_coincide_con_indice_1() {
    let t = Theme::dark();
    assert_eq!(t.wire(), t.layer(1));
}

#[test]
fn named_layers_follow_the_palette() {
    let t = Theme::light();
    assert_eq!(t.wire(), "#0044ee");
    assert_eq!(t.grid(), "#aaaaaa");
    assert_eq!(t.text(), "#222222");
    assert_eq!(t.pin(), "#229900");
    assert_eq!(t.label(), "#bb2200");
    assert_eq!(t.component(), "#00ccee");
}

#[test]
fn from_vec_into_vec_round_trip() {
    let colors = vec!["#123456".to_string(), "#abcdef".to_string()];
    let t = Theme::from_vec(colors.clone());
    assert_eq!(t.as_slice().len(), 2);
    assert_eq!(t.layer(1), "#abcdef");
    assert_eq!(t.layer(2), "#ffffff");
    assert_eq!(t.into_vec(), colors);
}

#[test]
fn from_hex_palette_keeps_order() {
    let t = Theme::from_hex_palette(&["#000001", "#000002", "#000003"]);
    assert_eq!(t.background(), "#000001");
    assert_eq!(t.wire(), "#000002");
    assert_eq!(t.grid(), "#000003");
    assert_eq!(t.text(), "#ffffff");
}

#[test]
fn default_theme_is_dark() {
    let t = Theme::default();
    assert_eq!(t.as_slice().len(), 22);
    assert_eq!(t.background(), "#000000");
    assert_eq!(t.layer(21), "#fdb200");
}

#[test]
fn a_cloned_theme_keeps_its_palette() {
    let t = Theme::light();
    let copy = t.clone();
    assert_eq!(copy.clone().into_vec().as_slice(), t.as_slice());
    let custom = Theme::from_vec(vec!["#010203".to_string(), "#040506".to_string()]);
    assert_eq!(custom.clone().into_vec(), vec!["#010203".to_string(), "#040506".to_string()]);
}
