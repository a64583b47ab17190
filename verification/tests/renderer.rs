use std::path::PathBuf;
use xschem_viewer::renderer::{color, dark_theme, escape_xml, light_theme, substitute_attrs, RenderOptions};
use xschem_viewer::models::Properties;
use xschem_viewer::renderer::{text_anchor, text_baseline};
use xschem_viewer::text_layout::{HAlign, VBaseline};
use xschem_viewer::strmap::StrMap;
use xschem_viewer::xschemrc::{
    devices_dir, existing_paths, expand_tcl_vars, join_path, pdk_symbol_dir, push_unique, tools_devices_dir,
    xschemrc_candidates,
};

/// The candidates of an rc file that exist on this machine: the library
/// keeps those that the file system reports present.
fn parse_xschemrc_paths(rc: &str) -> Vec<PathBuf> {
    let candidates = xschemrc_candidates(rc);
    let exists: Vec<bool> = candidates.iter().map(|p| PathBuf::from(p).exists()).collect();
    existing_paths(candidates, &exists).into_iter().map(PathBuf::from).collect()
}

#[test]
fn keeps_exactly_the_existing_candidates_in_order() {
    let c = vec!["/a".to_string(), "/b".to_string(), "/c".to_string(), "/d".to_string()];
    let kept = existing_paths(c, &[true, false, true, false]);
    assert_eq!(kept, vec!["/a".to_string(), "/c".to_string()]);
    assert!(existing_paths(Vec::new(), &[]).is_empty());
}

#[test]
fn parses_pdk_root_and_pdk() {
    let rc = "set PDK_ROOT /nonexistent/pdks\nset PDK sky130A\n";
    let paths = parse_xschemrc_paths(rc);
    assert!(paths.is_empty());
}

#[test]
fn parses_xschem_library_path_entries() {
    let rc = "append XSCHEM_LIBRARY_PATH :/tmp:/nonexistent/lib\n";
    let paths = parse_xschemrc_paths(rc);
    for p in &paths {
        assert!(p.exists(), "{} should exist", p.display());
    }
}

#[test]
fn expands_pdk_root_variable_in_library_path() {
    let rc = "set PDK_ROOT /headless/pdks\nset PDK sky130A\nappend XSCHEM_LIBRARY_PATH :${PDK_ROOT}/${PDK}/libs.tech/xschem\n";
    let paths = parse_xschemrc_paths(rc);
    let _ = paths;
}

#[test]
fn empty_rc_returns_empty_paths() {
    let paths = parse_xschemrc_paths("");
    assert!(paths.is_empty());
}

#[test]
fn candidates_in_search_order() {
    let rc = "set PDK_ROOT /headless/pdks\nset PDK sky130A\nappend XSCHEM_LIBRARY_PATH :${PDK_ROOT}/${PDK}/libs.tech/xschem\n";
    assert_eq!(
        xschemrc_candidates(rc),
        vec![
            "/headless/pdks/sky130A/libs.tech/xschem".to_string(),
            "/headless/pdks/sky130A/libs.tech/xschem".to_string(),
        ]
    );
}

#[test]
fn candidates_with_sharedir_and_crlf_lines() {
    let rc = "  set XSCHEM_SHAREDIR /usr/share/xschem  \r\nappend XSCHEM_LIBRARY_PATH : $XSCHEM_SHAREDIR/lib : ::/opt/x\r\n# set PDK foo\n";
    assert_eq!(
        xschemrc_candidates(rc),
        vec![
            "/usr/share/xschem/xschem_library/devices".to_string(),
            "/usr/share/xschem/lib".to_string(),
            "/opt/x".to_string(),
        ]
    );
}

#[test]
fn variables_are_expanded_only_once_set() {
    let rc = "append XSCHEM_LIBRARY_PATH :$PDK_ROOT/a\nset PDK_ROOT /r\nappend XSCHEM_LIBRARY_PATH :$PDK_ROOT/b";
    assert_eq!(xschemrc_candidates(rc), vec!["$PDK_ROOT/a".to_string(), "/r/b".to_string()]);
}

#[test]
fn expand_replaces_both_spellings() {
    let root = Some("/r".to_string());
    let pdk = Some("gf180".to_string());
    assert_eq!(expand_tcl_vars("${PDK_ROOT}/$PDK/x", &root, &pdk, &None), "/r/gf180/x");
    assert_eq!(expand_tcl_vars("$XSCHEM_SHAREDIR", &root, &pdk, &None), "$XSCHEM_SHAREDIR");
    assert_eq!(expand_tcl_vars("$PDK_ROOT$PDK_ROOT", &root, &None, &None), "/r/r");
}

#[test]
fn join_follows_path_rules() {
    assert_eq!(join_path("/a", "b"), "/a/b");
    assert_eq!(join_path("/a/", "b"), "/a/b");
    assert_eq!(join_path("", "b"), "b");
    assert_eq!(join_path("/a", "/b"), "/b");
    assert_eq!(pdk_symbol_dir("/pdk", "sky130A"), "/pdk/sky130A/libs.tech/xschem");
    assert_eq!(devices_dir("/s"), "/s/xschem_library/devices");
    assert_eq!(tools_devices_dir("/t"), "/t/xschem/share/xschem/xschem_library/devices");
}

#[test]
fn push_unique_skips_duplicates() {
    let mut v = vec!["/a".to_string()];
    push_unique(&mut v, "/a".to_string());
    push_unique(&mut v, "/b".to_string());
    assert_eq!(v, vec!["/a".to_string(), "/b".to_string()]);
}

#[test]
fn themes_have_twenty_two_layers() {
    let d = dark_theme();
    let l = light_theme();
    assert_eq!(d.len(), 22);
    assert_eq!(l.len(), 22);
    assert_eq!(d[1], "#00ccee");
    assert_eq!(l[1], "#0044ee");
}

#[test]
fn options_add_symbol_paths_in_order() {
    let opts = RenderOptions::dark().with_sym_path("/a".to_string()).with_sym_path("/b".to_string());
    assert_eq!(opts.symbol_paths, vec!["/a".to_string(), "/b".to_string()]);
    assert_eq!(color(&opts, 0), "#000000");
    assert_eq!(color(&opts, 99), "#ffffff");
    let light = RenderOptions::light();
    assert_eq!(color(&light, 0), "#ffffff");
}

#[test]
fn escapes_markup_characters() {
    assert_eq!(escape_xml("a<b>&\"c\"'"), "a&lt;b&gt;&amp;&quot;c&quot;'");
    assert_eq!(escape_xml("&amp;"), "&amp;amp;");
}

#[test]
fn substitutes_attributes() {
    let mut p: Properties = StrMap::new();
    p.insert("name".to_string(), "R1".to_string());
    p.insert("value".to_string(), "10k".to_string());
    assert_eq!(substitute_attrs("@name = @value", &p), "R1 = 10k");
    assert_eq!(substitute_attrs("@missing!", &p), "!");
    assert_eq!(substitute_attrs("a@", &p), "a");
}

#[test]
fn attribute_names_may_hold_unicode_letters() {
    let mut p: Properties = StrMap::new();
    p.insert("\u{f1}".to_string(), "x".to_string());
    assert_eq!(substitute_attrs("[@\u{f1}]", &p), "[x]");
    assert_eq!(substitute_attrs("[@-]", &p), "[-]");
}

#[test]
fn options_take_many_paths_at_once() {
    let opts = RenderOptions::light().with_sym_path("/a".to_string()).with_sym_paths(vec!["/b".to_string(), "/c".to_string()]);
    assert_eq!(opts.symbol_paths, vec!["/a".to_string(), "/b".to_string(), "/c".to_string()]);
    assert_eq!(opts.colors, light_theme());
}

#[test]
fn svg_text_keywords() {
    assert_eq!(text_anchor(HAlign::Start), "start");
    assert_eq!(text_anchor(HAlign::Middle), "middle");
    assert_eq!(text_anchor(HAlign::End), "end");
    assert_eq!(text_baseline(VBaseline::Top), "before-edge");
    assert_eq!(text_baseline(VBaseline::Middle), "middle");
    assert_eq!(text_baseline(VBaseline::Bottom), "after-edge");
}
