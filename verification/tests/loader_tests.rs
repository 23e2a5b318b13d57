use photensor_sim::gds::loader::{pick_top_cell, Layout, LayoutError};
use photensor_sim::gds::model::{GdsAref, GdsCell, GdsElement, GdsLibrary, GdsPoint, GdsSref};

fn lib(cells: Vec<GdsCell>) -> GdsLibrary {
    GdsLibrary { name: "l".to_string(), db_unit_m_bits: 0, user_unit_m_bits: 0, cells }
}

fn cell(name: &str, refs: &[&str]) -> GdsCell {
    GdsCell {
        name: name.to_string(),
        elements: refs.iter().map(|r| GdsElement::Sref(GdsSref::new(r.to_string(), GdsPoint::new(0, 0)))).collect(),
    }
}

#[test]
fn pick_top_cell_finds_first_unreferenced() {
    let l = lib(vec![cell("leaf", &[]), cell("mid", &["leaf"]), cell("root", &["mid"]), cell("other", &[])]);
    assert_eq!(pick_top_cell(&l), Some("root".to_string()));
}

#[test]
fn pick_top_cell_counts_array_references() {
    let mut top = cell("top", &[]);
    top.elements.push(GdsElement::Aref(GdsAref::new("unit".to_string(), 2, 2, GdsPoint::new(0, 0), GdsPoint::new(1, 0), GdsPoint::new(0, 1))));
    let l = lib(vec![cell("unit", &[]), top]);
    assert_eq!(pick_top_cell(&l), Some("top".to_string()));
}

#[test]
fn pick_top_cell_none_when_all_referenced() {
    let l = lib(vec![cell("a", &["b"]), cell("b", &["a"])]);
    assert_eq!(pick_top_cell(&l), None);
}

#[test]
fn from_library_checks_top_cell() {
    let ok = Layout::from_library(lib(vec![cell("TOP", &[])]), "TOP").unwrap();
    assert_eq!(ok.top_cell(), "TOP");
    assert_eq!(ok.lib().cells.len(), 1);
    match Layout::from_library(lib(vec![cell("TOP", &[])]), "MISSING") {
        Err(LayoutError::CellNotFound(name)) => assert_eq!(name, "MISSING"),
        other => panic!("unexpected {:?}", other.map(|l| l.loaded.top_cell)),
    }
}

#[test]
fn autodetect_prefers_matrix_unit() {
    let l = lib(vec![cell("MATRIX_unit", &[]), cell("wrapper", &["MATRIX_unit"])]);
    let layout = Layout::from_library_autodetect(l).unwrap();
    assert_eq!(layout.top_cell(), "MATRIX_unit");
}

#[test]
fn autodetect_falls_back_to_unreferenced() {
    let l = lib(vec![cell("mzi", &[]), cell("chip", &["mzi"])]);
    let layout = Layout::from_library_autodetect(l).unwrap();
    assert_eq!(layout.top_cell(), "chip");
}

#[test]
fn autodetect_fails_without_candidate() {
    let l = lib(vec![cell("a", &["a"])]);
    match Layout::from_library_autodetect(l) {
        Err(LayoutError::CellNotFound(name)) => assert_eq!(name, "MATRIX_unit"),
        other => panic!("unexpected {:?}", other.map(|l| l.loaded.top_cell)),
    }
}
