use photensor_sim::gds::flatten::{aref_instances, Flattener, FlattenInput, FlattenStep, PlacementKind, Xform, MAX_DEPTH};
use photensor_sim::gds::loader::{LoadedLibrary, Layout};
use photensor_sim::gds::model::{GdsAref, GdsCell, GdsElement, GdsLibrary, GdsPoint, GdsSref, GdsText, ONE_BITS, ZERO_BITS};
use photensor_sim::gds::Flattened;

fn compose(parent: &Xform, child: &Xform) -> Xform {
    let pa = f64::from_bits(parent.angle_deg_bits);
    let pm = f64::from_bits(parent.mag_bits);
    let ca = f64::from_bits(child.angle_deg_bits);
    let cm = f64::from_bits(child.mag_bits);
    let (ps, pc) = pa.to_radians().sin_cos();
    let psx = if parent.x_reflect { -1.0 } else { 1.0 };
    let dx = child.tx as f64;
    let dy = child.ty as f64;
    let wx = pm * (psx * pc * dx - psx * ps * dy);
    let wy = pm * (ps * dx + pc * dy);
    Xform {
        tx: parent.tx + wx.round() as i64,
        ty: parent.ty + wy.round() as i64,
        angle_deg_bits: (pa + ca).to_bits(),
        mag_bits: (pm * cm).to_bits(),
        x_reflect: parent.x_reflect ^ child.x_reflect,
    }
}

fn apply(x: Xform, px: i64, py: i64) -> (i64, i64) {
    let (s, c) = f64::from_bits(x.angle_deg_bits).to_radians().sin_cos();
    let m = f64::from_bits(x.mag_bits);
    let sx = if x.x_reflect { -1.0 } else { 1.0 };
    let fx = m * (sx * c * px as f64 - sx * s * py as f64);
    let fy = m * (s * px as f64 + c * py as f64);
    (x.tx + fx.round() as i64, x.ty + fy.round() as i64)
}

fn run(layout: &Layout) -> Flattened {
    let mut f = Flattener::new(layout);
    let mut steps = 0usize;
    loop {
        steps += 1;
        assert!(steps < 100_000, "flattening did not finish");
        match f.next() {
            FlattenStep::Compose { parent, child } => f.feed(FlattenInput::Composed(compose(&parent, &child))),
            FlattenStep::Apply { xform, x, y } => {
                let (wx, wy) = apply(xform, x, y);
                f.feed(FlattenInput::Applied(wx, wy))
            }
            FlattenStep::Done => break,
        }
    }
    f.into_flattened()
}

fn sref(name: &str, x: i32, y: i32) -> GdsElement {
    GdsElement::Sref(GdsSref::new(name.to_string(), GdsPoint::new(x, y)))
}

fn text(s: &str, x: i32, y: i32, layer: u16) -> GdsElement {
    GdsElement::Text(GdsText { string: s.to_string(), origin: GdsPoint::new(x, y), layer })
}

fn cell(name: &str, elements: Vec<GdsElement>) -> GdsCell {
    GdsCell { name: name.to_string(), elements }
}

fn layout(cells: Vec<GdsCell>, top: &str) -> Layout {
    Layout {
        loaded: LoadedLibrary {
            lib: GdsLibrary { name: "lib".to_string(), db_unit_m_bits: 1e-9f64.to_bits(), user_unit_m_bits: 1e-6f64.to_bits(), cells },
            top_cell: top.to_string(),
        },
    }
}

#[test]
fn aref_expands_to_grid() {
    let a = GdsAref::new("sub".to_string(), 3, 2, GdsPoint::new(0, 0), GdsPoint::new(100, 0), GdsPoint::new(0, 50));
    let insts = aref_instances(&a);
    assert_eq!(insts.len(), 6);
    assert_eq!(insts[0].xform.tx, 0);
    assert_eq!(insts[5].xform.tx, 200);
    assert_eq!(insts[5].xform.ty, 50);
}

#[test]
fn aref_lattice_formula_and_order() {
    let a = GdsAref::new("sub".to_string(), 2, 2, GdsPoint::new(10, 20), GdsPoint::new(110, 25), GdsPoint::new(13, 70));
    let insts = aref_instances(&a);
    assert_eq!(insts.len(), 4);
    // rows outer, columns inner
    assert_eq!((insts[1].col, insts[1].row), (1, 0));
    assert_eq!((insts[2].col, insts[2].row), (0, 1));
    // origin + i*(col-origin) + j*(row-origin)
    assert_eq!((insts[3].xform.tx, insts[3].xform.ty), (10 + 100 + 3, 20 + 5 + 50));
    assert_eq!(insts[3].xform.angle_deg_bits, ZERO_BITS);
    assert_eq!(insts[3].xform.mag_bits, ONE_BITS);
}

#[test]
fn aref_without_lattice_points_is_empty() {
    let mut a = GdsAref::new("sub".to_string(), 3, 2, GdsPoint::new(0, 0), GdsPoint::new(100, 0), GdsPoint::new(0, 50));
    a.xy.truncate(2);
    assert!(aref_instances(&a).is_empty());
}

#[test]
fn identity_transform_bits() {
    let x = Xform::identity();
    assert_eq!((x.tx, x.ty, x.x_reflect), (0, 0, false));
    assert_eq!(f64::from_bits(x.angle_deg_bits), 0.0);
    assert_eq!(f64::from_bits(x.mag_bits), 1.0);
}

#[test]
fn flattens_nested_hierarchy_in_order() {
    let l = layout(
        vec![
            cell("TOP", vec![sref("A", 100, 0), text("op_l_1", 5, 6, 10), sref("B", 0, 300)]),
            cell("A", vec![sref("B", 10, 20), text("inner", 1, 1, 3)]),
            cell("B", vec![GdsElement::Other]),
        ],
        "TOP",
    );
    let flat = run(&l);
    let got: Vec<(String, i64, i64, usize)> = flat.refs.iter().map(|r| (r.cell.clone(), r.xform.tx, r.xform.ty, r.depth)).collect();
    assert_eq!(
        got,
        vec![
            ("A".to_string(), 100, 0, 0),
            ("B".to_string(), 110, 20, 1),
            ("B".to_string(), 0, 300, 0),
        ]
    );
    assert_eq!(flat.labels.len(), 2);
    assert_eq!((flat.labels[0].string.as_str(), flat.labels[0].x, flat.labels[0].y, flat.labels[0].depth), ("inner", 101, 1, 1));
    assert_eq!((flat.labels[1].string.as_str(), flat.labels[1].x, flat.labels[1].y, flat.labels[1].layer), ("op_l_1", 5, 6, 10));
    assert_eq!(flat.top_cell, "TOP");
    assert_eq!(f64::from_bits(flat.db_unit_m_bits), 1e-9);
}

#[test]
fn rotated_parent_rotates_child_offset() {
    let mut s = GdsSref::new("A".to_string(), GdsPoint::new(1000, 0));
    s.angle_deg_bits = 90.0f64.to_bits();
    let l = layout(
        vec![cell("TOP", vec![GdsElement::Sref(s)]), cell("A", vec![sref("B", 100, 0)]), cell("B", vec![])],
        "TOP",
    );
    let flat = run(&l);
    assert_eq!(flat.refs.len(), 2);
    assert_eq!((flat.refs[1].xform.tx, flat.refs[1].xform.ty), (1000, 100));
    assert_eq!(f64::from_bits(flat.refs[1].xform.angle_deg_bits), 90.0);
}

#[test]
fn self_reference_with_identity_is_entered_once() {
    let l = layout(vec![cell("TOP", vec![sref("TOP", 0, 0)])], "TOP");
    let flat = run(&l);
    // The self placement composes to the top cell's own transform, and the
    // top cell is on the path, so it is recorded but not entered again.
    assert_eq!(flat.refs.len(), 1);
    assert_eq!(flat.refs[0].depth, 0);
}

#[test]
fn cyclic_reference_stops_at_depth_cap() {
    let l = layout(vec![cell("TOP", vec![sref("TOP", 1, 0)])], "TOP");
    let flat = run(&l);
    assert_eq!(flat.refs.len(), MAX_DEPTH + 1);
    assert!(flat.refs.iter().all(|r| r.depth <= MAX_DEPTH));
    assert_eq!(flat.refs.last().unwrap().depth, MAX_DEPTH);
    assert_eq!(flat.refs.last().unwrap().xform.tx, (MAX_DEPTH + 1) as i64);
}

#[test]
fn missing_top_cell_flattens_to_nothing() {
    let l = layout(vec![cell("A", vec![sref("B", 0, 0)])], "NOPE");
    let flat = run(&l);
    assert!(flat.refs.is_empty());
    assert!(flat.labels.is_empty());
}

#[test]
fn unknown_child_cell_is_recorded_not_entered() {
    let l = layout(vec![cell("TOP", vec![sref("GHOST", 7, 8)])], "TOP");
    let flat = run(&l);
    assert_eq!(flat.refs.len(), 1);
    assert_eq!(flat.refs[0].cell, "GHOST");
}

#[test]
fn array_placements_carry_lattice_slots() {
    let a = GdsAref::new("U".to_string(), 2, 1, GdsPoint::new(0, 0), GdsPoint::new(50, 0), GdsPoint::new(0, 40));
    let l = layout(vec![cell("TOP", vec![GdsElement::Aref(a)]), cell("U", vec![])], "TOP");
    let flat = run(&l);
    assert_eq!(flat.refs.len(), 2);
    assert_eq!(flat.refs[1].kind, PlacementKind::Aref { col: 1, row: 0, cols: 2, rows: 1 });
    assert_eq!(flat.refs[1].xform.tx, 50);
}

#[test]
fn far_apart_array_anchors_use_wide_steps() {
    let a = GdsAref::new("U".to_string(), 2, 1, GdsPoint::new(i32::MIN, 0), GdsPoint::new(i32::MAX, 0), GdsPoint::new(i32::MIN, 7));
    let insts = aref_instances(&a);
    assert_eq!(insts.len(), 2);
    assert_eq!(insts[1].xform.tx, 2147483647);
    let l = layout(vec![cell("TOP", vec![GdsElement::Aref(a)])], "TOP");
    let flat = run(&l);
    assert_eq!(flat.refs.len(), 2);
    assert_eq!(flat.refs[0].xform.tx, i32::MIN as i64);
    assert_eq!(flat.refs[1].xform.tx, i32::MAX as i64);
}

#[test]
fn identical_placements_are_each_expanded() {
    let l = layout(
        vec![cell("TOP", vec![sref("A", 0, 0), sref("A", 0, 0)]), cell("A", vec![text("t", 1, 2, 3), sref("B", 0, 0)]), cell("B", vec![])],
        "TOP",
    );
    let flat = run(&l);
    assert_eq!(flat.labels.len(), 2);
    assert_eq!(flat.refs.iter().map(|r| r.cell.clone()).collect::<Vec<_>>(), vec!["A", "B", "A", "B"]);
}

#[test]
fn two_cell_cycle_is_cut_on_the_path() {
    let l = layout(vec![cell("TOP", vec![sref("A", 0, 0)]), cell("A", vec![sref("TOP", 0, 0)])], "TOP");
    let flat = run(&l);
    // TOP -> A -> TOP: the inner TOP is on the path with the identity transform.
    assert_eq!(flat.refs.iter().map(|r| (r.cell.clone(), r.depth)).collect::<Vec<_>>(), vec![("A".to_string(), 0), ("TOP".to_string(), 1)]);
}

#[test]
fn next_is_stable_until_fed() {
    let l = layout(vec![cell("TOP", vec![GdsElement::Other, sref("A", 3, 4)])], "TOP");
    let mut f = Flattener::new(&l);
    let first = f.next();
    assert_eq!(first, f.next());
    match first {
        FlattenStep::Compose { parent, child } => {
            assert_eq!(parent, Xform::identity());
            assert_eq!((child.tx, child.ty), (3, 4));
        }
        other => panic!("unexpected {:?}", other),
    }
    // a mismatched answer changes nothing
    f.feed(FlattenInput::Applied(1, 2));
    assert_eq!(f.next(), first);
}

#[test]
fn top_level_instances_and_label_prefix_filters() {
    let l = layout(
        vec![
            cell("TOP", vec![sref("MZI", 1, 0), sref("A", 0, 0), sref("MZI", 2, 0), text("ep_1", 0, 0, 1)]),
            cell("A", vec![sref("MZI", 9, 9), text("ep_2", 0, 0, 1), text("xp_3", 0, 0, 1)]),
            cell("MZI", vec![]),
        ],
        "TOP",
    );
    let flat = run(&l);
    let mzis = flat.top_level_instances("MZI");
    assert_eq!(mzis.iter().map(|r| r.xform.tx).collect::<Vec<_>>(), vec![1, 2]);
    let eps = flat.labels_with_prefix("ep_");
    assert_eq!(eps.iter().map(|l| l.string.clone()).collect::<Vec<_>>(), vec!["ep_2".to_string(), "ep_1".to_string()]);
}

fn recursive_walk(
    lib: &GdsLibrary,
    name: &str,
    x: Xform,
    depth: usize,
    path: &mut Vec<(String, Xform)>,
    refs: &mut Vec<(String, Xform, usize, PlacementKind)>,
    labels: &mut Vec<(String, i64, i64, usize)>,
) {
    if depth > MAX_DEPTH {
        return;
    }
    let Some(c) = lib.cells.iter().find(|c| c.name == name) else { return };
    if path.iter().any(|(n, v)| n == name && *v == x) {
        return;
    }
    path.push((name.to_string(), x));
    for e in &c.elements {
        match e {
            GdsElement::Sref(s) => {
                let child = Xform { tx: s.origin.x as i64, ty: s.origin.y as i64, angle_deg_bits: s.angle_deg_bits, mag_bits: s.magnification_bits, x_reflect: s.x_reflection };
                let w = compose(&x, &child);
                refs.push((s.sname.clone(), w, depth, PlacementKind::Sref));
                recursive_walk(lib, &s.sname, w, depth + 1, path, refs, labels);
            }
            GdsElement::Aref(a) => {
                for inst in aref_instances(a) {
                    let w = compose(&x, &inst.xform);
                    refs.push((a.ref_name.clone(), w, depth, PlacementKind::Aref { col: inst.col, row: inst.row, cols: a.cols, rows: a.rows }));
                    recursive_walk(lib, &a.ref_name, w, depth + 1, path, refs, labels);
                }
            }
            GdsElement::Text(t) => {
                let (wx, wy) = apply(x, t.origin.x as i64, t.origin.y as i64);
                labels.push((t.string.clone(), wx, wy, depth));
            }
            GdsElement::Other => {}
        }
    }
    path.pop();
}

#[test]
fn walk_matches_recursive_traversal() {
    let mut rotated = GdsSref::new("B".to_string(), GdsPoint::new(5, 7));
    rotated.angle_deg_bits = 90.0f64.to_bits();
    rotated.x_reflection = true;
    let l = layout(
        vec![
            cell("TOP", vec![sref("A", 100, 0), GdsElement::Aref(GdsAref::new("B".to_string(), 2, 3, GdsPoint::new(0, 0), GdsPoint::new(10, 0), GdsPoint::new(0, 20))), text("t0", 1, 2, 4), sref("A", 100, 0)]),
            cell("A", vec![GdsElement::Sref(rotated), text("ta", 3, 4, 5), sref("A", 1, 1)]),
            cell("B", vec![text("tb", 1, 0, 6), GdsElement::Other]),
        ],
        "TOP",
    );
    let flat = run(&l);
    let (mut path, mut refs, mut labels) = (Vec::new(), Vec::new(), Vec::new());
    recursive_walk(&l.loaded.lib, "TOP", Xform::identity(), 0, &mut path, &mut refs, &mut labels);
    let got_refs: Vec<_> = flat.refs.iter().map(|r| (r.cell.clone(), r.xform, r.depth, r.kind)).collect();
    let got_labels: Vec<_> = flat.labels.iter().map(|l| (l.string.clone(), l.x, l.y, l.depth)).collect();
    assert_eq!(got_refs, refs);
    assert_eq!(got_labels, labels);
    assert!(refs.len() > 60);
}
