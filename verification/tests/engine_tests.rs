use photensor_sim::gds::flatten::{FlatLabel, FlatRef, Flattened, PlacementKind, Xform};
use photensor_sim::mzi_array::engine::{EngineError, MziMatrixEngine, PhaseParam, PhaseSlot, DEFAULT_V_PER_RAD_BITS, sorted_labels_with_prefix};

fn placed(cell: &str, tx: i64, ty: i64, depth: usize) -> FlatRef {
    let mut x = Xform::identity();
    x.tx = tx;
    x.ty = ty;
    FlatRef { cell: cell.to_string(), xform: x, depth, kind: PlacementKind::Sref }
}

fn label(s: &str, depth: usize) -> FlatLabel {
    FlatLabel { string: s.to_string(), x: 0, y: 0, layer: 1, depth }
}

fn flat(refs: Vec<FlatRef>, labels: Vec<FlatLabel>) -> Flattened {
    Flattened { top_cell: "MATRIX_unit".to_string(), db_unit_m_bits: 0, user_unit_m_bits: 0, refs, labels }
}

fn engine() -> MziMatrixEngine {
    let f = flat(
        vec![
            placed("MZI", 200, 0, 0),
            placed("MZI", 100, 50, 0),
            placed("wg", 0, 0, 0),
            placed("MZI", 100, 10, 0),
            placed("MZI", 5, 5, 1),
            placed("MZI", 200, 0, 0),
        ],
        vec![
            label("op_l_2", 0),
            label("op_r_10", 0),
            label("op_l_1", 0),
            label("op_r_2", 0),
            label("op_r_x", 0),
            label("op_l_9", 1),
            label("ep_1", 0),
        ],
    );
    match MziMatrixEngine::from_flattened(&f) {
        Ok(e) => e,
        Err(_) => panic!("engine"),
    }
}

#[test]
fn instances_are_column_major_with_four_electrodes_each() {
    let e = engine();
    assert_eq!(e.n_mzis(), 4);
    assert_eq!(e.n_electrodes(), 16);
    let origins: Vec<(i64, i64)> = e.instances.iter().map(|i| (i.origin_x, i.origin_y)).collect();
    assert_eq!(origins, vec![(100, 10), (100, 50), (200, 0), (200, 0)]);
    for (k, inst) in e.instances.iter().enumerate() {
        assert_eq!(inst.mesh_index, k);
        assert_eq!(inst.electrodes, [4 * k + 1, 4 * k + 2, 4 * k + 3, 4 * k + 4]);
    }
    assert_eq!(e.v_per_rad_bits, DEFAULT_V_PER_RAD_BITS);
    assert_eq!(f64::from_bits(e.v_per_rad_bits), 1.0);
}

#[test]
fn ports_sorted_by_numeric_suffix() {
    let e = engine();
    assert_eq!(e.ports.inputs, vec!["op_l_1".to_string(), "op_l_2".to_string()]);
    assert_eq!(e.ports.outputs, vec!["op_r_2".to_string(), "op_r_10".to_string(), "op_r_x".to_string()]);
    assert_eq!(e.n_ports, 3);
    assert_eq!(e.arch.n, 3);
}

#[test]
fn port_count_is_the_longer_port_list() {
    let f = flat(vec![placed("MZI", 0, 0, 0)], vec![]);
    let e = match MziMatrixEngine::from_flattened(&f) {
        Ok(e) => e,
        Err(_) => panic!("engine"),
    };
    assert_eq!(e.n_ports, 0);
    assert_eq!(e.arch.n, 0);
    assert!(e.ports.inputs.is_empty());
    let f = flat(vec![placed("MZI", 0, 0, 0)], vec![label("op_l_1", 0)]);
    let e = match MziMatrixEngine::from_flattened(&f) {
        Ok(e) => e,
        Err(_) => panic!("engine"),
    };
    assert_eq!(e.n_ports, 1);
    assert_eq!(e.arch.n, 1);
}

#[test]
fn ports_equal_sorted_label_lists() {
    let e = engine();
    let f = flat(vec![], vec![label("op_l_2", 0), label("op_r_10", 0), label("op_l_1", 0), label("op_r_2", 0), label("op_r_x", 0), label("op_l_9", 1), label("ep_1", 0)]);
    assert_eq!(e.ports.inputs, sorted_labels_with_prefix(&f, "op_l_"));
    assert_eq!(e.ports.outputs, sorted_labels_with_prefix(&f, "op_r_"));
}

#[test]
fn no_mzis_is_an_error() {
    let f = flat(vec![placed("wg", 0, 0, 0), placed("MZI", 0, 0, 2)], vec![]);
    assert!(matches!(MziMatrixEngine::from_flattened(&f), Err(EngineError::NoMzis(0))));
}

#[test]
fn sorted_labels_ignore_deeper_labels() {
    let f = flat(vec![], vec![label("op_l_3", 0), label("op_l_1", 2), label("op_l_+2", 0)]);
    assert_eq!(sorted_labels_with_prefix(&f, "op_l_"), vec!["op_l_+2".to_string(), "op_l_3".to_string()]);
}

#[test]
fn cell_at_walks_columns() {
    let mut e = engine();
    e.n_ports = 5;
    let expected = [(0, 0), (0, 2), (1, 1), (1, 3), (2, 0), (2, 2), (3, 1), (3, 3), (4, 0), (4, 2)];
    for (k, slot) in expected.iter().enumerate() {
        assert_eq!(e.cell_at(k), Some(*slot));
    }
    assert_eq!(e.cell_at(10), None);
    e.n_ports = 3;
    assert_eq!(e.cell_at(0), Some((0, 0)));
    assert_eq!(e.cell_at(1), Some((1, 1)));
    assert_eq!(e.cell_at(2), Some((2, 0)));
    assert_eq!(e.cell_at(3), None);
}

#[test]
fn electrode_targets() {
    let e = engine();
    assert!(matches!(e.electrode_target(0), Err(EngineError::ElectrodeOutOfRange(0, 16))));
    assert!(matches!(e.electrode_target(17), Err(EngineError::ElectrodeOutOfRange(17, 16))));
    assert_eq!(e.electrode_target(1).ok(), Some(Some(PhaseSlot { col: 0, row: 0, param: PhaseParam::Theta })));
    assert_eq!(e.electrode_target(2).ok(), Some(Some(PhaseSlot { col: 0, row: 0, param: PhaseParam::Phi })));
    assert_eq!(e.electrode_target(3).ok(), Some(None));
    assert_eq!(e.electrode_target(4).ok(), Some(None));
    assert_eq!(e.electrode_target(5).ok(), Some(Some(PhaseSlot { col: 1, row: 1, param: PhaseParam::Theta })));
    // a 3-port mesh has 3 cells: MZI 3 has none
    assert_eq!(e.electrode_target(13).ok(), Some(None));
}

#[test]
fn input_length_check() {
    let e = engine();
    assert!(e.check_input(3).is_ok());
    assert!(matches!(e.check_input(2), Err(EngineError::InputLength(2, 3))));
}

#[test]
fn mesh_has_n_times_n_minus_one_over_two_cells() {
    let mut e = engine();
    for n in 0..9usize {
        e.n_ports = n;
        let cells = n * n.saturating_sub(1) / 2;
        if cells > 0 {
            assert!(e.cell_at(cells - 1).is_some(), "n = {}", n);
        }
        assert_eq!(e.cell_at(cells), None, "n = {}", n);
    }
}
