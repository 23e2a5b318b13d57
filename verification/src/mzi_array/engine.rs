//! MZI mesh engine: maps a flattened layout's MZI placements and port labels
//! onto an `n`-port Clements mesh, and resolves global electrode indices to
//! mesh phase shifters.
//!
//! Mesh order is column-major by world origin (x, then y); MZI `k` owns the
//! 1-based electrodes `4k+1 ..= 4k+4`, of which `4k+1` drives its θ and
//! `4k+2` its φ; the other two are reserved.
use vstd::prelude::*;
use oxiphoton::optical_computing::mzi_mesh::ClementsArch;
use crate::gds::flatten::{top_instance_of, FlatLabel, FlatRef, Flattened};
use crate::gds::model::ONE_BITS;
use crate::gds::loader::LayoutError;
use crate::order::{goes_before, is_stable_order, lemma_stable_order_unique, stable_order};
use crate::text::{chars_of, has_prefix, parse_usize, parse_usize_spec, starts_with};

verus! {

#[verifier::external_type_specification]
#[verifier::external_body]
pub struct ExClementsArch(ClementsArch);

/// The port count a Clements mesh was built with (its `n` field).
pub uninterp spec fn clements_ports(arch: ClementsArch) -> usize;

/// `oxiphoton`'s `ClementsArch::new(n)`: an `n`-port identity Clements mesh.
/// Stated: the mesh has `n` ports. The mesh's cells and phases (all θ and φ
/// zero) are opaque here and not stated.
#[verifier::external_body]
fn clements_identity(n: usize) -> (arch: ClementsArch)
    ensures
        clements_ports(arch) == n,
{
    ClementsArch::new(n)
}

/// Bit pattern of the default volts-to-radians coefficient, `1.0`.
pub const DEFAULT_V_PER_RAD_BITS: u64 = ONE_BITS;

/// Errors raised by the engine.
#[derive(Debug)]
pub enum EngineError {
    Layout(LayoutError),
    /// No MZI placement in the top cell (the count found).
    NoMzis(usize),
    /// Electrode index out of `1..=max` (the index, the max).
    ElectrodeOutOfRange(usize, usize),
    /// Input length differs from the mesh port count (the length, the port count).
    InputLength(usize, usize),
}

/// One MZI instance extracted from the layout, in mesh order.
#[derive(Debug, Clone, Copy)]
pub struct MziInstance {
    /// 0-based index in the mesh.
    pub mesh_index: usize,
    /// World-coordinate origin (database units) of the placement.
    pub origin_x: i64,
    pub origin_y: i64,
    /// Whether the placement mirrors the cell about x.
    pub x_reflect: bool,
    /// The four global (1-based) electrode indices of this MZI;
    /// `electrodes[0]` drives θ, `electrodes[1]` drives φ.
    pub electrodes: [usize; 4],
}

/// Port labels of the top cell.
#[derive(Debug)]
pub struct PortSet {
    /// Left (input) port labels, by numeric suffix.
    pub inputs: Vec<String>,
    /// Right (output) port labels, by numeric suffix.
    pub outputs: Vec<String>,
}

/// The MZI mesh engine.
pub struct MziMatrixEngine {
    pub n_ports: usize,
    pub arch: ClementsArch,
    pub instances: Vec<MziInstance>,
    pub ports: PortSet,
    /// Bit pattern of the volts-to-radians coefficient.
    pub v_per_rad_bits: u64,
}

/// Which phase of an MZI an electrode drives.
#[derive(Debug, Clone, Copy, PartialEq, Eq, Structural)]
pub enum PhaseParam {
    Theta,
    Phi,
}

/// A phase shifter of the mesh: cell `(col, row)` of the Clements grid.
#[derive(Debug, Clone, Copy, PartialEq, Eq, Structural)]
pub struct PhaseSlot {
    pub col: usize,
    pub row: usize,
    pub param: PhaseParam,
}

pub open spec fn mzi_cell_name() -> Seq<char> {
    seq!['M', 'Z', 'I']
}

pub open spec fn input_prefix() -> Seq<char> {
    seq!['o', 'p', '_', 'l', '_']
}

pub open spec fn output_prefix() -> Seq<char> {
    seq!['o', 'p', '_', 'r', '_']
}

/// The direct MZI placements of the top cell, in placement order.
pub open spec fn mzi_refs(flat: Flattened) -> Seq<FlatRef> {
    flat.refs@.filter(top_instance_of(mzi_cell_name()))
}

/// Mesh-order key of a placement: world x, then world y.
pub open spec fn origin_keys(refs: Seq<FlatRef>) -> Seq<(i128, i128)> {
    Seq::new(refs.len(), |k: int| (refs[k].xform.tx as i128, refs[k].xform.ty as i128))
}

/// `inst` is mesh entry `i`, made from placement `r`.
pub open spec fn instance_of(inst: MziInstance, i: int, r: FlatRef) -> bool {
    &&& inst.mesh_index == i
    &&& inst.origin_x == r.xform.tx
    &&& inst.origin_y == r.xform.ty
    &&& inst.x_reflect == r.xform.x_reflect
    &&& inst.electrodes@ == seq![(4 * i + 1) as usize, (4 * i + 2) as usize, (4 * i + 3) as usize, (4 * i + 4) as usize]
}

/// A top-cell label whose string starts with `prefix`.
pub open spec fn port_label(prefix: Seq<char>) -> spec_fn(FlatLabel) -> bool {
    |l: FlatLabel| l.depth == 0 && has_prefix(l.string@, prefix)
}

/// Sort key of a port label: the number after the prefix, `usize::MAX` when
/// that is not a number.
pub open spec fn suffix_key(s: Seq<char>, prefix_len: nat) -> usize {
    match parse_usize_spec(s.skip(prefix_len as int)) {
        Some(v) => v,
        None => usize::MAX,
    }
}

pub open spec fn suffix_keys(labels: Seq<FlatLabel>, prefix_len: nat) -> Seq<(i128, i128)> {
    Seq::new(labels.len(), |k: int| (suffix_key(labels[k].string@, prefix_len) as i128, 0i128))
}

/// `out` is the strings of the top-cell labels starting with `prefix`,
/// stably sorted by numeric suffix.
pub open spec fn ports_sorted(flat: Flattened, prefix: Seq<char>, out: Seq<String>) -> bool {
    let cands = flat.labels@.filter(port_label(prefix));
    exists|perm: Seq<usize>|
        {
            &&& is_stable_order(suffix_keys(cands, prefix.len()), perm)
            &&& out.len() == cands.len()
            &&& forall|i: int| 0 <= i < out.len() ==> #[trigger] out[i] == cands[perm[i] as int].string
        }
}

pub open spec fn max_nat(a: nat, b: nat) -> nat {
    if a >= b {
        a
    } else {
        b
    }
}

/// The larger of two counts is at least each of them and is one of them.
pub proof fn lemma_max_nat(a: nat, b: nat)
    ensures
        max_nat(a, b) >= a,
        max_nat(a, b) >= b,
        max_nat(a, b) == a || max_nat(a, b) == b,
{
}

/// `out` lists each top-cell label with `prefix` once, stably sorted by
/// numeric suffix: along the list the suffix numbers (`usize::MAX` for a
/// suffix that is not a number) never decrease, and labels with equal suffix
/// numbers keep their order among the top-cell labels.
pub open spec fn stably_sorted_by_suffix(flat: Flattened, prefix: Seq<char>, out: Seq<String>) -> bool {
    let cands = flat.labels@.filter(port_label(prefix));
    &&& out.len() == cands.len()
    &&& forall|i: int, j: int|
        0 <= i < j < out.len() ==> suffix_key((#[trigger] out[i])@, prefix.len()) <= suffix_key(
            (#[trigger] out[j])@,
            prefix.len(),
        )
    &&& exists|perm: Seq<usize>|
        {
            &&& perm.len() == out.len()
            &&& forall|i: int|
                0 <= i < out.len() ==> (#[trigger] perm[i]) < cands.len() && out[i] == cands[perm[i] as int].string
            &&& forall|i: int, j: int|
                0 <= i < j < out.len() ==> (#[trigger] perm[i]) != (#[trigger] perm[j]) && (suffix_key(
                    out[i]@,
                    prefix.len(),
                ) == suffix_key(out[j]@, prefix.len()) ==> perm[i] < perm[j])
        }
}

/// A port list sorts its labels by the number after the prefix alone: the
/// suffix numbers never decrease along the list, and labels with equal
/// numbers keep their order among the top-cell labels.
pub proof fn lemma_ports_sorted_by_suffix(flat: Flattened, prefix: Seq<char>, out: Seq<String>)
    requires
        ports_sorted(flat, prefix, out),
    ensures
        stably_sorted_by_suffix(flat, prefix, out),
{
    let cands = flat.labels@.filter(port_label(prefix));
    let keys = suffix_keys(cands, prefix.len());
    let perm = choose|perm: Seq<usize>|
        {
            &&& is_stable_order(keys, perm)
            &&& out.len() == cands.len()
            &&& forall|i: int| 0 <= i < out.len() ==> #[trigger] out[i] == cands[perm[i] as int].string
        };
    assert forall|i: int, j: int| 0 <= i < j < out.len() implies {
        &&& suffix_key((#[trigger] out[i])@, prefix.len()) <= suffix_key((#[trigger] out[j])@, prefix.len())
        &&& perm[i] != perm[j]
        &&& (suffix_key(out[i]@, prefix.len()) == suffix_key(out[j]@, prefix.len()) ==> perm[i] < perm[j])
    } by {
        assert(goes_before(keys, perm[i] as int, perm[j] as int));
        assert(out[i] == cands[perm[i] as int].string);
        assert(out[j] == cands[perm[j] as int].string);
        assert(keys[perm[i] as int] == (suffix_key(cands[perm[i] as int].string@, prefix.len()) as i128, 0i128));
        assert(keys[perm[j] as int] == (suffix_key(cands[perm[j] as int].string@, prefix.len()) as i128, 0i128));
    }
    assert forall|i: int| 0 <= i < out.len() implies (#[trigger] perm[i]) < cands.len() && out[i] == cands[perm[i] as int].string by {
    }
    assert(stably_sorted_by_suffix(flat, prefix, out));
}

/// The port list for a prefix is unique: the engine's `ports.inputs` and
/// `ports.outputs` are exactly what `sorted_labels_with_prefix` returns for
/// `op_l_` and `op_r_`.
pub proof fn lemma_ports_sorted_unique(flat: Flattened, prefix: Seq<char>, a: Seq<String>, b: Seq<String>)
    requires
        ports_sorted(flat, prefix, a),
        ports_sorted(flat, prefix, b),
    ensures
        a == b,
{
    let cands = flat.labels@.filter(port_label(prefix));
    let keys = suffix_keys(cands, prefix.len());
    let pa = choose|perm: Seq<usize>|
        {
            &&& is_stable_order(keys, perm)
            &&& a.len() == cands.len()
            &&& forall|i: int| 0 <= i < a.len() ==> #[trigger] a[i] == cands[perm[i] as int].string
        };
    let pb = choose|perm: Seq<usize>|
        {
            &&& is_stable_order(keys, perm)
            &&& b.len() == cands.len()
            &&& forall|i: int| 0 <= i < b.len() ==> #[trigger] b[i] == cands[perm[i] as int].string
        };
    lemma_stable_order_unique(keys, pa, pb);
    assert(a =~= b);
}

/// Labels that agree in string and depth position by position select, under
/// any port prefix, port labels that agree in string position by position.
proof fn lemma_port_filter_strings(l1: Seq<FlatLabel>, l2: Seq<FlatLabel>, prefix: Seq<char>)
    requires
        l1.len() == l2.len(),
        forall|k: int| 0 <= k < l1.len() ==> (#[trigger] l1[k]).string == l2[k].string && l1[k].depth == l2[k].depth,
    ensures
        l1.filter(port_label(prefix)).len() == l2.filter(port_label(prefix)).len(),
        forall|k: int|
            0 <= k < l1.filter(port_label(prefix)).len() ==> (#[trigger] l1.filter(port_label(prefix))[k]).string
                == l2.filter(port_label(prefix))[k].string,
    decreases l1.len(),
{
    reveal(Seq::filter);
    if l1.len() > 0 {
        lemma_port_filter_strings(l1.drop_last(), l2.drop_last(), prefix);
    }
}

/// Where a port label sits (its world x and y) and its layer play no part in
/// the port lists: two flattened layouts whose labels agree in string and
/// depth, position by position, have the same port list for every prefix.
pub proof fn lemma_ports_ignore_position(
    f1: Flattened,
    f2: Flattened,
    prefix: Seq<char>,
    a: Seq<String>,
    b: Seq<String>,
)
    requires
        f1.labels@.len() == f2.labels@.len(),
        forall|k: int|
            0 <= k < f1.labels@.len() ==> (#[trigger] f1.labels@[k]).string == f2.labels@[k].string
                && f1.labels@[k].depth == f2.labels@[k].depth,
        ports_sorted(f1, prefix, a),
        ports_sorted(f2, prefix, b),
    ensures
        a == b,
{
    let c1 = f1.labels@.filter(port_label(prefix));
    let c2 = f2.labels@.filter(port_label(prefix));
    lemma_port_filter_strings(f1.labels@, f2.labels@, prefix);
    let keys = suffix_keys(c1, prefix.len());
    assert(suffix_keys(c2, prefix.len()) =~= keys) by {
        assert forall|k: int| 0 <= k < c1.len() implies suffix_keys(c2, prefix.len())[k] == keys[k] by {
            assert(c1[k].string == c2[k].string);
        }
    }
    let pa = choose|perm: Seq<usize>|
        {
            &&& is_stable_order(keys, perm)
            &&& a.len() == c1.len()
            &&& forall|i: int| 0 <= i < a.len() ==> #[trigger] a[i] == c1[perm[i] as int].string
        };
    let pb = choose|perm: Seq<usize>|
        {
            &&& is_stable_order(suffix_keys(c2, prefix.len()), perm)
            &&& b.len() == c2.len()
            &&& forall|i: int| 0 <= i < b.len() ==> #[trigger] b[i] == c2[perm[i] as int].string
        };
    lemma_stable_order_unique(keys, pa, pb);
    assert forall|i: int| 0 <= i < a.len() implies a[i] == b[i] by {
        assert(a[i] == c1[pa[i] as int].string);
        assert(b[i] == c2[pb[i] as int].string);
        assert(pa[i] < c1.len());
    }
    assert(a =~= b);
}

/// The characters of `v` from position `from` on.
fn chars_from(v: &Vec<char>, from: usize) -> (out: Vec<char>)
    requires
        from <= v@.len(),
    ensures
        out@ == v@.skip(from as int),
{
    let mut out: Vec<char> = Vec::new();
    let mut k: usize = from;
    while k < v.len()
        invariant
            from <= k <= v@.len(),
            out@ == v@.subrange(from as int, k as int),
        decreases v@.len() - k,
    {
        out.push(v[k]);
        assert(v@.subrange(from as int, k + 1) =~= v@.subrange(from as int, k as int).push(v@[k as int]));
        k = k + 1;
    }
    assert(v@.subrange(from as int, v@.len() as int) =~= v@.skip(from as int));
    out
}

/// Top-cell labels starting with `prefix`, stably sorted by their numeric
/// suffix (so `op_l_1, op_l_2, op_l_3` come out in order; a label whose
/// suffix is not a number sorts last).
pub fn sorted_labels_with_prefix(flat: &Flattened, prefix: &str) -> (out: Vec<String>)
    ensures
        ports_sorted(*flat, prefix@, out@),
        stably_sorted_by_suffix(*flat, prefix@, out@),
{
    let ghost pred = port_label(prefix@);
    let pchars = chars_of(prefix);
    let plen = pchars.len();
    let mut cands: Vec<String> = Vec::new();
    let mut keys: Vec<(i128, i128)> = Vec::new();
    let ghost mut cand_labels: Seq<FlatLabel> = Seq::empty();
    let mut i: usize = 0;
    while i < flat.labels.len()
        invariant
            i <= flat.labels@.len(),
            pred == port_label(prefix@),
            plen == prefix@.len(),
            cand_labels == flat.labels@.take(i as int).filter(pred),
            cands@.len() == cand_labels.len(),
            keys@.len() == cand_labels.len(),
            forall|k: int| 0 <= k < cands@.len() ==> #[trigger] cands@[k] == cand_labels[k].string,
            forall|k: int| 0 <= k < keys@.len() ==> #[trigger] keys@[k] == suffix_keys(cand_labels, plen as nat)[k],
        decreases flat.labels@.len() - i,
    {
        let l = &flat.labels[i];
        proof {
            assert(flat.labels@.take(i + 1) =~= flat.labels@.take(i as int).push(*l));
            flat.labels@.take(i as int).lemma_filter_push(*l, pred);
        }
        if l.depth == 0 && starts_with(l.string.as_str(), prefix) {
            let lchars = chars_of(l.string.as_str());
            let suffix = chars_from(&lchars, plen);
            let key: usize = match parse_usize(suffix.as_slice()) {
                Some(v) => v,
                None => usize::MAX,
            };
            let ghost old_cands = cand_labels;
            proof {
                cand_labels = cand_labels.push(*l);
            }
            cands.push(l.string.clone());
            keys.push((key as i128, 0i128));
            proof {
                assert forall|k: int| 0 <= k < keys@.len() implies #[trigger] keys@[k] == suffix_keys(cand_labels, plen as nat)[k] by {
                    if k < old_cands.len() {
                        assert(keys@[k] == suffix_keys(old_cands, plen as nat)[k]);
                    }
                }
            }
        }
        i = i + 1;
    }
    assert(flat.labels@.take(flat.labels@.len() as int) =~= flat.labels@);
    assert(keys@ =~= suffix_keys(cand_labels, plen as nat));
    let perm = stable_order(&keys);
    let mut out: Vec<String> = Vec::new();
    let mut p: usize = 0;
    while p < perm.len()
        invariant
            p <= perm@.len(),
            is_stable_order(keys@, perm@),
            keys@.len() == cands@.len(),
            forall|k: int| 0 <= k < cands@.len() ==> #[trigger] cands@[k] == cand_labels[k].string,
            out@.len() == p,
            forall|k: int| 0 <= k < p ==> #[trigger] out@[k] == cand_labels[perm@[k] as int].string,
        decreases perm@.len() - p,
    {
        let idx = perm[p];
        assert(idx < keys@.len());
        out.push(cands[idx].clone());
        p = p + 1;
    }
    assert(ports_sorted(*flat, prefix@, out@)) by {
        assert(is_stable_order(suffix_keys(cand_labels, prefix@.len()), perm@));
    }
    proof {
        lemma_ports_sorted_by_suffix(*flat, prefix@, out@);
    }
    out
}

/// Number of MZI cells in column `col` of an `n`-port Clements mesh: even
/// columns pair rows (0,1),(2,3),..., odd columns (1,2),(3,4),...
pub open spec fn column_cells(n: int, col: int) -> int {
    let s = col % 2;
    if n >= s {
        (n - s) / 2
    } else {
        0
    }
}

/// Number of MZI cells in the columns before `col`.
pub open spec fn cells_before(n: int, col: int) -> int
    decreases col,
{
    if col <= 0 {
        0
    } else {
        cells_before(n, col - 1) + column_cells(n, col - 1)
    }
}

/// Cell `(col, row)` is the `k`-th MZI cell of an `n`-port mesh when the
/// cells are counted column by column, top to bottom.
pub open spec fn grid_slot(n: int, k: int, col: int, row: int) -> bool {
    &&& 0 <= col < n
    &&& cells_before(n, col) <= k < cells_before(n, col + 1)
    &&& row == col % 2 + 2 * (k - cells_before(n, col))
}

proof fn lemma_cells_before_pairs(n: int, m: int)
    requires
        n >= 1,
        m >= 0,
    ensures
        cells_before(n, 2 * m) == m * (n - 1),
    decreases m,
{
    if m > 0 {
        lemma_cells_before_pairs(n, m - 1);
        assert(cells_before(n, 2 * m) == cells_before(n, 2 * m - 1) + column_cells(n, 2 * m - 1));
        assert(cells_before(n, 2 * m - 1) == cells_before(n, 2 * m - 2) + column_cells(n, 2 * m - 2));
        assert((2 * m - 1) % 2 == 1 && (2 * m - 2) % 2 == 0);
        assert(column_cells(n, 2 * m - 2) + column_cells(n, 2 * m - 1) == n - 1);
        assert(m * (n - 1) == (m - 1) * (n - 1) + (n - 1)) by (nonlinear_arith);
        assert(cells_before(n, 2 * (m - 1)) == (m - 1) * (n - 1));
        assert(2 * (m - 1) == 2 * m - 2);
    } else {
        assert(m * (n - 1) == 0) by (nonlinear_arith)
            requires
                m == 0,
        ;
    }
}

/// An `n`-port Clements mesh has `n(n-1)/2` MZI cells, so exactly the MZIs
/// `0 .. n(n-1)/2` have a cell to drive.
pub proof fn lemma_mesh_cell_count(n: int)
    requires
        n >= 0,
    ensures
        cells_before(n, n) == n * (n - 1) / 2,
{
    if n >= 1 {
        let m = n / 2;
        lemma_cells_before_pairs(n, m);
        if n % 2 == 0 {
            assert(n == 2 * m);
            assert(m * (n - 1) == n * (n - 1) / 2) by (nonlinear_arith)
                requires
                    n == 2 * m,
            ;
        } else {
            assert(n == 2 * m + 1);
            assert(cells_before(n, n) == cells_before(n, 2 * m) + column_cells(n, 2 * m));
            assert(column_cells(n, 2 * m) == m);
            assert(m * (n - 1) + m == n * (n - 1) / 2) by (nonlinear_arith)
                requires
                    n == 2 * m + 1,
            ;
        }
    }
}

/// Index of cell `(col, row)` of an `n`-port mesh when cells are counted
/// column by column, top to bottom: every two columns hold `n - 1` cells,
/// an even column `n / 2` of them, and a column's cells are two rows apart.
pub open spec fn cell_index(n: int, col: int, row: int) -> int {
    (col / 2) * (n - 1) + (col % 2) * (n / 2) + (row - col % 2) / 2
}

proof fn lemma_cells_before_closed(n: int, col: int)
    requires
        n >= 1,
        col >= 0,
    ensures
        cells_before(n, col) == (col / 2) * (n - 1) + (col % 2) * (n / 2),
{
    let m = col / 2;
    lemma_cells_before_pairs(n, m);
    if col % 2 == 0 {
        assert(col == 2 * m);
    } else {
        assert(col == 2 * m + 1);
        assert(cells_before(n, col) == cells_before(n, 2 * m) + column_cells(n, 2 * m));
        assert((2 * m) % 2 == 0);
    }
}

/// Cells of column `col` sit at rows `col % 2, col % 2 + 2, ...` while a row
/// below them remains: the `k`-th cell lies in a column below `n`, its row
/// has the column's parity and is above the last row, and `k` is its
/// column-by-column index.
pub proof fn lemma_grid_slot_shape(n: int, k: int, col: int, row: int)
    requires
        grid_slot(n, k, col, row),
    ensures
        0 <= col < n,
        0 <= row,
        row + 1 < n,
        row % 2 == col % 2,
        k == cell_index(n, col, row),
{
    lemma_cells_before_closed(n, col);
    let cb = cells_before(n, col);
    assert(cells_before(n, col + 1) == cb + column_cells(n, col));
    let s = col % 2;
    let m = k - cb;
    assert(0 <= m < (n - s) / 2);
    assert(2 * m + 2 <= n - s);
    assert(row == s + 2 * m);
    assert((s + 2 * m) % 2 == s);
    assert((row - s) / 2 == m);
}

/// Every position a Clements column holds is a cell: column `col < n`,
/// row of the column's parity with a row below it, is the cell with
/// index `cell_index(n, col, row)`.
pub proof fn lemma_grid_slot_of_position(n: int, col: int, row: int)
    requires
        0 <= col < n,
        0 <= row,
        row + 1 < n,
        row % 2 == col % 2,
    ensures
        grid_slot(n, cell_index(n, col, row), col, row),
{
    lemma_cells_before_closed(n, col);
    let cb = cells_before(n, col);
    assert(cells_before(n, col + 1) == cb + column_cells(n, col));
    let s = col % 2;
    let m = (row - s) / 2;
    assert(row == s + 2 * m);
    assert(m < (n - s) / 2);
}

/// For every mesh of at least two ports the first cell is `(0, 0)`.
pub proof fn lemma_first_cell(n: int)
    requires
        n >= 2,
    ensures
        grid_slot(n, 0, 0, 0),
{
    lemma_grid_slot_of_position(n, 0, 0);
    assert(cell_index(n, 0, 0) == 0);
}

/// The `k`-th cell's grid position is unique.
pub proof fn lemma_grid_slot_unique(n: int, k: int, c1: int, r1: int, c2: int, r2: int)
    requires
        grid_slot(n, k, c1, r1),
        grid_slot(n, k, c2, r2),
    ensures
        c1 == c2,
        r1 == r2,
{
    if c1 < c2 {
        lemma_cells_before_monotone(n, c1 + 1, c2);
    } else if c2 < c1 {
        lemma_cells_before_monotone(n, c2 + 1, c1);
    }
}

proof fn lemma_cells_before_monotone(n: int, a: int, b: int)
    requires
        a <= b,
    ensures
        cells_before(n, a) <= cells_before(n, b),
    decreases b - a,
{
    if a < b {
        lemma_cells_before_monotone(n, a, b - 1);
        if b - 1 >= 0 {
            assert(cells_before(n, b) == cells_before(n, b - 1) + column_cells(n, b - 1));
        }
    }
}

/// Mesh order is column-major: along the instance list, world x never
/// decreases, and within equal x, world y never decreases.
pub proof fn lemma_mesh_order_column_major(
    mzis: Seq<FlatRef>,
    perm: Seq<usize>,
    instances: Seq<MziInstance>,
    i: int,
    j: int,
)
    requires
        is_stable_order(origin_keys(mzis), perm),
        instances.len() == mzis.len(),
        forall|k: int| 0 <= k < instances.len() ==> instance_of(#[trigger] instances[k], k, mzis[perm[k] as int]),
        0 <= i < j < instances.len(),
    ensures
        instances[i].origin_x < instances[j].origin_x || (instances[i].origin_x == instances[j].origin_x
            && instances[i].origin_y <= instances[j].origin_y),
{
    let keys = origin_keys(mzis);
    assert(goes_before(keys, perm[i] as int, perm[j] as int));
    assert(instance_of(instances[i], i, mzis[perm[i] as int]));
    assert(instance_of(instances[j], j, mzis[perm[j] as int]));
}

/// Every electrode `1 ..= 4 * n_mzis` belongs to exactly one MZI: electrode
/// `ep` is entry `(ep - 1) % 4` of MZI `(ep - 1) / 4`.
pub proof fn lemma_electrode_owner(inst: MziInstance, k: int, r: FlatRef, ep: int)
    requires
        instance_of(inst, k, r),
        k >= 0,
        4 * k + 4 <= usize::MAX,
        (ep - 1) / 4 == k,
        ep >= 1,
    ensures
        inst.electrodes@[(ep - 1) % 4] == ep,
{
}

impl MziMatrixEngine {
    /// Build the engine from a flattened layout: the top cell's direct `MZI`
    /// placements in column-major order (x, then y; ties keep placement
    /// order), each owning four consecutive electrodes; `op_l_*` labels as
    /// inputs and `op_r_*` as outputs; an `n`-port mesh, `n = max(#inputs, #outputs)`.
    /// Fails with `NoMzis(0)` exactly when the top cell places no `MZI`.
    pub fn from_flattened(flat: &Flattened) -> (r: Result<MziMatrixEngine, EngineError>)
        requires
            flat.refs@.len() <= usize::MAX / 4,
        ensures
            match r {
                Err(e) => {
                    &&& mzi_refs(*flat).len() == 0
                    &&& e matches EngineError::NoMzis(0)
                },
                Ok(eng) => {
                    let mzis = mzi_refs(*flat);
                    &&& mzis.len() > 0
                    &&& exists|perm: Seq<usize>|
                        {
                            &&& is_stable_order(origin_keys(mzis), perm)
                            &&& eng.instances@.len() == mzis.len()
                            &&& forall|i: int|
                                0 <= i < eng.instances@.len() ==> instance_of(
                                    #[trigger] eng.instances@[i],
                                    i,
                                    mzis[perm[i] as int],
                                )
                        }
                    &&& ports_sorted(*flat, input_prefix(), eng.ports.inputs@)
                    &&& ports_sorted(*flat, output_prefix(), eng.ports.outputs@)
                    &&& eng.n_ports == max_nat(eng.ports.inputs@.len(), eng.ports.outputs@.len())
                    &&& eng.n_ports >= eng.ports.inputs@.len()
                    &&& eng.n_ports >= eng.ports.outputs@.len()
                    &&& (eng.n_ports == eng.ports.inputs@.len() || eng.n_ports == eng.ports.outputs@.len())
                    &&& stably_sorted_by_suffix(*flat, input_prefix(), eng.ports.inputs@)
                    &&& stably_sorted_by_suffix(*flat, output_prefix(), eng.ports.outputs@)
                    &&& clements_ports(eng.arch) == eng.n_ports
                    &&& eng.v_per_rad_bits == DEFAULT_V_PER_RAD_BITS
                },
            },
    {
        let mzis = flat.top_level_instances("MZI");
        proof {
            reveal_strlit("MZI");
            assert("MZI"@ =~= mzi_cell_name());
            flat.refs@.lemma_filter_len(top_instance_of(mzi_cell_name()));
        }
        if mzis.len() == 0 {
            return Err(EngineError::NoMzis(0));
        }
        let mut keys: Vec<(i128, i128)> = Vec::new();
        let mut k: usize = 0;
        while k < mzis.len()
            invariant
                k <= mzis@.len(),
                keys@.len() == k,
                forall|j: int| 0 <= j < k ==> #[trigger] keys@[j] == origin_keys(mzis@)[j],
            decreases mzis@.len() - k,
        {
            keys.push((mzis[k].xform.tx as i128, mzis[k].xform.ty as i128));
            k = k + 1;
        }
        assert(keys@ =~= origin_keys(mzis@));
        let perm = stable_order(&keys);
        let mut instances: Vec<MziInstance> = Vec::new();
        let mut i: usize = 0;
        while i < perm.len()
            invariant
                i <= perm@.len(),
                is_stable_order(keys@, perm@),
                keys@.len() == mzis@.len(),
                mzis@.len() <= usize::MAX / 4,
                instances@.len() == i,
                forall|j: int| 0 <= j < i ==> instance_of(#[trigger] instances@[j], j, mzis@[perm@[j] as int]),
            decreases perm@.len() - i,
        {
            let r = &mzis[perm[i]];
            let inst = MziInstance {
                mesh_index: i,
                origin_x: r.xform.tx,
                origin_y: r.xform.ty,
                x_reflect: r.xform.x_reflect,
                electrodes: [4 * i + 1, 4 * i + 2, 4 * i + 3, 4 * i + 4],
            };
            assert(inst.electrodes@ =~= seq![(4 * i + 1) as usize, (4 * i + 2) as usize, (4 * i + 3) as usize, (4 * i + 4) as usize]);
            instances.push(inst);
            i = i + 1;
        }
        let inputs = sorted_labels_with_prefix(flat, "op_l_");
        let outputs = sorted_labels_with_prefix(flat, "op_r_");
        proof {
            reveal_strlit("op_l_");
            reveal_strlit("op_r_");
            assert("op_l_"@ =~= input_prefix());
            assert("op_r_"@ =~= output_prefix());
        }
        let n_ports = if inputs.len() >= outputs.len() { inputs.len() } else { outputs.len() };
        let arch = clements_identity(n_ports);
        proof {
            let mz = mzi_refs(*flat);
            assert(mzis@ == mz);
            assert(is_stable_order(origin_keys(mz), perm@));
            assert(forall|j: int| 0 <= j < instances@.len() ==> instance_of(#[trigger] instances@[j], j, mz[perm@[j] as int]));
        }
        Ok(MziMatrixEngine {
            n_ports,
            arch,
            instances,
            ports: PortSet { inputs, outputs },
            v_per_rad_bits: DEFAULT_V_PER_RAD_BITS,
        })
    }

    /// Grid position of the `k`-th MZI cell of the mesh, counting column by
    /// column in the order `ClementsArch::new` fills them; `None` when the
    /// mesh has no `k`-th cell.
    pub fn cell_at(&self, k: usize) -> (r: Option<(usize, usize)>)
        ensures
            match r {
                Some((col, row)) => {
                    let n = self.n_ports as int;
                    &&& grid_slot(n, k as int, col as int, row as int)
                    &&& col < n
                    &&& row + 1 < n
                    &&& row % 2 == col % 2
                    &&& k == cell_index(n, col as int, row as int)
                },
                None => {
                    &&& k >= cells_before(self.n_ports as int, self.n_ports as int)
                    &&& k >= (self.n_ports as int) * (self.n_ports as int - 1) / 2
                },
            },
    {
        proof {
            lemma_mesh_cell_count(self.n_ports as int);
        }
        let n = self.n_ports;
        let mut count: usize = 0;
        let mut col: usize = 0;
        while col < n
            invariant
                col <= n,
                n == self.n_ports,
                count == cells_before(n as int, col as int),
                count <= k,
            decreases n - col,
        {
            let s = col % 2;
            let mut row = s;
            let ghost mut m: int = 0;
            while n > 0 && row < n - 1
                invariant
                    col < n,
                    n == self.n_ports,
                    s == col % 2,
                    row == s + 2 * m,
                    m >= 0,
                    m == 0 || row <= n,
                    count == cells_before(n as int, col as int) + m,
                    count <= k,
                decreases n + 2 - row,
            {
                if count == k {
                    assert(m < column_cells(n as int, col as int));
                    assert(cells_before(n as int, col + 1) == cells_before(n as int, col as int) + column_cells(n as int, col as int));
                    proof {
                        lemma_grid_slot_shape(n as int, k as int, col as int, row as int);
                    }
                    return Some((col, row));
                }
                count = count + 1;
                row = row + 2;
                proof {
                    m = m + 1;
                }
            }
            assert(m == column_cells(n as int, col as int));
            assert(cells_before(n as int, col + 1) == cells_before(n as int, col as int) + column_cells(n as int, col as int));
            col = col + 1;
        }
        None
    }

    /// Resolve a 1-based global electrode index to the phase shifter it
    /// drives. Indices outside `1..=4 * n_mzis` fail with
    /// `ElectrodeOutOfRange`. Electrode `4k+1` drives θ and `4k+2` drives φ
    /// of the `k`-th mesh cell; the other two electrodes of each MZI, and
    /// MZIs beyond the mesh's cells, drive nothing (`Ok(None)`).
    pub fn electrode_target(&self, ep_idx_1based: usize) -> (r: Result<Option<PhaseSlot>, EngineError>)
        requires
            self.instances@.len() <= usize::MAX / 4,
        ensures
            match r {
                Err(e) => {
                    &&& (ep_idx_1based == 0 || ep_idx_1based > 4 * self.instances@.len())
                    &&& e matches EngineError::ElectrodeOutOfRange(a, b) && a == ep_idx_1based && b == 4
                        * self.instances@.len()
                },
                Ok(t) => {
                    let z = ep_idx_1based - 1;
                    let k = z / 4;
                    let role = z % 4;
                    &&& 1 <= ep_idx_1based <= 4 * self.instances@.len()
                    &&& match t {
                        Some(slot) => {
                            &&& role < 2
                            &&& grid_slot(self.n_ports as int, k, slot.col as int, slot.row as int)
                            &&& slot.col < self.n_ports
                            &&& slot.row + 1 < self.n_ports
                            &&& slot.row % 2 == slot.col % 2
                            &&& k == cell_index(self.n_ports as int, slot.col as int, slot.row as int)
                            &&& slot.param == (if role == 0 {
                                PhaseParam::Theta
                            } else {
                                PhaseParam::Phi
                            })
                        },
                        None => role >= 2 || (k >= cells_before(self.n_ports as int, self.n_ports as int) && k >= (
                        self.n_ports as int) * (self.n_ports as int - 1) / 2),
                    }
                },
            },
    {
        let max_ep = self.n_electrodes();
        if ep_idx_1based == 0 || ep_idx_1based > max_ep {
            return Err(EngineError::ElectrodeOutOfRange(ep_idx_1based, max_ep));
        }
        let zero_based = ep_idx_1based - 1;
        let mzi_idx = zero_based / 4;
        let role = zero_based % 4;
        match self.cell_at(mzi_idx) {
            None => Ok(None),
            Some((col, row)) => {
                if role == 0 {
                    Ok(Some(PhaseSlot { col, row, param: PhaseParam::Theta }))
                } else if role == 1 {
                    Ok(Some(PhaseSlot { col, row, param: PhaseParam::Phi }))
                } else {
                    Ok(None)
                }
            },
        }
    }

    /// Number of MZI instances loaded from the layout.
    pub fn n_mzis(&self) -> (n: usize)
        ensures
            n == self.instances@.len(),
    {
        self.instances.len()
    }

    /// Number of global electrodes: four per MZI.
    pub fn n_electrodes(&self) -> (n: usize)
        requires
            self.instances@.len() <= usize::MAX / 4,
        ensures
            n == 4 * self.instances@.len(),
    {
        self.instances.len() * 4
    }

    /// The check made before applying the mesh to an input vector: its
    /// length must equal the port count.
    pub fn check_input(&self, input_len: usize) -> (r: Result<(), EngineError>)
        ensures
            match r {
                Ok(()) => input_len == self.n_ports,
                Err(e) => {
                    &&& input_len != self.n_ports
                    &&& e matches EngineError::InputLength(a, b) && a == input_len && b == self.n_ports
                },
            },
    {
        if input_len != self.n_ports {
            return Err(EngineError::InputLength(input_len, self.n_ports));
        }
        Ok(())
    }
}

} // verus!
