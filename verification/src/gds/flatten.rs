//! Flattening of a GDS cell hierarchy into world-coordinate placements.
//!
//! A `FlatRef` is one resolved placement of a referenced cell, a `FlatLabel` a
//! text label resolved into world coordinates. Composition of affine
//! transforms is floating-point work and is not done here: the `Flattener`
//! is a resumable state machine that asks its driver for each composed
//! transform and each transformed label origin, and makes every other
//! decision (traversal order, depth cap, cycle guard, array expansion).
use vstd::prelude::*;
use crate::gds::model::{GdsAref, GdsCell, GdsElement, GdsLibrary, GdsSref, ONE_BITS, ZERO_BITS};
use crate::gds::loader::Layout;
use crate::text::{has_prefix, starts_with};

verus! {

/// 2D affine transform: translation in database units, plus the bit patterns
/// of the rotation angle (degrees) and magnification, and an x-reflection flag.
#[derive(Debug, Clone, Copy, PartialEq, Eq, Structural)]
pub struct Xform {
    pub tx: i64,
    pub ty: i64,
    pub angle_deg_bits: u64,
    pub mag_bits: u64,
    pub x_reflect: bool,
}

impl Xform {
    /// The identity transform: no translation, angle `0.0`, magnification `1.0`.
    pub fn identity() -> (x: Xform)
        ensures
            x == Xform::spec_identity(),
    {
        Xform { tx: 0, ty: 0, angle_deg_bits: ZERO_BITS, mag_bits: ONE_BITS, x_reflect: false }
    }

    pub open spec fn spec_identity() -> Xform {
        Xform { tx: 0, ty: 0, angle_deg_bits: ZERO_BITS, mag_bits: ONE_BITS, x_reflect: false }
    }
}

/// The local transform of a structure reference.
pub open spec fn sref_xform(s: GdsSref) -> Xform {
    Xform {
        tx: s.origin.x as i64,
        ty: s.origin.y as i64,
        angle_deg_bits: s.angle_deg_bits,
        mag_bits: s.magnification_bits,
        x_reflect: s.x_reflection,
    }
}

fn xform_of_sref(s: &GdsSref) -> (x: Xform)
    ensures
        x == sref_xform(*s),
        x.tx == s.origin.x as i64,
        x.ty == s.origin.y as i64,
        x.angle_deg_bits == s.angle_deg_bits,
        x.mag_bits == s.magnification_bits,
        x.x_reflect == s.x_reflection,
{
    Xform {
        tx: s.origin.x as i64,
        ty: s.origin.y as i64,
        angle_deg_bits: s.angle_deg_bits,
        mag_bits: s.magnification_bits,
        x_reflect: s.x_reflection,
    }
}

/// One instance of an array reference: its local transform and lattice slot.
#[derive(Debug, Clone, Copy, PartialEq, Eq, Structural)]
pub struct ArefInst {
    pub xform: Xform,
    pub col: u16,
    pub row: u16,
}

/// Whether the array has its three lattice points.
pub open spec fn aref_has_lattice(a: GdsAref) -> bool {
    a.xy@.len() >= 3
}

/// Number of placements the array expands to.
pub open spec fn aref_count(a: GdsAref) -> nat {
    if aref_has_lattice(a) {
        (a.cols as nat) * (a.rows as nat)
    } else {
        0
    }
}

/// Instance `(i, j)` sits at `origin + i*(col_anchor-origin) + j*(row_anchor-origin)`
/// and inherits the array's angle, magnification and reflection.
pub open spec fn aref_instance(a: GdsAref, i: int, j: int) -> ArefInst {
    let o = a.xy@[0];
    let c = a.xy@[1];
    let r = a.xy@[2];
    ArefInst {
        xform: Xform {
            tx: (o.x + i * (c.x - o.x) + j * (r.x - o.x)) as i64,
            ty: (o.y + i * (c.y - o.y) + j * (r.y - o.y)) as i64,
            angle_deg_bits: a.angle_deg_bits,
            mag_bits: a.magnification_bits,
            x_reflect: a.x_reflection,
        },
        col: i as u16,
        row: j as u16,
    }
}

/// The `k`-th instance in expansion order (rows outer, columns inner).
pub open spec fn aref_nth(a: GdsAref, k: int) -> ArefInst {
    aref_instance(a, k % (a.cols as int), k / (a.cols as int))
}

proof fn lemma_lattice_bounds(o: int, d1: int, d2: int, i: int, j: int)
    requires
        i32::MIN <= o <= i32::MAX,
        -0x1_0000_0000 <= d1 <= 0x1_0000_0000,
        -0x1_0000_0000 <= d2 <= 0x1_0000_0000,
        0 <= i <= u16::MAX,
        0 <= j <= u16::MAX,
    ensures
        i64::MIN <= i * d1 <= i64::MAX,
        i64::MIN <= o + i * d1 <= i64::MAX,
        i64::MIN <= j * d2 <= i64::MAX,
        i64::MIN <= o + i * d1 + j * d2 <= i64::MAX,
{
    assert(-0x1_0000_0000 * 0x1_0000 <= i * d1 <= 0x1_0000_0000 * 0x1_0000) by (nonlinear_arith)
        requires
            -0x1_0000_0000 <= d1 <= 0x1_0000_0000,
            0 <= i <= 0x1_0000,
    ;
    assert(-0x1_0000_0000 * 0x1_0000 <= j * d2 <= 0x1_0000_0000 * 0x1_0000) by (nonlinear_arith)
        requires
            -0x1_0000_0000 <= d2 <= 0x1_0000_0000,
            0 <= j <= 0x1_0000,
    ;
}

/// Every instance of an array inherits the array's angle, magnification and
/// reflection, and instance `k` (rows outer, columns inner) is slot
/// `(k % cols, k / cols)`, placed at
/// `origin + (k % cols)*(col_anchor - origin) + (k / cols)*(row_anchor - origin)`.
pub proof fn lemma_aref_nth_fields(a: GdsAref, k: int)
    requires
        0 <= k < aref_count(a),
    ensures
        ({
            let inst = aref_nth(a, k);
            let i = k % (a.cols as int);
            let j = k / (a.cols as int);
            let o = a.xy@[0];
            let c = a.xy@[1];
            let r = a.xy@[2];
            &&& a.xy@.len() >= 3
            &&& 0 <= i < a.cols
            &&& 0 <= j < a.rows
            &&& inst.col == i
            &&& inst.row == j
            &&& inst.xform.tx == o.x + i * (c.x - o.x) + j * (r.x - o.x)
            &&& inst.xform.ty == o.y + i * (c.y - o.y) + j * (r.y - o.y)
            &&& inst.xform.angle_deg_bits == a.angle_deg_bits
            &&& inst.xform.mag_bits == a.magnification_bits
            &&& inst.xform.x_reflect == a.x_reflection
        }),
{
    let n = a.cols as int;
    let m = a.rows as int;
    assert(n > 0 && k % n < n && k / n < m) by (nonlinear_arith)
        requires
            0 <= k < n * m,
            n >= 0,
            m >= 0,
    ;
    let i = k % n;
    let j = k / n;
    let o = a.xy@[0];
    let c = a.xy@[1];
    let r = a.xy@[2];
    lemma_lattice_bounds(o.x as int, c.x - o.x, r.x - o.x, i, j);
    lemma_lattice_bounds(o.y as int, c.y - o.y, r.y - o.y, i, j);
}

/// Instance `(i, j)` of an array with its three lattice points; the lattice
/// steps are taken in 64-bit arithmetic.
pub fn aref_instance_at(a: &GdsAref, i: u16, j: u16) -> (inst: ArefInst)
    requires
        aref_has_lattice(*a),
    ensures
        inst == aref_instance(*a, i as int, j as int),
        inst.col == i,
        inst.row == j,
        inst.xform.tx == a.xy@[0].x + i * (a.xy@[1].x - a.xy@[0].x) + j * (a.xy@[2].x - a.xy@[0].x),
        inst.xform.ty == a.xy@[0].y + i * (a.xy@[1].y - a.xy@[0].y) + j * (a.xy@[2].y - a.xy@[0].y),
        inst.xform.angle_deg_bits == a.angle_deg_bits,
        inst.xform.mag_bits == a.magnification_bits,
        inst.xform.x_reflect == a.x_reflection,
{
    let origin = a.xy[0];
    let col_anchor = a.xy[1];
    let row_anchor = a.xy[2];
    let dx0: i64 = col_anchor.x as i64 - origin.x as i64;
    let dx1: i64 = col_anchor.y as i64 - origin.y as i64;
    let dy0: i64 = row_anchor.x as i64 - origin.x as i64;
    let dy1: i64 = row_anchor.y as i64 - origin.y as i64;
    proof {
        lemma_lattice_bounds(origin.x as int, dx0 as int, dy0 as int, i as int, j as int);
        lemma_lattice_bounds(origin.y as int, dx1 as int, dy1 as int, i as int, j as int);
    }
    let px: i64 = origin.x as i64 + (i as i64) * dx0 + (j as i64) * dy0;
    let py: i64 = origin.y as i64 + (i as i64) * dx1 + (j as i64) * dy1;
    ArefInst {
        xform: Xform {
            tx: px,
            ty: py,
            angle_deg_bits: a.angle_deg_bits,
            mag_bits: a.magnification_bits,
            x_reflect: a.x_reflection,
        },
        col: i,
        row: j,
    }
}

/// Expand an array reference into its `cols * rows` placements, rows outer
/// and columns inner; an array without three lattice points expands to none.
pub fn aref_instances(a: &GdsAref) -> (out: Vec<ArefInst>)
    ensures
        out@.len() == aref_count(*a),
        out@.len() == (if a.xy@.len() >= 3 { (a.cols as nat) * (a.rows as nat) } else { 0 }),
        forall|k: int| 0 <= k < out@.len() ==> #[trigger] out@[k] == aref_nth(*a, k),
        forall|k: int|
            0 <= k < out@.len() ==> {
                let i = k % (a.cols as int);
                let j = k / (a.cols as int);
                &&& (#[trigger] out@[k]).col == i
                &&& out@[k].row == j
                &&& out@[k].xform.tx == a.xy@[0].x + i * (a.xy@[1].x - a.xy@[0].x) + j * (a.xy@[2].x - a.xy@[0].x)
                &&& out@[k].xform.ty == a.xy@[0].y + i * (a.xy@[1].y - a.xy@[0].y) + j * (a.xy@[2].y - a.xy@[0].y)
                &&& out@[k].xform.angle_deg_bits == a.angle_deg_bits
                &&& out@[k].xform.mag_bits == a.magnification_bits
                &&& out@[k].xform.x_reflect == a.x_reflection
            },
{
    if a.xy.len() < 3 {
        return Vec::new();
    }
    let cols = a.cols;
    let rows = a.rows;
    let mut out: Vec<ArefInst> = Vec::new();
    let mut j: u16 = 0;
    while j < rows
        invariant
            aref_has_lattice(*a),
            cols == a.cols,
            rows == a.rows,
            j <= rows,
            out@.len() == (j as nat) * (cols as nat),
            forall|k: int| 0 <= k < out@.len() ==> #[trigger] out@[k] == aref_nth(*a, k),
        decreases rows - j,
    {
        let mut i: u16 = 0;
        while i < cols
            invariant
                aref_has_lattice(*a),
                cols == a.cols,
                rows == a.rows,
                j < rows,
                i <= cols,
                out@.len() == (j as nat) * (cols as nat) + i,
                forall|k: int| 0 <= k < out@.len() ==> #[trigger] out@[k] == aref_nth(*a, k),
            decreases cols - i,
        {
            let inst = aref_instance_at(a, i, j);
            proof {
                let k = (j as int) * (cols as int) + i as int;
                assert(k % (cols as int) == i as int && k / (cols as int) == j as int) by (nonlinear_arith)
                    requires
                        k == (j as int) * (cols as int) + i as int,
                        0 <= i < cols,
                        0 <= j,
                ;
            }
            out.push(inst);
            i = i + 1;
        }
        proof {
            assert((j as nat) * (cols as nat) + cols == ((j + 1) as nat) * (cols as nat)) by (nonlinear_arith);
        }
        j = j + 1;
    }
    assert((rows as nat) * (cols as nat) == (cols as nat) * (rows as nat)) by (nonlinear_arith);
    assert forall|k: int| 0 <= k < out@.len() implies {
        let i = k % (a.cols as int);
        let j = k / (a.cols as int);
        &&& (#[trigger] out@[k]).col == i
        &&& out@[k].row == j
        &&& out@[k].xform.tx == a.xy@[0].x + i * (a.xy@[1].x - a.xy@[0].x) + j * (a.xy@[2].x - a.xy@[0].x)
        &&& out@[k].xform.ty == a.xy@[0].y + i * (a.xy@[1].y - a.xy@[0].y) + j * (a.xy@[2].y - a.xy@[0].y)
        &&& out@[k].xform.angle_deg_bits == a.angle_deg_bits
        &&& out@[k].xform.mag_bits == a.magnification_bits
        &&& out@[k].xform.x_reflect == a.x_reflection
    } by {
        lemma_aref_nth_fields(*a, k);
    }
    out
}

/// How a flattened placement arose: a structure reference, or slot
/// `(col, row)` of a `cols x rows` array reference.
#[derive(Debug, Clone, Copy, PartialEq, Eq, Structural)]
pub enum PlacementKind {
    Sref,
    Aref { col: u16, row: u16, cols: u16, rows: u16 },
}

/// One placement of one referenced cell, resolved to world coordinates.
#[derive(Debug)]
pub struct FlatRef {
    /// Name of the cell that was placed.
    pub cell: String,
    /// World-coordinate transform of this placement.
    pub xform: Xform,
    /// Depth in the hierarchy (0 == direct child of the top cell).
    pub depth: usize,
    pub kind: PlacementKind,
}

impl FlatRef {
    /// A copy of this placement.
    pub fn duplicate(&self) -> (r: FlatRef)
        ensures
            r == *self,
    {
        FlatRef { cell: self.cell.clone(), xform: self.xform, depth: self.depth, kind: self.kind }
    }
}

/// A text label resolved into world coordinates (database units).
#[derive(Debug)]
pub struct FlatLabel {
    pub string: String,
    pub x: i64,
    pub y: i64,
    pub layer: u16,
    /// Depth of the cell holding the label (0 == top cell).
    pub depth: usize,
}

impl FlatLabel {
    /// A copy of this label.
    pub fn duplicate(&self) -> (r: FlatLabel)
        ensures
            r == *self,
    {
        FlatLabel {
            string: self.string.clone(),
            x: self.x,
            y: self.y,
            layer: self.layer,
            depth: self.depth,
        }
    }
}

/// Flattened view of a layout rooted at one top cell.
#[derive(Debug)]
pub struct Flattened {
    pub top_cell: String,
    pub db_unit_m_bits: u64,
    pub user_unit_m_bits: u64,
    pub refs: Vec<FlatRef>,
    pub labels: Vec<FlatLabel>,
}

/// A direct (depth 0) placement of cell `name`.
pub open spec fn top_instance_of(name: Seq<char>) -> spec_fn(FlatRef) -> bool {
    |r: FlatRef| r.depth == 0 && r.cell@ == name
}

/// A label whose string starts with `prefix`.
pub open spec fn label_has_prefix(prefix: Seq<char>) -> spec_fn(FlatLabel) -> bool {
    |l: FlatLabel| has_prefix(l.string@, prefix)
}

impl Flattened {
    /// All direct (depth 0) placements of `cell_name` inside the top cell, in order.
    pub fn top_level_instances(&self, cell_name: &str) -> (out: Vec<FlatRef>)
        ensures
            out@ == self.refs@.filter(top_instance_of(cell_name@)),
    {
        let name = cell_name.to_owned();
        let ghost pred = top_instance_of(cell_name@);
        let mut out: Vec<FlatRef> = Vec::new();
        let mut i: usize = 0;
        while i < self.refs.len()
            invariant
                i <= self.refs@.len(),
                name@ == cell_name@,
                pred == top_instance_of(cell_name@),
                out@ == self.refs@.take(i as int).filter(pred),
            decreases self.refs@.len() - i,
        {
            let r = &self.refs[i];
            proof {
                assert(self.refs@.take(i + 1) =~= self.refs@.take(i as int).push(*r));
                self.refs@.take(i as int).lemma_filter_push(*r, pred);
            }
            if r.depth == 0 && r.cell == name {
                out.push(r.duplicate());
            }
            i = i + 1;
        }
        assert(self.refs@.take(self.refs@.len() as int) =~= self.refs@);
        out
    }

    /// Labels whose string starts with `prefix`, at any depth, in order.
    pub fn labels_with_prefix(&self, prefix: &str) -> (out: Vec<FlatLabel>)
        ensures
            out@ == self.labels@.filter(label_has_prefix(prefix@)),
    {
        let ghost pred = label_has_prefix(prefix@);
        let mut out: Vec<FlatLabel> = Vec::new();
        let mut i: usize = 0;
        while i < self.labels.len()
            invariant
                i <= self.labels@.len(),
                pred == label_has_prefix(prefix@),
                out@ == self.labels@.take(i as int).filter(pred),
            decreases self.labels@.len() - i,
        {
            let l = &self.labels[i];
            proof {
                assert(self.labels@.take(i + 1) =~= self.labels@.take(i as int).push(*l));
                self.labels@.take(i as int).lemma_filter_push(*l, pred);
            }
            if starts_with(l.string.as_str(), prefix) {
                out.push(l.duplicate());
            }
            i = i + 1;
        }
        assert(self.labels@.take(self.labels@.len() as int) =~= self.labels@);
        out
    }
}

/// Deepest hierarchy level that is still entered; deeper references are
/// recorded as placements but not descended into (bounds the work on deep
/// hierarchies and on cycles whose transform changes on every round).
pub const MAX_DEPTH: usize = 64;

/// One cell being walked: which cell, the next element, the next instance of
/// the current array element, the cell's world transform and its depth.
#[derive(Debug, Clone, Copy, PartialEq, Eq, Structural)]
pub struct Frame {
    pub cell: usize,
    pub elem: usize,
    pub inst: usize,
    pub xform: Xform,
    pub depth: usize,
}

/// What the flattener needs next from its driver.
#[derive(Debug, Clone, Copy, PartialEq, Eq, Structural)]
pub enum FlattenStep {
    /// Compose `child` (a local transform) onto `parent` and feed back the result.
    Compose { parent: Xform, child: Xform },
    /// Map the point `(x, y)` through `xform` and feed back the result.
    Apply { xform: Xform, x: i64, y: i64 },
    /// The walk is complete.
    Done,
}

/// A driver's answer to a `FlattenStep`.
#[derive(Debug, Clone, Copy, PartialEq, Eq, Structural)]
pub enum FlattenInput {
    Composed(Xform),
    Applied(i64, i64),
}

/// The abstract state of a flattening walk.
pub struct FlatState {
    pub stack: Seq<Frame>,
    pub refs: Seq<FlatRef>,
    pub labels: Seq<FlatLabel>,
}

pub open spec fn n_elems(lib: GdsLibrary, c: int) -> int {
    lib.cells@[c].elements@.len() as int
}

pub open spec fn elem_at(lib: GdsLibrary, f: Frame) -> GdsElement {
    lib.cells@[f.cell as int].elements@[f.elem as int]
}

/// Frame `f` moved past its current element.
pub open spec fn advanced(f: Frame) -> Frame {
    Frame { elem: (f.elem + 1) as usize, inst: 0, ..f }
}

/// Every cell's element count fits in `usize` (true of every library held in memory).
pub open spec fn lib_fits(lib: GdsLibrary) -> bool {
    &&& lib.cells@.len() <= usize::MAX
    &&& forall|c: int| 0 <= c < lib.cells@.len() ==> (#[trigger] lib.cells@[c]).elements@.len() <= usize::MAX
}

/// Every library held in memory fits.
pub proof fn lemma_lib_fits(lib: GdsLibrary)
    ensures
        lib_fits(lib),
{
    broadcast use vstd::std_specs::vec::axiom_spec_len;

    assert(lib.cells.len() == lib.cells@.len());
    assert forall|c: int| 0 <= c < lib.cells@.len() implies (#[trigger] lib.cells@[c]).elements@.len() <= usize::MAX by {
        assert(lib.cells@[c].elements.len() == lib.cells@[c].elements@.len());
    }
}

/// The stack is a path of cells from the top: frame `i` is at depth `i`.
pub open spec fn frames_ok(lib: GdsLibrary, stack: Seq<Frame>) -> bool {
    &&& stack.len() <= MAX_DEPTH + 1
    &&& forall|i: int|
        0 <= i < stack.len() ==> {
            &&& (#[trigger] stack[i]).cell < lib.cells@.len()
            &&& stack[i].elem <= n_elems(lib, stack[i].cell as int)
            &&& stack[i].inst <= 0xffff * 0xffff
            &&& stack[i].depth == i
        }
}

/// Skip past elements that need nothing from the driver: structure-less
/// elements, exhausted arrays, and finished cells.
pub open spec fn settle(lib: GdsLibrary, stack: Seq<Frame>) -> Seq<Frame>
    decreases stack.len(), n_elems(lib, stack.last().cell as int) - stack.last().elem,
    when frames_ok(lib, stack) && lib_fits(lib)
{
    if stack.len() == 0 {
        stack
    } else {
        let f = stack.last();
        if f.elem >= n_elems(lib, f.cell as int) {
            settle(lib, stack.drop_last())
        } else {
            match elem_at(lib, f) {
                GdsElement::Sref(_) => stack,
                GdsElement::Text(_) => stack,
                GdsElement::Aref(a) => {
                    if f.inst < aref_count(a) {
                        stack
                    } else {
                        let next = stack.drop_last().push(advanced(f));
                        proof {
                            assert(next.last() == advanced(f));
                        }
                        settle(lib, next)
                    }
                },
                GdsElement::Other => {
                    let next = stack.drop_last().push(advanced(f));
                    proof {
                        assert(next.last() == advanced(f));
                    }
                    settle(lib, next)
                },
            }
        }
    }
}

/// A stack on which `settle` has nothing left to skip.
pub open spec fn settled(lib: GdsLibrary, stack: Seq<Frame>) -> bool {
    stack.len() > 0 ==> {
        let f = stack.last();
        &&& f.elem < n_elems(lib, f.cell as int)
        &&& match elem_at(lib, f) {
            GdsElement::Sref(_) => true,
            GdsElement::Text(_) => true,
            GdsElement::Aref(a) => f.inst < aref_count(a),
            GdsElement::Other => false,
        }
    }
}

/// The request a settled stack makes of the driver.
pub open spec fn pending(lib: GdsLibrary, stack: Seq<Frame>) -> FlattenStep {
    if stack.len() == 0 {
        FlattenStep::Done
    } else {
        let f = stack.last();
        match elem_at(lib, f) {
            GdsElement::Sref(s) => FlattenStep::Compose { parent: f.xform, child: sref_xform(s) },
            GdsElement::Aref(a) => FlattenStep::Compose { parent: f.xform, child: aref_nth(a, f.inst as int).xform },
            GdsElement::Text(t) => FlattenStep::Apply {
                xform: f.xform,
                x: t.origin.x as i64,
                y: t.origin.y as i64,
            },
            GdsElement::Other => FlattenStep::Done,
        }
    }
}

/// What a settled walk asks of its driver, read off the element it stands
/// at. A structure reference asks to compose its own STRANS (origin, angle,
/// magnification, reflection) onto the current cell's world transform;
/// instance `k` of a `cols`-column array asks to compose the array's angle,
/// magnification and reflection, placed at lattice slot `(k % cols, k / cols)`;
/// a text label asks to map its own origin; an empty stack is done.
pub proof fn lemma_pending_request(lib: GdsLibrary, stack: Seq<Frame>)
    requires
        frames_ok(lib, stack),
        settled(lib, stack),
    ensures
        stack.len() == 0 ==> pending(lib, stack) == FlattenStep::Done,
        stack.len() > 0 ==> match elem_at(lib, stack.last()) {
            GdsElement::Sref(s) => pending(lib, stack) == (FlattenStep::Compose {
                parent: stack.last().xform,
                child: Xform {
                    tx: s.origin.x as i64,
                    ty: s.origin.y as i64,
                    angle_deg_bits: s.angle_deg_bits,
                    mag_bits: s.magnification_bits,
                    x_reflect: s.x_reflection,
                },
            }),
            GdsElement::Aref(a) => {
                let k = stack.last().inst as int;
                let i = k % (a.cols as int);
                let j = k / (a.cols as int);
                let o = a.xy@[0];
                let c = a.xy@[1];
                let r = a.xy@[2];
                &&& a.xy@.len() >= 3
                &&& k < (a.cols as int) * (a.rows as int)
                &&& pending(lib, stack) matches FlattenStep::Compose { parent, child }
                &&& parent == stack.last().xform
                &&& child.tx == o.x + i * (c.x - o.x) + j * (r.x - o.x)
                &&& child.ty == o.y + i * (c.y - o.y) + j * (r.y - o.y)
                &&& child.angle_deg_bits == a.angle_deg_bits
                &&& child.mag_bits == a.magnification_bits
                &&& child.x_reflect == a.x_reflection
            },
            GdsElement::Text(t) => pending(lib, stack) == (FlattenStep::Apply {
                xform: stack.last().xform,
                x: t.origin.x as i64,
                y: t.origin.y as i64,
            }),
            GdsElement::Other => false,
        },
{
    if stack.len() > 0 {
        match elem_at(lib, stack.last()) {
            GdsElement::Aref(a) => {
                lemma_aref_nth_fields(a, stack.last().inst as int);
            },
            _ => {},
        }
    }
}

/// `i` is the first cell of the library named `name`.
pub open spec fn first_named(cells: Seq<GdsCell>, name: Seq<char>, i: int) -> bool {
    &&& 0 <= i < cells.len()
    &&& cells[i].name@ == name
    &&& forall|j: int| 0 <= j < i ==> (#[trigger] cells[j]).name@ != name
}

pub open spec fn has_named(cells: Seq<GdsCell>, name: Seq<char>) -> bool {
    exists|i: int| 0 <= i < cells.len() && (#[trigger] cells[i]).name@ == name
}

/// A library with a cell named `name` has a first such cell.
pub proof fn lemma_first_named_exists(cells: Seq<GdsCell>, name: Seq<char>)
    requires
        has_named(cells, name),
    ensures
        exists|i: int| first_named(cells, name, i),
{
    let j = choose|j: int| 0 <= j < cells.len() && (#[trigger] cells[j]).name@ == name;
    lemma_first_named_below(cells, name, j);
}

proof fn lemma_first_named_below(cells: Seq<GdsCell>, name: Seq<char>, j: int)
    requires
        0 <= j < cells.len(),
        cells[j].name@ == name,
    ensures
        exists|i: int| first_named(cells, name, i),
    decreases j,
{
    if forall|k: int| 0 <= k < j ==> (#[trigger] cells[k]).name@ != name {
        assert(first_named(cells, name, j));
    } else {
        let k = choose|k: int| 0 <= k < j && (#[trigger] cells[k]).name@ == name;
        lemma_first_named_below(cells, name, k);
    }
}

/// Cell `c` is already being walked with world transform `x` somewhere on the
/// path from the top cell (entering it again would repeat a cycle).
pub open spec fn on_path(stack: Seq<Frame>, c: int, x: Xform) -> bool {
    exists|i: int| 0 <= i < stack.len() && (#[trigger] stack[i]).cell == c && stack[i].xform == x
}

/// Enter cell `name` with world transform `x` at `depth`: nothing beyond the
/// depth cap, nothing for a name the library lacks, and nothing when the
/// first cell of that name is already on the current path with the same
/// transform (a cycle); otherwise start walking that cell.
pub open spec fn enter(lib: GdsLibrary, st: FlatState, name: String, x: Xform, depth: int) -> FlatState {
    if depth > MAX_DEPTH || !has_named(lib.cells@, name@) {
        st
    } else {
        let i = choose|i: int| first_named(lib.cells@, name@, i);
        if on_path(st.stack, i, x) {
            st
        } else {
            FlatState {
                stack: st.stack.push(
                    Frame { cell: i as usize, elem: 0, inst: 0, xform: x, depth: depth as usize },
                ),
                ..st
            }
        }
    }
}

/// The depth cap: a cell is entered at any depth up to 64 (when it is in the
/// library and not already on the path with the same transform), as a new
/// frame for the first cell of that name at the top of the stack, and never
/// at depth 65 or deeper.
pub proof fn lemma_depth_cap(lib: GdsLibrary, st: FlatState, name: String, x: Xform, depth: int, i: int)
    requires
        first_named(lib.cells@, name@, i),
        0 <= depth,
    ensures
        depth >= 65 ==> enter(lib, st, name, x, depth) == st,
        depth <= 64 && !on_path(st.stack, i, x) ==> enter(lib, st, name, x, depth) == (FlatState {
            stack: st.stack.push(Frame { cell: i as usize, elem: 0, inst: 0, xform: x, depth: depth as usize }),
            ..st
        }),
        depth <= 64 && on_path(st.stack, i, x) ==> enter(lib, st, name, x, depth) == st,
{
    assert(has_named(lib.cells@, name@)) by {
        assert(lib.cells@[i].name@ == name@);
    }
    let c = choose|c: int| first_named(lib.cells@, name@, c);
    assert(first_named(lib.cells@, name@, c));
    if c < i {
        assert(lib.cells@[c].name@ != name@);
    } else if i < c {
        assert(lib.cells@[i].name@ != name@);
    }
    assert(c == i);
}

/// The effect of feeding `input` to a settled state.
pub open spec fn absorb(lib: GdsLibrary, st: FlatState, input: FlattenInput) -> FlatState {
    if st.stack.len() == 0 {
        st
    } else {
        let last = st.stack.len() - 1;
        let f = st.stack.last();
        match (elem_at(lib, f), input) {
            (GdsElement::Sref(s), FlattenInput::Composed(w)) => {
                let st1 = FlatState {
                    stack: st.stack.update(last, advanced(f)),
                    refs: st.refs.push(
                        FlatRef { cell: s.sname, xform: w, depth: f.depth, kind: PlacementKind::Sref },
                    ),
                    ..st
                };
                enter(lib, st1, s.sname, w, f.depth + 1)
            },
            (GdsElement::Aref(a), FlattenInput::Composed(w)) => {
                let inst = aref_nth(a, f.inst as int);
                let st1 = FlatState {
                    stack: st.stack.update(last, Frame { inst: (f.inst + 1) as usize, ..f }),
                    refs: st.refs.push(
                        FlatRef {
                            cell: a.ref_name,
                            xform: w,
                            depth: f.depth,
                            kind: PlacementKind::Aref { col: inst.col, row: inst.row, cols: a.cols, rows: a.rows },
                        },
                    ),
                    ..st
                };
                enter(lib, st1, a.ref_name, w, f.depth + 1)
            },
            (GdsElement::Text(t), FlattenInput::Applied(x, y)) => FlatState {
                stack: st.stack.update(last, advanced(f)),
                labels: st.labels.push(
                    FlatLabel { string: t.string, x, y, layer: t.layer, depth: f.depth },
                ),
                ..st
            },
            _ => st,
        }
    }
}

/// Invariants of every reachable state: the stack is a well-formed path of
/// at most `MAX_DEPTH + 1` cells, no placement or label is deeper than the
/// cap, and no cell occurs twice on the path with the same transform.
pub open spec fn state_ok(lib: GdsLibrary, st: FlatState) -> bool {
    &&& frames_ok(lib, st.stack)
    &&& forall|i: int| 0 <= i < st.refs.len() ==> (#[trigger] st.refs[i]).depth <= MAX_DEPTH
    &&& forall|i: int| 0 <= i < st.labels.len() ==> (#[trigger] st.labels[i]).depth <= MAX_DEPTH
    &&& path_simple(st.stack)
}

/// No cell occurs twice on the path with the same world transform.
pub open spec fn path_simple(stack: Seq<Frame>) -> bool {
    forall|i: int, j: int|
        0 <= i < j < stack.len() ==> !((#[trigger] stack[i]).cell == (#[trigger] stack[j]).cell
            && stack[i].xform == stack[j].xform)
}

/// Cell `c` places a cell named `name` (by a structure or array reference).
pub open spec fn places(lib: GdsLibrary, c: int, name: Seq<char>) -> bool {
    exists|k: int|
        0 <= k < n_elems(lib, c) && match #[trigger] lib.cells@[c].elements@[k] {
            GdsElement::Sref(s) => s.sname@ == name,
            GdsElement::Aref(a) => a.ref_name@ == name,
            _ => false,
        }
}

/// Cell `c` holds a text label with string `text`.
pub open spec fn labels_with(lib: GdsLibrary, c: int, text: Seq<char>) -> bool {
    exists|k: int|
        0 <= k < n_elems(lib, c) && match #[trigger] lib.cells@[c].elements@[k] {
            GdsElement::Text(t) => t.string@ == text,
            _ => false,
        }
}

/// The walk is rooted at the first cell named `top`: the bottom frame is that
/// cell, every depth-0 placement is placed by it, and every depth-0 label is
/// one of its labels.
pub open spec fn rooted(lib: GdsLibrary, top: Seq<char>, st: FlatState) -> bool {
    &&& st.stack.len() > 0 ==> first_named(lib.cells@, top, st.stack[0].cell as int)
    &&& forall|i: int|
        0 <= i < st.refs.len() && (#[trigger] st.refs[i]).depth == 0 ==> exists|c: int|
            first_named(lib.cells@, top, c) && places(lib, c, st.refs[i].cell@)
    &&& forall|i: int|
        0 <= i < st.labels.len() && (#[trigger] st.labels[i]).depth == 0 ==> exists|c: int|
            first_named(lib.cells@, top, c) && labels_with(lib, c, st.labels[i].string@)
}

/// Rootedness depends on the stack only through its bottom frame's cell.
pub proof fn lemma_rooted_restack(lib: GdsLibrary, top: Seq<char>, st: FlatState, stack: Seq<Frame>)
    requires
        rooted(lib, top, st),
        stack.len() > 0 ==> st.stack.len() > 0 && stack[0].cell == st.stack[0].cell,
    ensures
        rooted(lib, top, FlatState { stack, ..st }),
{
}

/// `settle` keeps the stack well formed and leaves it settled.
pub proof fn lemma_settle(lib: GdsLibrary, stack: Seq<Frame>)
    requires
        frames_ok(lib, stack),
    ensures
        frames_ok(lib, settle(lib, stack)),
        settled(lib, settle(lib, stack)),
        settle(lib, stack).len() <= stack.len(),
    decreases stack.len(), n_elems(lib, stack.last().cell as int) - stack.last().elem,
{
    lemma_lib_fits(lib);
    if stack.len() > 0 {
        let f = stack.last();
        if f.elem >= n_elems(lib, f.cell as int) {
            lemma_settle(lib, stack.drop_last());
        } else {
            let next = stack.drop_last().push(advanced(f));
            assert(next.last() == advanced(f));
            match elem_at(lib, f) {
                GdsElement::Aref(a) => {
                    if !(f.inst < aref_count(a)) {
                        lemma_settle(lib, next);
                    }
                },
                GdsElement::Other => {
                    lemma_settle(lib, next);
                },
                _ => {},
            }
        }
    }
}

/// A settled stack is left unchanged by `settle`.
pub proof fn lemma_settle_settled(lib: GdsLibrary, stack: Seq<Frame>)
    requires
        frames_ok(lib, stack),
        settled(lib, stack),
    ensures
        settle(lib, stack) == stack,
{
    lemma_lib_fits(lib);
}

/// The placements count of an array, computed without overflow.
fn aref_len(a: &GdsAref) -> (n: usize)
    ensures
        n == aref_count(*a),
{
    if a.xy.len() < 3 {
        0
    } else {
        assert((a.cols as nat) * (a.rows as nat) <= 0xffff * 0xffff) by (nonlinear_arith)
            requires
                a.cols <= 0xffff,
                a.rows <= 0xffff,
        ;
        (a.cols as usize) * (a.rows as usize)
    }
}

/// The first cell of `lib` named `name`, if any.
pub fn find_cell(lib: &GdsLibrary, name: &String) -> (r: Option<usize>)
    ensures
        match r {
            Some(i) => first_named(lib.cells@, name@, i as int),
            None => !has_named(lib.cells@, name@),
        },
{
    let mut i: usize = 0;
    while i < lib.cells.len()
        invariant
            i <= lib.cells@.len(),
            forall|j: int| 0 <= j < i ==> (#[trigger] lib.cells@[j]).name@ != name@,
        decreases lib.cells@.len() - i,
    {
        if lib.cells[i].name == *name {
            return Some(i);
        }
        i = i + 1;
    }
    None
}

/// The mutable part of a walk.
struct Walk {
    stack: Vec<Frame>,
    refs: Vec<FlatRef>,
    labels: Vec<FlatLabel>,
}

impl Walk {
    spec fn view(&self) -> FlatState {
        FlatState { stack: self.stack@, refs: self.refs@, labels: self.labels@ }
    }

    fn empty() -> (w: Walk)
        ensures
            w.view() == empty_state(),
    {
        Walk { stack: Vec::new(), refs: Vec::new(), labels: Vec::new() }
    }

    /// Whether cell `c` is on the current path with world transform `x`.
    fn path_contains(&self, c: usize, x: Xform) -> (b: bool)
        ensures
            b == on_path(self.stack@, c as int, x),
    {
        let mut i: usize = 0;
        while i < self.stack.len()
            invariant
                i <= self.stack@.len(),
                forall|j: int|
                    0 <= j < i ==> !((#[trigger] self.stack@[j]).cell == c && self.stack@[j].xform == x),
            decreases self.stack@.len() - i,
        {
            if self.stack[i].cell == c && self.stack[i].xform == x {
                return true;
            }
            i = i + 1;
        }
        false
    }

    fn enter(&mut self, lib: &GdsLibrary, name: &String, x: Xform, depth: usize, Ghost(top): Ghost<Seq<char>>)
        requires
            lib_fits(*lib),
            state_ok(*lib, old(self).view()),
            rooted(*lib, top, old(self).view()),
            depth == old(self).stack@.len(),
            depth == 0 ==> name@ == top,
        ensures
            final(self).view() == enter(*lib, old(self).view(), *name, x, depth as int),
            state_ok(*lib, final(self).view()),
            rooted(*lib, top, final(self).view()),
    {
        if depth > MAX_DEPTH {
            return;
        }
        match find_cell(lib, name) {
            Some(i) => {
                proof {
                    assert(has_named(lib.cells@, name@));
                    let c = choose|c: int| first_named(lib.cells@, name@, c);
                    assert(c == i);
                }
                if self.path_contains(i, x) {
                    return;
                }
                self.stack.push(Frame { cell: i, elem: 0, inst: 0, xform: x, depth });
            },
            None => {},
        }
    }
}

impl Walk {
    /// Skip to the next element that needs the driver (see `settle`).
    fn settle(&mut self, lib: &GdsLibrary, Ghost(top): Ghost<Seq<char>>)
        requires
            lib_fits(*lib),
            state_ok(*lib, old(self).view()),
            rooted(*lib, top, old(self).view()),
        ensures
            rooted(*lib, top, final(self).view()),
            final(self).view() == (FlatState { stack: settle(*lib, old(self).stack@), ..old(self).view() }),
            settled(*lib, final(self).stack@),
            state_ok(*lib, final(self).view()),
    {
        proof {
            lemma_settle(*lib, self.stack@);
        }
        loop
            invariant
                lib_fits(*lib),
                frames_ok(*lib, self.stack@),
                path_simple(self.stack@),
                settle(*lib, self.stack@) == settle(*lib, old(self).stack@),
                self.refs@ == old(self).refs@,
                self.labels@ == old(self).labels@,
                state_ok(*lib, old(self).view()),
                rooted(*lib, top, self.view()),
            ensures
                self.stack@ == settle(*lib, old(self).stack@),
                rooted(*lib, top, self.view()),
                self.refs@ == old(self).refs@,
                self.labels@ == old(self).labels@,
            decreases self.stack@.len(), n_elems(*lib, self.stack@.last().cell as int) - self.stack@.last().elem,
        {
            let n = self.stack.len();
            if n == 0 {
                break;
            }
            let f = self.stack[n - 1];
            assert(f == self.stack@.last());
            let cell = &lib.cells[f.cell];
            let ghost s0 = self.stack@;
            if f.elem >= cell.elements.len() {
                self.stack.pop();
                assert(self.stack@ =~= s0.drop_last());
                assert(forall|i: int| 0 <= i < self.stack@.len() ==> self.stack@[i] == s0[i]);
                assert(self.stack@.len() > 0 ==> self.stack@[0] == s0[0]);
                proof {
                    lemma_rooted_restack(*lib, top, FlatState { stack: s0, ..self.view() }, self.stack@);
                }
                continue;
            }
            let next = Frame { elem: f.elem + 1, inst: 0, ..f };
            assert(next == advanced(f));
            assert(s0.update(n - 1, next) =~= s0.drop_last().push(advanced(f)));
            match &cell.elements[f.elem] {
                GdsElement::Sref(_) => {
                    break;
                },
                GdsElement::Text(_) => {
                    break;
                },
                GdsElement::Aref(a) => {
                    if f.inst < aref_len(a) {
                        break;
                    }
                    self.stack.set(n - 1, next);
                    assert(self.stack@[0].cell == s0[0].cell);
                    proof {
                        lemma_rooted_restack(*lib, top, FlatState { stack: s0, ..self.view() }, self.stack@);
                    }
                },
                GdsElement::Other => {
                    self.stack.set(n - 1, next);
                    assert(self.stack@[0].cell == s0[0].cell);
                    proof {
                        lemma_rooted_restack(*lib, top, FlatState { stack: s0, ..self.view() }, self.stack@);
                    }
                },
            }
        }
    }
}

impl Walk {
    /// Record the driver's answer to the pending request (see `absorb`).
    fn absorb(&mut self, lib: &GdsLibrary, input: FlattenInput, Ghost(top): Ghost<Seq<char>>)
        requires
            lib_fits(*lib),
            state_ok(*lib, old(self).view()),
            rooted(*lib, top, old(self).view()),
            settled(*lib, old(self).stack@),
        ensures
            final(self).view() == absorb(*lib, old(self).view(), input),
            state_ok(*lib, final(self).view()),
            rooted(*lib, top, final(self).view()),
    {
        let n = self.stack.len();
        if n == 0 {
            return;
        }
        let f = self.stack[n - 1];
        assert(f == self.stack@.last());
        assert(f.depth == n - 1);
        let cell = &lib.cells[f.cell];
        let ghost st0 = self.view();
        match (&cell.elements[f.elem], input) {
            (GdsElement::Sref(s), FlattenInput::Composed(w)) => {
                let next = Frame { elem: f.elem + 1, inst: 0, ..f };
                assert(next == advanced(f));
                self.stack.set(n - 1, next);
                self.refs.push(
                    FlatRef { cell: s.sname.clone(), xform: w, depth: f.depth, kind: PlacementKind::Sref },
                );
                assert(self.view() == (FlatState {
                    stack: st0.stack.update(n - 1, advanced(f)),
                    refs: st0.refs.push(
                        FlatRef { cell: s.sname, xform: w, depth: f.depth, kind: PlacementKind::Sref },
                    ),
                    ..st0
                }));
                self.enter(lib, &s.sname, w, f.depth + 1, Ghost(top));
            },
            (GdsElement::Aref(a), FlattenInput::Composed(w)) => {
                let k = f.inst;
                let cols = a.cols as usize;
                assert(k < (a.cols as nat) * (a.rows as nat));
                assert((a.cols as nat) * (a.rows as nat) <= 0xffff * 0xffff) by (nonlinear_arith)
                    requires
                        a.cols <= 0xffff,
                        a.rows <= 0xffff,
                ;
                assert(cols > 0) by (nonlinear_arith)
                    requires
                        k < (a.cols as nat) * (a.rows as nat),
                        cols == a.cols,
                ;
                let col: u16 = (k % cols) as u16;
                let row: u16 = (k / cols) as u16;
                assert(col == aref_nth(*a, k as int).col && row == aref_nth(*a, k as int).row);
                let next = Frame { inst: k + 1, ..f };
                self.stack.set(n - 1, next);
                self.refs.push(
                    FlatRef {
                        cell: a.ref_name.clone(),
                        xform: w,
                        depth: f.depth,
                        kind: PlacementKind::Aref { col, row, cols: a.cols, rows: a.rows },
                    },
                );
                assert(self.view() == (FlatState {
                    stack: st0.stack.update(n - 1, Frame { inst: (f.inst + 1) as usize, ..f }),
                    refs: st0.refs.push(
                        FlatRef {
                            cell: a.ref_name,
                            xform: w,
                            depth: f.depth,
                            kind: PlacementKind::Aref { col, row, cols: a.cols, rows: a.rows },
                        },
                    ),
                    ..st0
                }));
                self.enter(lib, &a.ref_name, w, f.depth + 1, Ghost(top));
            },
            (GdsElement::Text(t), FlattenInput::Applied(x, y)) => {
                let next = Frame { elem: f.elem + 1, inst: 0, ..f };
                assert(next == advanced(f));
                self.stack.set(n - 1, next);
                self.labels.push(
                    FlatLabel { string: t.string.clone(), x, y, layer: t.layer, depth: f.depth },
                );
            },
            _ => {},
        }
    }
}

impl Walk {
    /// The request of a settled walk (see `pending`).
    fn pending(&self, lib: &GdsLibrary) -> (step: FlattenStep)
        requires
            lib_fits(*lib),
            state_ok(*lib, self.view()),
            settled(*lib, self.stack@),
        ensures
            step == pending(*lib, self.stack@),
    {
        let n = self.stack.len();
        if n == 0 {
            return FlattenStep::Done;
        }
        let f = self.stack[n - 1];
        assert(f == self.stack@.last());
        let cell = &lib.cells[f.cell];
        match &cell.elements[f.elem] {
            GdsElement::Sref(s) => FlattenStep::Compose { parent: f.xform, child: xform_of_sref(s) },
            GdsElement::Aref(a) => {
                let cols = a.cols as usize;
                assert(f.inst < (a.cols as nat) * (a.rows as nat));
                assert(cols > 0) by (nonlinear_arith)
                    requires
                        f.inst < (a.cols as nat) * (a.rows as nat),
                        cols == a.cols,
                ;
                assert((a.cols as nat) * (a.rows as nat) <= 0xffff * 0xffff) by (nonlinear_arith)
                    requires
                        a.cols <= 0xffff,
                        a.rows <= 0xffff,
                ;
                let i = f.inst % cols;
                let j = f.inst / cols;
                assert(j < a.rows) by (nonlinear_arith)
                    requires
                        f.inst < (a.cols as nat) * (a.rows as nat),
                        cols == a.cols,
                        j == f.inst / cols,
                        cols > 0,
                ;
                let inst = aref_instance_at(a, i as u16, j as u16);
                FlattenStep::Compose { parent: f.xform, child: inst.xform }
            },
            GdsElement::Text(t) => FlattenStep::Apply {
                xform: f.xform,
                x: t.origin.x as i64,
                y: t.origin.y as i64,
            },
            GdsElement::Other => FlattenStep::Done,
        }
    }
}

/// A resumable walk over the cell hierarchy below one top cell.
///
/// The driver alternates `next` (what is needed) and `feed` (the answer)
/// until `next` reports `Done`, then takes the result with `into_flattened`.
pub struct Flattener<'a> {
    lib: &'a GdsLibrary,
    top_cell: String,
    walk: Walk,
}

/// The state before anything has been entered.
pub open spec fn empty_state() -> FlatState {
    FlatState { stack: Seq::empty(), refs: Seq::empty(), labels: Seq::empty() }
}

impl<'a> Flattener<'a> {
    pub closed spec fn library(&self) -> GdsLibrary {
        *self.lib
    }

    pub closed spec fn top(&self) -> String {
        self.top_cell
    }

    pub closed spec fn state(&self) -> FlatState {
        self.walk.view()
    }

    #[verifier::type_invariant]
    spec fn well_formed(&self) -> bool {
        &&& lib_fits(*self.lib)
        &&& state_ok(*self.lib, self.walk.view())
        &&& rooted(*self.lib, self.top_cell@, self.walk.view())
    }

    /// Begin flattening `layout` at its top cell, with the identity transform at depth 0.
    pub fn new(layout: &'a Layout) -> (f: Self)
        ensures
            f.library() == layout.loaded.lib,
            f.top() == layout.loaded.top_cell,
            f.state() == enter(
                layout.loaded.lib,
                empty_state(),
                layout.loaded.top_cell,
                Xform::spec_identity(),
                0,
            ),
            state_ok(f.library(), f.state()),
            rooted(f.library(), f.top()@, f.state()),
    {
        let lib: &'a GdsLibrary = &layout.loaded.lib;
        proof {
            lemma_lib_fits(*lib);
        }
        let mut walk = Walk::empty();
        walk.enter(lib, &layout.loaded.top_cell, Xform::identity(), 0, Ghost(layout.loaded.top_cell@));
        Flattener { lib, top_cell: layout.loaded.top_cell.clone(), walk }
    }

    /// What the walk needs next. Elements that need nothing from the driver
    /// are skipped first; asking again without feeding returns the same step.
    pub fn next(&mut self) -> (step: FlattenStep)
        ensures
            final(self).library() == old(self).library(),
            final(self).top() == old(self).top(),
            final(self).state() == (FlatState {
                stack: settle(old(self).library(), old(self).state().stack),
                ..old(self).state()
            }),
            settled(final(self).library(), final(self).state().stack),
            step == pending(final(self).library(), final(self).state().stack),
            state_ok(final(self).library(), final(self).state()),
            rooted(final(self).library(), final(self).top()@, final(self).state()),
    {
        proof {
            use_type_invariant(&*self);
        }
        let lib: &'a GdsLibrary = self.lib;
        let mut walk = Walk::empty();
        std::mem::swap(&mut walk, &mut self.walk);
        walk.settle(lib, Ghost(self.top_cell@));
        let step = walk.pending(lib);
        self.walk = walk;
        step
    }

    /// Answer the pending step: a composed transform for `Compose`, a mapped
    /// point for `Apply`. An answer of the other kind, or one given when
    /// nothing is pending, changes nothing beyond the skipping `next` does.
    pub fn feed(&mut self, input: FlattenInput)
        ensures
            final(self).library() == old(self).library(),
            final(self).top() == old(self).top(),
            final(self).state() == absorb(
                old(self).library(),
                FlatState { stack: settle(old(self).library(), old(self).state().stack), ..old(self).state() },
                input,
            ),
            state_ok(final(self).library(), final(self).state()),
            rooted(final(self).library(), final(self).top()@, final(self).state()),
    {
        proof {
            use_type_invariant(&*self);
        }
        let lib: &'a GdsLibrary = self.lib;
        let mut walk = Walk::empty();
        std::mem::swap(&mut walk, &mut self.walk);
        walk.settle(lib, Ghost(self.top_cell@));
        walk.absorb(lib, input, Ghost(self.top_cell@));
        self.walk = walk;
    }

    /// The placements and labels collected so far, with the library's units.
    pub fn into_flattened(self) -> (flat: Flattened)
        ensures
            flat.top_cell == self.top(),
            flat.db_unit_m_bits == self.library().db_unit_m_bits,
            flat.user_unit_m_bits == self.library().user_unit_m_bits,
            flat.refs@ == self.state().refs,
            flat.labels@ == self.state().labels,
    {
        let lib: &'a GdsLibrary = self.lib;
        let Flattener { lib: _, top_cell, walk } = self;
        Flattened {
            top_cell,
            db_unit_m_bits: lib.db_unit_m_bits,
            user_unit_m_bits: lib.user_unit_m_bits,
            refs: walk.refs,
            labels: walk.labels,
        }
    }
}

} // verus!
