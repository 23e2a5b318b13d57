//! A progress measure for the flattening walk, and the law that answering
//! the walk's requests always brings it to an end.
use vstd::prelude::*;
use crate::gds::flatten::{
    absorb, advanced, aref_count, aref_nth, elem_at, enter, first_named, on_path,
    frames_ok, has_named, lemma_first_named_exists, lemma_lib_fits, lib_fits, n_elems, pending, settle, settled,
    state_ok, FlatRef, FlatState, FlattenInput, FlattenStep, Frame, PlacementKind,
    Xform, MAX_DEPTH,
};
use crate::gds::model::{GdsElement, GdsLibrary};

verus! {

/// Work left in a frame: its remaining elements, and within an array element
/// its remaining instances.
pub open spec fn frame_progress(lib: GdsLibrary, f: Frame) -> nat {
    ((n_elems(lib, f.cell as int) - f.elem) * 0x1_0000_0000 + (0x1_0000_0000 - f.inst)) as nat
}

/// Radix of the walk's progress measure; larger than any `frame_progress + 1`.
pub open spec fn progress_radix() -> nat {
    0x10_0000_0000_0000_0000_0000_0000
}

pub open spec fn place_value(e: nat) -> nat
    decreases e,
{
    if e == 0 {
        1
    } else {
        progress_radix() * place_value((e - 1) as nat)
    }
}

/// The walk's progress measure: the frames' remaining work read as digits,
/// the bottom frame most significant.
pub open spec fn progress(lib: GdsLibrary, s: Seq<Frame>) -> nat
    decreases s.len(),
{
    if s.len() == 0 {
        0
    } else {
        progress(lib, s.drop_last()) + (frame_progress(lib, s.last()) + 1) * place_value(
            (MAX_DEPTH + 1 - s.len()) as nat,
        )
    }
}

proof fn lemma_place_value_positive(e: nat)
    ensures
        place_value(e) >= 1,
    decreases e,
{
    if e > 0 {
        lemma_place_value_positive((e - 1) as nat);
        assert(progress_radix() * place_value((e - 1) as nat) >= 1) by (nonlinear_arith)
            requires
                place_value((e - 1) as nat) >= 1,
                progress_radix() >= 1,
        ;
    }
}

proof fn lemma_frame_progress_small(lib: GdsLibrary, f: Frame)
    requires
        lib_fits(lib),
        f.cell < lib.cells@.len(),
        f.elem <= n_elems(lib, f.cell as int),
        f.inst <= 0xffff * 0xffff,
    ensures
        frame_progress(lib, f) + 1 < progress_radix(),
{
    assert(n_elems(lib, f.cell as int) <= usize::MAX);
}

proof fn lemma_progress_replace_top(lib: GdsLibrary, s: Seq<Frame>, g: Frame)
    requires
        0 < s.len() <= MAX_DEPTH + 1,
        frame_progress(lib, g) < frame_progress(lib, s.last()),
    ensures
        progress(lib, s.drop_last().push(g)) < progress(lib, s),
{
    let t = s.drop_last().push(g);
    assert(t.drop_last() =~= s.drop_last());
    let e = (MAX_DEPTH + 1 - s.len()) as nat;
    lemma_place_value_positive(e);
    let p = place_value(e);
    let a = frame_progress(lib, g) + 1;
    let b = frame_progress(lib, s.last()) + 1;
    assert(a * p < b * p) by (nonlinear_arith)
        requires
            a < b,
            p >= 1,
    ;
}

proof fn lemma_progress_pop(lib: GdsLibrary, s: Seq<Frame>)
    requires
        0 < s.len() <= MAX_DEPTH + 1,
    ensures
        progress(lib, s.drop_last()) < progress(lib, s),
{
    let e = (MAX_DEPTH + 1 - s.len()) as nat;
    lemma_place_value_positive(e);
    let p = place_value(e);
    let b = frame_progress(lib, s.last()) + 1;
    assert(b * p >= 1) by (nonlinear_arith)
        requires
            b >= 1,
            p >= 1,
    ;
}

proof fn lemma_progress_replace_and_push(lib: GdsLibrary, s: Seq<Frame>, g: Frame, h: Frame)
    requires
        0 < s.len(),
        s.len() + 1 <= MAX_DEPTH + 1,
        frame_progress(lib, g) < frame_progress(lib, s.last()),
        frame_progress(lib, h) + 1 < progress_radix(),
    ensures
        progress(lib, s.drop_last().push(g).push(h)) < progress(lib, s),
{
    let t = s.drop_last().push(g);
    let u = t.push(h);
    assert(u.drop_last() =~= t);
    assert(t.drop_last() =~= s.drop_last());
    let e = (MAX_DEPTH + 1 - s.len()) as nat;
    assert(e >= 1);
    let e1 = (e - 1) as nat;
    assert((MAX_DEPTH + 1 - u.len()) as nat == e1);
    lemma_place_value_positive(e1);
    let q = place_value(e1);
    let p = place_value(e);
    assert(p == progress_radix() * q);
    let a = frame_progress(lib, g) + 1;
    let b = frame_progress(lib, s.last()) + 1;
    let c = frame_progress(lib, h) + 1;
    assert(u.last() == h && t.last() == g);
    assert(progress(lib, u) == progress(lib, t) + c * q);
    assert(progress(lib, t) == progress(lib, s.drop_last()) + a * p);
    assert(progress(lib, s) == progress(lib, s.drop_last()) + b * p);
    assert(a * p + c * q < b * p) by (nonlinear_arith)
        requires
            a < b,
            c < progress_radix(),
            p == progress_radix() * q,
            q >= 1,
    ;
}

/// Skipping never increases the walk's progress measure.
pub proof fn lemma_settle_progress(lib: GdsLibrary, stack: Seq<Frame>)
    requires
        frames_ok(lib, stack),
    ensures
        progress(lib, settle(lib, stack)) <= progress(lib, stack),
    decreases stack.len(), n_elems(lib, stack.last().cell as int) - stack.last().elem,
{
    lemma_lib_fits(lib);
    if stack.len() > 0 {
        let f = stack.last();
        if f.elem >= n_elems(lib, f.cell as int) {
            lemma_settle_progress(lib, stack.drop_last());
            lemma_progress_pop(lib, stack);
        } else {
            let next = stack.drop_last().push(advanced(f));
            assert(next.last() == advanced(f));
            match elem_at(lib, f) {
                GdsElement::Aref(a) => {
                    if !(f.inst < aref_count(a)) {
                        lemma_settle_progress(lib, next);
                        lemma_progress_replace_top(lib, stack, advanced(f));
                    }
                },
                GdsElement::Other => {
                    lemma_settle_progress(lib, next);
                    lemma_progress_replace_top(lib, stack, advanced(f));
                },
                _ => {},
            }
        }
    }
}

/// Answering the pending request strictly decreases the walk's progress
/// measure, a natural number: a driver that answers every request reaches
/// `Done` after finitely many steps, cyclic cell references included.
pub proof fn lemma_feed_progress(lib: GdsLibrary, st: FlatState, input: FlattenInput)
    requires
        state_ok(lib, st),
        settled(lib, st.stack),
        match (pending(lib, st.stack), input) {
            (FlattenStep::Compose { .. }, FlattenInput::Composed(_)) => true,
            (FlattenStep::Apply { .. }, FlattenInput::Applied(_, _)) => true,
            _ => false,
        },
    ensures
        progress(lib, absorb(lib, st, input).stack) < progress(lib, st.stack),
{
    lemma_lib_fits(lib);
    let s = st.stack;
    let last = s.len() - 1;
    let f = s.last();
    assert(s[last] == f);
    assert(s.update(last, advanced(f)) =~= s.drop_last().push(advanced(f)));
    assert(f.inst < 0x1_0000_0000);
    match (elem_at(lib, f), input) {
        (GdsElement::Sref(sr), FlattenInput::Composed(w)) => {
            let st1 = FlatState {
                stack: s.update(last, advanced(f)),
                refs: st.refs.push(
                    FlatRef { cell: sr.sname, xform: w, depth: f.depth, kind: PlacementKind::Sref },
                ),
                ..st
            };
            enter_progress(lib, st1, sr.sname, w, f.depth + 1, advanced(f), s);
        },
        (GdsElement::Aref(a), FlattenInput::Composed(w)) => {
            let g = Frame { inst: (f.inst + 1) as usize, ..f };
            assert(s.update(last, g) =~= s.drop_last().push(g));
            let inst = aref_nth(a, f.inst as int);
            let st1 = FlatState {
                stack: s.update(last, g),
                refs: st.refs.push(
                    FlatRef {
                        cell: a.ref_name,
                        xform: w,
                        depth: f.depth,
                        kind: PlacementKind::Aref { col: inst.col, row: inst.row, cols: a.cols, rows: a.rows },
                    },
                ),
                ..st
            };
            enter_progress(lib, st1, a.ref_name, w, f.depth + 1, g, s);
        },
        (GdsElement::Text(_), FlattenInput::Applied(_, _)) => {
            lemma_progress_replace_top(lib, s, advanced(f));
        },
        _ => {},
    }
}

proof fn enter_progress(
    lib: GdsLibrary,
    st1: FlatState,
    name: String,
    x: Xform,
    depth: int,
    g: Frame,
    s: Seq<Frame>,
)
    requires
        lib_fits(lib),
        frames_ok(lib, s),
        0 < s.len(),
        st1.stack == s.drop_last().push(g),
        depth == s.len(),
        frame_progress(lib, g) < frame_progress(lib, s.last()),
    ensures
        progress(lib, enter(lib, st1, name, x, depth).stack) < progress(lib, s),
{
    lemma_progress_replace_top(lib, s, g);
    if !(depth > MAX_DEPTH || !has_named(lib.cells@, name@)) {
        lemma_first_named_exists(lib.cells@, name@);
        let i = choose|i: int| first_named(lib.cells@, name@, i);
        if !on_path(st1.stack, i, x) {
            let h = Frame { cell: i as usize, elem: 0, inst: 0, xform: x, depth: depth as usize };
            lemma_frame_progress_small(lib, h);
            lemma_progress_replace_and_push(lib, s, g, h);
        }
    }
}

} // verus!
