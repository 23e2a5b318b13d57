//! The flattener's result, stated as a recursive depth-first traversal.
//!
//! `flatten_spec` flattens a library recursively, the way a call-stack
//! implementation would: enter the top cell, walk its elements in order,
//! recurse into every placed cell right after recording its placement. A
//! cell is not entered again when it is already on the path from the top
//! cell with the same world transform (a cycle), nor beyond `MAX_DEPTH`.
//! The transform arithmetic is a parameter (`Oracle`). The laws below show
//! that a driver which answers each `Flattener` request with the oracle's
//! value ends with exactly the traversal's placements and labels.
use vstd::prelude::*;
use crate::gds::flatten::{
    absorb, advanced, aref_count, aref_nth, elem_at, empty_state, enter, first_named, frames_ok,
    has_named, lemma_first_named_exists, lemma_lib_fits, lib_fits, n_elems, on_path, pending,
    settle, settled, sref_xform, state_ok, FlatLabel, FlatRef, FlatState, FlattenInput,
    FlattenStep, Frame, PlacementKind, Xform, MAX_DEPTH,
};
use crate::gds::model::{GdsAref, GdsElement, GdsLibrary};

verus! {

/// The transform arithmetic a traversal uses: composing a local transform
/// onto a parent's, and mapping a point through a transform.
pub struct Oracle {
    pub compose: spec_fn(Xform, Xform) -> Xform,
    pub apply: spec_fn(Xform, i64, i64) -> (i64, i64),
}

/// What a traversal has collected so far.
pub struct Collected {
    pub refs: Seq<FlatRef>,
    pub labels: Seq<FlatLabel>,
}

pub open spec fn collected(st: FlatState) -> Collected {
    Collected { refs: st.refs, labels: st.labels }
}

pub open spec fn nothing_collected() -> Collected {
    Collected { refs: Seq::empty(), labels: Seq::empty() }
}

/// The cells being walked from the top down, each with its world transform.
pub open spec fn path_of(stack: Seq<Frame>) -> Seq<(int, Xform)> {
    Seq::new(stack.len(), |i: int| (stack[i].cell as int, stack[i].xform))
}

/// Element count of the first cell named `name` (0 if none).
pub open spec fn cell_budget(lib: GdsLibrary, name: Seq<char>) -> int {
    if has_named(lib.cells@, name) {
        n_elems(lib, choose|i: int| first_named(lib.cells@, name, i))
    } else {
        0
    }
}

/// Instance count of element `k` of cell `c` when it is an array, else 0.
pub open spec fn inst_budget(lib: GdsLibrary, c: int, k: int) -> int {
    match lib.cells@[c].elements@[k] {
        GdsElement::Aref(a) => aref_count(a) as int,
        _ => 0,
    }
}

/// An array expands to fewer than 2^32 placements.
pub proof fn lemma_aref_count_small(a: GdsAref)
    ensures
        aref_count(a) < 0x1_0000_0000,
{
    if a.xy@.len() >= 3 {
        assert((a.cols as nat) * (a.rows as nat) <= 0xffff * 0xffff) by (nonlinear_arith)
            requires
                a.cols <= 0xffff,
                a.rows <= 0xffff,
        ;
    }
}

/// Enter cell `name` with world transform `x` at `depth`, below the cells of
/// `path`: nothing beyond the depth cap, for a name the library lacks, or
/// when that cell is already on the path with the same transform; otherwise
/// walk the first cell of that name.
pub open spec fn enter_cell(
    lib: GdsLibrary,
    o: Oracle,
    name: String,
    x: Xform,
    depth: int,
    path: Seq<(int, Xform)>,
    out: Collected,
) -> Collected
    decreases MAX_DEPTH + 1 - depth, cell_budget(lib, name@) + 1, 0int,
{
    if depth > MAX_DEPTH || !has_named(lib.cells@, name@) {
        out
    } else {
        let i = choose|i: int| first_named(lib.cells@, name@, i);
        if path.contains((i, x)) {
            out
        } else {
            walk_elems(lib, o, i, 0, x, depth, path.push((i, x)), out)
        }
    }
}

/// Walk elements `k..` of cell `c` (world transform `x`, at `depth`, with
/// `path` ending in this cell); cells are only walked up to `MAX_DEPTH`.
pub open spec fn walk_elems(
    lib: GdsLibrary,
    o: Oracle,
    c: int,
    k: int,
    x: Xform,
    depth: int,
    path: Seq<(int, Xform)>,
    out: Collected,
) -> Collected
    decreases MAX_DEPTH + 1 - depth, n_elems(lib, c) - k, 0x1_0000_0000int,
{
    if depth > MAX_DEPTH || k < 0 || k >= n_elems(lib, c) {
        out
    } else {
        match lib.cells@[c].elements@[k] {
            GdsElement::Sref(s) => {
                let w = (o.compose)(x, sref_xform(s));
                let out1 = Collected {
                    refs: out.refs.push(FlatRef { cell: s.sname, xform: w, depth: depth as usize, kind: PlacementKind::Sref }),
                    ..out
                };
                walk_elems(lib, o, c, k + 1, x, depth, path, enter_cell(lib, o, s.sname, w, depth + 1, path, out1))
            },
            GdsElement::Aref(a) => {
                proof {
                    lemma_aref_count_small(a);
                }
                walk_insts(lib, o, c, k, 0, x, depth, path, out)
            },
            GdsElement::Text(t) => {
                let p = (o.apply)(x, t.origin.x as i64, t.origin.y as i64);
                walk_elems(
                    lib,
                    o,
                    c,
                    k + 1,
                    x,
                    depth,
                    path,
                    Collected {
                        labels: out.labels.push(
                            FlatLabel { string: t.string, x: p.0, y: p.1, layer: t.layer, depth: depth as usize },
                        ),
                        ..out
                    },
                )
            },
            GdsElement::Other => walk_elems(lib, o, c, k + 1, x, depth, path, out),
        }
    }
}

/// Walk instances `j..` of the array that is element `k` of cell `c`, then
/// the elements after it.
pub open spec fn walk_insts(
    lib: GdsLibrary,
    o: Oracle,
    c: int,
    k: int,
    j: int,
    x: Xform,
    depth: int,
    path: Seq<(int, Xform)>,
    out: Collected,
) -> Collected
    decreases MAX_DEPTH + 1 - depth, n_elems(lib, c) - k, inst_budget(lib, c, k) - j,
{
    if depth > MAX_DEPTH || k < 0 || k >= n_elems(lib, c) || j < 0 {
        out
    } else {
        match lib.cells@[c].elements@[k] {
            GdsElement::Aref(a) => {
                if j >= aref_count(a) {
                    walk_elems(lib, o, c, k + 1, x, depth, path, out)
                } else {
                    let inst = aref_nth(a, j);
                    let w = (o.compose)(x, inst.xform);
                    let out1 = Collected {
                        refs: out.refs.push(
                            FlatRef {
                                cell: a.ref_name,
                                xform: w,
                                depth: depth as usize,
                                kind: PlacementKind::Aref { col: inst.col, row: inst.row, cols: a.cols, rows: a.rows },
                            },
                        ),
                        ..out
                    };
                    walk_insts(lib, o, c, k, j + 1, x, depth, path, enter_cell(lib, o, a.ref_name, w, depth + 1, path, out1))
                }
            },
            _ => out,
        }
    }
}

/// Recursive depth-first flattening of the cell named `top`.
pub open spec fn flatten_spec(lib: GdsLibrary, o: Oracle, top: String) -> Collected {
    enter_cell(lib, o, top, Xform::spec_identity(), 0, Seq::empty(), nothing_collected())
}

/// The rest of frame `f`'s walk (with `path` ending in `f`'s cell): its
/// remaining array instances when it is inside an array element, else its
/// remaining elements.
pub open spec fn resume(lib: GdsLibrary, o: Oracle, f: Frame, path: Seq<(int, Xform)>, out: Collected) -> Collected {
    if 0 <= f.elem < n_elems(lib, f.cell as int) && lib.cells@[f.cell as int].elements@[f.elem as int] is Aref {
        walk_insts(lib, o, f.cell as int, f.elem as int, f.inst as int, f.xform, f.depth as int, path, out)
    } else {
        walk_elems(lib, o, f.cell as int, f.elem as int, f.xform, f.depth as int, path, out)
    }
}

/// What the traversal collects from here: finish the top frame's walk, then
/// the frame below it, down to the bottom of the stack.
pub open spec fn finish(lib: GdsLibrary, o: Oracle, stack: Seq<Frame>, out: Collected) -> Collected
    decreases stack.len(),
{
    if stack.len() == 0 {
        out
    } else {
        finish(lib, o, stack.drop_last(), resume(lib, o, stack.last(), path_of(stack), out))
    }
}

/// The walk state `st` is on course to collect exactly `flatten_spec`.
pub open spec fn on_course(lib: GdsLibrary, o: Oracle, top: String, st: FlatState) -> bool {
    finish(lib, o, st.stack, collected(st)) == flatten_spec(lib, o, top)
}

/// The answer the oracle gives to a request.
pub open spec fn oracle_answer(o: Oracle, step: FlattenStep, input: FlattenInput) -> bool {
    match step {
        FlattenStep::Compose { parent, child } => input == FlattenInput::Composed((o.compose)(parent, child)),
        FlattenStep::Apply { xform, x, y } => {
            let p = (o.apply)(xform, x, y);
            input == FlattenInput::Applied(p.0, p.1)
        },
        _ => false,
    }
}

proof fn lemma_resume_fresh(lib: GdsLibrary, o: Oracle, f: Frame, path: Seq<(int, Xform)>, out: Collected)
    requires
        f.inst == 0,
    ensures
        resume(lib, o, f, path, out) == walk_elems(lib, o, f.cell as int, f.elem as int, f.xform, f.depth as int, path, out),
{
    if 0 <= f.elem < n_elems(lib, f.cell as int) {
        match lib.cells@[f.cell as int].elements@[f.elem as int] {
            GdsElement::Aref(a) => {
                lemma_aref_count_small(a);
            },
            _ => {},
        }
    }
}

proof fn lemma_finish_push(lib: GdsLibrary, o: Oracle, s: Seq<Frame>, g: Frame, out: Collected)
    ensures
        finish(lib, o, s.push(g), out) == finish(lib, o, s, resume(lib, o, g, path_of(s.push(g)), out)),
{
    assert(s.push(g).drop_last() =~= s);
}

/// Replacing the top frame by one for the same cell and transform keeps the path.
proof fn lemma_path_replace_top(s: Seq<Frame>, g: Frame)
    requires
        s.len() > 0,
        g.cell == s.last().cell,
        g.xform == s.last().xform,
    ensures
        path_of(s.drop_last().push(g)) == path_of(s),
{
    assert(path_of(s.drop_last().push(g)) =~= path_of(s));
}

proof fn lemma_enter_finish(lib: GdsLibrary, o: Oracle, st1: FlatState, name: String, x: Xform, depth: int)
    requires
        lib_fits(lib),
        0 <= depth,
        depth == st1.stack.len(),
    ensures
        finish(lib, o, enter(lib, st1, name, x, depth).stack, collected(enter(lib, st1, name, x, depth)))
            == finish(lib, o, st1.stack, enter_cell(lib, o, name, x, depth, path_of(st1.stack), collected(st1))),
{
    if !(depth > MAX_DEPTH || !has_named(lib.cells@, name@)) {
        lemma_first_named_exists(lib.cells@, name@);
        let i = choose|i: int| first_named(lib.cells@, name@, i);
        let path = path_of(st1.stack);
        assert(on_path(st1.stack, i, x) == path.contains((i, x))) by {
            if on_path(st1.stack, i, x) {
                let j = choose|j: int| 0 <= j < st1.stack.len() && (#[trigger] st1.stack[j]).cell == i && st1.stack[j].xform == x;
                assert(path[j] == (i, x));
            }
            if path.contains((i, x)) {
                let j = choose|j: int| 0 <= j < path.len() && path[j] == (i, x);
                assert(st1.stack[j].cell == i && st1.stack[j].xform == x);
            }
        }
        if !path.contains((i, x)) {
            let g = Frame { cell: i as usize, elem: 0, inst: 0, xform: x, depth: depth as usize };
            assert(g.cell as int == i);
            assert(g.depth as int == depth);
            assert(path_of(st1.stack.push(g)) =~= path.push((i, x)));
            lemma_finish_push(lib, o, st1.stack, g, collected(st1));
            lemma_resume_fresh(lib, o, g, path.push((i, x)), collected(st1));
        }
    }
}

/// Skipping changes nothing about what the walk will collect.
pub proof fn lemma_settle_on_course(lib: GdsLibrary, o: Oracle, stack: Seq<Frame>, out: Collected)
    requires
        frames_ok(lib, stack),
    ensures
        finish(lib, o, settle(lib, stack), out) == finish(lib, o, stack, out),
    decreases stack.len(), n_elems(lib, stack.last().cell as int) - stack.last().elem,
{
    lemma_lib_fits(lib);
    if stack.len() > 0 {
        let f = stack.last();
        assert(f == stack[stack.len() - 1]);
        if f.elem >= n_elems(lib, f.cell as int) {
            lemma_settle_on_course(lib, o, stack.drop_last(), out);
        } else {
            let next = stack.drop_last().push(advanced(f));
            assert(next.last() == advanced(f));
            assert(next.drop_last() =~= stack.drop_last());
            lemma_path_replace_top(stack, advanced(f));
            lemma_resume_fresh(lib, o, advanced(f), path_of(stack), out);
            match elem_at(lib, f) {
                GdsElement::Aref(a) => {
                    if !(f.inst < aref_count(a)) {
                        lemma_settle_on_course(lib, o, next, out);
                    }
                },
                GdsElement::Other => {
                    lemma_settle_on_course(lib, o, next, out);
                },
                _ => {},
            }
        }
    }
}

/// A new walk is on course: it starts by entering the top cell.
pub proof fn lemma_start_on_course(lib: GdsLibrary, o: Oracle, top: String)
    ensures
        on_course(lib, o, top, enter(lib, empty_state(), top, Xform::spec_identity(), 0)),
{
    lemma_lib_fits(lib);
    lemma_enter_finish(lib, o, empty_state(), top, Xform::spec_identity(), 0);
    assert(collected(empty_state()) == nothing_collected());
    assert(path_of(empty_state().stack) =~= Seq::<(int, Xform)>::empty());
}

/// Answering the pending request with the oracle's value keeps the walk on course.
pub proof fn lemma_answer_on_course(lib: GdsLibrary, o: Oracle, top: String, st: FlatState, input: FlattenInput)
    requires
        state_ok(lib, st),
        settled(lib, st.stack),
        on_course(lib, o, top, st),
        oracle_answer(o, pending(lib, st.stack), input),
    ensures
        on_course(lib, o, top, absorb(lib, st, input)),
{
    lemma_lib_fits(lib);
    let s = st.stack;
    let last = s.len() - 1;
    let f = s.last();
    assert(f == s[last]);
    let out = collected(st);
    let path = path_of(s);
    assert(finish(lib, o, s, out) == finish(lib, o, s.drop_last(), resume(lib, o, f, path, out)));
    match elem_at(lib, f) {
        GdsElement::Sref(sr) => {
            let w = (o.compose)(f.xform, sref_xform(sr));
            let st1 = FlatState {
                stack: s.update(last, advanced(f)),
                refs: st.refs.push(
                    FlatRef { cell: sr.sname, xform: w, depth: f.depth, kind: PlacementKind::Sref },
                ),
                ..st
            };
            assert(st1.stack =~= s.drop_last().push(advanced(f)));
            lemma_path_replace_top(s, advanced(f));
            lemma_enter_finish(lib, o, st1, sr.sname, w, f.depth + 1);
            let e = enter_cell(lib, o, sr.sname, w, f.depth + 1, path, collected(st1));
            lemma_finish_push(lib, o, s.drop_last(), advanced(f), e);
            lemma_resume_fresh(lib, o, advanced(f), path, e);
            assert((f.depth as int) as usize == f.depth);
        },
        GdsElement::Aref(a) => {
            let g = Frame { inst: (f.inst + 1) as usize, ..f };
            let inst = aref_nth(a, f.inst as int);
            let w = (o.compose)(f.xform, inst.xform);
            let st1 = FlatState {
                stack: s.update(last, g),
                refs: st.refs.push(
                    FlatRef {
                        cell: a.ref_name,
                        xform: w,
                        depth: f.depth,
                        kind: PlacementKind::Aref { col: inst.col, row: inst.row, cols: a.cols, rows: a.rows },
                    },
                ),
                ..st
            };
            assert(st1.stack =~= s.drop_last().push(g));
            lemma_path_replace_top(s, g);
            lemma_enter_finish(lib, o, st1, a.ref_name, w, f.depth + 1);
            let e = enter_cell(lib, o, a.ref_name, w, f.depth + 1, path, collected(st1));
            lemma_finish_push(lib, o, s.drop_last(), g, e);
            assert((f.depth as int) as usize == f.depth);
        },
        GdsElement::Text(t) => {
            let p = (o.apply)(f.xform, t.origin.x as i64, t.origin.y as i64);
            let out2 = Collected {
                labels: st.labels.push(
                    FlatLabel { string: t.string, x: p.0, y: p.1, layer: t.layer, depth: f.depth },
                ),
                ..out
            };
            assert(s.update(last, advanced(f)) =~= s.drop_last().push(advanced(f)));
            lemma_path_replace_top(s, advanced(f));
            lemma_finish_push(lib, o, s.drop_last(), advanced(f), out2);
            lemma_resume_fresh(lib, o, advanced(f), path, out2);
            assert((f.depth as int) as usize == f.depth);
        },
        GdsElement::Other => {},
    }
}

/// A walk on course with nothing left on its stack has collected exactly
/// the recursive traversal's placements and labels.
pub proof fn lemma_done_is_result(lib: GdsLibrary, o: Oracle, top: String, st: FlatState)
    requires
        on_course(lib, o, top, st),
        st.stack.len() == 0,
    ensures
        st.refs == flatten_spec(lib, o, top).refs,
        st.labels == flatten_spec(lib, o, top).labels,
{
}

} // verus!
