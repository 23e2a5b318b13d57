//! A loaded GDS library together with the cell treated as its top.
use vstd::prelude::*;
use crate::gds::model::{GdsElement, GdsLibrary};
use crate::gds::flatten::{find_cell, first_named, has_named, places};

verus! {

#[verifier::external_type_specification]
#[verifier::external_body]
pub struct ExIoError(std::io::Error);

#[verifier::external_type_specification]
#[verifier::external_body]
pub struct ExOxiPhotonError(oxiphoton::error::OxiPhotonError);

/// Loaded GDS library + the name of the cell treated as the top of the layout.
#[derive(Debug)]
pub struct LoadedLibrary {
    pub lib: GdsLibrary,
    pub top_cell: String,
}

/// Errors surfaced by the loader.
#[derive(Debug)]
pub enum LayoutError {
    /// Reading the GDS file failed.
    Io(std::io::Error),
    /// The GDS stream could not be parsed.
    Parse(oxiphoton::error::OxiPhotonError),
    /// No cell of this name is in the library.
    CellNotFound(String),
}

/// Handle over a loaded library and its top cell.
#[derive(Debug)]
pub struct Layout {
    pub loaded: LoadedLibrary,
}

impl Layout {
    pub fn lib(&self) -> (l: &GdsLibrary)
        ensures
            *l == self.loaded.lib,
    {
        &self.loaded.lib
    }

    pub fn top_cell(&self) -> (s: &str)
        ensures
            s@ == self.loaded.top_cell@,
    {
        self.loaded.top_cell.as_str()
    }

    /// Use the cell named `top_cell` of `lib` as the layout root; fails with
    /// `CellNotFound` exactly when `lib` has no cell of that name.
    pub fn from_library(lib: GdsLibrary, top_cell: &str) -> (r: Result<Layout, LayoutError>)
        ensures
            match r {
                Ok(layout) => {
                    &&& has_named(lib.cells@, top_cell@)
                    &&& layout.loaded.lib == lib
                    &&& layout.loaded.top_cell@ == top_cell@
                },
                Err(e) => {
                    &&& !has_named(lib.cells@, top_cell@)
                    &&& e matches LayoutError::CellNotFound(name) && name@ == top_cell@
                },
            },
    {
        let top = top_cell.to_owned();
        match find_cell(&lib, &top) {
            Some(_) => Ok(Layout { loaded: LoadedLibrary { lib, top_cell: top } }),
            None => Err(LayoutError::CellNotFound(top)),
        }
    }

    /// Pick the layout root automatically: the cell named `MATRIX_unit` if the
    /// library has one, otherwise the first cell that no structure or array
    /// reference places; with neither, `CellNotFound("MATRIX_unit")`.
    pub fn from_library_autodetect(lib: GdsLibrary) -> (r: Result<Layout, LayoutError>)
        ensures
            match r {
                Ok(layout) => {
                    &&& layout.loaded.lib == lib
                    &&& autodetected_top(lib, layout.loaded.top_cell@)
                },
                Err(e) => {
                    &&& !has_named(lib.cells@, default_top_name())
                    &&& forall|i: int| 0 <= i < lib.cells@.len() ==> referenced(lib, (#[trigger] lib.cells@[i]).name@)
                    &&& e matches LayoutError::CellNotFound(name) && name@ == default_top_name()
                },
            },
    {
        let preferred = "MATRIX_unit".to_owned();
        proof {
            reveal_strlit("MATRIX_unit");
            assert(preferred@ =~= default_top_name());
        }
        match find_cell(&lib, &preferred) {
            Some(_) => {
                return Ok(Layout { loaded: LoadedLibrary { lib, top_cell: preferred } });
            },
            None => {},
        }
        match pick_top_cell(&lib) {
            Some(top) => {
                proof {
                    let i = choose|i: int| first_unreferenced(lib, i) && lib.cells@[i].name == top;
                    assert(lib.cells@[i].name@ == top@);
                }
                Ok(Layout { loaded: LoadedLibrary { lib, top_cell: top } })
            },
            None => Err(LayoutError::CellNotFound(preferred)),
        }
    }
}

/// Name of the preferred top cell.
pub open spec fn default_top_name() -> Seq<char> {
    seq!['M', 'A', 'T', 'R', 'I', 'X', '_', 'u', 'n', 'i', 't']
}

/// Some cell of `lib` places a cell named `name`.
pub open spec fn referenced(lib: GdsLibrary, name: Seq<char>) -> bool {
    exists|c: int| 0 <= c < lib.cells@.len() && #[trigger] places(lib, c, name)
}

/// `i` is the first cell of `lib` that nothing places.
pub open spec fn first_unreferenced(lib: GdsLibrary, i: int) -> bool {
    &&& 0 <= i < lib.cells@.len()
    &&& !referenced(lib, lib.cells@[i].name@)
    &&& forall|j: int| 0 <= j < i ==> referenced(lib, (#[trigger] lib.cells@[j]).name@)
}

/// The top cell that autodetection settles on.
pub open spec fn autodetected_top(lib: GdsLibrary, top: Seq<char>) -> bool {
    if has_named(lib.cells@, default_top_name()) {
        top == default_top_name()
    } else {
        exists|i: int| first_unreferenced(lib, i) && lib.cells@[i].name@ == top
    }
}

/// Whether some structure or array reference in `lib` places `name`.
fn is_referenced(lib: &GdsLibrary, name: &String) -> (b: bool)
    ensures
        b == referenced(*lib, name@),
{
    let mut c: usize = 0;
    while c < lib.cells.len()
        invariant
            c <= lib.cells@.len(),
            forall|d: int| 0 <= d < c ==> !#[trigger] places(*lib, d, name@),
        decreases lib.cells@.len() - c,
    {
        let elems = &lib.cells[c].elements;
        let mut k: usize = 0;
        while k < elems.len()
            invariant
                c < lib.cells@.len(),
                *elems == lib.cells@[c as int].elements,
                k <= elems@.len(),
                forall|m: int|
                    0 <= m < k ==> match #[trigger] elems@[m] {
                        GdsElement::Sref(s) => s.sname@ != name@,
                        GdsElement::Aref(a) => a.ref_name@ != name@,
                        _ => true,
                    },
            decreases elems@.len() - k,
        {
            let hit = match &elems[k] {
                GdsElement::Sref(s) => s.sname == *name,
                GdsElement::Aref(a) => a.ref_name == *name,
                _ => false,
            };
            if hit {
                assert(places(*lib, c as int, name@));
                return true;
            }
            k = k + 1;
        }
        c = c + 1;
    }
    false
}

/// The first cell (in library order) that is never placed by a structure or
/// array reference anywhere in the library, if any.
pub fn pick_top_cell(lib: &GdsLibrary) -> (r: Option<String>)
    ensures
        match r {
            Some(name) => exists|i: int| first_unreferenced(*lib, i) && lib.cells@[i].name == name,
            None => forall|i: int| 0 <= i < lib.cells@.len() ==> referenced(*lib, (#[trigger] lib.cells@[i]).name@),
        },
{
    let mut i: usize = 0;
    while i < lib.cells.len()
        invariant
            i <= lib.cells@.len(),
            forall|j: int| 0 <= j < i ==> referenced(*lib, (#[trigger] lib.cells@[j]).name@),
        decreases lib.cells@.len() - i,
    {
        if !is_referenced(lib, &lib.cells[i].name) {
            assert(first_unreferenced(*lib, i as int));
            return Some(lib.cells[i].name.clone());
        }
        i = i + 1;
    }
    None
}

} // verus!
