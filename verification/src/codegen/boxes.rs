//! Values on the machine's heap: what represents arrays, and who may touch them.

use vstd::prelude::*;

use crate::codegen::exactly::{as_decimal, as_rational, rep, single};
use crate::codegen::machine::{Boxed, Datum, Held};
use crate::codegen::native::{element_of, rank_of, Native};
use crate::eval::value::Val;
use crate::runtime::array::{extent_from, ArrayView, CellView};
use crate::runtime::exact::{fraction_held, held};

verus! {

pub type Heap = Seq<Option<Held>>;

/// Whether a cell stands for a value.
pub open spec fn cell_rep(c: CellView, v: Val) -> bool {
    match c {
        CellView::Int(k) => v == Val::Int(k),
        CellView::Bool(b) => v == Val::Bool(b),
        CellView::Deci(q) => as_decimal(v) == Some(held(q)),
        CellView::Rat(q) => as_rational(v) == Some(fraction_held(q)),
        CellView::Str(t) => v == Val::Str(t),
    }
}

/// The representation that a cell is of.
pub open spec fn cell_native(c: CellView) -> Native {
    match c {
        CellView::Int(_) => Native::Int,
        CellView::Bool(_) => Native::Bool,
        CellView::Deci(_) => Native::Deci,
        CellView::Rat(_) => Native::Rat,
        CellView::Str(_) => Native::Str,
    }
}

/// Whether an array of the runtime stands for an array of the interpreter, element by
/// element and dimension by dimension.
pub open spec fn array_rep(a: ArrayView, v: Val, elem: Native) -> bool {
    v matches Val::Array { items, shape } && {
        &&& a.items.len() == items.len()
        &&& forall|i: int|
            0 <= i < items.len() ==> cell_rep(#[trigger] a.items[i], items[i]) && cell_native(a.items[i]) == elem
        &&& a.shape.len() == shape.len()
        &&& forall|i: int| 0 <= i < shape.len() ==> #[trigger] a.shape[i] == shape[i]
    }
}

/// The array that a datum leads to, where somebody holds it.
pub open spec fn array_of(heap: Heap, x: Datum) -> Option<ArrayView> {
    match x {
        Datum::Object(o) => if o < heap.len() {
            match heap[o as int] {
                Some(h) => match h.value {
                    Boxed::Array(a) => if h.count >= 1 {
                        Some(a)
                    } else {
                        None
                    },
                    _ => None,
                },
                None => None,
            }
        } else {
            None
        },
        _ => None,
    }
}

/// Whether a datum stands for a value, on its own or by what it leads to.
pub open spec fn stands_for(heap: Heap, x: Datum, v: Val, n: Native) -> bool {
    if n is Array {
        array_of(heap, x) matches Some(a) && array_rep(a, v, element_of(n)) && a.shape.len() == rank_of(n) && a.items.len()
            == extent_from(a.shape, 0)
    } else {
        rep(x, v, n)
    }
}

/// What a variable can hold.
pub open spec fn holdable(n: Native) -> bool {
    single(n) || (n is Array && single(element_of(n)))
}

/// Whether a heap has only grown.
pub open spec fn heap_grown(a: Heap, b: Heap) -> bool {
    &&& a.len() <= b.len()
    &&& forall|o: int| 0 <= o < a.len() ==> #[trigger] b[o] == a[o]
}

/// Whether a heap has grown, and of what it had only one value may have changed.
pub open spec fn heap_but(a: Heap, b: Heap, x: Datum) -> bool {
    &&& a.len() <= b.len()
    &&& forall|o: int| 0 <= o < a.len() && x != Datum::Object(o as nat) ==> #[trigger] b[o] == a[o]
}

pub(crate) proof fn lemma_heap_then(a: Heap, b: Heap, c: Heap)
    requires
        heap_grown(a, b),
        heap_grown(b, c),
    ensures
        heap_grown(a, c),
{
    assert forall|o: int| 0 <= o < a.len() implies #[trigger] c[o] == a[o] by {
        assert(b[o] == a[o]);
    }
}

pub(crate) proof fn lemma_still_stands(a: Heap, b: Heap, x: Datum, v: Val, n: Native)
    requires
        stands_for(a, x, v, n),
        heap_grown(a, b),
    ensures
        stands_for(b, x, v, n),
{
    if let Datum::Object(o) = x {
        if o < a.len() {
            assert(b[o as int] == a[o as int]);
        }
    }
}

} // verus!
