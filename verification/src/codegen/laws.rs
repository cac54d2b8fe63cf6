//! What lowering leaves alone: an expression leaves every scope as it found it, and a block
//! gives back every heap value that its statements made.

use vstd::prelude::*;

use crate::ast::{
    BinOp, Binding, ChangeStmt, ChangeTarget, Constant, Expr, ExprKind, IfChain, LoopKind, LoopStmt, Selector,
    Stmt, UnOp, VarDecl,
};
use crate::codegen::lowering::{
    args_made, arms_made, binding_made, bindings_made, block_made, bound_stored, bounds_made, builtin_made,
    call_made, counted_made, described, effect_made, expr_made, handback_made, if_made, if_value, index_made,
    indices_made, item_made, items_made, joined, left_empty, loop_entered, loop_left, loop_made, loop_value,
    picks_made, places_wanted, prints_made, ptr_or_null, push_made, range_made, return_made, run_described,
    run_made, scoped_made, selected, selector_made, single_made, step_made, stmt_made, store_made,
    target_made, targets_made, temps_forgotten, value_arms, whole_bound, with_continue, with_digits,
    with_handback, without_continue, without_handback, write_checked, Bounds, Described, LoopBlocks, RunLists,
};
use crate::codegen::native::{
    array_like, counted, element_of, kind_of, literal_dims, native_of, peeled, rank_of, tag_of, Native,
};
use crate::codegen::runtime::{Kind, Rt};
use crate::codegen::steps::{
    array_made, arrays_made, as_byte, binary_made, binary_way, called_on_spilled, constant_made, converted,
    decis_made, dims_stored, element_loaded, element_pushed, element_stored, exponent_checked, literal_made,
    logic_made, number_made, nums_made, nums_pinned, option_read, options_read, or_null, ordering_related,
    parse_made, power_made, printed, rats_made, read_made, root_checked, side_made, side_native, side_of,
    spread, texts_checked, texts_made, unary_made, unary_wants, unary_way, word_unary, words_made, BinaryWay,
    Reading, Side, UnaryWay,
};
use crate::codegen::work::{
    called, called_into, chars_made, checked_made, declared, expecting, expecting_all, failing, forked,
    frame_released, frame_released_at, function_named, handle, kept, lemma_letting_go, let_go, looked_up,
    made, natural, opened, put, recorded, refused, related, scope_released, scopes_released, spilled, stored,
    stored_at, temps_popped, temps_released, text_made, with_args, with_frame, with_text, without_frame,
    CheckedOp, FrameView, Handback, Inst, Operand, Relation, WorkView,
};
use crate::eval::semantics::bare;

verus! {

/// Whether a sequence only had something added at its end.
pub open spec fn extended<T>(a: Seq<T>, b: Seq<T>) -> bool {
    a.len() <= b.len() && forall|i: int| 0 <= i < a.len() ==> #[trigger] b[i] == a[i]
}

/// What both kinds of step keep: code, texts and temporaries are only added to, the places
/// that a `handback` goes to are untouched, and the first refusal stays.
pub open spec fn carried(a: WorkView, b: WorkView) -> bool {
    &&& extended(a.code, b.code)
    &&& extended(a.texts, b.texts)
    &&& extended(a.temps, b.temps)
    &&& a.handbacks == b.handbacks
    &&& a.continues == b.continues
    &&& a.owned_from == b.owned_from
    &&& a.ret == b.ret
    &&& a.top == b.top
    &&& a.fns == b.fns
    &&& a.refusal is Some ==> b.refusal == a.refusal
}

/// A step that leaves every scope as it was.
#[verifier::opaque]
pub open spec fn step(a: WorkView, b: WorkView) -> bool {
    carried(a, b) && a.frames == b.frames
}

/// A step that may declare names in the innermost scope, and in no other.
#[verifier::opaque]
pub open spec fn stride(a: WorkView, b: WorkView) -> bool {
    &&& carried(a, b)
    &&& a.frames.len() == b.frames.len()
    &&& forall|i: int| 0 <= i < a.frames.len() - 1 ==> #[trigger] b.frames[i] == a.frames[i]
}

proof fn lemma_extended<T>(a: Seq<T>, b: Seq<T>, c: Seq<T>)
    requires
        extended(a, b),
        extended(b, c),
    ensures
        extended(a, c),
{
    assert forall|i: int| 0 <= i < a.len() implies #[trigger] c[i] == a[i] by {
        assert(b[i] == a[i]);
    }
}

pub broadcast proof fn step_then(a: WorkView, b: WorkView, c: WorkView)
    requires
        #[trigger] step(a, b),
        #[trigger] step(b, c),
    ensures
        step(a, c),
{
    reveal(step);
    lemma_extended(a.code, b.code, c.code);
    lemma_extended(a.texts, b.texts, c.texts);
    lemma_extended(a.temps, b.temps, c.temps);
}

proof fn stride_then(a: WorkView, b: WorkView, c: WorkView)
    requires
        stride(a, b),
        stride(b, c),
    ensures
        stride(a, c),
{
    reveal(stride);
    lemma_extended(a.code, b.code, c.code);
    lemma_extended(a.texts, b.texts, c.texts);
    lemma_extended(a.temps, b.temps, c.temps);
    assert forall|i: int| 0 <= i < a.frames.len() - 1 implies #[trigger] c.frames[i] == a.frames[i] by {
        assert(b.frames[i] == a.frames[i]);
    }
}

proof fn step_is_stride(a: WorkView, b: WorkView)
    requires
        step(a, b),
    ensures
        stride(a, b),
{
    reveal(step);
    reveal(stride);
}

proof fn no_step(a: WorkView)
    ensures
        step(a, a),
{
    reveal(step);
}

// ── the operations ──────────────────────────────────────────────────────────

pub broadcast proof fn keeps_put(w: WorkView, i: Inst)
    ensures
        step(w, #[trigger] put(w, i)),
{
    reveal(step);
}

pub broadcast proof fn keeps_refused(w: WorkView, what: Seq<char>)
    ensures
        step(w, #[trigger] refused(w, what)),
{
    reveal(step);
}

pub broadcast proof fn keeps_with_text(w: WorkView, t: Seq<char>)
    ensures
        step(w, #[trigger] with_text(w, t)),
{
    reveal(step);
}

pub broadcast proof fn keeps_recorded(w: WorkView, v: Operand, n: Native)
    ensures
        step(w, #[trigger] recorded(w, v, n)),
{
    reveal(step);
}

pub broadcast proof fn keeps_with_digits(w: WorkView, digits: u32)
    ensures
        step(w, #[trigger] with_digits(w, digits)),
{
    reveal(step);
}

pub broadcast proof fn keeps_expecting(w: WorkView, v: Operand, kind: Kind)
    ensures
        step(w, #[trigger] expecting(w, v, kind)),
{
    broadcast use {step_then, keeps_refused};

    no_step(w);
}

pub broadcast proof fn keeps_expecting_all(w: WorkView, args: Seq<Operand>, want: Seq<Kind>)
    ensures
        step(w, #[trigger] expecting_all(w, args, want)),
{
    broadcast use {step_then, keeps_refused};

    no_step(w);
    reveal(expecting_all);
}

pub broadcast proof fn keeps_with_args(w: WorkView, args: Seq<Operand>, i: nat)
    ensures
        step(w, #[trigger] with_args(w, args, i)),
    decreases args.len() - i,
{
    broadcast use {step_then, keeps_put};

    no_step(w);
    if i < args.len() {
        keeps_with_args(put(w, Inst::Arg(args[i as int].at)), args, i + 1);
    }
}

pub broadcast proof fn keeps_called(w: WorkView, f: Rt, args: Seq<Operand>)
    ensures
        step(w, #[trigger] called(w, f, args).0),
{
    broadcast use {step_then, keeps_expecting_all, keeps_put, keeps_recorded, keeps_with_args};

    no_step(w);
    reveal(called);
}

pub broadcast proof fn keeps_stored(w: WorkView, slot: usize, v: Operand, kind: Kind)
    ensures
        step(w, #[trigger] stored(w, slot, v, kind)),
{
    broadcast use {step_then, keeps_expecting, keeps_put};

    no_step(w);
    reveal(stored);
}

pub broadcast proof fn keeps_stored_at(w: WorkView, slots: usize, kind: Kind, index: u128, v: Operand)
    ensures
        step(w, #[trigger] stored_at(w, slots, kind, index, v)),
{
    broadcast use {step_then, keeps_expecting, keeps_put};

    no_step(w);
    reveal(stored_at);
}

pub broadcast proof fn keeps_called_into(w: WorkView, f: Rt, args: Seq<Operand>, kind: Kind)
    ensures
        step(w, #[trigger] called_into(w, f, args, kind).0),
{
    broadcast use {step_then, keeps_called, keeps_put};

    no_step(w);
    reveal(called_into);
}

pub broadcast proof fn keeps_spilled(w: WorkView, v: Operand, kind: Kind)
    ensures
        step(w, #[trigger] spilled(w, v, kind).0),
{
    broadcast use {step_then, keeps_put, keeps_stored};

    no_step(w);
    reveal(spilled);
}

pub broadcast proof fn keeps_chars_made(w: WorkView, t: Seq<char>)
    ensures
        step(w, #[trigger] chars_made(w, t).0),
{
    broadcast use {step_then, keeps_put, keeps_with_text};

    no_step(w);
    reveal(chars_made);
}

pub broadcast proof fn keeps_text_made(w: WorkView, t: Seq<char>)
    ensures
        step(w, #[trigger] text_made(w, t).0),
{
    broadcast use {step_then, keeps_put, keeps_with_text};

    no_step(w);
    reveal(text_made);
}

pub broadcast proof fn keeps_failing(w: WorkView, code: Seq<char>, message: Seq<char>)
    ensures
        step(w, #[trigger] failing(w, code, message)),
{
    broadcast use {step_then, keeps_called, keeps_chars_made, keeps_put};

    no_step(w);
    reveal(failing);
}

pub broadcast proof fn keeps_forked(w: WorkView, test: Operand, yes: usize, no: usize)
    ensures
        step(w, #[trigger] forked(w, test, yes, no)),
{
    broadcast use {step_then, keeps_expecting, keeps_put};

    no_step(w);
    reveal(forked);
}

pub broadcast proof fn keeps_related(w: WorkView, relation: Relation, a: Operand, b: Operand)
    ensures
        step(w, #[trigger] related(w, relation, a, b).0),
{
    broadcast use {step_then, keeps_expecting, keeps_put};

    no_step(w);
    reveal(related);
}

pub broadcast proof fn keeps_checked_made(w: WorkView, op: CheckedOp, a: Operand, b: Operand)
    ensures
        step(w, #[trigger] checked_made(w, op, a, b).0),
{
    broadcast use {step_then, keeps_expecting, keeps_failing, keeps_forked, keeps_put};

    no_step(w);
    reveal(checked_made);
}

pub broadcast proof fn keeps_handle(w: WorkView, v: Operand, n: Native)
    ensures
        step(w, #[trigger] handle(w, v, n).0),
{
    broadcast use {step_then, keeps_expecting, keeps_put};

    no_step(w);
    reveal(handle);
}

pub broadcast proof fn keeps_kept(w: WorkView, v: Operand, n: Native)
    ensures
        step(w, #[trigger] kept(w, v, n)),
{
    broadcast use {step_then, keeps_called, keeps_handle};

    no_step(w);
    reveal(kept);
}

pub broadcast proof fn keeps_let_go(w: WorkView, v: Operand, n: Native)
    ensures
        step(w, #[trigger] let_go(w, v, n)),
{
    broadcast use {step_then, keeps_called, keeps_handle};

    no_step(w);
    reveal(let_go);
}

pub(crate) proof fn keeps_frame_released(w: WorkView, frame: FrameView, i: nat)
    ensures
        step(w, frame_released(w, frame, i)),
    decreases frame.len() - i,
{
    broadcast use {step_then, keeps_let_go, keeps_put};

    no_step(w);
    if i < frame.len() {
        let l = frame[i as int];
        if counted(l.native) {
            let (w1, v) = made(w, Inst::Load { kind: kind_of(l.native), from: l.slot }, kind_of(l.native));
            keeps_frame_released(let_go(w1, v, l.native), frame, i + 1);
        } else {
            keeps_frame_released(w, frame, i + 1);
        }
    }
}

pub broadcast proof fn keeps_frame_released_at(w: WorkView, depth: int)
    ensures
        step(w, #[trigger] frame_released_at(w, depth)),
{
    reveal(frame_released_at);
    no_step(w);
    if w.open && 0 <= depth < w.frames.len() {
        keeps_frame_released(w, w.frames[depth], 0);
    }
}

pub broadcast proof fn keeps_scope_released(w: WorkView)
    ensures
        step(w, #[trigger] scope_released(w)),
{
    reveal(scope_released);
    keeps_frame_released_at(w, w.frames.len() - 1);
}

proof fn keeps_scopes_released(w: WorkView, depth: nat)
    ensures
        step(w, scopes_released(w, depth)),
    decreases depth,
{
    broadcast use {step_then, keeps_frame_released_at};

    no_step(w);
    if depth > w.owned_from && depth > 0 {
        keeps_scopes_released(frame_released_at(w, depth - 1), (depth - 1) as nat);
    }
}

pub broadcast proof fn keeps_as_byte(w: WorkView, v: Operand)
    ensures
        step(w, #[trigger] as_byte(w, v).0),
{
    broadcast use {step_then, keeps_expecting, keeps_put};

    no_step(w);
}

pub broadcast proof fn keeps_called_on_spilled(w: WorkView, f: Rt, v: Operand, kind: Kind)
    ensures
        step(w, #[trigger] called_on_spilled(w, f, v, kind).0),
{
    broadcast use {step_then, keeps_called, keeps_spilled};

    no_step(w);
}

pub broadcast proof fn keeps_converted(w: WorkView, v: Operand, from: Native, to: Native)
    ensures
        step(w, #[trigger] converted(w, v, from, to).0),
{
    broadcast use {
        step_then, keeps_as_byte, keeps_called, keeps_called_into, keeps_called_on_spilled, keeps_expecting,
        keeps_put, keeps_refused,
    };

    no_step(w);
    reveal(converted);
}

pub broadcast proof fn keeps_number_made(w: WorkView, t: Seq<char>, want: Native)
    ensures
        step(w, #[trigger] number_made(w, t, want).0),
{
    broadcast use {step_then, keeps_put, keeps_refused};

    no_step(w);
}

pub broadcast proof fn keeps_literal_made(w: WorkView, t: Seq<char>, want: Native)
    ensures
        step(w, #[trigger] literal_made(w, t, want).0),
{
    broadcast use {step_then, keeps_converted, keeps_number_made, keeps_put};

    no_step(w);
    reveal(literal_made);
}

pub broadcast proof fn keeps_constant_made(w: WorkView, c: Constant, want: Native)
    ensures
        step(w, #[trigger] constant_made(w, c, want).0),
{
    broadcast use {step_then, keeps_called_into, keeps_converted, keeps_put, keeps_refused};

    no_step(w);
    reveal(constant_made);
}

pub broadcast proof fn keeps_dims_stored(w: WorkView, slots: usize, dims: Seq<u64>, i: nat)
    ensures
        step(w, #[trigger] dims_stored(w, slots, dims, i)),
    decreases dims.len() - i,
{
    broadcast use {step_then, keeps_put, keeps_stored_at};

    no_step(w);
    if i < dims.len() {
        let (w1, d) = made(w, Inst::Long(dims[i as int]), Kind::Long);
        keeps_dims_stored(stored_at(w1, slots, Kind::Long, i as u128, d), slots, dims, i + 1);
    }
}

pub broadcast proof fn keeps_array_made(w: WorkView, elem: Native, dims: Seq<u64>)
    ensures
        step(w, #[trigger] array_made(w, elem, dims).0),
{
    broadcast use {step_then, keeps_called, keeps_dims_stored, keeps_put};

    no_step(w);
    reveal(array_made);
}

pub broadcast proof fn keeps_element_stored(w: WorkView, array: Operand, index: Operand, v: Operand, elem: Native)
    ensures
        step(w, #[trigger] element_stored(w, array, index, v, elem)),
{
    broadcast use {step_then, keeps_as_byte, keeps_called, keeps_spilled};

    no_step(w);
    reveal(element_stored);
}

pub broadcast proof fn keeps_element_loaded(w: WorkView, array: Operand, index: Operand, elem: Native)
    ensures
        step(w, #[trigger] element_loaded(w, array, index, elem).0),
{
    broadcast use {step_then, keeps_called, keeps_called_into, keeps_put, keeps_recorded, keeps_related};

    no_step(w);
    reveal(element_loaded);
}

pub broadcast proof fn keeps_element_pushed(w: WorkView, array: Operand, v: Operand, elem: Native)
    ensures
        step(w, #[trigger] element_pushed(w, array, v, elem)),
{
    broadcast use {step_then, keeps_as_byte, keeps_called, keeps_spilled};

    no_step(w);
    reveal(element_pushed);
}

pub broadcast proof fn keeps_spread(w: WorkView, v: Operand, elem: Native)
    ensures
        step(w, #[trigger] spread(w, v, elem).0),
{
    broadcast use {step_then, keeps_array_made, keeps_element_stored, keeps_put};

    no_step(w);
    reveal(spread);
}

pub broadcast proof fn keeps_printed(w: WorkView, v: Operand, n: Native)
    ensures
        step(w, #[trigger] printed(w, v, n)),
{
    broadcast use {step_then, keeps_as_byte, keeps_called, keeps_called_on_spilled};

    no_step(w);
    reveal(printed);
}

pub broadcast proof fn keeps_root_checked(w: WorkView, op: UnOp)
    ensures
        step(w, #[trigger] root_checked(w, op)),
{
    broadcast use {step_then, keeps_refused};

    no_step(w);
}

pub broadcast proof fn keeps_word_unary(w: WorkView, op: UnOp, v: Operand)
    ensures
        step(w, #[trigger] word_unary(w, op, v).0),
{
    broadcast use {step_then, keeps_checked_made, keeps_forked, keeps_put, keeps_related, keeps_stored};

    no_step(w);
}

pub broadcast proof fn keeps_unary_made(w: WorkView, op: UnOp, way: UnaryWay, v: Operand, want: Native)
    ensures
        step(w, #[trigger] unary_made(w, op, way, v, want).0),
{
    broadcast use {
        step_then, keeps_called, keeps_called_into, keeps_converted, keeps_put, keeps_spilled,
        keeps_word_unary,
    };

    no_step(w);
    reveal(unary_made);
}

pub broadcast proof fn keeps_side_made(w: WorkView, s: Side, v: Operand)
    ensures
        step(w, #[trigger] side_made(w, s, v).0),
{
    broadcast use {step_then, keeps_called, keeps_spread};

    no_step(w);
}

pub broadcast proof fn keeps_ordering_related(w: WorkView, relation: Relation, c: Operand)
    ensures
        step(w, #[trigger] ordering_related(w, relation, c).0),
{
    broadcast use {step_then, keeps_put, keeps_related};

    no_step(w);
}

pub broadcast proof fn keeps_nums_made(w: WorkView, op: BinOp, a: Operand, b: Operand)
    ensures
        step(w, #[trigger] nums_made(w, op, a, b).0),
{
    broadcast use {step_then, keeps_called, keeps_ordering_related, keeps_put, keeps_refused};

    no_step(w);
}

pub broadcast proof fn keeps_nums_pinned(w: WorkView, op: BinOp, v: Operand, want: Native)
    ensures
        step(w, #[trigger] nums_pinned(w, op, v, want).0),
{
    broadcast use {step_then, keeps_converted};

    no_step(w);
}

pub broadcast proof fn keeps_arrays_made(w: WorkView, op: BinOp, a: Operand, b: Operand, want: Native)
    ensures
        step(w, #[trigger] arrays_made(w, op, a, b, want).0),
{
    broadcast use {step_then, keeps_called, keeps_element_loaded, keeps_put, keeps_refused};

    no_step(w);
}

pub broadcast proof fn keeps_decis_made(w: WorkView, op: BinOp, a: Operand, b: Operand)
    ensures
        step(w, #[trigger] decis_made(w, op, a, b).0),
{
    broadcast use {
        step_then, keeps_called, keeps_called_into, keeps_ordering_related, keeps_put, keeps_refused,
        keeps_spilled,
    };

    no_step(w);
}

pub broadcast proof fn keeps_rats_made(w: WorkView, op: BinOp, a: Operand, b: Operand)
    ensures
        step(w, #[trigger] rats_made(w, op, a, b).0),
{
    broadcast use {
        step_then, keeps_called, keeps_called_into, keeps_ordering_related, keeps_put, keeps_refused,
        keeps_spilled,
    };

    no_step(w);
}

pub broadcast proof fn keeps_texts_made(w: WorkView, op: BinOp, a: Operand, b: Operand)
    ensures
        step(w, #[trigger] texts_made(w, op, a, b).0),
{
    broadcast use {step_then, keeps_called, keeps_ordering_related, keeps_spilled};

    no_step(w);
}

pub broadcast proof fn keeps_exponent_checked(w: WorkView, exp: Operand)
    ensures
        step(w, #[trigger] exponent_checked(w, exp)),
{
    broadcast use {step_then, keeps_failing, keeps_forked, keeps_put, keeps_related};

    no_step(w);
    reveal(exponent_checked);
}

pub broadcast proof fn keeps_power_made(w: WorkView, base: Operand, exp: Operand)
    ensures
        step(w, #[trigger] power_made(w, base, exp).0),
{
    broadcast use {
        step_then, keeps_checked_made, keeps_exponent_checked, keeps_forked, keeps_put, keeps_related,
        keeps_stored,
    };

    no_step(w);
}

pub broadcast proof fn keeps_words_made(w: WorkView, op: BinOp, a: Operand, b: Operand)
    ensures
        step(w, #[trigger] words_made(w, op, a, b).0),
{
    broadcast use {
        step_then, keeps_called, keeps_checked_made, keeps_expecting, keeps_power_made, keeps_refused,
        keeps_related,
    };

    no_step(w);
}

pub broadcast proof fn keeps_logic_made(w: WorkView, op: BinOp, a: Operand, b: Operand)
    ensures
        step(w, #[trigger] logic_made(w, op, a, b).0),
{
    broadcast use {step_then, keeps_expecting, keeps_put};

    no_step(w);
}

pub broadcast proof fn keeps_binary_made(w: WorkView, op: BinOp, way: BinaryWay, a: Operand, b: Operand, want: Native)
    ensures
        step(w, #[trigger] binary_made(w, op, way, a, b, want).0),
{
    broadcast use {
        step_then, keeps_arrays_made, keeps_decis_made, keeps_logic_made, keeps_nums_made, keeps_nums_pinned,
        keeps_rats_made, keeps_texts_made, keeps_words_made,
    };

    no_step(w);
    reveal(binary_made);
}

pub broadcast proof fn keeps_texts_checked(w: WorkView, op: BinOp, way: BinaryWay)
    ensures
        step(w, #[trigger] texts_checked(w, op, way)),
{
    broadcast use {step_then, keeps_refused};

    no_step(w);
}

pub broadcast proof fn keeps_option_read(w: WorkView, r: Reading, name: Seq<char>, value: Option<Box<Expr>>)
    ensures
        step(w, #[trigger] option_read(w, r, name, value).0),
{
    broadcast use {step_then, keeps_refused, keeps_spilled, keeps_text_made};

    no_step(w);
}

pub broadcast proof fn keeps_options_read(w: WorkView, r: Reading, args: Seq<Expr>, i: nat)
    ensures
        step(w, #[trigger] options_read(w, r, args, i).0),
    decreases args.len() - i,
{
    broadcast use {step_then, keeps_option_read, keeps_refused};

    no_step(w);
    if i < args.len() {
        match args[i as int].kind {
            ExprKind::Option { name, value } => {
                let (w1, r1) = option_read(w, r, name@, value);
                keeps_options_read(w1, r1, args, i + 1);
            },
            _ => {
                keeps_options_read(refused(w, "a parse argument that is not an option"@), r, args, i + 1);
            },
        }
    }
}

pub broadcast proof fn keeps_or_null(w: WorkView, v: Option<Operand>)
    ensures
        step(w, #[trigger] or_null(w, v).0),
{
    broadcast use {step_then, keeps_put};

    no_step(w);
}

pub broadcast proof fn keeps_parse_made(w: WorkView, text: Operand, args: Seq<Expr>, want: Native)
    ensures
        step(w, #[trigger] parse_made(w, text, args, want).0),
{
    broadcast use {
        step_then, keeps_called, keeps_called_into, keeps_options_read, keeps_or_null, keeps_put,
        keeps_spilled,
    };

    no_step(w);
    reveal(parse_made);
}

pub broadcast proof fn keeps_read_made(w: WorkView, path: Operand)
    ensures
        step(w, #[trigger] read_made(w, path).0),
{
    broadcast use {step_then, keeps_called_into, keeps_recorded, keeps_spilled};

    no_step(w);
    reveal(read_made);
}

pub broadcast proof fn keeps_bound_stored(w: WorkView, bounds: usize, index: u128, v: Option<Operand>)
    ensures
        step(w, #[trigger] bound_stored(w, bounds, index, v)),
{
    broadcast use {step_then, keeps_put, keeps_stored_at};

    no_step(w);
}

pub broadcast proof fn keeps_ptr_or_null(w: WorkView, v: Option<Operand>)
    ensures
        step(w, #[trigger] ptr_or_null(w, v).0),
{
    broadcast use {step_then, keeps_put};

    no_step(w);
}

pub broadcast proof fn keeps_described(w: WorkView, d: Described, k: u128, lists: RunLists)
    ensures
        step(w, #[trigger] described(w, d, k, lists)),
{
    broadcast use {step_then, keeps_bound_stored, keeps_ptr_or_null, keeps_put, keeps_stored_at};

    no_step(w);
    reveal(described);
}

pub broadcast proof fn keeps_joined(w: WorkView, left: bool, block: usize)
    ensures
        step(w, #[trigger] joined(w, left, block)),
{
    broadcast use {step_then, keeps_put};

    no_step(w);
}

pub broadcast proof fn keeps_whole_bound(w: WorkView, v: Operand)
    ensures
        step(w, #[trigger] whole_bound(w, v)),
{
    broadcast use {step_then, keeps_refused};

    no_step(w);
}

pub broadcast proof fn keeps_loop_entered(w: WorkView, b: Bounds)
    ensures
        step(w, #[trigger] loop_entered(w, b).0),
{
    broadcast use {step_then, keeps_failing, keeps_forked, keeps_put, keeps_related, keeps_stored};

    no_step(w);
    reveal(loop_entered);
}

pub broadcast proof fn keeps_loop_left(w: WorkView, b: Bounds, l: LoopBlocks)
    ensures
        step(w, #[trigger] loop_left(w, b, l)),
{
    broadcast use {step_then, keeps_expecting, keeps_forked, keeps_put, keeps_stored};

    no_step(w);
    reveal(loop_left);
}

pub broadcast group operations_keep {
    step_then,
    keeps_put,
    keeps_refused,
    keeps_with_text,
    keeps_recorded,
    keeps_with_digits,
    keeps_expecting,
    keeps_expecting_all,
    keeps_with_args,
    keeps_called,
    keeps_stored,
    keeps_stored_at,
    keeps_called_into,
    keeps_spilled,
    keeps_chars_made,
    keeps_text_made,
    keeps_failing,
    keeps_forked,
    keeps_related,
    keeps_checked_made,
    keeps_handle,
    keeps_kept,
    keeps_let_go,
    keeps_frame_released_at,
    keeps_scope_released,
    keeps_as_byte,
    keeps_called_on_spilled,
    keeps_converted,
    keeps_number_made,
    keeps_literal_made,
    keeps_constant_made,
    keeps_dims_stored,
    keeps_array_made,
    keeps_element_stored,
    keeps_element_loaded,
    keeps_element_pushed,
    keeps_spread,
    keeps_printed,
    keeps_root_checked,
    keeps_word_unary,
    keeps_unary_made,
    keeps_side_made,
    keeps_ordering_related,
    keeps_nums_made,
    keeps_nums_pinned,
    keeps_arrays_made,
    keeps_decis_made,
    keeps_rats_made,
    keeps_texts_made,
    keeps_exponent_checked,
    keeps_power_made,
    keeps_words_made,
    keeps_logic_made,
    keeps_binary_made,
    keeps_texts_checked,
    keeps_option_read,
    keeps_options_read,
    keeps_or_null,
    keeps_parse_made,
    keeps_read_made,
    keeps_bound_stored,
    keeps_ptr_or_null,
    keeps_described,
    keeps_joined,
    keeps_whole_bound,
    keeps_loop_entered,
    keeps_loop_left,
}

// ── temporaries ─────────────────────────────────────────────────────────────

/// A step but for the temporaries.
#[verifier::opaque]
pub open spec fn apart_from_temps(a: WorkView, b: WorkView) -> bool {
    step(WorkView { temps: Seq::empty(), ..a }, WorkView { temps: Seq::empty(), ..b })
}

proof fn lemma_popped(w: WorkView, mark: nat, n: nat)
    requires
        mark <= n == w.temps.len(),
    ensures
        temps_popped(w, mark, n).temps == w.temps.take(mark as int),
        apart_from_temps(w, temps_popped(w, mark, n)),
    decreases n,
{
    reveal(apart_from_temps);
    reveal(step);
    if n <= mark || n == 0 {
        assert(w.temps.take(mark as int) =~= w.temps);
    } else {
        let t = w.temps[n - 1];
        let dropped = WorkView { temps: w.temps.take(n - 1), ..w };
        let next = let_go(dropped, t.value, t.native);
        keeps_let_go(dropped, t.value, t.native);
        lemma_letting_go(dropped, t.value, t.native);
        lemma_popped(next, mark, (n - 1) as nat);
        assert(w.temps.take(n - 1).take(mark as int) =~= w.temps.take(mark as int));
        let end = temps_popped(w, mark, n);
        lemma_extended(w.code, next.code, end.code);
        lemma_extended(w.texts, next.texts, end.texts);
    }
}

/// Releasing what was recorded since a mark restores the temporaries of that time.
proof fn lemma_released(a: WorkView, b: WorkView)
    requires
        extended(a.temps, b.temps),
    ensures
        temps_released(b, a.temps.len()).temps == a.temps,
        apart_from_temps(b, temps_released(b, a.temps.len())),
{
    reveal(temps_released);
    reveal(apart_from_temps);
    reveal(step);
    assert(b.temps.take(a.temps.len() as int) =~= a.temps);
    if b.open {
        lemma_popped(b, a.temps.len(), b.temps.len());
    } else if a.temps.len() >= b.temps.len() {
        assert(b.temps =~= a.temps);
    }
}

pub(crate) proof fn released_step(a: WorkView, b: WorkView)
    requires
        step(a, b),
    ensures
        step(a, temps_released(b, a.temps.len())),
        temps_released(b, a.temps.len()).temps == a.temps,
{
    reveal(step);
    reveal(apart_from_temps);
    lemma_released(a, b);
    let c = temps_released(b, a.temps.len());
    lemma_extended(a.code, b.code, c.code);
    lemma_extended(a.texts, b.texts, c.texts);
}

proof fn released_stride(a: WorkView, b: WorkView)
    requires
        stride(a, b),
    ensures
        stride(a, temps_released(b, a.temps.len())),
        temps_released(b, a.temps.len()).temps == a.temps,
{
    reveal(step);
    reveal(stride);
    reveal(apart_from_temps);
    lemma_released(a, b);
    let c = temps_released(b, a.temps.len());
    lemma_extended(a.code, b.code, c.code);
    lemma_extended(a.texts, b.texts, c.texts);
}

proof fn forgotten_stride(a: WorkView, b: WorkView)
    requires
        stride(a, b),
    ensures
        stride(a, temps_forgotten(b, a.temps.len())),
        temps_forgotten(b, a.temps.len()).temps == a.temps,
{
    reveal(stride);
    assert(b.temps.take(a.temps.len() as int) =~= a.temps);
    if a.temps.len() >= b.temps.len() {
        assert(b.temps =~= a.temps);
    }
}

// ── scopes ──────────────────────────────────────────────────────────────────

proof fn declared_stride(w: WorkView, name: Seq<char>, slot: usize, native: Native)
    ensures
        stride(w, declared(w, name, slot, native)),
{
    reveal(stride);
    reveal(declared);
}

/// A scope opened, worked in and closed again leaves the scopes outside as they were.
proof fn closed_step(a: WorkView, b: WorkView)
    requires
        stride(with_frame(a), b),
    ensures
        step(a, without_frame(b)),
        b.temps == a.temps ==> without_frame(b).temps == a.temps,
{
    reveal(stride);
    reveal(step);
    reveal(with_frame);
    reveal(without_frame);
    let o = with_frame(a);
    assert forall|i: int| 0 <= i < a.frames.len() implies #[trigger] b.frames[i] == a.frames[i] by {
        assert(b.frames[i] == o.frames[i]);
    }
    assert(b.frames.drop_last() =~= a.frames);
}

proof fn handback_step(a: WorkView, h: Handback, b: WorkView)
    requires
        step(with_handback(a, h), b),
    ensures
        step(a, without_handback(b)),
{
    reveal(step);
    assert(a.handbacks.push(h).drop_last() =~= a.handbacks);
}

proof fn continue_step(a: WorkView, block: usize, b: WorkView)
    requires
        step(with_continue(a, block), b),
    ensures
        step(a, without_continue(b)),
{
    reveal(step);
    assert(a.continues.push(block).drop_last() =~= a.continues);
}

proof fn continue_stride(a: WorkView, block: usize, b: WorkView)
    requires
        stride(with_continue(a, block), b),
    ensures
        stride(a, without_continue(b)),
{
    reveal(stride);
    assert(a.continues.push(block).drop_last() =~= a.continues);
}

// ── expressions ─────────────────────────────────────────────────────────────

#[verifier::spinoff_prover]
pub(crate) proof fn lemma_expr(w: WorkView, e: Expr, want: Native)
    ensures
        step(w, expr_made(w, e, want).0),
    decreases e, 1nat,
{
    broadcast use operations_keep;

    reveal(expr_made);
    no_step(w);
    match e.kind {
        ExprKind::Math(inner) => {
            lemma_expr(w, *inner, want);
        },
        ExprKind::Ref { name, selectors } => match looked_up(w, name@) {
            None => {},
            Some((slot, held)) => {
                let (w1, loaded) = made(w, Inst::Load { kind: kind_of(held), from: slot }, kind_of(held));
                lemma_selected(w1, selectors, 0, 0, loaded, rank_of(held), element_of(held), want);
            },
        },
        ExprKind::Unary { op, operand } => {
            if op is Not {
                lemma_expr(w, *operand, Native::Bool);
            } else {
                let held = natural(w, *operand);
                let way = unary_way(op, held, bare(*operand));
                lemma_expr(root_checked(w, op), *operand, unary_wants(way, held));
            }
        },
        ExprKind::Binary { op, lhs, rhs } => {
            let l = natural(w, *lhs);
            let r = natural(w, *rhs);
            let way = binary_way(op, l, r, bare(*lhs), bare(*rhs), want);
            let left = side_of(op, way, true, l, want);
            let right = side_of(op, way, false, r, want);
            lemma_expr(texts_checked(w, op, way), *lhs, side_native(left));
            let (w1, x) = expr_made(texts_checked(w, op, way), *lhs, side_native(left));
            let (w2, a) = side_made(w1, left, x);
            lemma_expr(w2, *rhs, side_native(right));
        },
        ExprKind::Call { name, args } => {
            lemma_call(w, name@, args, true);
        },
        ExprKind::Builtin { name, args } => {
            lemma_builtin(w, name@, args, want);
        },
        ExprKind::ArrayLit(items) => {
            let elem = if array_like(want) {
                element_of(want)
            } else {
                want
            };
            let (w1, array) = array_made(w, elem, literal_dims(items));
            lemma_items(w1, items, 0, elem, array, 1);
        },
        ExprKind::If(chain) => {
            lemma_if_value(w, chain, want);
        },
        ExprKind::Loop(l) => {
            lemma_loop_value(w, *l, want);
        },
        _ => {},
    }
}

#[verifier::spinoff_prover]
proof fn lemma_args(w: WorkView, args: Vec<Expr>, i: nat, params: Seq<Native>, strict: bool, acc: Seq<Operand>)
    ensures
        step(w, args_made(w, args, i, params, strict, acc).0),
    decreases args, args@.len() - i,
{
    broadcast use operations_keep;

    reveal(args_made);
    no_step(w);
    if i < args@.len() {
        let w0 = if strict && i >= params.len() {
            refused(w, "too many arguments"@)
        } else {
            w
        };
        let want = if i < params.len() {
            params[i as int]
        } else {
            Native::Int
        };
        lemma_expr(w0, args@[i as int], want);
        let (w1, v) = expr_made(w0, args@[i as int], want);
        lemma_args(w1, args, i + 1, params, strict, acc.push(v));
    }
}

#[verifier::spinoff_prover]
proof fn lemma_call(w: WorkView, name: Seq<char>, args: Vec<Expr>, strict: bool)
    ensures
        step(w, call_made(w, name, args, strict).0),
    decreases args, args@.len() + 1,
{
    broadcast use operations_keep;

    reveal(call_made);
    match function_named(w.fns, name, w.fns.len()) {
        None => {},
        Some(i) => {
            lemma_args(w, args, 0, w.fns[i as int].params, strict, Seq::empty());
        },
    }
}

#[verifier::spinoff_prover]
proof fn lemma_builtin(w: WorkView, name: Seq<char>, args: Vec<Expr>, want: Native)
    ensures
        step(w, builtin_made(w, name, args, want).0),
    decreases args, args@.len() + 1,
{
    broadcast use operations_keep;

    reveal(builtin_made);
    if args@.len() > 0 {
        lemma_expr(w, args@[0], Native::Str);
    }
}

#[verifier::spinoff_prover]
proof fn lemma_items(w: WorkView, items: Vec<Expr>, i: nat, elem: Native, array: Operand, next: u64)
    ensures
        step(w, items_made(w, items, i, elem, array, next).0),
    decreases items, items@.len() - i,
{
    broadcast use operations_keep;

    reveal(items_made);
    no_step(w);
    if i < items@.len() {
        lemma_item(w, items@[i as int], elem, array, next);
        let (w1, n) = item_made(w, items@[i as int], elem, array, next);
        lemma_items(w1, items, i + 1, elem, array, n);
    }
}

#[verifier::spinoff_prover]
proof fn lemma_item(w: WorkView, item: Expr, elem: Native, array: Operand, next: u64)
    ensures
        step(w, item_made(w, item, elem, array, next).0),
    decreases item, 2nat,
{
    broadcast use operations_keep;

    reveal(item_made);
    match item.kind {
        ExprKind::ArrayLit(inner) => {
            lemma_items(w, inner, 0, elem, array, next);
        },
        _ => {
            lemma_expr(w, item, elem);
        },
    }
}

// ── selectors ───────────────────────────────────────────────────────────────

#[verifier::spinoff_prover]
proof fn lemma_selected(
    w: WorkView,
    sels: Vec<Selector>,
    from: nat,
    i: nat,
    current: Operand,
    rank: u32,
    elem: Native,
    want: Native,
)
    ensures
        step(w, selected(w, sels, from, i, current, rank, elem, want).0),
    decreases sels, sels@.len() + 2 + (if i < sels@.len() { sels@.len() - i } else { 0 }),
{
    broadcast use operations_keep;

    reveal(selected);
    if i >= sels@.len() {
        lemma_index(w, sels, from, current);
        lemma_run(w, sels, from, sels@.len(), current);
    } else {
        lemma_run(w, sels, from, i, current);
        let (w1, array) = run_made(w, sels, from, i, current);
        let (w2, shape) = called(w1, Rt::ArrayShape, seq![array]);
        lemma_selected(w2, sels, i + 1, i + 1, shape, 1, elem, want);
        lemma_selected(w, sels, from, i + 1, current, rank, elem, want);
    }
}

#[verifier::spinoff_prover]
proof fn lemma_single(w: WorkView, sel: Selector)
    ensures
        step(w, single_made(w, sel).0),
    decreases sel, 0nat,
{
    reveal(single_made);
    no_step(w);
    match sel {
        Selector::Indices(ix) => {
            if ix@.len() > 0 {
                lemma_expr(w, ix@[0], Native::Int);
            }
        },
        _ => {},
    }
}

#[verifier::spinoff_prover]
proof fn lemma_index(w: WorkView, sels: Vec<Selector>, from: nat, array: Operand)
    ensures
        step(w, index_made(w, sels, from, array).0),
    decreases sels, sels@.len() + 1,
{
    broadcast use operations_keep;

    reveal(index_made);
    if sels@.len() == from + 1 {
        lemma_single(w, sels@[from as int]);
    } else {
        let n = (sels@.len() - from) as u128;
        let (w1, buffer) = made(w, Inst::Slots { kind: Kind::Word, count: n }, Kind::Ptr);
        lemma_picks(w1, sels, from, from, buffer.at);
    }
}

#[verifier::spinoff_prover]
proof fn lemma_picks(w: WorkView, sels: Vec<Selector>, from: nat, k: nat, buffer: usize)
    ensures
        step(w, picks_made(w, sels, from, k, buffer)),
    decreases sels, (if k < sels@.len() { sels@.len() - k } else { 0 }),
{
    broadcast use operations_keep;

    reveal(picks_made);
    no_step(w);
    if k < sels@.len() {
        lemma_single(w, sels@[k as int]);
        let (w1, v) = single_made(w, sels@[k as int]);
        lemma_picks(stored_at(w1, buffer, Kind::Word, (k - from) as u128, v), sels, from, k + 1, buffer);
    }
}

#[verifier::spinoff_prover]
proof fn lemma_indices(w: WorkView, ix: Vec<Expr>, j: nat, list: usize)
    ensures
        step(w, indices_made(w, ix, j, list)),
    decreases ix, ix@.len() - j,
{
    broadcast use operations_keep;

    reveal(indices_made);
    no_step(w);
    if j < ix@.len() {
        lemma_expr(w, ix@[j as int], Native::Int);
        let (w1, v) = expr_made(w, ix@[j as int], Native::Int);
        lemma_indices(stored_at(w1, list, Kind::Word, j as u128, v), ix, j + 1, list);
    }
}

#[verifier::spinoff_prover]
proof fn lemma_by(w: WorkView, by: Option<Box<Expr>>)
    ensures
        step(w, step_made(w, by).0),
    decreases by, 0nat,
{
    broadcast use operations_keep;

    reveal(step_made);
    match by {
        Some(e) => {
            lemma_expr(w, *e, Native::Int);
        },
        None => {},
    }
}

#[verifier::spinoff_prover]
proof fn lemma_selector(w: WorkView, sel: Selector)
    ensures
        step(w, selector_made(w, sel).0),
    decreases sel, 0nat,
{
    broadcast use operations_keep;

    reveal(selector_made);
    no_step(w);
    match sel {
        Selector::Indices(ix) => {
            let (w1, list) = made(w, Inst::Slots { kind: Kind::Word, count: ix@.len() as u128 }, Kind::Ptr);
            lemma_indices(w1, ix, 0, list.at);
        },
        Selector::Range { from, to, by } => {
            lemma_expr(w, *from, Native::Int);
            let (w1, f) = expr_made(w, *from, Native::Int);
            lemma_expr(w1, *to, Native::Int);
            let (w2, t) = expr_made(w1, *to, Native::Int);
            lemma_by(w2, by);
        },
        _ => {},
    }
}

#[verifier::spinoff_prover]
proof fn lemma_run_described(w: WorkView, sels: Vec<Selector>, from: nat, k: nat, to: nat, lists: RunLists)
    ensures
        step(w, run_described(w, sels, from, k, to, lists)),
    decreases sels, (if k < to && k < sels@.len() { sels@.len() - k } else { 0 }),
{
    broadcast use operations_keep;

    reveal(run_described);
    no_step(w);
    if k < to && k < sels@.len() {
        lemma_selector(w, sels@[k as int]);
        let (w1, d) = selector_made(w, sels@[k as int]);
        lemma_run_described(described(w1, d, (k - from) as u128, lists), sels, from, k + 1, to, lists);
    }
}

#[verifier::spinoff_prover]
proof fn lemma_run(w: WorkView, sels: Vec<Selector>, from: nat, to: nat, current: Operand)
    ensures
        step(w, run_made(w, sels, from, to, current).0),
    decreases sels, sels@.len() + 1,
{
    broadcast use operations_keep;

    reveal(run_made);
    no_step(w);
    if from < to {
        let n = (to - from) as u128;
        let (w1, kinds) = made(w, Inst::Slots { kind: Kind::Small, count: n }, Kind::Ptr);
        let (w2, bounds) = made(w1, Inst::Slots { kind: Kind::Word, count: (n * 3) as u128 }, Kind::Ptr);
        let (w3, buffers) = made(w2, Inst::Slots { kind: Kind::Ptr, count: n }, Kind::Ptr);
        let (w4, counts) = made(w3, Inst::Slots { kind: Kind::Long, count: n }, Kind::Ptr);
        let lists = RunLists { kinds: kinds.at, bounds: bounds.at, buffers: buffers.at, counts: counts.at };
        lemma_run_described(w4, sels, from, from, to, lists);
    }
}

// ── conditionals ────────────────────────────────────────────────────────────

#[verifier::spinoff_prover]
pub(crate) proof fn lemma_arms(w: WorkView, chain: IfChain, i: nat, merge: usize, all: bool)
    ensures
        step(w, arms_made(w, chain, i, merge, all).0),
    decreases chain, chain.arms@.len() - i,
{
    broadcast use operations_keep;

    reveal(arms_made);
    no_step(w);
    if i < chain.arms@.len() {
        match chain.arms@[i as int].condition {
            Some(c) => {
                lemma_expr(w, c, Native::Bool);
                let (w1, test) = expr_made(w, c, Native::Bool);
                let (w2, yes) = opened(w1);
                let (w3, no) = opened(w2);
                let w4 = put(forked(w3, test, yes, no), Inst::At(yes));
                lemma_scoped(w4, chain.arms@[i as int].body);
                let (w5, left) = scoped_made(w4, chain.arms@[i as int].body);
                lemma_arms(put(joined(w5, left, merge), Inst::At(no)), chain, i + 1, merge, all && left);
            },
            None => {
                lemma_scoped(w, chain.arms@[i as int].body);
                let (w1, left) = scoped_made(w, chain.arms@[i as int].body);
                lemma_arms(joined(w1, left, merge), chain, i + 1, merge, all && left);
            },
        }
    }
}

#[verifier::spinoff_prover]
pub(crate) proof fn lemma_if(w: WorkView, chain: IfChain)
    ensures
        step(w, if_made(w, chain).0),
    decreases chain, chain.arms@.len() + 1,
{
    broadcast use operations_keep;

    reveal(if_made);
    let (w1, merge) = opened(w);
    lemma_arms(w1, chain, 0, merge, true);
}

#[verifier::spinoff_prover]
proof fn lemma_value_arms(w: WorkView, chain: IfChain, i: nat, slot: usize, want: Native, merge: usize)
    ensures
        step(w, value_arms(w, chain, i, slot, want, merge)),
    decreases chain, chain.arms@.len() - i,
{
    broadcast use operations_keep;

    reveal(value_arms);
    no_step(w);
    if i < chain.arms@.len() {
        let (w1, body) = opened(w);
        let (w2, next) = opened(w1);
        let w3 = match chain.arms@[i as int].condition {
            Some(c) => {
                let (x, test) = expr_made(w2, c, Native::Bool);
                forked(x, test, body, next)
            },
            None => put(w2, Inst::Jump(body)),
        };
        match chain.arms@[i as int].condition {
            Some(c) => {
                lemma_expr(w2, c, Native::Bool);
            },
            None => {},
        }
        let inside = put(w3, Inst::At(body));
        let h = Handback::Store { slot, native: want, merge };
        let w4 = with_handback(inside, h);
        lemma_scoped(w4, chain.arms@[i as int].body);
        let (w5, left) = scoped_made(w4, chain.arms@[i as int].body);
        handback_step(inside, h, w5);
        let w6 = joined(without_handback(w5), left, merge);
        lemma_value_arms(put(w6, Inst::At(next)), chain, i + 1, slot, want, merge);
    }
}

#[verifier::spinoff_prover]
proof fn lemma_if_value(w: WorkView, chain: IfChain, want: Native)
    ensures
        step(w, if_value(w, chain, want).0),
    decreases chain, chain.arms@.len() + 1,
{
    broadcast use operations_keep;

    reveal(if_value);
    let (w1, slot) = made(w, Inst::Slot(kind_of(want)), Kind::Ptr);
    let (w2, merge) = opened(w1);
    lemma_value_arms(w2, chain, 0, slot.at, want, merge);
}

// ── loops ───────────────────────────────────────────────────────────────────

#[verifier::spinoff_prover]
proof fn lemma_range(w: WorkView, e: Expr)
    ensures
        step(w, range_made(w, e).0),
    decreases e, 1nat,
{
    broadcast use operations_keep;

    reveal(range_made);
    match e.kind {
        ExprKind::Range { from, to, by } => {
            lemma_expr(w, *from, Native::Int);
            let (w1, start) = expr_made(w, *from, Native::Int);
            lemma_expr(whole_bound(w1, start), *to, Native::Int);
            let (w2, end) = expr_made(whole_bound(w1, start), *to, Native::Int);
            lemma_by(whole_bound(w2, end), by);
        },
        _ => {},
    }
}

#[verifier::spinoff_prover]
pub(crate) proof fn lemma_bounds(w: WorkView, range: Expr)
    ensures
        step(w, bounds_made(w, range).0),
    decreases range, 2nat,
{
    reveal(bounds_made);
    match range.kind {
        ExprKind::Math(inner) => {
            lemma_range(w, *inner);
        },
        _ => {
            lemma_range(w, range);
        },
    }
}

#[verifier::spinoff_prover]
pub(crate) proof fn lemma_counted(w: WorkView, var: Seq<char>, b: Bounds, body: Vec<Stmt>)
    ensures
        step(w, counted_made(w, var, b, body)),
    decreases body, body@.len() + 2,
{
    broadcast use operations_keep;

    reveal(counted_made);
    let (w1, l) = loop_entered(w, b);
    let inside = declared(with_frame(w1), var, l.slot, Native::Int);
    declared_stride(with_frame(w1), var, l.slot, Native::Int);
    let w2 = with_continue(inside, l.step);
    lemma_block(w2, body, 0);
    let (w3, left) = block_made(w2, body, 0);
    continue_stride(inside, l.step, w3);
    let w4 = scope_released(without_continue(w3));
    step_is_stride(without_continue(w3), w4);
    stride_then(with_frame(w1), inside, without_continue(w3));
    stride_then(with_frame(w1), without_continue(w3), w4);
    closed_step(w1, w4);
}

#[verifier::spinoff_prover]
pub(crate) proof fn lemma_loop(w: WorkView, l: LoopStmt)
    ensures
        step(w, loop_made(w, l)),
    decreases l, 0nat,
{
    broadcast use operations_keep;

    reveal(loop_made);
    match l.kind {
        LoopKind::Counted { var, range, .. } => {
            lemma_bounds(w, range);
            let (w1, b) = bounds_made(w, range);
            lemma_counted(w1, var@, b, l.body);
        },
        LoopKind::While { condition } => {
            let (w1, cond) = opened(w);
            let (w2, body) = opened(w1);
            let (w3, done) = opened(w2);
            let w4 = put(put(w3, Inst::Jump(cond)), Inst::At(cond));
            lemma_expr(w4, condition, Native::Bool);
            let (w5, test) = expr_made(w4, condition, Native::Bool);
            released_step(w4, w5);
            let w6 = forked(temps_released(w5, w4.temps.len()), test, body, done);
            let inside = put(w6, Inst::At(body));
            let w7 = with_continue(inside, cond);
            lemma_scoped(w7, l.body);
            let (w8, left) = scoped_made(w7, l.body);
            continue_step(inside, cond, w8);
        },
    }
}

#[verifier::spinoff_prover]
proof fn lemma_loop_value(w: WorkView, l: LoopStmt, want: Native)
    ensures
        step(w, loop_value(w, l, want).0),
    decreases l, 1nat,
{
    broadcast use operations_keep;

    reveal(loop_value);
    let elem = if array_like(want) {
        peeled(want)
    } else {
        Native::Num
    };
    let (w1, kind) = made(w, Inst::Small(tag_of(elem)), Kind::Small);
    let (w2, array) = called(w1, Rt::ArrayEmpty, seq![kind]);
    let h = Handback::Push { array, elem };
    lemma_loop(with_handback(w2, h), l);
    handback_step(w2, h, loop_made(with_handback(w2, h), l));
}

// ── statements ──────────────────────────────────────────────────────────────

#[verifier::spinoff_prover]
pub(crate) proof fn lemma_block(w: WorkView, stmts: Vec<Stmt>, i: nat)
    ensures
        stride(w, block_made(w, stmts, i).0),
        block_made(w, stmts, i).0.temps == w.temps,
    decreases stmts, stmts@.len() - i,
{
    reveal(block_made);
    no_step(w);
    step_is_stride(w, w);
    if i < stmts@.len() {
        lemma_stmt(w, stmts@[i as int]);
        let (w1, left) = stmt_made(w, stmts@[i as int]);
        if left {
            forgotten_stride(w, w1);
        } else {
            released_stride(w, w1);
            let w2 = temps_released(w1, w.temps.len());
            lemma_block(w2, stmts, i + 1);
            stride_then(w, w2, block_made(w2, stmts, i + 1).0);
        }
    }
}

#[verifier::spinoff_prover]
pub(crate) proof fn lemma_scoped(w: WorkView, stmts: Vec<Stmt>)
    ensures
        step(w, scoped_made(w, stmts).0),
    decreases stmts, stmts@.len() + 1,
{
    reveal(scoped_made);
    let o = with_frame(w);
    lemma_block(o, stmts, 0);
    let (w1, left) = block_made(o, stmts, 0);
    keeps_scope_released(w1);
    step_is_stride(w1, scope_released(w1));
    stride_then(o, w1, scope_released(w1));
    closed_step(w, scope_released(w1));
}

#[verifier::spinoff_prover]
pub(crate) proof fn lemma_stmt(w: WorkView, stmt: Stmt)
    ensures
        stride(w, stmt_made(w, stmt).0),
    decreases stmt, 0nat,
{
    broadcast use operations_keep;

    reveal(stmt_made);
    no_step(w);
    let out = stmt_made(w, stmt).0;
    match stmt {
        Stmt::Func(_) => {
            step_is_stride(w, w);
        },
        Stmt::Var(v) => {
            lemma_bindings(w, v, 0);
        },
        Stmt::Change(c) => {
            lemma_targets(w, c, 0);
            step_is_stride(w, out);
        },
        Stmt::Print { args, .. } => {
            lemma_prints(w, args, 0);
            step_is_stride(w, out);
        },
        Stmt::If(chain) => {
            lemma_if(w, chain);
            step_is_stride(w, out);
        },
        Stmt::Loop(l) => {
            lemma_loop(w, l);
            step_is_stride(w, out);
        },
        Stmt::Handback { value, .. } => {
            lemma_handback(w, value);
            step_is_stride(w, out);
        },
        Stmt::Expr(e) => {
            lemma_effect(w, e);
            step_is_stride(w, out);
        },
    }
}

#[verifier::spinoff_prover]
proof fn lemma_effect(w: WorkView, e: Expr)
    ensures
        step(w, effect_made(w, e)),
    decreases e, 2nat,
{
    reveal(effect_made);
    lemma_expr(w, e, Native::Int);
    match e.kind {
        ExprKind::Call { name, args } => {
            lemma_call(w, name@, args, false);
        },
        _ => {},
    }
}

#[verifier::spinoff_prover]
pub(crate) proof fn lemma_bindings(w: WorkView, v: VarDecl, i: nat)
    ensures
        stride(w, bindings_made(w, v, i)),
    decreases v, v.bindings@.len() - i,
{
    reveal(bindings_made);
    no_step(w);
    step_is_stride(w, w);
    if i < v.bindings@.len() {
        let b = v.bindings@[i as int];
        match native_of(v.ty, b.shape) {
            Err(what) => {
                keeps_refused(w, what);
                step_is_stride(w, refused(w, what));
                lemma_bindings(refused(w, what), v, i + 1);
                stride_then(w, refused(w, what), bindings_made(w, v, i));
            },
            Ok(native) => {
                let digits = places_wanted(b.precision, v.ty.precision);
                lemma_binding(w, b, native, digits);
                let w1 = binding_made(w, b, native, digits);
                lemma_bindings(w1, v, i + 1);
                stride_then(w, w1, bindings_made(w, v, i));
            },
        }
    }
}

#[verifier::spinoff_prover]
pub(crate) proof fn lemma_binding(w: WorkView, b: Binding, native: Native, digits: u32)
    ensures
        stride(w, binding_made(w, b, native, digits)),
    decreases b, 0nat,
{
    broadcast use operations_keep;

    reveal(binding_made);
    match b.value {
        None => {
            step_is_stride(w, binding_made(w, b, native, digits));
        },
        Some(value) => {
            lemma_expr(with_digits(w, digits), value, native);
            let (w1, v) = expr_made(with_digits(w, digits), value, native);
            let (w2, slot) = made(w1, Inst::Slot(kind_of(native)), Kind::Ptr);
            let w3 = stored(kept(w2, v, native), slot.at, v, kind_of(native));
            step_is_stride(w, w3);
            declared_stride(w3, b.name@, slot.at, native);
            let w4 = declared(w3, b.name@, slot.at, native);
            stride_then(w, w3, w4);
            step_is_stride(w4, binding_made(w, b, native, digits));
            stride_then(w, w4, binding_made(w, b, native, digits));
        },
    }
}

#[verifier::spinoff_prover]
pub(crate) proof fn lemma_targets(w: WorkView, c: ChangeStmt, i: nat)
    ensures
        step(w, targets_made(w, c, i)),
    decreases c, c.targets@.len() - i,
{
    broadcast use operations_keep;

    reveal(targets_made);
    no_step(w);
    if i < c.targets@.len() {
        lemma_target(w, c.targets@[i as int]);
        lemma_targets(target_made(w, c.targets@[i as int]), c, i + 1);
    }
}

#[verifier::spinoff_prover]
proof fn lemma_write_checked(w: WorkView, sels: Seq<Selector>, i: nat)
    ensures
        step(w, write_checked(w, sels, i)),
    decreases sels.len() - i,
{
    broadcast use operations_keep;

    no_step(w);
    if i < sels.len() {
        lemma_write_checked(w, sels, i + 1);
    }
}

#[verifier::spinoff_prover]
pub(crate) proof fn lemma_target(w: WorkView, t: ChangeTarget)
    ensures
        step(w, target_made(w, t)),
    decreases t, 0nat,
{
    broadcast use operations_keep;

    reveal(target_made);
    match looked_up(w, t.name@) {
        None => {},
        Some((slot, held)) => {
            if t.selectors@.len() > 0 {
                let w1 = write_checked(w, t.selectors@, 0);
                lemma_write_checked(w, t.selectors@, 0);
                let (w2, array) = made(w1, Inst::Load { kind: Kind::Ptr, from: slot }, Kind::Ptr);
                lemma_index(w2, t.selectors, 0, array);
                let (w3, index) = index_made(w2, t.selectors, 0, array);
                lemma_expr(w3, t.value, element_of(held));
            } else {
                lemma_expr(w, t.value, held);
            }
        },
    }
}

#[verifier::spinoff_prover]
pub(crate) proof fn lemma_prints(w: WorkView, args: Vec<Expr>, i: nat)
    ensures
        step(w, prints_made(w, args, i)),
    decreases args, args@.len() - i,
{
    broadcast use operations_keep;

    reveal(prints_made);
    no_step(w);
    if i < args@.len() {
        let e = args@[i as int];
        lemma_expr(w, e, natural(w, e));
        let next = match e.kind {
            ExprKind::Str(t) => {
                let (w1, text) = chars_made(w, t@);
                called(w1, Rt::PrintStr, seq![text]).0
            },
            _ => {
                let (w1, v) = expr_made(w, e, natural(w, e));
                printed(w1, v, natural(w, e))
            },
        };
        lemma_prints(next, args, i + 1);
    }
}

#[verifier::spinoff_prover]
proof fn lemma_handback(w: WorkView, value: Expr)
    ensures
        step(w, handback_made(w, value).0),
    decreases value, 3nat,
{
    broadcast use operations_keep;

    reveal(handback_made);
    if w.handbacks.len() > 0 {
        match w.handbacks.last() {
            Handback::Store { slot, native, merge } => {
                reveal(store_made);
                lemma_expr(w, value, native);
                let (w1, v) = expr_made(w, value, native);
                released_step(w, stored(kept(w1, v, native), slot, v, kind_of(native)));
            },
            Handback::Push { array, elem } => {
                reveal(push_made);
                lemma_expr(w, value, elem);
                let (w1, v) = expr_made(w, value, elem);
                released_step(w, element_pushed(w1, array, v, elem));
            },
        }
    } else if !w.top {
        if w.ret is Nothing {
            reveal(left_empty);
            no_step(w);
            released_step(w, w);
            let w1 = temps_released(w, w.temps.len());
            keeps_scopes_released(w1, w1.frames.len());
        } else {
            reveal(return_made);
            lemma_expr(w, value, w.ret);
            let (w1, v) = expr_made(w, value, w.ret);
            released_step(w, kept(w1, v, w.ret));
            let w2 = temps_released(kept(w1, v, w.ret), w.temps.len());
            keeps_scopes_released(w2, w2.frames.len());
        }
    }
}

// ── laws ────────────────────────────────────────────────────────────────────

/// Lowering an expression leaves every scope as it was and takes back nothing that was
/// emitted. The first refusal stays the one that is reported.
pub proof fn an_expression_leaves_the_scopes_alone(w: WorkView, e: Expr, want: Native)
    ensures
        ({
            let after = expr_made(w, e, want).0;
            &&& after.frames == w.frames
            &&& after.handbacks == w.handbacks
            &&& after.continues == w.continues
            &&& extended(w.code, after.code)
            &&& extended(w.temps, after.temps)
            &&& w.refusal is Some ==> after.refusal == w.refusal
        }),
{
    reveal(step);
    lemma_expr(w, e, want);
}

/// Behind every block, no heap value that one of its statements made is still recorded: each
/// was released, or the block was left. A loop therefore holds no more after many rounds
/// than after one.
pub proof fn a_block_holds_nothing_back(w: WorkView, stmts: Vec<Stmt>)
    ensures
        block_made(w, stmts, 0).0.temps == w.temps,
{
    lemma_block(w, stmts, 0);
}

/// What a block declares is forgotten behind it.
pub proof fn a_block_declares_for_itself(w: WorkView, stmts: Vec<Stmt>)
    ensures
        scoped_made(w, stmts).0.frames == w.frames,
{
    reveal(step);
    lemma_scoped(w, stmts);
}

} // verus!
