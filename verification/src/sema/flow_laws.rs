//! A body that is said to hand a value back on every path does.

use vstd::prelude::*;

use crate::ast::{IfChain, Stmt};
use crate::eval::semantics::{block_from, chain_from, scoped, statement_result, World};
use crate::sema::typing::{all_hand_back, hands_back, has_else, statement_hands_back};

verus! {

proof fn lemma_block(d: nat, w: World, stmts: Vec<Stmt>, i: nat)
    requires
        hands_back(stmts, i),
        block_from(d, w, stmts, i).1 is Ok,
    ensures
        block_from(d, w, stmts, i).1->Ok_0 is Handback,
    decreases stmts, stmts@.len() - i,
{
    let stmt = stmts@[i as int];
    let (w1, r) = statement_result(d, w, stmt);
    if r is Ok {
        if statement_hands_back(stmt) {
            lemma_statement(d, w, stmt);
        } else if r->Ok_0 is Normal {
            lemma_block(d, w1, stmts, i + 1);
        }
    }
}

proof fn lemma_statement(d: nat, w: World, stmt: Stmt)
    requires
        statement_hands_back(stmt),
        statement_result(d, w, stmt).1 is Ok,
    ensures
        statement_result(d, w, stmt).1->Ok_0 is Handback,
    decreases stmt, 0nat,
{
    if let Stmt::If(chain) = stmt {
        let k = choose|k: int| 0 <= k < chain.arms@.len() && (#[trigger] chain.arms@[k]).condition is None;
        lemma_chain(d, w, chain, 0, k);
    }
}

proof fn lemma_chain(d: nat, w: World, chain: IfChain, i: nat, k: int)
    requires
        all_hand_back(chain, i),
        i <= k < chain.arms@.len(),
        chain.arms@[k].condition is None,
        chain_from(d, w, chain, i).1 is Ok,
    ensures
        chain_from(d, w, chain, i).1->Ok_0 is Handback,
    decreases chain, chain.arms@.len() - i,
{
    let arm = chain.arms@[i as int];
    match arm.condition {
        None => {
            assert(chain_from(d, w, chain, i) == scoped(d, w, arm.body));
            assert(scoped(d, w, arm.body).1 == block_from(d, crate::eval::semantics::opened(w), arm.body, 0).1);
            lemma_block(d, crate::eval::semantics::opened(w), arm.body, 0);
        },
        Some(cond) => {
            let (w1, r) = crate::eval::semantics::expr_result(d, w, cond, None);
            if let Ok(crate::eval::value::Val::Bool(b)) = r {
                if b {
                    assert(chain_from(d, w, chain, i) == scoped(d, w1, arm.body));
                    assert(scoped(d, w1, arm.body).1 == block_from(d, crate::eval::semantics::opened(w1), arm.body, 0).1);
                    lemma_block(d, crate::eval::semantics::opened(w1), arm.body, 0);
                } else {
                    lemma_chain(d, w1, chain, i + 1, k);
                }
            }
        },
    }
}

/// A body of which checking finds that every path hands a value back, run to its end, has
/// handed one back.
pub proof fn a_body_that_hands_back_does(d: nat, w: World, stmts: Vec<Stmt>)
    requires
        hands_back(stmts, 0),
        scoped(d, w, stmts).1 is Ok,
    ensures
        scoped(d, w, stmts).1->Ok_0 is Handback,
{
    lemma_block(d, crate::eval::semantics::opened(w), stmts, 0);
}

/// A conditional with an `else` whose every arm hands back does too.
pub proof fn a_conditional_that_hands_back_does(d: nat, w: World, chain: IfChain)
    requires
        has_else(chain),
        all_hand_back(chain, 0),
        chain_from(d, w, chain, 0).1 is Ok,
    ensures
        chain_from(d, w, chain, 0).1->Ok_0 is Handback,
{
    let k = choose|k: int| 0 <= k < chain.arms@.len() && (#[trigger] chain.arms@[k]).condition is None;
    lemma_chain(d, w, chain, 0, k);
}

} // verus!
