//! Normalization: flattening raw expression trees into normalized equations.
//!
//! Every call or followed-by found nested inside another expression is
//! replaced by a freshly synthesized identifier `tmp_<counter>`, and an
//! equation defining that identifier is recorded; recorded equations are
//! appended to the node's body, and the synthesized names are registered in
//! its local table with a unit placeholder type. The counter is created once
//! per compilation run and threaded through every node, so no two
//! synthesized names collide anywhere in the unit.
//!
//! The functions here are specified against the spec-level model
//! [`norm_node`] and its helpers, which state exactly which normalized body
//! comes out of which raw body.

use vstd::prelude::*;

use crate::ast;
use crate::ast::{EquationV, ExprV, TypeV};
use crate::error::Error;
use crate::nast;
use crate::text::{make_tmp_name, tmp_name};

verus! {

broadcast use
    vstd::std_specs::vec::axiom_vec_decreases_to_view,
    vstd::seq::axiom_seq_index_decreases,
    vstd::seq::axiom_seq_subrange_decreases;

/// The view of a recorded equation list.
pub open spec fn neqs_view(s: Seq<nast::Equation>) -> Seq<nast::EquationV> {
    s.map_values(|e: nast::Equation| e@)
}

/// How many temporaries normalizing `e` can possibly mint: one per call or
/// followed-by in the tree.
pub open spec fn hoist_weight(e: ExprV) -> nat
    decreases e,
{
    match e {
        ExprV::Call { name: _, args } => 1 + hoist_weight_seq(args),
        ExprV::Const(_) => 0,
        ExprV::Unop(_, sub) => hoist_weight(*sub),
        ExprV::Binop(_, lhs, rhs) => hoist_weight(*lhs) + hoist_weight(*rhs),
        ExprV::Fby(init, next) => 1 + hoist_weight(*init) + hoist_weight(*next),
        ExprV::If { condition, if_body, else_body } => hoist_weight(*condition)
            + hoist_weight(*if_body) + hoist_weight(*else_body),
        ExprV::Ident(_) => 0,
        ExprV::Tuple(elems) => hoist_weight_seq(elems),
    }
}

pub open spec fn hoist_weight_seq(es: Seq<ExprV>) -> nat
    decreases es,
{
    if es.len() == 0 {
        0
    } else {
        hoist_weight_seq(es.drop_last()) + hoist_weight(es.last())
    }
}

/// The weight of a whole equation list.
pub open spec fn hoist_weight_body(body: Seq<EquationV>) -> nat
    decreases body,
{
    if body.len() == 0 {
        0
    } else {
        hoist_weight_body(body.drop_last()) + hoist_weight(body.last().body)
    }
}

// The normalization model. A result is `(normalized part, recorded
// equations, next counter value)`; `None` is a structural violation: a
// followed-by whose initial side is not constants, whose sides do not pair
// up, or an equation binding no name.

pub open spec fn norm_bexpr(e: ExprV, c: nat) -> Option<(nast::BexprV, Seq<nast::EquationV>, nat)>
    decreases e,
{
    match e {
        ExprV::Ident(n) => Some((nast::BexprV::Atom(nast::AtomV::Ident(n)), Seq::empty(), c)),
        ExprV::Const(k) => Some((nast::BexprV::Atom(nast::AtomV::Const(k)), Seq::empty(), c)),
        ExprV::Unop(op, sub) => match norm_bexpr(*sub, c) {
            Some((b, adds, c1)) => Some((nast::BexprV::Unop(op, Box::new(b)), adds, c1)),
            None => None,
        },
        ExprV::Binop(op, lhs, rhs) => match norm_bexpr(*lhs, c) {
            Some((bl, a1, c1)) => match norm_bexpr(*rhs, c1) {
                Some((br, a2, c2)) => Some((
                    nast::BexprV::Binop(op, Box::new(bl), Box::new(br)),
                    a1 + a2,
                    c2,
                )),
                None => None,
            },
            None => None,
        },
        ExprV::If { condition, if_body, else_body } => match norm_bexpr(*condition, c) {
            Some((bc, a1, c1)) => match norm_bexpr(*if_body, c1) {
                Some((bt, a2, c2)) => match norm_bexpr(*else_body, c2) {
                    Some((be, a3, c3)) => Some((
                        nast::BexprV::If {
                            condition: Box::new(bc),
                            if_body: Box::new(bt),
                            else_body: Box::new(be),
                        },
                        a1 + a2 + a3,
                        c3,
                    )),
                    None => None,
                },
                None => None,
            },
            None => None,
        },
        ExprV::Tuple(elems) => match norm_bexpr_seq(elems, c) {
            Some((bs, adds, c1)) => Some((nast::BexprV::Tuple(bs), adds, c1)),
            None => None,
        },
        ExprV::Call { name, args } => match norm_bexpr_seq(args, c) {
            Some((bs, adds, c1)) => Some((
                nast::BexprV::Atom(nast::AtomV::Ident(tmp_name(c1))),
                adds.push(nast::EquationV {
                    names: seq![tmp_name(c1)],
                    body: nast::ExprV::Call { name, args: bs },
                }),
                c1 + 1,
            )),
            None => None,
        },
        ExprV::Fby(init, next) => match *init {
            ExprV::Const(k) => match norm_bexpr(*next, c) {
                Some((b, adds, c1)) => Some((
                    nast::BexprV::Atom(nast::AtomV::Ident(tmp_name(c1))),
                    adds.push(nast::EquationV {
                        names: seq![tmp_name(c1)],
                        body: nast::ExprV::Fby(seq![nast::AtomV::Const(k)], seq![b]),
                    }),
                    c1 + 1,
                )),
                None => None,
            },
            _ => None,
        },
    }
}

pub open spec fn norm_bexpr_seq(es: Seq<ExprV>, c: nat) -> Option<(
    Seq<nast::BexprV>,
    Seq<nast::EquationV>,
    nat,
)>
    decreases es,
{
    if es.len() == 0 {
        Some((Seq::empty(), Seq::empty(), c))
    } else {
        match norm_bexpr_seq(es.drop_last(), c) {
            Some((bs, adds, c1)) => match norm_bexpr(es.last(), c1) {
                Some((b, a2, c2)) => Some((bs.push(b), adds + a2, c2)),
                None => None,
            },
            None => None,
        }
    }
}

/// The initial side of a followed-by, as constant atoms; `None` when any
/// part of it is not a constant.
pub open spec fn fby_inits(e: ExprV) -> Option<Seq<nast::AtomV>> {
    match e {
        ExprV::Const(k) => Some(seq![nast::AtomV::Const(k)]),
        ExprV::Tuple(elems) => const_atoms(elems),
        _ => None,
    }
}

pub open spec fn const_atoms(es: Seq<ExprV>) -> Option<Seq<nast::AtomV>>
    decreases es,
{
    if es.len() == 0 {
        Some(Seq::empty())
    } else {
        match const_atoms(es.drop_last()) {
            Some(atoms) => match es.last() {
                ExprV::Const(k) => Some(atoms.push(nast::AtomV::Const(k))),
                _ => None,
            },
            None => None,
        }
    }
}

/// The next side of a top-level followed-by: a tuple normalizes elementwise,
/// anything else to a single basic expression.
pub open spec fn norm_fby_next(e: ExprV, c: nat) -> Option<(
    Seq<nast::BexprV>,
    Seq<nast::EquationV>,
    nat,
)> {
    match e {
        ExprV::Tuple(elems) => norm_bexpr_seq(elems, c),
        _ => match norm_bexpr(e, c) {
            Some((b, adds, c1)) => Some((seq![b], adds, c1)),
            None => None,
        },
    }
}

/// Normalizing the top of an equation body: a call or followed-by here
/// stays, everything else becomes a basic expression.
pub open spec fn norm_top(e: ExprV, c: nat) -> Option<(nast::ExprV, Seq<nast::EquationV>, nat)> {
    match e {
        ExprV::Call { name, args } => match norm_bexpr_seq(args, c) {
            Some((bs, adds, c1)) => Some((nast::ExprV::Call { name, args: bs }, adds, c1)),
            None => None,
        },
        ExprV::Fby(init, next) => match fby_inits(*init) {
            Some(inits) => match norm_fby_next(*next, c) {
                Some((bs, adds, c1)) => if bs.len() == inits.len() {
                    Some((nast::ExprV::Fby(inits, bs), adds, c1))
                } else {
                    None
                },
                None => None,
            },
            None => None,
        },
        _ => match norm_bexpr(e, c) {
            Some((b, adds, c1)) => Some((nast::ExprV::Bexpr(b), adds, c1)),
            None => None,
        },
    }
}

/// Normalizing one equation; fails when it binds no name.
pub open spec fn norm_eq(eq: EquationV, c: nat) -> Option<(nast::EquationV, Seq<nast::EquationV>, nat)> {
    if eq.names.len() == 0 {
        None
    } else {
        match norm_top(eq.body, c) {
            Some((ne, adds, c1)) => Some((
                nast::EquationV { names: eq.names, body: ne },
                adds,
                c1,
            )),
            None => None,
        }
    }
}

/// Normalizing a whole body: `(normalized originals, recorded equations,
/// next counter)`.
pub open spec fn norm_body(body: Seq<EquationV>, c: nat) -> Option<(
    Seq<nast::EquationV>,
    Seq<nast::EquationV>,
    nat,
)>
    decreases body,
{
    if body.len() == 0 {
        Some((Seq::empty(), Seq::empty(), c))
    } else {
        match norm_body(body.drop_last(), c) {
            Some((mains, adds, c1)) => match norm_eq(body.last(), c1) {
                Some((ne, a2, c2)) => Some((mains.push(ne), adds + a2, c2)),
                None => None,
            },
            None => None,
        }
    }
}

/// The local-table entries registered for recorded equations: each
/// synthesized name with a unit placeholder type.
pub open spec fn added_locals(adds: Seq<nast::EquationV>) -> Seq<(Seq<char>, TypeV)> {
    adds.map_values(|e: nast::EquationV| (e.names[0], TypeV::Unit))
}

/// The full node-level model: recorded equations are appended to the body
/// and registered as locals.
pub open spec fn norm_node(n: ast::NodeV, c: nat) -> Option<(nast::NodeV, nat)> {
    match norm_body(n.body, c) {
        Some((mains, adds, c1)) => Some((
            nast::NodeV {
                name: n.name,
                args_in: n.args_in,
                args_out: n.args_out,
                locals: n.locals + added_locals(adds),
                body: mains + adds,
            },
            c1,
        )),
        None => None,
    }
}

// The counter never moves by more than the hoist weight.

pub proof fn lemma_norm_bexpr_bound(e: ExprV, c: nat)
    ensures
        norm_bexpr(e, c) matches Some(t) ==> c <= t.2 <= c + hoist_weight(e),
    decreases e,
{
    match e {
        ExprV::Unop(_, sub) => {
            lemma_norm_bexpr_bound(*sub, c);
        }
        ExprV::Binop(_, lhs, rhs) => {
            lemma_norm_bexpr_bound(*lhs, c);
            if let Some((_, _, c1)) = norm_bexpr(*lhs, c) {
                lemma_norm_bexpr_bound(*rhs, c1);
            }
        }
        ExprV::If { condition, if_body, else_body } => {
            lemma_norm_bexpr_bound(*condition, c);
            if let Some((_, _, c1)) = norm_bexpr(*condition, c) {
                lemma_norm_bexpr_bound(*if_body, c1);
                if let Some((_, _, c2)) = norm_bexpr(*if_body, c1) {
                    lemma_norm_bexpr_bound(*else_body, c2);
                }
            }
        }
        ExprV::Tuple(elems) => {
            lemma_norm_bexpr_seq_bound(elems, c);
        }
        ExprV::Call { name: _, args } => {
            lemma_norm_bexpr_seq_bound(args, c);
        }
        ExprV::Fby(init, next) => {
            if let ExprV::Const(_) = *init {
                lemma_norm_bexpr_bound(*next, c);
            }
        }
        _ => {}
    }
}

pub proof fn lemma_norm_bexpr_seq_bound(es: Seq<ExprV>, c: nat)
    ensures
        norm_bexpr_seq(es, c) matches Some(t) ==> c <= t.2 <= c + hoist_weight_seq(es),
    decreases es,
{
    if es.len() > 0 {
        lemma_norm_bexpr_seq_bound(es.drop_last(), c);
        if let Some((_, _, c1)) = norm_bexpr_seq(es.drop_last(), c) {
            lemma_norm_bexpr_bound(es.last(), c1);
        }
    }
}

pub proof fn lemma_norm_top_bound(e: ExprV, c: nat)
    ensures
        norm_top(e, c) matches Some(t) ==> c <= t.2 <= c + hoist_weight(e),
{
    match e {
        ExprV::Call { name: _, args } => {
            lemma_norm_bexpr_seq_bound(args, c);
        }
        ExprV::Fby(_, next) => {
            if let ExprV::Tuple(elems) = *next {
                lemma_norm_bexpr_seq_bound(elems, c);
                assert(hoist_weight(ExprV::Tuple(elems)) == hoist_weight_seq(elems));
            } else {
                lemma_norm_bexpr_bound(*next, c);
            }
        }
        _ => {
            lemma_norm_bexpr_bound(e, c);
        }
    }
}

pub proof fn lemma_norm_body_bound(body: Seq<EquationV>, c: nat)
    ensures
        norm_body(body, c) matches Some(t) ==> c <= t.2 <= c + hoist_weight_body(body),
    decreases body,
{
    if body.len() > 0 {
        lemma_norm_body_bound(body.drop_last(), c);
        if let Some((_, _, c1)) = norm_body(body.drop_last(), c) {
            lemma_norm_top_bound(body.last().body, c1);
        }
    }
}

/// Every recorded equation binds exactly one name, a temporary minted in the
/// counter window `[lo, hi)`.
pub open spec fn tmp_names_in(adds: Seq<nast::EquationV>, lo: nat, hi: nat) -> bool {
    forall|j: int| 0 <= j < adds.len() ==> (#[trigger] adds[j]).names.len() == 1 && exists|k: nat|
        lo <= k < hi && adds[j].names[0] == tmp_name(k)
}

/// No two recorded equations bind the same name.
pub open spec fn add_names_distinct(adds: Seq<nast::EquationV>) -> bool {
    forall|j1: int, j2: int| 0 <= j1 < j2 < adds.len() ==> (#[trigger] adds[j1]).names[0] != (
    #[trigger] adds[j2]).names[0]
}

pub proof fn lemma_window_widen(adds: Seq<nast::EquationV>, lo: nat, hi: nat, lo2: nat, hi2: nat)
    requires
        tmp_names_in(adds, lo, hi),
        lo2 <= lo,
        hi <= hi2,
    ensures
        tmp_names_in(adds, lo2, hi2),
{
    assert forall|j: int| 0 <= j < adds.len() implies (#[trigger] adds[j]).names.len() == 1
        && exists|k: nat| lo2 <= k < hi2 && adds[j].names[0] == tmp_name(k) by {
        let k = choose|k: nat| lo <= k < hi && adds[j].names[0] == tmp_name(k);
        assert(lo2 <= k < hi2 && adds[j].names[0] == tmp_name(k));
    }
}

/// Concatenating recordings from adjacent counter windows keeps the names
/// single, windowed and distinct.
pub proof fn lemma_adds_concat(
    a1: Seq<nast::EquationV>,
    a2: Seq<nast::EquationV>,
    lo: nat,
    mid: nat,
    hi: nat,
)
    requires
        lo <= mid <= hi,
        tmp_names_in(a1, lo, mid),
        tmp_names_in(a2, mid, hi),
        add_names_distinct(a1),
        add_names_distinct(a2),
    ensures
        tmp_names_in(a1 + a2, lo, hi),
        add_names_distinct(a1 + a2),
{
    let all = a1 + a2;
    lemma_window_widen(a1, lo, mid, lo, hi);
    lemma_window_widen(a2, mid, hi, lo, hi);
    assert forall|j: int| 0 <= j < all.len() implies (#[trigger] all[j]).names.len() == 1
        && exists|k: nat| lo <= k < hi && all[j].names[0] == tmp_name(k) by {
        if j < a1.len() {
            assert(all[j] == a1[j]);
        } else {
            assert(all[j] == a2[j - a1.len()]);
        }
    }
    assert forall|j1: int, j2: int| 0 <= j1 < j2 < all.len() implies (
    #[trigger] all[j1]).names[0] != (#[trigger] all[j2]).names[0] by {
        if j1 < a1.len() && j2 >= a1.len() {
            let e1 = a1[j1];
            let e2 = a2[j2 - a1.len()];
            let k1 = choose|k: nat| lo <= k < mid && e1.names[0] == tmp_name(k);
            let k2 = choose|k: nat| mid <= k < hi && e2.names[0] == tmp_name(k);
            crate::text::lemma_tmp_name_injective(k1, k2);
        } else if j1 >= a1.len() {
            assert(all[j1] == a2[j1 - a1.len()]);
            assert(all[j2] == a2[j2 - a1.len()]);
        } else {
            assert(all[j1] == a1[j1]);
            assert(all[j2] == a1[j2]);
        }
    }
}

/// Appending one fresh recording at the top of the window.
pub proof fn lemma_adds_push(adds: Seq<nast::EquationV>, eq: nast::EquationV, lo: nat, hi: nat)
    requires
        lo <= hi,
        tmp_names_in(adds, lo, hi),
        add_names_distinct(adds),
        eq.names =~= seq![tmp_name(hi)],
    ensures
        tmp_names_in(adds.push(eq), lo, hi + 1),
        add_names_distinct(adds.push(eq)),
{
    assert(tmp_names_in(seq![eq], hi, hi + 1)) by {
        assert(seq![eq][0].names[0] == tmp_name(hi));
    }
    lemma_adds_concat(adds, seq![eq], lo, hi, hi + 1);
    assert(adds + seq![eq] =~= adds.push(eq));
}

/// The names recorded while normalizing are fresh: one per counter value in
/// the window the run moved through, each distinct from every other.
pub proof fn lemma_norm_bexpr_adds(e: ExprV, c: nat)
    ensures
        norm_bexpr(e, c) matches Some(t) ==> tmp_names_in(t.1, c, t.2) && add_names_distinct(t.1),
    decreases e,
{
    lemma_norm_bexpr_bound(e, c);
    match e {
        ExprV::Unop(_, sub) => {
            lemma_norm_bexpr_adds(*sub, c);
        }
        ExprV::Binop(_, lhs, rhs) => {
            lemma_norm_bexpr_adds(*lhs, c);
            if let Some((_, a1, c1)) = norm_bexpr(*lhs, c) {
                lemma_norm_bexpr_adds(*rhs, c1);
                lemma_norm_bexpr_bound(*lhs, c);
                lemma_norm_bexpr_bound(*rhs, c1);
                if let Some((_, a2, c2)) = norm_bexpr(*rhs, c1) {
                    lemma_adds_concat(a1, a2, c, c1, c2);
                }
            }
        }
        ExprV::If { condition, if_body, else_body } => {
            lemma_norm_bexpr_adds(*condition, c);
            if let Some((_, a1, c1)) = norm_bexpr(*condition, c) {
                lemma_norm_bexpr_adds(*if_body, c1);
                lemma_norm_bexpr_bound(*condition, c);
                if let Some((_, a2, c2)) = norm_bexpr(*if_body, c1) {
                    lemma_norm_bexpr_adds(*else_body, c2);
                    lemma_norm_bexpr_bound(*if_body, c1);
                    if let Some((_, a3, c3)) = norm_bexpr(*else_body, c2) {
                        lemma_norm_bexpr_bound(*else_body, c2);
                        lemma_adds_concat(a1, a2, c, c1, c2);
                        lemma_adds_concat(a1 + a2, a3, c, c2, c3);
                    }
                }
            }
        }
        ExprV::Tuple(elems) => {
            lemma_norm_bexpr_seq_adds(elems, c);
        }
        ExprV::Call { name: _, args } => {
            lemma_norm_bexpr_seq_adds(args, c);
            lemma_norm_bexpr_seq_bound(args, c);
            if let Some((_, adds, c1)) = norm_bexpr_seq(args, c) {
                let eq = nast::EquationV {
                    names: seq![tmp_name(c1)],
                    body: nast::ExprV::Call { name: e->Call_name, args: norm_bexpr_seq(args, c).unwrap().0 },
                };
                lemma_adds_push(adds, eq, c, c1);
            }
        }
        ExprV::Fby(init, next) => {
            if let ExprV::Const(k) = *init {
                lemma_norm_bexpr_adds(*next, c);
                lemma_norm_bexpr_bound(*next, c);
                if let Some((b, adds, c1)) = norm_bexpr(*next, c) {
                    let eq = nast::EquationV {
                        names: seq![tmp_name(c1)],
                        body: nast::ExprV::Fby(seq![nast::AtomV::Const(k)], seq![b]),
                    };
                    lemma_adds_push(adds, eq, c, c1);
                }
            }
        }
        _ => {}
    }
}

pub proof fn lemma_norm_bexpr_seq_adds(es: Seq<ExprV>, c: nat)
    ensures
        norm_bexpr_seq(es, c) matches Some(t) ==> tmp_names_in(t.1, c, t.2) && add_names_distinct(
            t.1,
        ),
    decreases es,
{
    if es.len() > 0 {
        lemma_norm_bexpr_seq_adds(es.drop_last(), c);
        if let Some((_, a1, c1)) = norm_bexpr_seq(es.drop_last(), c) {
            lemma_norm_bexpr_adds(es.last(), c1);
            lemma_norm_bexpr_seq_bound(es.drop_last(), c);
            lemma_norm_bexpr_bound(es.last(), c1);
            if let Some((_, a2, c2)) = norm_bexpr(es.last(), c1) {
                lemma_adds_concat(a1, a2, c, c1, c2);
            }
        }
    }
}

pub proof fn lemma_norm_top_adds(e: ExprV, c: nat)
    ensures
        norm_top(e, c) matches Some(t) ==> tmp_names_in(t.1, c, t.2) && add_names_distinct(t.1),
{
    match e {
        ExprV::Call { name: _, args } => {
            lemma_norm_bexpr_seq_adds(args, c);
        }
        ExprV::Fby(_, next) => {
            if let ExprV::Tuple(elems) = *next {
                lemma_norm_bexpr_seq_adds(elems, c);
            } else {
                lemma_norm_bexpr_adds(*next, c);
            }
        }
        _ => {
            lemma_norm_bexpr_adds(e, c);
        }
    }
}

pub proof fn lemma_norm_eq_adds(eq: EquationV, c: nat)
    ensures
        norm_eq(eq, c) matches Some(t) ==> tmp_names_in(t.1, c, t.2) && add_names_distinct(t.1),
{
    lemma_norm_top_adds(eq.body, c);
}

pub proof fn lemma_norm_eq_bound(eq: EquationV, c: nat)
    ensures
        norm_eq(eq, c) matches Some(t) ==> c <= t.2 <= c + hoist_weight(eq.body),
{
    lemma_norm_top_bound(eq.body, c);
}

pub proof fn lemma_norm_body_adds(body: Seq<EquationV>, c: nat)
    ensures
        norm_body(body, c) matches Some(t) ==> tmp_names_in(t.1, c, t.2) && add_names_distinct(
            t.1,
        ),
    decreases body,
{
    if body.len() > 0 {
        lemma_norm_body_adds(body.drop_last(), c);
        if let Some((_, a1, c1)) = norm_body(body.drop_last(), c) {
            lemma_norm_eq_adds(body.last(), c1);
            lemma_norm_body_bound(body.drop_last(), c);
            lemma_norm_eq_bound(body.last(), c1);
            if let Some((_, a2, c2)) = norm_eq(body.last(), c1) {
                lemma_adds_concat(a1, a2, c, c1, c2);
            }
        }
    }
}

// Seq helpers used when walking a vector against the model.

pub proof fn lemma_take_step<A>(s: Seq<A>, i: int)
    requires
        0 <= i < s.len(),
    ensures
        s.take(i + 1).drop_last() =~= s.take(i),
        s.take(i + 1).last() == s[i],
{
}

pub proof fn lemma_weight_seq_take(s: Seq<ExprV>, i: int)
    requires
        0 <= i < s.len(),
    ensures
        hoist_weight_seq(s.take(i + 1)) == hoist_weight_seq(s.take(i)) + hoist_weight(s[i]),
{
    lemma_take_step(s, i);
    assert(hoist_weight_seq(s.take(i + 1)) == hoist_weight_seq(s.take(i + 1).drop_last())
        + hoist_weight(s.take(i + 1).last()));
}

pub proof fn lemma_weight_seq_prefix(s: Seq<ExprV>, k: int)
    requires
        0 <= k <= s.len(),
    ensures
        hoist_weight_seq(s.take(k)) <= hoist_weight_seq(s),
    decreases s.len() - k,
{
    if k == s.len() {
        assert(s.take(k) =~= s);
    } else {
        lemma_weight_seq_take(s, k);
        lemma_weight_seq_prefix(s, k + 1);
    }
}

/// The temporary-name counter and the table of recorded equations, created
/// once per compilation run and threaded through every node.
#[derive(Debug)]
pub struct Normalizer {
    pub counter: u64,
    pub memory: Vec<nast::Equation>,
}

impl Normalizer {
    pub fn new() -> (r: Self)
        ensures
            r.counter == 0,
            r.memory@ =~= Seq::<nast::Equation>::empty(),
    {
        Normalizer { counter: 0, memory: Vec::new() }
    }

    /// Mints the next synthesized name.
    pub fn next_tmp(&mut self) -> (r: String)
        requires
            old(self).counter < u64::MAX,
        ensures
            r@ == tmp_name(old(self).counter as nat),
            final(self).counter == old(self).counter + 1,
            final(self).memory == old(self).memory,
    {
        let name = make_tmp_name(self.counter);
        self.counter = self.counter + 1;
        name
    }
}

/// Normalizes a nested expression into a basic one, recording an equation
/// for every call or followed-by found on the way.
fn normalize_bexpr(e: &ast::Expr, nz: &mut Normalizer) -> (r: Option<nast::Bexpr>)
    requires
        old(nz).counter as nat + hoist_weight(e@) <= u64::MAX as nat,
    ensures
        r is Some <==> norm_bexpr(e@, old(nz).counter as nat) is Some,
        norm_bexpr(e@, old(nz).counter as nat) matches Some(t) ==> {
            &&& r matches Some(rb) && rb@ == t.0
            &&& final(nz).counter as nat == t.2
            &&& neqs_view(final(nz).memory@) == neqs_view(old(nz).memory@) + t.1
        },
    decreases e,
{
    match e {
        ast::Expr::Ident(n) => {
            let r = Some(nast::Bexpr::Atom(nast::Atom::Ident(n.clone())));
            proof {
                assert(neqs_view(nz.memory@) =~= neqs_view(nz.memory@) + Seq::empty());
            }
            r
        }
        ast::Expr::Const(k) => {
            let r = Some(nast::Bexpr::Atom(nast::Atom::Const(k.clone())));
            proof {
                assert(neqs_view(nz.memory@) =~= neqs_view(nz.memory@) + Seq::empty());
            }
            r
        }
        ast::Expr::Unop(op, sub) => {
            match normalize_bexpr(&**sub, nz) {
                Some(b) => Some(nast::Bexpr::Unop(*op, Box::new(b))),
                None => None,
            }
        }
        ast::Expr::Binop(op, lhs, rhs) => {
            let ghost c0 = nz.counter as nat;
            match normalize_bexpr(&**lhs, nz) {
                Some(bl) => {
                    proof {
                        lemma_norm_bexpr_bound((**lhs)@, c0);
                    }
                    match normalize_bexpr(&**rhs, nz) {
                        Some(br) => {
                            let r = Some(nast::Bexpr::Binop(*op, Box::new(bl), Box::new(br)));
                            proof {
                                let t1 = norm_bexpr((**lhs)@, c0).unwrap();
                                let t2 = norm_bexpr((**rhs)@, t1.2).unwrap();
                                assert(neqs_view(old(nz).memory@) + t1.1 + t2.1 =~= neqs_view(
                                    old(nz).memory@,
                                ) + (t1.1 + t2.1));
                            }
                            r
                        }
                        None => None,
                    }
                }
                None => None,
            }
        }
        ast::Expr::If { condition, if_body, else_body } => {
            let ghost c0 = nz.counter as nat;
            match normalize_bexpr(&**condition, nz) {
                Some(bc) => {
                    proof {
                        lemma_norm_bexpr_bound((**condition)@, c0);
                    }
                    let ghost c1 = nz.counter as nat;
                    match normalize_bexpr(&**if_body, nz) {
                        Some(bt) => {
                            proof {
                                lemma_norm_bexpr_bound((**if_body)@, c1);
                            }
                            match normalize_bexpr(&**else_body, nz) {
                                Some(be) => {
                                    let r = Some(nast::Bexpr::If {
                                        condition: Box::new(bc),
                                        if_body: Box::new(bt),
                                        else_body: Box::new(be),
                                    });
                                    proof {
                                        let t1 = norm_bexpr((**condition)@, c0).unwrap();
                                        let t2 = norm_bexpr((**if_body)@, t1.2).unwrap();
                                        let t3 = norm_bexpr((**else_body)@, t2.2).unwrap();
                                        assert(neqs_view(old(nz).memory@) + t1.1 + t2.1 + t3.1
                                            =~= neqs_view(old(nz).memory@) + (t1.1 + t2.1 + t3.1));
                                    }
                                    r
                                }
                                None => None,
                            }
                        }
                        None => None,
                    }
                }
                None => None,
            }
        }
        ast::Expr::Tuple(elems) => {
            match normalize_args(elems, nz) {
                Some(bs) => Some(nast::Bexpr::Tuple(bs)),
                None => None,
            }
        }
        ast::Expr::Call { name, args } => {
            let ghost c0 = nz.counter as nat;
            match normalize_args(args, nz) {
                Some(bs) => {
                    proof {
                        lemma_norm_bexpr_seq_bound(ast::seq_expr_view(args@), c0);
                    }
                    let tmp = nz.next_tmp();
                    let atom_name = tmp.clone();
                    let eq = nast::Equation {
                        names: vec![tmp],
                        body: nast::Expr::Call { name: name.clone(), args: bs },
                    };
                    let ghost eqv = eq@;
                    let ghost pre_mem = nz.memory@;
                    nz.memory.push(eq);
                    let r = Some(nast::Bexpr::Atom(nast::Atom::Ident(atom_name)));
                    proof {
                        let t = norm_bexpr_seq(ast::seq_expr_view(args@), c0).unwrap();
                        assert(eqv.names =~= seq![tmp_name(t.2)]);
                        assert(neqs_view(nz.memory@) =~= neqs_view(pre_mem).push(eqv));
                        assert(neqs_view(nz.memory@) =~= neqs_view(old(nz).memory@) + t.1.push(
                            eqv,
                        ));
                    }
                    r
                }
                None => None,
            }
        }
        ast::Expr::Fby(init, next) => {
            match &**init {
                ast::Expr::Const(k) => {
                    proof {
                        assert((**init)@ == ExprV::Const(k@));
                    }
                    let ghost c0 = nz.counter as nat;
                    match normalize_bexpr(&**next, nz) {
                        Some(b) => {
                            proof {
                                lemma_norm_bexpr_bound((**next)@, c0);
                            }
                            let tmp = nz.next_tmp();
                            let atom_name = tmp.clone();
                            let init_vec = vec![nast::Atom::Const(k.clone())];
                            let next_vec = vec![b];
                            let eq = nast::Equation {
                                names: vec![tmp],
                                body: nast::Expr::Fby(init_vec, next_vec),
                            };
                            let ghost eqv = eq@;
                            let ghost pre_mem = nz.memory@;
                            nz.memory.push(eq);
                            let r = Some(nast::Bexpr::Atom(nast::Atom::Ident(atom_name)));
                            proof {
                                let t = norm_bexpr((**next)@, c0).unwrap();
                                nast::seq_bexpr_view_props(next_vec@);
                                assert(eqv.names =~= seq![tmp_name(t.2)]);
                                assert(eqv.body->Fby_0 =~= seq![nast::AtomV::Const(k@)]);
                                assert(eqv.body->Fby_1 =~= seq![t.0]);
                                assert(neqs_view(nz.memory@) =~= neqs_view(pre_mem).push(eqv));
                                assert(neqs_view(nz.memory@) =~= neqs_view(old(nz).memory@)
                                    + t.1.push(eqv));
                            }
                            r
                        }
                        None => None,
                    }
                }
                _ => {
                    proof {
                        assert(!((**init)@ is Const));
                    }
                    None
                }
            }
        }
    }
}

/// Normalizes every element of an argument or tuple list, left to right.
fn normalize_args(es: &Vec<ast::Expr>, nz: &mut Normalizer) -> (r: Option<Vec<nast::Bexpr>>)
    requires
        old(nz).counter as nat + hoist_weight_seq(ast::seq_expr_view(es@)) <= u64::MAX as nat,
    ensures
        r is Some <==> norm_bexpr_seq(ast::seq_expr_view(es@), old(nz).counter as nat) is Some,
        norm_bexpr_seq(ast::seq_expr_view(es@), old(nz).counter as nat) matches Some(t) ==> {
            &&& r matches Some(rb) && nast::seq_bexpr_view(rb@) == t.0
            &&& final(nz).counter as nat == t.2
            &&& neqs_view(final(nz).memory@) == neqs_view(old(nz).memory@) + t.1
        },
    decreases es,
{
    let ghost vs = ast::seq_expr_view(es@);
    let ghost c0 = nz.counter as nat;
    let ghost mem0 = nz.memory@;
    proof {
        ast::seq_expr_view_props(es@);
        assert(vs.take(0) =~= Seq::empty());
        assert(neqs_view(mem0) =~= neqs_view(mem0) + Seq::empty());
    }
    let mut out: Vec<nast::Bexpr> = Vec::new();
    let mut i: usize = 0;
    while i < es.len()
        invariant
            i <= es.len(),
            vs == ast::seq_expr_view(es@),
            vs.len() == es@.len(),
            c0 == old(nz).counter as nat,
            mem0 == old(nz).memory@,
            c0 + hoist_weight_seq(vs) <= u64::MAX as nat,
            norm_bexpr_seq(vs.take(i as int), c0) matches Some(t) && {
                &&& nast::seq_bexpr_view(out@) == t.0
                &&& nz.counter as nat == t.2
                &&& neqs_view(nz.memory@) == neqs_view(mem0) + t.1
            },
        decreases es@.len() - i,
    {
        proof {
            lemma_norm_bexpr_seq_bound(vs.take(i as int), c0);
            lemma_weight_seq_take(vs, i as int);
            lemma_weight_seq_prefix(vs, i as int + 1);
            ast::seq_expr_view_props(es@);
            assert(es@[i as int]@ == vs[i as int]);
        }
        let ghost c_here = nz.counter as nat;
        let ghost mem_here = nz.memory@;
        let ghost t_pre = norm_bexpr_seq(vs.take(i as int), c0).unwrap();
        match normalize_bexpr(&es[i], nz) {
            Some(b) => {
                let ghost pre_out = out@;
                let ghost bv = b@;
                out.push(b);
                proof {
                    lemma_take_step(vs, i as int);
                    let tb = norm_bexpr(vs[i as int], c_here).unwrap();
                    nast::seq_bexpr_view_props(out@);
                    nast::seq_bexpr_view_props(pre_out);
                    assert(out@ == pre_out.push(out@.last()));
                    assert(nast::seq_bexpr_view(out@) =~= t_pre.0.push(tb.0));
                    assert(neqs_view(nz.memory@) =~= neqs_view(mem0) + (t_pre.1 + tb.1));
                }
            }
            None => {
                proof {
                    lemma_take_step(vs, i as int);
                    lemma_norm_seq_extend_none(vs, i as int, c0);
                    assert(norm_bexpr_seq(vs.take(vs.len() as int), c0) is None);
                    assert(vs.take(vs.len() as int) =~= vs);
                }
                return None;
            }
        }
        i = i + 1;
    }
    proof {
        assert(vs.take(es@.len() as int) =~= vs);
    }
    Some(out)
}

/// A failing element makes the whole list fail, whatever follows it.
proof fn lemma_norm_seq_extend_none(vs: Seq<ExprV>, i: int, c0: nat)
    requires
        0 <= i < vs.len(),
        norm_bexpr_seq(vs.take(i), c0) matches Some(t) && norm_bexpr(vs[i], t.2) is None,
    ensures
        forall|k: int| i < k <= vs.len() ==> norm_bexpr_seq(#[trigger] vs.take(k), c0) is None,
    decreases vs.len() - i,
{
    lemma_take_step(vs, i);
    assert(norm_bexpr_seq(vs.take(i + 1), c0) is None);
    assert forall|k: int| i < k <= vs.len() implies norm_bexpr_seq(
        #[trigger] vs.take(k),
        c0,
    ) is None by {
        lemma_norm_seq_none_prefix(vs, i + 1, k, c0);
    }
}

proof fn lemma_norm_seq_none_prefix(vs: Seq<ExprV>, i: int, k: int, c0: nat)
    requires
        0 <= i <= k <= vs.len(),
        norm_bexpr_seq(vs.take(i), c0) is None,
    ensures
        norm_bexpr_seq(vs.take(k), c0) is None,
    decreases k - i,
{
    if k > i {
        lemma_take_step(vs, k - 1);
        lemma_norm_seq_none_prefix(vs, i, k - 1, c0);
    }
}


proof fn lemma_const_atoms_extend_none(vs: Seq<ExprV>, i: int)
    requires
        0 <= i < vs.len(),
        !(vs[i] is Const),
    ensures
        const_atoms(vs) is None,
    decreases vs.len(),
{
    if i == vs.len() - 1 {
        assert(vs.last() == vs[i]);
    } else {
        lemma_const_atoms_extend_none(vs.drop_last(), i);
    }
}

/// Collects the initial side of a followed-by as constant atoms.
fn fby_init_atoms(e: &ast::Expr) -> (r: Option<Vec<nast::Atom>>)
    ensures
        r is Some <==> fby_inits(e@) is Some,
        fby_inits(e@) matches Some(a) ==> r matches Some(v) && nast::seq_atom_view(v@) == a,
{
    match e {
        ast::Expr::Const(k) => {
            let r = Some(vec![nast::Atom::Const(k.clone())]);
            proof {
                assert(e@ == ExprV::Const(k@));
                assert(nast::seq_atom_view(r->Some_0@) =~= seq![nast::AtomV::Const(k@)]);
            }
            r
        }
        ast::Expr::Tuple(elems) => {
            let ghost vs = ast::seq_expr_view(elems@);
            proof {
                ast::seq_expr_view_props(elems@);
                assert(e@ == ExprV::Tuple(vs));
                assert(vs.take(0) =~= Seq::empty());
            }
            let mut out: Vec<nast::Atom> = Vec::new();
            let mut i: usize = 0;
            while i < elems.len()
                invariant
                    i <= elems.len(),
                    vs == ast::seq_expr_view(elems@),
                    vs.len() == elems@.len(),
                    e@ == ExprV::Tuple(vs),
                    const_atoms(vs.take(i as int)) matches Some(a) && nast::seq_atom_view(out@)
                        == a,
                decreases elems@.len() - i,
            {
                proof {
                    ast::seq_expr_view_props(elems@);
                    assert(elems@[i as int]@ == vs[i as int]);
                }
                match &elems[i] {
                    ast::Expr::Const(k) => {
                        let ghost pre = out@;
                        out.push(nast::Atom::Const(k.clone()));
                        proof {
                            assert(vs[i as int] == ExprV::Const(k@));
                            lemma_take_step(vs, i as int);
                            assert(out@ == pre.push(out@.last()));
                            assert(nast::seq_atom_view(out@) =~= nast::seq_atom_view(pre).push(
                                nast::AtomV::Const(k@),
                            ));
                        }
                    }
                    _ => {
                        proof {
                            assert(!(vs[i as int] is Const));
                            lemma_const_atoms_extend_none(vs, i as int);
                        }
                        return None;
                    }
                }
                i = i + 1;
            }
            proof {
                assert(vs.take(vs.len() as int) =~= vs);
            }
            Some(out)
        }
        _ => {
            proof {
                assert(!(e@ is Const) && !(e@ is Tuple));
            }
            None
        }
    }
}

/// Normalizes the top of one equation body: calls and followed-by operators
/// survive here, everything else flattens to a basic expression.
fn normalize_fby_next(next: &ast::Expr, nz: &mut Normalizer) -> (r: Option<Vec<nast::Bexpr>>)
    requires
        old(nz).counter as nat + hoist_weight(next@) <= u64::MAX as nat,
    ensures
        (r is Some <==> norm_fby_next(next@, old(nz).counter as nat) is Some),
        norm_fby_next(next@, old(nz).counter as nat) matches Some(t) ==> r matches Some(bs)
            && nast::seq_bexpr_view(bs@) == t.0 && final(nz).counter as nat == t.2
            && neqs_view(final(nz).memory@) == neqs_view(old(nz).memory@) + t.1,
{
    match next {
        ast::Expr::Tuple(elems) => {
            proof {
                assert(next@ == ExprV::Tuple(ast::seq_expr_view(elems@)));
            }
            normalize_args(elems, nz)
        }
        _ => {
            proof {
                assert(!(next@ is Tuple));
            }
            match normalize_bexpr(next, nz) {
                Some(b) => {
                    let one = vec![b];
                    proof {
                        nast::seq_bexpr_view_props(one@);
                        assert(nast::seq_bexpr_view(one@) =~= seq![one@[0]@]);
                    }
                    Some(one)
                }
                None => None,
            }
        }
    }
}

fn normalize_top(e: &ast::Expr, nz: &mut Normalizer) -> (r: Option<nast::Expr>)
    requires
        old(nz).counter as nat + hoist_weight(e@) <= u64::MAX as nat,
    ensures
        (r is Some <==> norm_top(e@, old(nz).counter as nat) is Some),
        norm_top(e@, old(nz).counter as nat) matches Some(t) ==> r matches Some(ne)
            && ne@ == t.0 && final(nz).counter as nat == t.2
            && neqs_view(final(nz).memory@) == neqs_view(old(nz).memory@) + t.1,
{
    match e {
        ast::Expr::Call { name, args } => {
            match normalize_args(args, nz) {
                Some(bs) => {
                    Some(nast::Expr::Call { name: name.clone(), args: bs })
                }
                None => None,
            }
        }
        ast::Expr::Fby(init, next) => {
            match fby_init_atoms(&**init) {
                Some(inits) => {
                    match normalize_fby_next(&**next, nz) {
                        Some(bs) => {
                            proof {
                                nast::seq_bexpr_view_props(bs@);
                            }
                            if bs.len() == inits.len() {
                                Some(nast::Expr::Fby(inits, bs))
                            } else {
                                None
                            }
                        }
                        None => None,
                    }
                }
                None => None,
            }
        }
        _ => {
            proof {
                assert(!(e@ is Call) && !(e@ is Fby));
            }
            match normalize_bexpr(e, nz) {
                Some(b) => Some(nast::Expr::Bexpr(b)),
                None => None,
            }
        }
    }
}

/// The model of normalizing a whole unit, node by node with one counter.
pub open spec fn norm_unit(nodes: Seq<ast::NodeV>, c: nat) -> Option<(Seq<nast::NodeV>, nat)>
    decreases nodes,
{
    if nodes.len() == 0 {
        Some((Seq::empty(), c))
    } else {
        match norm_unit(nodes.drop_last(), c) {
            Some((done, c1)) => match norm_node(nodes.last(), c1) {
                Some((n, c2)) => Some((done.push(n), c2)),
                None => None,
            },
            None => None,
        }
    }
}

/// The weight of a whole unit.
pub open spec fn hoist_weight_unit(nodes: Seq<ast::NodeV>) -> nat
    decreases nodes,
{
    if nodes.len() == 0 {
        0
    } else {
        hoist_weight_unit(nodes.drop_last()) + hoist_weight_body(nodes.last().body)
    }
}

pub proof fn lemma_norm_node_bound(n: ast::NodeV, c: nat)
    ensures
        norm_node(n, c) matches Some(t) ==> c <= t.1 <= c + hoist_weight_body(n.body),
{
    lemma_norm_body_bound(n.body, c);
}

pub proof fn lemma_weight_body_take(s: Seq<EquationV>, i: int)
    requires
        0 <= i < s.len(),
    ensures
        hoist_weight_body(s.take(i + 1)) == hoist_weight_body(s.take(i)) + hoist_weight(
            s[i].body,
        ),
{
    lemma_take_step(s, i);
    assert(hoist_weight_body(s.take(i + 1)) == hoist_weight_body(s.take(i + 1).drop_last())
        + hoist_weight(s.take(i + 1).last().body));
}

pub proof fn lemma_weight_body_prefix(s: Seq<EquationV>, k: int)
    requires
        0 <= k <= s.len(),
    ensures
        hoist_weight_body(s.take(k)) <= hoist_weight_body(s),
    decreases s.len() - k,
{
    if k == s.len() {
        assert(s.take(k) =~= s);
    } else {
        lemma_weight_body_take(s, k);
        lemma_weight_body_prefix(s, k + 1);
    }
}

proof fn lemma_norm_body_none_prefix(bs: Seq<EquationV>, i: int, k: int, c0: nat)
    requires
        0 <= i <= k <= bs.len(),
        norm_body(bs.take(i), c0) is None,
    ensures
        norm_body(bs.take(k), c0) is None,
    decreases k - i,
{
    if k > i {
        lemma_take_step(bs, k - 1);
        lemma_norm_body_none_prefix(bs, i, k - 1, c0);
    }
}

/// The name a normalization failure is reported under: the first name of the
/// offending equation, or the node's own name when the equation binds none.
pub open spec fn norm_fail_name(n: ast::NodeV, i: int) -> Seq<char> {
    if n.body[i].names.len() > 0 {
        n.body[i].names[0]
    } else {
        n.name
    }
}

impl ast::Equation {
    /// Normalizes this equation's body, recording hoisted sub-expressions in
    /// the normalizer's table.
    pub fn normalize(&self, nz: &mut Normalizer) -> (r: Option<nast::Equation>)
        requires
            old(nz).counter as nat + hoist_weight(self.body@) <= u64::MAX as nat,
        ensures
            (r is Some <==> norm_eq(self@, old(nz).counter as nat) is Some),
            norm_eq(self@, old(nz).counter as nat) matches Some(t) ==> r matches Some(ne)
                && ne@ == t.0 && final(nz).counter as nat == t.2
                && neqs_view(final(nz).memory@) == neqs_view(old(nz).memory@) + t.1,
    {
        if self.names.len() == 0 {
            return None;
        }
        match normalize_top(&self.body, nz) {
            Some(body) => {
                let names = self.names.clone();
                proof {
                    assert(names@ =~= self.names@);
                    assert(crate::ast::names_view(names@) =~= self@.names);
                }
                Some(nast::Equation { names, body })
            }
            None => None,
        }
    }
}

impl ast::Node {
    /// Normalizes every equation of this node, appends the recorded
    /// equations to its body and registers their names as unit-typed locals.
    /// The normalizer's table is empty again afterwards; the counter keeps
    /// running, so names stay fresh across nodes.
    pub fn normalize(&self, nz: &mut Normalizer) -> (r: Result<nast::Node, Error>)
        requires
            old(nz).counter as nat + hoist_weight_body(self@.body) <= u64::MAX as nat,
            old(nz).memory@.len() == 0,
        ensures
            (r is Ok <==> norm_node(self@, old(nz).counter as nat) is Some),
            norm_node(self@, old(nz).counter as nat) matches Some(t) ==> r matches Ok(n)
                && n@ == t.0 && final(nz).counter as nat == t.1
                && final(nz).memory@.len() == 0,
            r matches Err(e) ==> exists|i: int|
                {
                    &&& 0 <= i < self@.body.len()
                    &&& (#[trigger] norm_body(self@.body.take(i), old(nz).counter as nat))
                        matches Some(p) && norm_eq(self@.body[i], p.2) is None
                    &&& e@ == crate::error::ErrorV::StructuralViolation {
                        node: self@.name,
                        name: norm_fail_name(self@, i),
                    }
                },
    {
        let ghost bv = self@.body;
        let ghost c0 = nz.counter as nat;
        let mut mains: Vec<nast::Equation> = Vec::new();
        let mut i: usize = 0;
        proof {
            assert(bv.take(0) =~= Seq::<EquationV>::empty());
            assert(neqs_view(nz.memory@) =~= Seq::<nast::EquationV>::empty());
            assert(neqs_view(mains@) =~= Seq::<nast::EquationV>::empty());
        }
        while i < self.body.len()
            invariant
                i <= self.body.len(),
                bv == self@.body,
                bv.len() == self.body@.len(),
                c0 == old(nz).counter as nat,
                old(nz).memory@.len() == 0,
                c0 + hoist_weight_body(bv) <= u64::MAX as nat,
                norm_body(bv.take(i as int), c0) matches Some(t) && {
                    &&& neqs_view(mains@) == t.0
                    &&& nz.counter as nat == t.2
                    &&& neqs_view(nz.memory@) == t.1
                },
            decreases self.body@.len() - i,
        {
            proof {
                lemma_norm_body_bound(bv.take(i as int), c0);
                lemma_weight_body_take(bv, i as int);
                lemma_weight_body_prefix(bv, i as int + 1);
                assert(bv[i as int] == self.body@[i as int]@);
            }
            let ghost c_here = nz.counter as nat;
            let ghost t_pre = norm_body(bv.take(i as int), c0).unwrap();
            match self.body[i].normalize(nz) {
                Some(ne) => {
                    let ghost pre_mains = mains@;
                    mains.push(ne);
                    proof {
                        lemma_take_step(bv, i as int);
                        let te = norm_eq(bv[i as int], c_here).unwrap();
                        assert(mains@ == pre_mains.push(mains@.last()));
                        assert(neqs_view(mains@) =~= t_pre.0.push(te.0));
                        assert(neqs_view(nz.memory@) =~= t_pre.1 + te.1);
                    }
                }
                None => {
                    let name = if self.body[i].names.len() > 0 {
                        self.body[i].names[0].clone()
                    } else {
                        self.name.clone()
                    };
                    let err = Error::StructuralViolation { node: self.name.clone(), name };
                    proof {
                        lemma_take_step(bv, i as int);
                        assert(norm_body(bv.take(i as int + 1), c0) is None);
                        lemma_norm_body_none_prefix(bv, i as int + 1, bv.len() as int, c0);
                        assert(norm_body(bv.take(bv.len() as int), c0) is None);
                        assert(bv.take(bv.len() as int) =~= bv);
                        assert(norm_eq(bv[i as int], t_pre.2) is None);
                        assert(err@ == crate::error::ErrorV::StructuralViolation {
                            node: self@.name,
                            name: norm_fail_name(self@, i as int),
                        });
                    }
                    return Err(err);
                }
            }
            i = i + 1;
        }
        proof {
            assert(bv.take(bv.len() as int) =~= bv);
        }
        let ghost t_body = norm_body(bv, c0).unwrap();
        proof {
            lemma_norm_body_adds(bv, c0);
            lemma_norm_body_bound(bv, c0);
        }
        let mut body = mains;
        let mut locals = self.locals.clone();
        let ghost locals0 = self.locals@;
        let mut k: usize = 0;
        let ghost total = nz.memory@.len();
        proof {
            assert(neqs_view(nz.memory@).take(0) =~= Seq::<nast::EquationV>::empty());
            assert(locals@ =~= locals0 + added_locals(t_body.1.take(0)));
            assert(neqs_view(body@) =~= t_body.0 + t_body.1.take(0).map_values(
                |e: nast::EquationV| e,
            ).take(0));
        }
        let ghost adds0 = nz.memory@;
        while k < nz.memory.len()
            invariant
                k <= nz.memory@.len(),
                nz.memory@ == adds0,
                nz.counter == old(nz).counter + (t_body.2 - c0),
                neqs_view(adds0) == t_body.1,
                tmp_names_in(t_body.1, c0, t_body.2),
                locals@ == locals0 + added_locals(t_body.1.take(k as int)),
                neqs_view(body@) == t_body.0 + t_body.1.take(k as int),
            decreases nz.memory@.len() - k,
        {
            proof {
                assert(t_body.1[k as int] == nz.memory@[k as int]@);
                assert(t_body.1[k as int].names.len() == 1);
            }
            let name = nz.memory[k].names[0].clone();
            let ghost pre_locals = locals@;
            let ghost pre_body = body@;
            locals.0.0.push((name, crate::ast::Type::Unit));
            proof {
                assert(locals@ =~= pre_locals.push((t_body.1[k as int].names[0], TypeV::Unit)));
                assert(t_body.1.take(k as int + 1) =~= t_body.1.take(k as int).push(
                    t_body.1[k as int],
                ));
                assert(pre_locals.push((t_body.1[k as int].names[0], TypeV::Unit)) =~= locals0
                    + added_locals(t_body.1.take(k as int + 1)));
            }
            let eq = clone_nequation(&nz.memory[k]);
            body.push(eq);
            proof {
                assert(neqs_view(body@) =~= pre_body.map_values(|e: nast::Equation| e@).push(
                    t_body.1[k as int],
                ));
                assert(neqs_view(body@) =~= t_body.0 + t_body.1.take(k as int + 1));
            }
            k = k + 1;
        }
        nz.memory.clear();
        let node = nast::Node {
            name: self.name.clone(),
            args_in: self.args_in.clone(),
            args_out: self.args_out.clone(),
            locals,
            body,
        };
        proof {
            let t = norm_node(self@, c0).unwrap();
            assert(t_body.1.take(t_body.1.len() as int) =~= t_body.1);
            assert(node@.body =~= t.0.body);
            assert(node@.locals =~= t.0.locals);
        }
        Ok(node)
    }
}

/// Clones one normalized equation.
fn clone_nequation(eq: &nast::Equation) -> (r: nast::Equation)
    ensures
        r@ == eq@,
{
    let names = eq.names.clone();
    let body = match &eq.body {
        nast::Expr::Bexpr(b) => nast::Expr::Bexpr(b.clone()),
        nast::Expr::Call { name, args } => {
            let a = nast::clone_bexpr_vec(args);
            proof {
                nast::seq_bexpr_view_props(a@);
                nast::seq_bexpr_view_props(args@);
                assert(nast::seq_bexpr_view(a@) =~= nast::seq_bexpr_view(args@));
            }
            nast::Expr::Call { name: name.clone(), args: a }
        }
        nast::Expr::Fby(init, next) => {
            let mut init2: Vec<nast::Atom> = Vec::new();
            let mut i: usize = 0;
            while i < init.len()
                invariant
                    i <= init.len(),
                    init2@.len() == i as nat,
                    forall|j: int| 0 <= j < i ==> init2@[j]@ == init@[j]@,
                decreases init@.len() - i,
            {
                init2.push(init[i].clone());
                i = i + 1;
            }
            let next2 = nast::clone_bexpr_vec(next);
            proof {
                nast::seq_bexpr_view_props(next2@);
                nast::seq_bexpr_view_props(next@);
                assert(nast::seq_atom_view(init2@) =~= nast::seq_atom_view(init@));
                assert(nast::seq_bexpr_view(next2@) =~= nast::seq_bexpr_view(next@));
            }
            nast::Expr::Fby(init2, next2)
        }
    };
    let r = nast::Equation { names, body };
    proof {
        assert(crate::ast::names_view(r.names@) =~= crate::ast::names_view(eq.names@));
    }
    r
}


pub proof fn lemma_norm_unit_bound(nodes: Seq<ast::NodeV>, c: nat)
    ensures
        norm_unit(nodes, c) matches Some(t) ==> c <= t.1 <= c + hoist_weight_unit(nodes),
    decreases nodes,
{
    if nodes.len() > 0 {
        lemma_norm_unit_bound(nodes.drop_last(), c);
        if let Some((_, c1)) = norm_unit(nodes.drop_last(), c) {
            lemma_norm_node_bound(nodes.last(), c1);
        }
    }
}

pub proof fn lemma_weight_unit_take(s: Seq<ast::NodeV>, i: int)
    requires
        0 <= i < s.len(),
    ensures
        hoist_weight_unit(s.take(i + 1)) == hoist_weight_unit(s.take(i)) + hoist_weight_body(
            s[i].body,
        ),
{
    lemma_take_step(s, i);
    assert(hoist_weight_unit(s.take(i + 1)) == hoist_weight_unit(s.take(i + 1).drop_last())
        + hoist_weight_body(s.take(i + 1).last().body));
}

pub proof fn lemma_weight_unit_prefix(s: Seq<ast::NodeV>, k: int)
    requires
        0 <= k <= s.len(),
    ensures
        hoist_weight_unit(s.take(k)) <= hoist_weight_unit(s),
    decreases s.len() - k,
{
    if k == s.len() {
        assert(s.take(k) =~= s);
    } else {
        lemma_weight_unit_take(s, k);
        lemma_weight_unit_prefix(s, k + 1);
    }
}

proof fn lemma_norm_unit_none_prefix(ns: Seq<ast::NodeV>, i: int, k: int, c0: nat)
    requires
        0 <= i <= k <= ns.len(),
        norm_unit(ns.take(i), c0) is None,
    ensures
        norm_unit(ns.take(k), c0) is None,
    decreases k - i,
{
    if k > i {
        lemma_take_step(ns, k - 1);
        lemma_norm_unit_none_prefix(ns, i, k - 1, c0);
    }
}

impl ast::Ast {
    /// Normalizes every node of the unit, threading one counter through all
    /// of them so that synthesized names stay unique across the whole run.
    pub fn normalize(&self, nz: &mut Normalizer) -> (r: Result<Vec<nast::Node>, Error>)
        requires
            old(nz).counter as nat + hoist_weight_unit(self@) <= u64::MAX as nat,
            old(nz).memory@.len() == 0,
        ensures
            (r is Ok <==> norm_unit(self@, old(nz).counter as nat) is Some),
            norm_unit(self@, old(nz).counter as nat) matches Some(t) ==> r matches Ok(v)
                && v@.map_values(|n: nast::Node| n@) == t.0 && final(nz).counter as nat == t.1
                && final(nz).memory@.len() == 0,
            r matches Err(e) ==> e@ is StructuralViolation,
    {
        let ghost nv = self@;
        let ghost c0 = nz.counter as nat;
        let mut out: Vec<nast::Node> = Vec::new();
        let mut i: usize = 0;
        proof {
            assert(nv.take(0) =~= Seq::<ast::NodeV>::empty());
            assert(out@.map_values(|n: nast::Node| n@) =~= Seq::<nast::NodeV>::empty());
        }
        while i < self.0.len()
            invariant
                i <= self.0.len(),
                nv == self@,
                nv.len() == self.0@.len(),
                c0 == old(nz).counter as nat,
                c0 + hoist_weight_unit(nv) <= u64::MAX as nat,
                nz.memory@.len() == 0,
                norm_unit(nv.take(i as int), c0) matches Some(t) && {
                    &&& out@.map_values(|n: nast::Node| n@) == t.0
                    &&& nz.counter as nat == t.1
                },
            decreases self.0@.len() - i,
        {
            proof {
                lemma_norm_unit_bound(nv.take(i as int), c0);
                lemma_weight_unit_take(nv, i as int);
                lemma_weight_unit_prefix(nv, i as int + 1);
                assert(nv[i as int] == self.0@[i as int]@);
            }
            let ghost c_here = nz.counter as nat;
            let ghost t_pre = norm_unit(nv.take(i as int), c0).unwrap();
            match self.0[i].normalize(nz) {
                Ok(n) => {
                    let ghost pre_out = out@;
                    out.push(n);
                    proof {
                        lemma_take_step(nv, i as int);
                        let tn = norm_node(nv[i as int], c_here).unwrap();
                        assert(out@ == pre_out.push(out@.last()));
                        assert(out@.map_values(|n: nast::Node| n@) =~= t_pre.0.push(tn.0));
                    }
                }
                Err(e) => {
                    proof {
                        lemma_take_step(nv, i as int);
                        assert(norm_unit(nv.take(i as int + 1), c0) is None);
                        lemma_norm_unit_none_prefix(nv, i as int + 1, nv.len() as int, c0);
                        assert(nv.take(nv.len() as int) =~= nv);
                    }
                    return Err(e);
                }
            }
            i = i + 1;
        }
        proof {
            assert(nv.take(nv.len() as int) =~= nv);
        }
        Ok(out)
    }
}


// Laws of normalization.

/// A raw expression already in basic shape: no call and no followed-by
/// anywhere inside it.
pub open spec fn is_basic(e: ExprV) -> bool
    decreases e,
{
    match e {
        ExprV::Call { name: _, args: _ } => false,
        ExprV::Fby(_, _) => false,
        ExprV::Const(_) => true,
        ExprV::Ident(_) => true,
        ExprV::Unop(_, sub) => is_basic(*sub),
        ExprV::Binop(_, lhs, rhs) => is_basic(*lhs) && is_basic(*rhs),
        ExprV::If { condition, if_body, else_body } => is_basic(*condition) && is_basic(*if_body)
            && is_basic(*else_body),
        ExprV::Tuple(elems) => all_basic(elems),
    }
}

pub open spec fn all_basic(es: Seq<ExprV>) -> bool
    decreases es,
{
    if es.len() == 0 {
        true
    } else {
        all_basic(es.drop_last()) && is_basic(es.last())
    }
}

/// A raw equation body already in normalized shape: a call over basic
/// arguments, a followed-by with constant initials and basic next sides, or
/// a plain basic expression.
pub open spec fn normal_shape(e: ExprV) -> bool {
    match e {
        ExprV::Call { name: _, args } => all_basic(args),
        ExprV::Fby(init, next) => fby_inits(*init) matches Some(inits) && (match *next {
            ExprV::Tuple(elems) => all_basic(elems) && elems.len() == inits.len(),
            _ => is_basic(*next) && inits.len() == 1,
        }),
        _ => is_basic(e),
    }
}

/// Normalization is idempotent in shape: a basic expression normalizes with
/// no recorded equations and an untouched counter.
pub proof fn lemma_basic_no_temps(e: ExprV, c: nat)
    requires
        is_basic(e),
    ensures
        norm_bexpr(e, c) matches Some(t) && t.1 =~= Seq::<nast::EquationV>::empty() && t.2 == c,
    decreases e,
{
    match e {
        ExprV::Unop(_, sub) => {
            lemma_basic_no_temps(*sub, c);
        }
        ExprV::Binop(_, lhs, rhs) => {
            lemma_basic_no_temps(*lhs, c);
            lemma_basic_no_temps(*rhs, c);
            let t1 = norm_bexpr(*lhs, c).unwrap();
            let t2 = norm_bexpr(*rhs, t1.2).unwrap();
            assert(t1.1 + t2.1 =~= Seq::<nast::EquationV>::empty());
        }
        ExprV::If { condition, if_body, else_body } => {
            lemma_basic_no_temps(*condition, c);
            let t1 = norm_bexpr(*condition, c).unwrap();
            lemma_basic_no_temps(*if_body, t1.2);
            let t2 = norm_bexpr(*if_body, t1.2).unwrap();
            lemma_basic_no_temps(*else_body, t2.2);
            let t3 = norm_bexpr(*else_body, t2.2).unwrap();
            assert(t1.1 + t2.1 + t3.1 =~= Seq::<nast::EquationV>::empty());
        }
        ExprV::Tuple(elems) => {
            lemma_all_basic_no_temps(elems, c);
        }
        _ => {}
    }
}

pub proof fn lemma_all_basic_no_temps(es: Seq<ExprV>, c: nat)
    requires
        all_basic(es),
    ensures
        norm_bexpr_seq(es, c) matches Some(t) && t.1 =~= Seq::<nast::EquationV>::empty() && t.2
            == c,
    decreases es,
{
    if es.len() > 0 {
        lemma_all_basic_no_temps(es.drop_last(), c);
        lemma_basic_no_temps(es.last(), c);
        let t1 = norm_bexpr_seq(es.drop_last(), c).unwrap();
        let t2 = norm_bexpr(es.last(), c).unwrap();
        assert(t1.1 + t2.1 =~= Seq::<nast::EquationV>::empty());
    }
}

pub proof fn lemma_norm_bexpr_seq_len(es: Seq<ExprV>, c: nat)
    ensures
        norm_bexpr_seq(es, c) matches Some(t) ==> t.0.len() == es.len(),
    decreases es,
{
    if es.len() > 0 {
        lemma_norm_bexpr_seq_len(es.drop_last(), c);
    }
}

/// Normalization idempotence of shape: an equation whose body is already in
/// normalized shape normalizes without minting any temporary — the counter
/// comes back untouched and nothing is recorded.
pub proof fn lemma_normal_shape_no_temps(eq: EquationV, c: nat)
    requires
        eq.names.len() > 0,
        normal_shape(eq.body),
    ensures
        norm_eq(eq, c) matches Some(t) && t.1 =~= Seq::<nast::EquationV>::empty() && t.2 == c,
{
    match eq.body {
        ExprV::Call { name: _, args } => {
            lemma_all_basic_no_temps(args, c);
        }
        ExprV::Fby(init, next) => {
            if let ExprV::Tuple(elems) = *next {
                lemma_all_basic_no_temps(elems, c);
                lemma_norm_bexpr_seq_len(elems, c);
            } else {
                lemma_basic_no_temps(*next, c);
            }
        }
        _ => {
            lemma_basic_no_temps(eq.body, c);
        }
    }
}

/// A whole body already in normalized shape re-normalizes to the same
/// number of equations with no new temporaries.
pub proof fn lemma_normal_body_no_temps(body: Seq<EquationV>, c: nat)
    requires
        forall|i: int| 0 <= i < body.len() ==> (#[trigger] body[i]).names.len() > 0
            && normal_shape(body[i].body),
    ensures
        norm_body(body, c) matches Some(t) && t.0.len() == body.len() && t.1 =~= Seq::<
            nast::EquationV,
        >::empty() && t.2 == c,
    decreases body,
{
    if body.len() > 0 {
        lemma_normal_body_no_temps(body.drop_last(), c);
        lemma_normal_shape_no_temps(body.last(), c);
        let t1 = norm_body(body.drop_last(), c).unwrap();
        let t2 = norm_eq(body.last(), c).unwrap();
        assert(t1.1 + t2.1 =~= Seq::<nast::EquationV>::empty());
    }
}

// Name freshness across a whole run.

/// The counter value the run has reached before node `k`.
pub open spec fn counter_at(unit: Seq<ast::NodeV>, c: nat, k: int) -> nat {
    match norm_unit(unit.take(k), c) {
        Some(t) => t.1,
        None => c,
    }
}

/// The equations node `k`'s normalization records.
pub open spec fn node_adds(unit: Seq<ast::NodeV>, c: nat, k: int) -> Seq<nast::EquationV> {
    match norm_body(unit[k].body, counter_at(unit, c, k)) {
        Some(t) => t.1,
        None => Seq::empty(),
    }
}

proof fn lemma_norm_unit_prefix(unit: Seq<ast::NodeV>, c: nat, k: int)
    requires
        norm_unit(unit, c) is Some,
        0 <= k <= unit.len(),
    ensures
        norm_unit(unit.take(k), c) is Some,
    decreases unit.len() - k,
{
    if k == unit.len() {
        assert(unit.take(k) =~= unit);
    } else {
        lemma_norm_unit_prefix(unit, c, k + 1);
        assert(unit.take(k + 1).drop_last() =~= unit.take(k));
    }
}

proof fn lemma_counter_at_step(unit: Seq<ast::NodeV>, c: nat, k: int)
    requires
        norm_unit(unit, c) is Some,
        0 <= k < unit.len(),
    ensures
        norm_body(unit[k].body, counter_at(unit, c, k)) matches Some(t) && counter_at(
            unit,
            c,
            k + 1,
        ) == t.2,
        counter_at(unit, c, k) <= counter_at(unit, c, k + 1),
{
    lemma_norm_unit_prefix(unit, c, k);
    lemma_norm_unit_prefix(unit, c, k + 1);
    assert(unit.take(k + 1).drop_last() =~= unit.take(k));
    assert(unit.take(k + 1).last() == unit[k]);
    lemma_norm_body_bound(unit[k].body, counter_at(unit, c, k));
}

proof fn lemma_counter_at_monotone(unit: Seq<ast::NodeV>, c: nat, i: int, j: int)
    requires
        norm_unit(unit, c) is Some,
        0 <= i <= j <= unit.len(),
    ensures
        counter_at(unit, c, i) <= counter_at(unit, c, j),
    decreases j - i,
{
    if i < j {
        lemma_counter_at_step(unit, c, i);
        lemma_counter_at_monotone(unit, c, i + 1, j);
    }
}

/// Name freshness: with one counter threaded through the whole run, no two
/// synthesized temporaries anywhere in the unit share a name — neither
/// within one node nor across nodes.
pub proof fn lemma_unit_fresh_names(unit: Seq<ast::NodeV>, c: nat, i: int, j: int, a: int, b: int)
    requires
        norm_unit(unit, c) is Some,
        0 <= i <= j < unit.len(),
        0 <= a < node_adds(unit, c, i).len(),
        0 <= b < node_adds(unit, c, j).len(),
        i != j || a != b,
    ensures
        node_adds(unit, c, i)[a].names[0] != node_adds(unit, c, j)[b].names[0],
{
    lemma_counter_at_step(unit, c, i);
    lemma_counter_at_step(unit, c, j);
    let ci = counter_at(unit, c, i);
    let cj = counter_at(unit, c, j);
    let ti = norm_body(unit[i].body, ci).unwrap();
    let tj = norm_body(unit[j].body, cj).unwrap();
    lemma_norm_body_adds(unit[i].body, ci);
    lemma_norm_body_adds(unit[j].body, cj);
    if i == j {
        assert(node_adds(unit, c, i)[a].names[0] != node_adds(unit, c, j)[b].names[0]) by {
            if a < b {
                assert(ti.1[a].names[0] != ti.1[b].names[0]);
            } else {
                assert(ti.1[b].names[0] != ti.1[a].names[0]);
            }
        }
    } else {
        lemma_counter_at_monotone(unit, c, i + 1, j);
        let ka = choose|k: nat| ci <= k < ti.2 && ti.1[a].names[0] == tmp_name(k);
        let kb = choose|k: nat| cj <= k < tj.2 && tj.1[b].names[0] == tmp_name(k);
        assert(ka < ti.2 <= cj <= kb);
        crate::text::lemma_tmp_name_injective(ka, kb);
    }
}


// A runtime measure of the hoist weight, so that callers outside the
// verified world can check the counter budget before compiling.

fn sat_add(a: u64, b: u64) -> (r: u64)
    ensures
        r as nat <= a as nat + b as nat,
        r < u64::MAX ==> r as nat == a as nat + b as nat,
{
    if a > u64::MAX - b {
        u64::MAX
    } else {
        a + b
    }
}

fn expr_weight(e: &ast::Expr) -> (r: u64)
    ensures
        r as nat <= hoist_weight(e@),
        r < u64::MAX ==> r as nat == hoist_weight(e@),
    decreases e,
{
    match e {
        ast::Expr::Ident(_) => 0,
        ast::Expr::Const(_) => 0,
        ast::Expr::Unop(_, sub) => expr_weight(&**sub),
        ast::Expr::Binop(_, lhs, rhs) => {
            let a = expr_weight(&**lhs);
            let b = expr_weight(&**rhs);
            sat_add(a, b)
        }
        ast::Expr::If { condition, if_body, else_body } => {
            let a = expr_weight(&**condition);
            let b = expr_weight(&**if_body);
            let c = expr_weight(&**else_body);
            sat_add(sat_add(a, b), c)
        }
        ast::Expr::Tuple(elems) => expr_seq_weight(elems),
        ast::Expr::Call { name: _, args } => sat_add(1, expr_seq_weight(args)),
        ast::Expr::Fby(init, next) => {
            let a = expr_weight(&**init);
            let b = expr_weight(&**next);
            sat_add(1, sat_add(a, b))
        }
    }
}

fn expr_seq_weight(es: &Vec<ast::Expr>) -> (r: u64)
    ensures
        r as nat <= hoist_weight_seq(ast::seq_expr_view(es@)),
        r < u64::MAX ==> r as nat == hoist_weight_seq(ast::seq_expr_view(es@)),
    decreases es,
{
    let ghost vs = ast::seq_expr_view(es@);
    proof {
        ast::seq_expr_view_props(es@);
        assert(vs.take(0) =~= Seq::<ExprV>::empty());
    }
    let mut acc: u64 = 0;
    let mut i: usize = 0;
    while i < es.len()
        invariant
            i <= es.len(),
            vs == ast::seq_expr_view(es@),
            vs.len() == es@.len(),
            acc as nat <= hoist_weight_seq(vs.take(i as int)),
            acc < u64::MAX ==> acc as nat == hoist_weight_seq(vs.take(i as int)),
        decreases es@.len() - i,
    {
        proof {
            ast::seq_expr_view_props(es@);
            assert(es@[i as int]@ == vs[i as int]);
            lemma_weight_seq_take(vs, i as int);
        }
        let w = expr_weight(&es[i]);
        acc = sat_add(acc, w);
        i = i + 1;
    }
    proof {
        assert(vs.take(vs.len() as int) =~= vs);
    }
    acc
}

impl ast::Ast {
    /// The number of temporaries normalizing this unit can possibly mint,
    /// saturating at `u64::MAX`. A caller that finds the result below the
    /// maximum knows the counter cannot overflow.
    pub fn hoist_budget(&self) -> (r: u64)
        ensures
            r as nat <= hoist_weight_unit(self@),
            r < u64::MAX ==> r as nat == hoist_weight_unit(self@),
    {
        let ghost nv = self@;
        proof {
            assert(nv.take(0) =~= Seq::<ast::NodeV>::empty());
        }
        let mut acc: u64 = 0;
        let mut i: usize = 0;
        while i < self.0.len()
            invariant
                i <= self.0.len(),
                nv == self@,
                nv.len() == self.0@.len(),
                acc as nat <= hoist_weight_unit(nv.take(i as int)),
                acc < u64::MAX ==> acc as nat == hoist_weight_unit(nv.take(i as int)),
            decreases self.0@.len() - i,
        {
            proof {
                assert(nv[i as int] == self.0@[i as int]@);
                lemma_weight_unit_take(nv, i as int);
            }
            let node = &self.0[i];
            let ghost bv = nv[i as int].body;
            proof {
                assert(bv.take(0) =~= Seq::<EquationV>::empty());
            }
            let mut w: u64 = 0;
            let mut j: usize = 0;
            while j < node.body.len()
                invariant
                    j <= node.body.len(),
                    bv == node@.body,
                    bv.len() == node.body@.len(),
                    w as nat <= hoist_weight_body(bv.take(j as int)),
                    w < u64::MAX ==> w as nat == hoist_weight_body(bv.take(j as int)),
                decreases node.body@.len() - j,
            {
                proof {
                    assert(bv[j as int] == node.body@[j as int]@);
                    lemma_weight_body_take(bv, j as int);
                }
                let ew = expr_weight(&node.body[j].body);
                w = sat_add(w, ew);
                j = j + 1;
            }
            proof {
                assert(bv.take(bv.len() as int) =~= bv);
            }
            acc = sat_add(acc, w);
            i = i + 1;
        }
        proof {
            assert(nv.take(nv.len() as int) =~= nv);
        }
        acc
    }
}

} // verus!
