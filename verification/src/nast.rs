//! Normalized syntax tree.
//!
//! A restriction of the raw tree: expression bodies are flattened into basic
//! expressions ([`Bexpr`]) that can contain neither calls nor the followed-by
//! operator. Both survive only at the top of an equation body ([`Expr`]),
//! where hoisted sub-expressions are referenced through [`Atom::Ident`].

use vstd::prelude::*;

use crate::ast::{Binop, Const, ConstV, Unop};
use crate::ast::{ArgList, Locals, TypeV};

verus! {

broadcast use
    vstd::std_specs::vec::axiom_vec_decreases_to_view,
    vstd::seq::axiom_seq_index_decreases,
    vstd::seq::axiom_seq_subrange_decreases;

/// A leaf of a basic expression: a constant, or a reference to an input or
/// to another equation's result.
#[derive(Debug, PartialEq, Eq)]
pub enum Atom {
    Ident(String),
    Const(Const),
}

/// Ghost mirror of [`Atom`].
pub enum AtomV {
    Ident(Seq<char>),
    Const(ConstV),
}

impl View for Atom {
    type V = AtomV;

    open spec fn view(&self) -> AtomV {
        match self {
            Atom::Ident(name) => AtomV::Ident(name@),
            Atom::Const(c) => AtomV::Const(c@),
        }
    }
}

impl Clone for Atom {
    fn clone(&self) -> (res: Self)
        ensures
            res@ == self@,
    {
        match self {
            Atom::Ident(name) => Atom::Ident(name.clone()),
            Atom::Const(c) => Atom::Const(c.clone()),
        }
    }
}

/// A basic expression: operators, conditionals and tuples over atoms only.
#[derive(Debug, PartialEq, Eq)]
pub enum Bexpr {
    Atom(Atom),
    Unop(Unop, Box<Bexpr>),
    Binop(Binop, Box<Bexpr>, Box<Bexpr>),
    If { condition: Box<Bexpr>, if_body: Box<Bexpr>, else_body: Box<Bexpr> },
    Tuple(Vec<Bexpr>),
}

/// Ghost mirror of [`Bexpr`].
pub enum BexprV {
    Atom(AtomV),
    Unop(Unop, Box<BexprV>),
    Binop(Binop, Box<BexprV>, Box<BexprV>),
    If { condition: Box<BexprV>, if_body: Box<BexprV>, else_body: Box<BexprV> },
    Tuple(Seq<BexprV>),
}

pub open spec fn bexpr_view(b: Bexpr) -> BexprV
    decreases b,
{
    match b {
        Bexpr::Atom(a) => BexprV::Atom(a@),
        Bexpr::Unop(op, sub) => BexprV::Unop(op, Box::new(bexpr_view(*sub))),
        Bexpr::Binop(op, lhs, rhs) => BexprV::Binop(
            op,
            Box::new(bexpr_view(*lhs)),
            Box::new(bexpr_view(*rhs)),
        ),
        Bexpr::If { condition, if_body, else_body } => BexprV::If {
            condition: Box::new(bexpr_view(*condition)),
            if_body: Box::new(bexpr_view(*if_body)),
            else_body: Box::new(bexpr_view(*else_body)),
        },
        Bexpr::Tuple(elems) => BexprV::Tuple(seq_bexpr_view(elems@)),
    }
}

pub open spec fn seq_bexpr_view(s: Seq<Bexpr>) -> Seq<BexprV>
    decreases s,
{
    if s.len() == 0 {
        Seq::empty()
    } else {
        seq_bexpr_view(s.drop_last()).push(bexpr_view(s.last()))
    }
}

pub broadcast proof fn seq_bexpr_view_props(s: Seq<Bexpr>)
    ensures
        #[trigger] seq_bexpr_view(s).len() == s.len(),
        forall|i: int| 0 <= i < s.len() ==> seq_bexpr_view(s)[i] == bexpr_view(s[i]),
    decreases s,
{
    if s.len() > 0 {
        seq_bexpr_view_props(s.drop_last());
    }
}

impl View for Bexpr {
    type V = BexprV;

    open spec fn view(&self) -> BexprV {
        bexpr_view(*self)
    }
}

impl Clone for Bexpr {
    fn clone(&self) -> (res: Self)
        ensures
            res@ == self@,
        decreases self,
    {
        match self {
            Bexpr::Atom(a) => Bexpr::Atom(a.clone()),
            Bexpr::Unop(op, sub) => Bexpr::Unop(*op, Box::new((**sub).clone())),
            Bexpr::Binop(op, lhs, rhs) => Bexpr::Binop(
                *op,
                Box::new((**lhs).clone()),
                Box::new((**rhs).clone()),
            ),
            Bexpr::If { condition, if_body, else_body } => Bexpr::If {
                condition: Box::new((**condition).clone()),
                if_body: Box::new((**if_body).clone()),
                else_body: Box::new((**else_body).clone()),
            },
            Bexpr::Tuple(elems) => {
                let out = clone_bexpr_vec(elems);
                let res = Bexpr::Tuple(out);
                proof {
                    seq_bexpr_view_props(out@);
                    seq_bexpr_view_props(elems@);
                    assert(seq_bexpr_view(out@) =~= seq_bexpr_view(elems@));
                }
                res
            }
        }
    }
}

pub fn clone_bexpr_vec(v: &Vec<Bexpr>) -> (res: Vec<Bexpr>)
    ensures
        res@.len() == v@.len(),
        forall|i: int| 0 <= i < v@.len() ==> res@[i]@ == v@[i]@,
    decreases v,
{
    let mut out: Vec<Bexpr> = Vec::new();
    let mut i: usize = 0;
    while i < v.len()
        invariant
            i <= v.len(),
            out@.len() == i as nat,
            forall|j: int| 0 <= j < i ==> out@[j]@ == v@[j]@,
        decreases v@.len() - i,
    {
        out.push(v[i].clone());
        i = i + 1;
    }
    out
}

/// A normalized equation body: a basic expression, a single call over basic
/// arguments, or a single followed-by whose initial side is atoms and whose
/// next side is basic expressions.
#[derive(Debug, PartialEq, Eq)]
pub enum Expr {
    Bexpr(Bexpr),
    Call { name: String, args: Vec<Bexpr> },
    Fby(Vec<Atom>, Vec<Bexpr>),
}

/// Ghost mirror of [`Expr`].
pub enum ExprV {
    Bexpr(BexprV),
    Call { name: Seq<char>, args: Seq<BexprV> },
    Fby(Seq<AtomV>, Seq<BexprV>),
}

pub open spec fn seq_atom_view(s: Seq<Atom>) -> Seq<AtomV> {
    s.map_values(|a: Atom| a@)
}

impl View for Expr {
    type V = ExprV;

    open spec fn view(&self) -> ExprV {
        match self {
            Expr::Bexpr(b) => ExprV::Bexpr(b@),
            Expr::Call { name, args } => ExprV::Call {
                name: name@,
                args: seq_bexpr_view(args@),
            },
            Expr::Fby(init, next) => ExprV::Fby(seq_atom_view(init@), seq_bexpr_view(next@)),
        }
    }
}

/// One normalized equation.
#[derive(Debug, PartialEq, Eq)]
pub struct Equation {
    pub names: Vec<String>,
    pub body: Expr,
}

/// Ghost mirror of [`Equation`].
pub struct EquationV {
    pub names: Seq<Seq<char>>,
    pub body: ExprV,
}

impl View for Equation {
    type V = EquationV;

    open spec fn view(&self) -> EquationV {
        EquationV { names: crate::ast::names_view(self.names@), body: self.body@ }
    }
}

/// A node whose equation bodies are all normalized.
#[derive(Debug, PartialEq, Eq)]
pub struct Node {
    pub name: String,
    pub args_in: ArgList,
    pub args_out: ArgList,
    pub locals: Locals,
    pub body: Vec<Equation>,
}

/// Ghost mirror of [`Node`].
pub struct NodeV {
    pub name: Seq<char>,
    pub args_in: Seq<(Seq<char>, TypeV)>,
    pub args_out: Seq<(Seq<char>, TypeV)>,
    pub locals: Seq<(Seq<char>, TypeV)>,
    pub body: Seq<EquationV>,
}

impl View for Node {
    type V = NodeV;

    open spec fn view(&self) -> NodeV {
        NodeV {
            name: self.name@,
            args_in: self.args_in@,
            args_out: self.args_out@,
            locals: self.locals@,
            body: self.body@.map_values(|e: Equation| e@),
        }
    }
}


// Renderings, as the emitted program text uses them.

/// The rendering of an atom.
pub open spec fn atom_text(a: AtomV) -> Seq<char> {
    match a {
        AtomV::Ident(n) => n,
        AtomV::Const(c) => crate::ast::const_text(c),
    }
}

impl Atom {
    /// Renders this atom as it appears in generated code.
    pub fn to_string(&self) -> (r: String)
        ensures
            r@ == atom_text(self@),
    {
        match self {
            Atom::Ident(n) => n.clone(),
            Atom::Const(c) => c.to_string(),
        }
    }
}

/// The rendering of a unary operator.
pub open spec fn unop_text(op: Unop) -> Seq<char> {
    match op {
        Unop::Minus | Unop::MinusDot => "-"@,
        Unop::Not => "!"@,
    }
}

/// The rendering of a binary operator.
pub open spec fn binop_text(op: Binop) -> Seq<char> {
    match op {
        Binop::Plus | Binop::PlusDot => "+"@,
        Binop::Minus | Binop::MinusDot => "-"@,
        Binop::Mult | Binop::MultDot => "*"@,
        Binop::Div | Binop::DivDot => "/"@,
        Binop::Lt => "<"@,
        Binop::Gt => ">"@,
        Binop::Leq => "<="@,
        Binop::Geq => ">="@,
        Binop::Eq => "=="@,
        Binop::And => "&&"@,
        Binop::Or => "||"@,
    }
}

/// The rendering of a basic expression.
pub open spec fn bexpr_text(b: BexprV) -> Seq<char>
    decreases b,
{
    match b {
        BexprV::Atom(a) => atom_text(a),
        BexprV::Unop(op, sub) => unop_text(op) + " "@ + bexpr_text(*sub),
        BexprV::Binop(op, lhs, rhs) => bexpr_text(*lhs) + " "@ + binop_text(op) + " "@
            + bexpr_text(*rhs),
        BexprV::If { condition, if_body, else_body } => "if "@ + bexpr_text(*condition) + " { "@
            + bexpr_text(*if_body) + " } else { "@ + bexpr_text(*else_body) + " }"@,
        BexprV::Tuple(elems) => "("@ + bexpr_texts(elems) + ")"@,
    }
}

/// Tuple element renderings joined with commas.
pub open spec fn bexpr_texts(s: Seq<BexprV>) -> Seq<char>
    decreases s,
{
    if s.len() == 0 {
        Seq::empty()
    } else if s.len() == 1 {
        bexpr_text(s[0])
    } else {
        bexpr_texts(s.drop_last()) + ","@ + bexpr_text(s.last())
    }
}

impl Bexpr {
    /// Renders this basic expression as it appears in generated code.
    pub fn to_string(&self) -> (r: String)
        ensures
            r@ == bexpr_text(self@),
        decreases self,
    {
        match self {
            Bexpr::Atom(a) => a.to_string(),
            Bexpr::Unop(op, sub) => {
                let mut s = String::new();
                s.push_str(op.as_str());
                s.push_str(" ");
                let sub_text = (**sub).to_string();
                s.push_str(sub_text.as_str());
                proof {
                    assert(s@ =~= bexpr_text(self@));
                }
                s
            }
            Bexpr::Binop(op, lhs, rhs) => {
                let mut s = String::new();
                let lhs_text = (**lhs).to_string();
                s.push_str(lhs_text.as_str());
                s.push_str(" ");
                s.push_str(op.as_str());
                s.push_str(" ");
                let rhs_text = (**rhs).to_string();
                s.push_str(rhs_text.as_str());
                proof {
                    assert(s@ =~= bexpr_text(self@));
                }
                s
            }
            Bexpr::If { condition, if_body, else_body } => {
                let mut s = String::new();
                s.push_str("if ");
                let c_text = (**condition).to_string();
                s.push_str(c_text.as_str());
                s.push_str(" { ");
                let t_text = (**if_body).to_string();
                s.push_str(t_text.as_str());
                s.push_str(" } else { ");
                let e_text = (**else_body).to_string();
                s.push_str(e_text.as_str());
                s.push_str(" }");
                proof {
                    assert(s@ =~= bexpr_text(self@));
                }
                s
            }
            Bexpr::Tuple(elems) => {
                let ghost ev = seq_bexpr_view(elems@);
                let mut s = String::new();
                s.push_str("(");
                let mut i: usize = 0;
                proof {
                    seq_bexpr_view_props(elems@);
                    assert(ev.take(0) =~= Seq::<BexprV>::empty());
                    assert(s@ =~= "("@ + bexpr_texts(ev.take(0)));
                }
                while i < elems.len()
                    invariant
                        i <= elems.len(),
                        ev == seq_bexpr_view(elems@),
                        ev.len() == elems@.len(),
                        *self is Tuple,
                        (*self)->Tuple_0 == *elems,
                        s@ == "("@ + bexpr_texts(ev.take(i as int)),
                    decreases elems@.len() - i,
                {
                    if i > 0 {
                        s.push_str(",");
                    }
                    proof {
                        seq_bexpr_view_props(elems@);
                        assert(decreases_to!(*self => *elems));
                        assert(decreases_to!(*elems => elems@));
                        assert(decreases_to!(elems@ => elems@[i as int]));
                    }
                    let t = elems[i].to_string();
                    s.push_str(t.as_str());
                    proof {
                        assert(ev.take(i as int + 1).drop_last() =~= ev.take(i as int));
                        assert(ev.take(i as int + 1).last() == ev[i as int]);
                        assert(ev[i as int] == elems@[i as int]@);
                        assert(t@ == bexpr_text(ev[i as int]));
                        if i == 0 {
                            assert(ev.take(1).len() == 1);
                            assert(ev.take(1)[0] == ev[0]);
                            assert(bexpr_texts(ev.take(1)) == bexpr_text(ev[0]));
                            assert(s@ =~= "("@ + bexpr_texts(ev.take(1)));
                        } else {
                            assert(s@ =~= "("@ + (bexpr_texts(ev.take(i as int)) + ","@
                                + bexpr_text(ev[i as int])));
                        }
                    }
                    i = i + 1;
                }
                s.push_str(")");
                proof {
                    assert(ev.take(ev.len() as int) =~= ev);
                    assert(s@ =~= bexpr_text(self@));
                }
                s
            }
        }
    }
}

} // verus!
