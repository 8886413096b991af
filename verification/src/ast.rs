//! Raw syntax tree.
//!
//! A one-to-one representation of source files as the parsing front end hands
//! them over: nodes with typed argument lists and an unordered list of
//! equations whose bodies are arbitrarily nested expression trees.
//!
//! Every executable type has a ghost mirror (`TypeV`, `ExprV`, ...) reached
//! through `@`; all contracts in this crate speak of those views.
//!
//! Dot operators apply to float streams, the plain ones to integer streams.

use vstd::prelude::*;

verus! {

broadcast use
    vstd::std_specs::vec::axiom_vec_decreases_to_view,
    vstd::seq::axiom_seq_index_decreases,
    vstd::seq::axiom_seq_subrange_decreases;

/// The view of a list of names.
pub open spec fn names_view(s: Seq<String>) -> Seq<Seq<char>> {
    s.map_values(|n: String| n@)
}

/// Stream types. Tuples may nest.
#[derive(Debug, PartialEq, Eq)]
pub enum Type {
    Unit,
    Bool,
    Int,
    Float,
    String,
    Tuple(Vec<Type>),
}

/// Ghost mirror of [`Type`].
pub enum TypeV {
    Unit,
    Bool,
    Int,
    Float,
    String,
    Tuple(Seq<TypeV>),
}

pub open spec fn type_view(t: Type) -> TypeV
    decreases t,
{
    match t {
        Type::Unit => TypeV::Unit,
        Type::Bool => TypeV::Bool,
        Type::Int => TypeV::Int,
        Type::Float => TypeV::Float,
        Type::String => TypeV::String,
        Type::Tuple(elems) => TypeV::Tuple(seq_type_view(elems@)),
    }
}

pub open spec fn seq_type_view(s: Seq<Type>) -> Seq<TypeV>
    decreases s,
{
    if s.len() == 0 {
        Seq::empty()
    } else {
        seq_type_view(s.drop_last()).push(type_view(s.last()))
    }
}

pub broadcast proof fn seq_type_view_props(s: Seq<Type>)
    ensures
        #[trigger] seq_type_view(s).len() == s.len(),
        forall|i: int| 0 <= i < s.len() ==> seq_type_view(s)[i] == type_view(s[i]),
    decreases s,
{
    if s.len() > 0 {
        seq_type_view_props(s.drop_last());
    }
}

impl View for Type {
    type V = TypeV;

    open spec fn view(&self) -> TypeV {
        type_view(*self)
    }
}

impl Clone for Type {
    fn clone(&self) -> (res: Self)
        ensures
            res@ == self@,
        decreases self,
    {
        match self {
            Type::Unit => Type::Unit,
            Type::Bool => Type::Bool,
            Type::Int => Type::Int,
            Type::Float => Type::Float,
            Type::String => Type::String,
            Type::Tuple(elems) => {
                let out = clone_type_vec(elems);
                let res = Type::Tuple(out);
                proof {
                    seq_type_view_props(out@);
                    seq_type_view_props(elems@);
                    assert(seq_type_view(out@) =~= seq_type_view(elems@));
                }
                res
            }
        }
    }
}

fn clone_type_vec(v: &Vec<Type>) -> (res: Vec<Type>)
    ensures
        res@.len() == v@.len(),
        forall|i: int| 0 <= i < v@.len() ==> res@[i]@ == v@[i]@,
    decreases v,
{
    let mut out: Vec<Type> = Vec::new();
    let mut i: usize = 0;
    while i < v.len()
        invariant
            i <= v.len(),
            out@.len() == i as nat,
            forall|j: int| 0 <= j < i ==> out@[j]@ == v@[j]@,
        decreases v@.len() - i,
    {
        out.push(v[i].clone());
        i = i + 1;
    }
    out
}

/// Literal constants. A float literal keeps its source spelling: the core
/// never computes with float values, it only carries them through to the
/// emitted program.
#[derive(Debug, PartialEq, Eq)]
pub enum Const {
    Unit,
    Bool(bool),
    Int(i32),
    Float(String),
    String(String),
}

/// Ghost mirror of [`Const`].
pub enum ConstV {
    Unit,
    Bool(bool),
    Int(int),
    Float(Seq<char>),
    String(Seq<char>),
}

impl View for Const {
    type V = ConstV;

    open spec fn view(&self) -> ConstV {
        match self {
            Const::Unit => ConstV::Unit,
            Const::Bool(b) => ConstV::Bool(*b),
            Const::Int(i) => ConstV::Int(*i as int),
            Const::Float(f) => ConstV::Float(f@),
            Const::String(s) => ConstV::String(s@),
        }
    }
}

impl Clone for Const {
    fn clone(&self) -> (res: Self)
        ensures
            res@ == self@,
    {
        match self {
            Const::Unit => Const::Unit,
            Const::Bool(b) => Const::Bool(*b),
            Const::Int(i) => Const::Int(*i),
            Const::Float(f) => Const::Float(f.clone()),
            Const::String(s) => Const::String(s.clone()),
        }
    }
}

impl ConstV {
    /// The type tag of a constant, at the spec level.
    pub open spec fn as_type(self) -> TypeV {
        match self {
            ConstV::Unit => TypeV::Unit,
            ConstV::Bool(_) => TypeV::Bool,
            ConstV::Int(_) => TypeV::Int,
            ConstV::Float(_) => TypeV::Float,
            ConstV::String(_) => TypeV::String,
        }
    }
}

impl Const {
    /// Every constant describes its own type.
    pub fn as_type(&self) -> (r: Type)
        ensures
            r@ == self@.as_type(),
    {
        match self {
            Const::Unit => Type::Unit,
            Const::Bool(_) => Type::Bool,
            Const::Int(_) => Type::Int,
            Const::Float(_) => Type::Float,
            Const::String(_) => Type::String,
        }
    }
}

/// Unary operators.
#[derive(Clone, Copy, Debug, PartialEq, Eq, Structural)]
pub enum Unop {
    Minus,
    MinusDot,
    Not,
}

impl Unop {
    /// The operator's rendering in generated code.
    pub fn as_str(&self) -> (r: &str)
        ensures
            r@ == match *self {
                Unop::Minus | Unop::MinusDot => "-"@,
                Unop::Not => "!"@,
            },
    {
        match self {
            Self::Minus | Self::MinusDot => "-",
            Self::Not => "!",
        }
    }
}

/// Binary operators.
#[derive(Clone, Copy, Debug, PartialEq, Eq, Structural)]
pub enum Binop {
    Plus,
    Minus,
    Mult,
    Div,
    PlusDot,
    MinusDot,
    MultDot,
    DivDot,
    Lt,
    Gt,
    Leq,
    Geq,
    Eq,
    And,
    Or,
}

impl Binop {
    /// The operator's rendering in generated code.
    pub fn as_str(&self) -> (r: &str)
        ensures
            r@ == match *self {
                Binop::Plus | Binop::PlusDot => "+"@,
                Binop::Minus | Binop::MinusDot => "-"@,
                Binop::Mult | Binop::MultDot => "*"@,
                Binop::Div | Binop::DivDot => "/"@,
                Binop::Lt => "<"@,
                Binop::Gt => ">"@,
                Binop::Leq => "<="@,
                Binop::Geq => ">="@,
                Binop::Eq => "=="@,
                Binop::And => "&&"@,
                Binop::Or => "||"@,
            },
    {
        match self {
            Self::Plus | Self::PlusDot => "+",
            Self::Minus | Self::MinusDot => "-",
            Self::Mult | Self::MultDot => "*",
            Self::Div | Self::DivDot => "/",
            Self::Lt => "<",
            Self::Gt => ">",
            Self::Leq => "<=",
            Self::Geq => ">=",
            Self::Eq => "==",
            Self::And => "&&",
            Self::Or => "||",
        }
    }
}

/// Raw expression trees, exactly as parsed. Calls and the followed-by
/// operator may still sit anywhere inside the tree.
#[derive(Debug, PartialEq, Eq)]
pub enum Expr {
    Call { name: String, args: Vec<Expr> },
    Const(Const),
    Unop(Unop, Box<Expr>),
    Binop(Binop, Box<Expr>, Box<Expr>),
    /// Yields an initial value on the first step, the right expression after.
    Fby(Box<Expr>, Box<Expr>),
    If { condition: Box<Expr>, if_body: Box<Expr>, else_body: Box<Expr> },
    /// Reference to an input or to the result of another equation.
    Ident(String),
    Tuple(Vec<Expr>),
}

/// Ghost mirror of [`Expr`].
pub enum ExprV {
    Call { name: Seq<char>, args: Seq<ExprV> },
    Const(ConstV),
    Unop(Unop, Box<ExprV>),
    Binop(Binop, Box<ExprV>, Box<ExprV>),
    Fby(Box<ExprV>, Box<ExprV>),
    If { condition: Box<ExprV>, if_body: Box<ExprV>, else_body: Box<ExprV> },
    Ident(Seq<char>),
    Tuple(Seq<ExprV>),
}

pub open spec fn expr_view(e: Expr) -> ExprV
    decreases e,
{
    match e {
        Expr::Call { name, args } => ExprV::Call { name: name@, args: seq_expr_view(args@) },
        Expr::Const(c) => ExprV::Const(c@),
        Expr::Unop(op, sub) => ExprV::Unop(op, Box::new(expr_view(*sub))),
        Expr::Binop(op, lhs, rhs) => ExprV::Binop(
            op,
            Box::new(expr_view(*lhs)),
            Box::new(expr_view(*rhs)),
        ),
        Expr::Fby(init, next) => ExprV::Fby(
            Box::new(expr_view(*init)),
            Box::new(expr_view(*next)),
        ),
        Expr::If { condition, if_body, else_body } => ExprV::If {
            condition: Box::new(expr_view(*condition)),
            if_body: Box::new(expr_view(*if_body)),
            else_body: Box::new(expr_view(*else_body)),
        },
        Expr::Ident(name) => ExprV::Ident(name@),
        Expr::Tuple(elems) => ExprV::Tuple(seq_expr_view(elems@)),
    }
}

pub open spec fn seq_expr_view(s: Seq<Expr>) -> Seq<ExprV>
    decreases s,
{
    if s.len() == 0 {
        Seq::empty()
    } else {
        seq_expr_view(s.drop_last()).push(expr_view(s.last()))
    }
}

pub broadcast proof fn seq_expr_view_props(s: Seq<Expr>)
    ensures
        #[trigger] seq_expr_view(s).len() == s.len(),
        forall|i: int| 0 <= i < s.len() ==> seq_expr_view(s)[i] == expr_view(s[i]),
    decreases s,
{
    if s.len() > 0 {
        seq_expr_view_props(s.drop_last());
    }
}

impl View for Expr {
    type V = ExprV;

    open spec fn view(&self) -> ExprV {
        expr_view(*self)
    }
}

/// One equation: binds one or more names to one evaluation of its body.
/// The names share the body's dependencies and are always scheduled as one
/// atomic unit.
#[derive(Debug, PartialEq, Eq)]
pub struct Equation {
    pub names: Vec<String>,
    pub body: Expr,
}

/// Ghost mirror of [`Equation`].
pub struct EquationV {
    pub names: Seq<Seq<char>>,
    pub body: ExprV,
}

impl View for Equation {
    type V = EquationV;

    open spec fn view(&self) -> EquationV {
        EquationV { names: names_view(self.names@), body: self.body@ }
    }
}

/// One `type name, name, ...` group of an argument declaration.
#[derive(Debug, PartialEq, Eq)]
pub struct Arg {
    pub typ: Type,
    pub names: Vec<String>,
}

/// A flat `name -> type` table, in declaration order.
#[derive(Debug, PartialEq, Eq)]
pub struct ArgList(pub Vec<(String, Type)>);

/// Ghost mirror of [`ArgList`]: the declared pairs, in order.
pub open spec fn arg_list_view(v: Seq<(String, Type)>) -> Seq<(Seq<char>, TypeV)> {
    v.map_values(|p: (String, Type)| (p.0@, p.1@))
}

impl View for ArgList {
    type V = Seq<(Seq<char>, TypeV)>;

    open spec fn view(&self) -> Seq<(Seq<char>, TypeV)> {
        arg_list_view(self.0@)
    }
}

/// The names an argument list declares, in order.
pub open spec fn declared_names(l: Seq<(Seq<char>, TypeV)>) -> Seq<Seq<char>> {
    l.map_values(|p: (Seq<char>, TypeV)| p.0)
}

impl ArgList {
    pub fn new() -> (r: Self)
        ensures
            r@ == Seq::<(Seq<char>, TypeV)>::empty(),
    {
        ArgList(Vec::new())
    }

    /// Registers every name of `arg` with the group's type, in order.
    pub fn insert_arg(&mut self, arg: Arg)
        ensures
            final(self)@ == old(self)@ + Seq::new(
                arg.names@.len(),
                |i: int| (arg.names@[i]@, arg.typ@),
            ),
    {
        let Arg { typ, names } = arg;
        let ghost start = self.0@;
        let mut i: usize = 0;
        while i < names.len()
            invariant
                i <= names.len(),
                self.0@.len() == start.len() + i,
                forall|j: int| 0 <= j < start.len() ==> self.0@[j] == start[j],
                forall|j: int| start.len() <= j < start.len() + i ==> (#[trigger] self.0@[j]).0@
                    == names@[j - start.len()]@ && self.0@[j].1@ == typ@,
            decreases names@.len() - i,
        {
            let name = names[i].clone();
            let t = typ.clone();
            self.0.push((name, t));
            i = i + 1;
        }
        proof {
            assert(arg_list_view(self.0@) =~= arg_list_view(start) + Seq::new(
                names@.len(),
                |j: int| (names@[j]@, typ@),
            ));
        }
    }

    pub fn len(&self) -> (r: usize)
        ensures
            r == self@.len(),
    {
        self.0.len()
    }
}

impl Clone for ArgList {
    fn clone(&self) -> (res: Self)
        ensures
            res@ == self@,
    {
        let mut out: Vec<(String, Type)> = Vec::new();
        let mut i: usize = 0;
        while i < self.0.len()
            invariant
                i <= self.0.len(),
                out@.len() == i as nat,
                forall|j: int| 0 <= j < i ==> (#[trigger] out@[j]).0@ == self.0@[j].0@
                    && out@[j].1@ == self.0@[j].1@,
            decreases self.0@.len() - i,
        {
            let name = self.0[i].0.clone();
            let typ = self.0[i].1.clone();
            out.push((name, typ));
            i = i + 1;
        }
        let res = ArgList(out);
        proof {
            assert(res@ =~= self@);
        }
        res
    }
}

/// Local variable declarations; same shape as an argument list.
#[derive(Debug, PartialEq, Eq)]
pub struct Locals(pub ArgList);

impl View for Locals {
    type V = Seq<(Seq<char>, TypeV)>;

    open spec fn view(&self) -> Seq<(Seq<char>, TypeV)> {
        self.0@
    }
}

impl Locals {
    pub fn new() -> (r: Self)
        ensures
            r@ == Seq::<(Seq<char>, TypeV)>::empty(),
    {
        Locals(ArgList::new())
    }
}

impl Clone for Locals {
    fn clone(&self) -> (res: Self)
        ensures
            res@ == self@,
    {
        Locals(self.0.clone())
    }
}

/// The unit of compilation: a named block of typed inputs, outputs, locals
/// and order-independent equations.
#[derive(Debug, PartialEq, Eq)]
pub struct Node {
    pub name: String,
    pub args_in: ArgList,
    pub args_out: ArgList,
    pub locals: Locals,
    pub body: Vec<Equation>,
}

/// Ghost mirror of [`Node`].
pub struct NodeV {
    pub name: Seq<char>,
    pub args_in: Seq<(Seq<char>, TypeV)>,
    pub args_out: Seq<(Seq<char>, TypeV)>,
    pub locals: Seq<(Seq<char>, TypeV)>,
    pub body: Seq<EquationV>,
}

impl View for Node {
    type V = NodeV;

    open spec fn view(&self) -> NodeV {
        NodeV {
            name: self.name@,
            args_in: self.args_in@,
            args_out: self.args_out@,
            locals: self.locals@,
            body: self.body@.map_values(|e: Equation| e@),
        }
    }
}

/// A whole compilation unit: its nodes, in declaration order.
#[derive(Debug, PartialEq, Eq)]
pub struct Ast(pub Vec<Node>);

impl View for Ast {
    type V = Seq<NodeV>;

    open spec fn view(&self) -> Seq<NodeV> {
        self.0@.map_values(|n: Node| n@)
    }
}


// Renderings, as the emitted program text uses them.

/// The rendering of a type in generated code.
pub open spec fn type_text(t: TypeV) -> Seq<char>
    decreases t,
{
    match t {
        TypeV::Unit => "()"@,
        TypeV::Bool => "bool"@,
        TypeV::Int => "i32"@,
        TypeV::Float => "f32"@,
        TypeV::String => "String"@,
        TypeV::Tuple(elems) => "("@ + tuple_texts(elems) + ")"@,
    }
}

/// Tuple element renderings joined with commas.
pub open spec fn tuple_texts(s: Seq<TypeV>) -> Seq<char>
    decreases s,
{
    if s.len() == 0 {
        Seq::empty()
    } else if s.len() == 1 {
        type_text(s[0])
    } else {
        tuple_texts(s.drop_last()) + ","@ + type_text(s.last())
    }
}

impl Type {
    /// Renders this type as it appears in generated code.
    pub fn to_string(&self) -> (r: String)
        ensures
            r@ == type_text(self@),
        decreases self,
    {
        match self {
            Type::Unit => {
                let mut s = String::new();
                s.push_str("()");
                proof {
                    assert(s@ =~= "()"@);
                }
                s
            }
            Type::Bool => {
                let mut s = String::new();
                s.push_str("bool");
                proof {
                    assert(s@ =~= "bool"@);
                }
                s
            }
            Type::Int => {
                let mut s = String::new();
                s.push_str("i32");
                proof {
                    assert(s@ =~= "i32"@);
                }
                s
            }
            Type::Float => {
                let mut s = String::new();
                s.push_str("f32");
                proof {
                    assert(s@ =~= "f32"@);
                }
                s
            }
            Type::String => {
                let mut s = String::new();
                s.push_str("String");
                proof {
                    assert(s@ =~= "String"@);
                }
                s
            }
            Type::Tuple(elems) => {
                let ghost ev = seq_type_view(elems@);
                let mut s = String::new();
                s.push_str("(");
                let mut i: usize = 0;
                proof {
                    seq_type_view_props(elems@);
                    assert(ev.take(0) =~= Seq::<TypeV>::empty());
                    assert(s@ =~= "("@ + tuple_texts(ev.take(0)));
                }
                while i < elems.len()
                    invariant
                        i <= elems.len(),
                        ev == seq_type_view(elems@),
                        ev.len() == elems@.len(),
                        *self is Tuple,
                        (*self)->Tuple_0 == *elems,
                        s@ == "("@ + tuple_texts(ev.take(i as int)),
                    decreases elems@.len() - i,
                {
                    if i > 0 {
                        s.push(',');
                    }
                    proof {
                        seq_type_view_props(elems@);
                        assert(decreases_to!(*self => *elems));
                        assert(decreases_to!(*elems => elems@));
                        assert(decreases_to!(elems@ => elems@[i as int]));
                    }
                    let t = elems[i].to_string();
                    s.push_str(t.as_str());
                    proof {
                        assert(ev.take(i as int + 1).drop_last() =~= ev.take(i as int));
                        assert(ev.take(i as int + 1).last() == ev[i as int]);
                        assert(ev[i as int] == elems@[i as int]@);
                        assert(t@ == type_text(ev[i as int]));
                        reveal_strlit(",");
                        if i == 0 {
                            assert(ev.take(1).len() == 1);
                            assert(ev.take(1)[0] == ev[0]);
                            assert(tuple_texts(ev.take(1)) == type_text(ev[0]));
                            assert(s@ =~= "("@ + tuple_texts(ev.take(1)));
                        } else {
                            assert(s@ =~= "("@ + (tuple_texts(ev.take(i as int)) + ","@
                                + type_text(ev[i as int])));
                        }
                    }
                    i = i + 1;
                }
                s.push_str(")");
                proof {
                    assert(ev.take(ev.len() as int) =~= ev);
                    assert(s@ =~= type_text(self@));
                }
                s
            }
        }
    }
}

/// The rendering of an integer constant.
pub open spec fn int_text(i: int) -> Seq<char> {
    if i >= 0 {
        crate::text::dec_rep(i as nat)
    } else {
        seq!['-'] + crate::text::dec_rep((-i) as nat)
    }
}

/// The rendering of a constant in generated code. A float or string keeps
/// the spelling the source had.
pub open spec fn const_text(c: ConstV) -> Seq<char> {
    match c {
        ConstV::Unit => "()"@,
        ConstV::Bool(b) => if b {
            "true"@
        } else {
            "false"@
        },
        ConstV::Int(i) => int_text(i),
        ConstV::Float(t) => t,
        ConstV::String(t) => t,
    }
}

impl Const {
    /// Renders this constant as it appears in generated code.
    pub fn to_string(&self) -> (r: String)
        ensures
            r@ == const_text(self@),
    {
        match self {
            Const::Unit => {
                let mut s = String::new();
                s.push_str("()");
                proof {
                    assert(s@ =~= "()"@);
                }
                s
            }
            Const::Bool(b) => {
                let mut s = String::new();
                if *b {
                    s.push_str("true");
                } else {
                    s.push_str("false");
                }
                proof {
                    assert(s@ =~= const_text(self@));
                }
                s
            }
            Const::Int(i) => {
                let mut s = String::new();
                let v = *i;
                if v >= 0 {
                    crate::text::push_decimal(&mut s, v as u64);
                } else {
                    s.push('-');
                    let m: u64 = (-(v as i64)) as u64;
                    crate::text::push_decimal(&mut s, m);
                }
                proof {
                    assert(s@ =~= const_text(self@));
                }
                s
            }
            Const::Float(t) => {
                let mut s = String::new();
                s.push_str(t.as_str());
                proof {
                    assert(s@ =~= t@);
                }
                s
            }
            Const::String(t) => {
                let mut s = String::new();
                s.push_str(t.as_str());
                proof {
                    assert(s@ =~= t@);
                }
                s
            }
        }
    }
}

/// The source token of each unary operator.
pub open spec fn unop_token(op: Unop) -> Seq<char> {
    match op {
        Unop::Minus => "-"@,
        Unop::MinusDot => "-."@,
        Unop::Not => "not"@,
    }
}

impl Unop {
    /// Reads a unary operator token.
    pub fn from_str(s: &str) -> (r: Option<Unop>)
        ensures
            r matches Some(op) ==> s@ == unop_token(op),
            forall|op: Unop| s@ == unop_token(op) ==> r == Some(op),
            (r is None <==> forall|op: Unop| s@ != unop_token(op)),
    {
        let r: Option<Unop> = if s.eq("-") {
            Some(Unop::Minus)
        } else if s.eq("-.") {
            Some(Unop::MinusDot)
        } else if s.eq("not") {
            Some(Unop::Not)
        } else {
            None
        };
        proof {
            reveal_strlit("-");
            reveal_strlit("-.");
            reveal_strlit("not");
            assert(r matches Some(op) ==> s@ == unop_token(op));
            assert(forall|op: Unop| s@ == unop_token(op) ==> r == Some(op));
            assert(r is None <==> forall|op: Unop| s@ != unop_token(op));
        }
        r
    }
}

/// The source token of each binary operator.
pub open spec fn binop_token(op: Binop) -> Seq<char> {
    match op {
        Binop::Plus => "+"@,
        Binop::Minus => "-"@,
        Binop::Mult => "*"@,
        Binop::Div => "/"@,
        Binop::PlusDot => "+."@,
        Binop::MinusDot => "-."@,
        Binop::MultDot => "*."@,
        Binop::DivDot => "/."@,
        Binop::Lt => "<"@,
        Binop::Gt => ">"@,
        Binop::Leq => "<="@,
        Binop::Geq => ">="@,
        Binop::Eq => "="@,
        Binop::And => "and"@,
        Binop::Or => "or"@,
    }
}

impl Binop {
    /// Reads a binary operator token. The followed-by token is not a
    /// [`Binop`]: the front end handles it separately.
    pub fn from_str(s: &str) -> (r: Option<Binop>)
        ensures
            r matches Some(op) ==> s@ == binop_token(op),
            forall|op: Binop| s@ == binop_token(op) ==> r == Some(op),
            (r is None <==> forall|op: Binop| s@ != binop_token(op)),
    {
        let r: Option<Binop> = if s.eq("+") {
            Some(Binop::Plus)
        } else if s.eq("-") {
            Some(Binop::Minus)
        } else if s.eq("*") {
            Some(Binop::Mult)
        } else if s.eq("/") {
            Some(Binop::Div)
        } else if s.eq("+.") {
            Some(Binop::PlusDot)
        } else if s.eq("-.") {
            Some(Binop::MinusDot)
        } else if s.eq("*.") {
            Some(Binop::MultDot)
        } else if s.eq("/.") {
            Some(Binop::DivDot)
        } else if s.eq("<") {
            Some(Binop::Lt)
        } else if s.eq(">") {
            Some(Binop::Gt)
        } else if s.eq("<=") {
            Some(Binop::Leq)
        } else if s.eq(">=") {
            Some(Binop::Geq)
        } else if s.eq("=") {
            Some(Binop::Eq)
        } else if s.eq("and") {
            Some(Binop::And)
        } else if s.eq("or") {
            Some(Binop::Or)
        } else {
            None
        };
        proof {
            reveal_strlit("+");
            reveal_strlit("-");
            reveal_strlit("*");
            reveal_strlit("/");
            reveal_strlit("+.");
            reveal_strlit("-.");
            reveal_strlit("*.");
            reveal_strlit("/.");
            reveal_strlit("<");
            reveal_strlit(">");
            reveal_strlit("<=");
            reveal_strlit(">=");
            reveal_strlit("=");
            reveal_strlit("and");
            reveal_strlit("or");
            assert(r matches Some(op) ==> s@ == binop_token(op));
            assert forall|op: Binop| s@ == binop_token(op) implies r == Some(op) by {
                assert(binop_token(op).len() == s@.len());
                assert(binop_token(op)[0] == s@[0]);
                if s@.len() >= 2 {
                    assert(binop_token(op)[1] == s@[1]);
                }
                if s@.len() >= 3 {
                    assert(binop_token(op)[2] == s@[2]);
                }
            }
            assert(r is None <==> forall|op: Binop| s@ != binop_token(op));
        }
        r
    }
}

impl Type {
    /// Reads a scalar type keyword.
    pub fn from_str(s: &str) -> (r: Option<Type>)
        ensures
            r matches Some(t) ==> ((t@ == TypeV::Unit && s@ == "unit"@) || (t@ == TypeV::Bool
                && s@ == "bool"@) || (t@ == TypeV::Int && s@ == "int"@) || (t@ == TypeV::Float
                && s@ == "float"@) || (t@ == TypeV::String && s@ == "string"@)),
            (r is None <==> (s@ != "unit"@ && s@ != "bool"@ && s@ != "int"@ && s@ != "float"@
                && s@ != "string"@)),
    {
        let r: Option<Type> = if s.eq("unit") {
            Some(Type::Unit)
        } else if s.eq("bool") {
            Some(Type::Bool)
        } else if s.eq("int") {
            Some(Type::Int)
        } else if s.eq("float") {
            Some(Type::Float)
        } else if s.eq("string") {
            Some(Type::String)
        } else {
            None
        };
        proof {
            reveal_strlit("unit");
            reveal_strlit("bool");
            reveal_strlit("int");
            reveal_strlit("float");
            reveal_strlit("string");
            assert(r matches Some(t) ==> ((t@ == TypeV::Unit && s@ == "unit"@) || (t@
                == TypeV::Bool && s@ == "bool"@) || (t@ == TypeV::Int && s@ == "int"@) || (t@
                == TypeV::Float && s@ == "float"@) || (t@ == TypeV::String && s@
                == "string"@)));
            assert(r is None <==> (s@ != "unit"@ && s@ != "bool"@ && s@ != "int"@ && s@
                != "float"@ && s@ != "string"@));
        }
        r
    }
}

} // verus!
