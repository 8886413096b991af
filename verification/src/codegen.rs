//! Memory planning and step-procedure generation.
//!
//! Each node is inspected after normalization and scheduling. A node needs
//! persistent state for every followed-by equation (one slot, seeded from
//! the operator's initial constants and updated from its next side at the
//! end of every step) and for every call to a callee that itself has
//! non-empty memory (one opaque nested slot typed by the callee's memory
//! record). A node with no such field is stateless and callers allocate
//! nothing for it.
//!
//! The emitted step procedure is a structured description, not text: a
//! parameter list, one bind statement per scheduled equation, one update
//! statement per followed-by field after all binds, and the declared
//! outputs as the result. Rendering it into target-language text is the
//! caller's business.

use vstd::prelude::*;

use crate::ast::{Const, ConstV, Type, TypeV};
use crate::error::Error;
use crate::nast;
use crate::nast::{AtomV, BexprV};
use crate::sequentializer::names_contain;
use crate::text::mem_struct_name;

verus! {

broadcast use
    vstd::std_specs::vec::axiom_vec_decreases_to_view,
    vstd::seq::axiom_seq_index_decreases,
    vstd::seq::axiom_seq_subrange_decreases;

/// One slot of a node's persistent state.
#[derive(Debug, PartialEq, Eq)]
pub enum MemField {
    /// A followed-by slot: its declared type, the constants that seed it,
    /// and the expressions that refresh it at the end of every step.
    Fby { typ: Type, init: Vec<Const>, next: Vec<nast::Bexpr> },
    /// The opaque nested state of a stateful callee.
    Callee { callee: String, mem_name: String },
}

/// Ghost mirror of [`MemField`].
pub enum MemFieldV {
    Fby { typ: TypeV, init: Seq<ConstV>, next: Seq<BexprV> },
    Callee { callee: Seq<char>, mem_name: Seq<char> },
}

impl View for MemField {
    type V = MemFieldV;

    open spec fn view(&self) -> MemFieldV {
        match self {
            MemField::Fby { typ, init, next } => MemFieldV::Fby {
                typ: typ@,
                init: init@.map_values(|c: Const| c@),
                next: nast::seq_bexpr_view(next@),
            },
            MemField::Callee { callee, mem_name } => MemFieldV::Callee {
                callee: callee@,
                mem_name: mem_name@,
            },
        }
    }
}

/// A node's persistent state: its synthesized record name and its fields,
/// one per followed-by and one per stateful call, keyed by the joined
/// destination names of the owning equation.
#[derive(Debug, PartialEq, Eq)]
pub struct Memory {
    pub name: String,
    pub fields: Vec<(String, MemField)>,
}

/// Ghost mirror of [`Memory`].
pub struct MemoryV {
    pub name: Seq<char>,
    pub fields: Seq<(Seq<char>, MemFieldV)>,
}

impl View for Memory {
    type V = MemoryV;

    open spec fn view(&self) -> MemoryV {
        MemoryV {
            name: self.name@,
            fields: self.fields@.map_values(|p: (String, MemField)| (p.0@, p.1@)),
        }
    }
}

/// The view of the callee-memory table.
pub open spec fn mem_table_view(v: Seq<(String, Memory)>) -> Seq<(Seq<char>, MemoryV)> {
    v.map_values(|p: (String, Memory)| (p.0@, p.1@))
}

/// First-match lookup of a callee's memory.
pub open spec fn mem_lookup(ms: Seq<(Seq<char>, MemoryV)>, name: Seq<char>) -> Option<MemoryV>
    decreases ms,
{
    if ms.len() == 0 {
        None
    } else if ms.first().0 == name {
        Some(ms.first().1)
    } else {
        mem_lookup(ms.drop_first(), name)
    }
}

/// Destination names joined into one flat field name.
pub open spec fn joined(names: Seq<Seq<char>>) -> Seq<char>
    decreases names,
{
    if names.len() == 0 {
        Seq::empty()
    } else if names.len() == 1 {
        names[0]
    } else {
        joined(names.drop_last()) + seq!['_'] + names.last()
    }
}

/// The constants of a followed-by initial side.
pub open spec fn consts_of(init: Seq<AtomV>) -> Seq<ConstV> {
    init.map_values(|a: AtomV| a->Const_0)
}

/// The declared type of a followed-by slot: scalar for one initial
/// constant, a tuple for several.
pub open spec fn fby_slot_type(init: Seq<AtomV>) -> TypeV {
    if init.len() == 0 {
        TypeV::Unit
    } else if init.len() == 1 {
        consts_of(init)[0].as_type()
    } else {
        TypeV::Tuple(consts_of(init).map_values(|c: ConstV| c.as_type()))
    }
}

/// Every followed-by initial side consists of constants only; the
/// normalizer establishes this.
pub open spec fn fby_inits_const(body: Seq<nast::EquationV>) -> bool {
    forall|i: int|
        0 <= i < body.len() ==> ((#[trigger] body[i]).body matches nast::ExprV::Fby(init, _)
            ==> forall|j: int| 0 <= j < init.len() ==> (#[trigger] init[j]) is Const)
}

/// The memory fields a body gives rise to, in equation order.
pub open spec fn mem_fields_of(
    body: Seq<nast::EquationV>,
    mems: Seq<(Seq<char>, MemoryV)>,
) -> Seq<(Seq<char>, MemFieldV)>
    decreases body,
{
    if body.len() == 0 {
        Seq::empty()
    } else {
        let pre = mem_fields_of(body.drop_last(), mems);
        let eq = body.last();
        match eq.body {
            nast::ExprV::Call { name, args: _ } => match mem_lookup(mems, name) {
                Some(m) => pre.push(
                    (joined(eq.names), MemFieldV::Callee { callee: name, mem_name: m.name }),
                ),
                None => pre,
            },
            nast::ExprV::Fby(init, next) => pre.push(
                (
                    joined(eq.names),
                    MemFieldV::Fby {
                        typ: fby_slot_type(init),
                        init: consts_of(init),
                        next,
                    },
                ),
            ),
            nast::ExprV::Bexpr(_) => pre,
        }
    }
}


/// Appending one equation's bind to a prefix's binds.
proof fn lemma_binds_push(
    bv: Seq<nast::EquationV>,
    i: int,
    mv: Seq<(Seq<char>, MemoryV)>,
    pre: Seq<StmtV>,
    new: StmtV,
)
    requires
        0 <= i < bv.len(),
        pre == binds_of(bv.take(i), mv),
        new == stmt_of_eq(bv[i], mv),
    ensures
        pre.push(new) == binds_of(bv.take(i + 1), mv),
{
    let lhs = pre.push(new);
    let rhs = binds_of(bv.take(i + 1), mv);
    assert(rhs.len() == i + 1);
    assert forall|k: int| 0 <= k < lhs.len() implies lhs[k] == rhs[k] by {
        assert(rhs[k] == stmt_of_eq(bv.take(i + 1)[k], mv));
        if k < i {
            assert(pre[k] == stmt_of_eq(bv.take(i)[k], mv));
            assert(bv.take(i + 1)[k] == bv.take(i)[k]);
        } else {
            assert(bv.take(i + 1)[k] == bv[i]);
        }
    }
    assert(lhs =~= rhs);
}

/// Joins destination names with underscores.
fn join_names(names: &Vec<String>) -> (r: String)
    ensures
        r@ == joined(crate::ast::names_view(names@)),
{
    let ghost nv = crate::ast::names_view(names@);
    let mut s = String::new();
    let mut i: usize = 0;
    proof {
        assert(nv.take(0) =~= Seq::<Seq<char>>::empty());
    }
    while i < names.len()
        invariant
            i <= names.len(),
            nv == crate::ast::names_view(names@),
            nv.len() == names@.len(),
            s@ == joined(nv.take(i as int)),
        decreases names@.len() - i,
    {
        if i > 0 {
            s.push('_');
        }
        s.push_str(names[i].as_str());
        proof {
            assert(nv.take(i as int + 1).drop_last() =~= nv.take(i as int));
            assert(nv.take(i as int + 1).last() == nv[i as int]);
            if i == 0 {
                assert(s@ =~= joined(nv.take(1)));
            } else {
                assert(s@ =~= joined(nv.take(i as int)) + seq!['_'] + nv[i as int]);
            }
        }
        i = i + 1;
    }
    proof {
        assert(nv.take(nv.len() as int) =~= nv);
    }
    s
}

/// First-match lookup in the callee-memory table.
fn get_mem<'a>(mems: &'a Vec<(String, Memory)>, name: &String) -> (r: Option<&'a Memory>)
    ensures
        mem_lookup(mem_table_view(mems@), name@) matches Some(m) ==> r matches Some(rm) && rm@
            == m,
        (mem_lookup(mem_table_view(mems@), name@) is None ==> r is None),
{
    let ghost mv = mem_table_view(mems@);
    proof {
        assert(mv.skip(0) =~= mv);
    }
    let mut i: usize = 0;
    while i < mems.len()
        invariant
            i <= mems.len(),
            mv == mem_table_view(mems@),
            mv.len() == mems@.len(),
            mem_lookup(mv.skip(i as int), name@) == mem_lookup(mv, name@),
        decreases mems@.len() - i,
    {
        if mems[i].0.eq(name) {
            proof {
                assert(mv.skip(i as int).first() == mv[i as int]);
            }
            return Some(&mems[i].1);
        }
        proof {
            assert(mv.skip(i as int).first() == mv[i as int]);
            assert(mv.skip(i as int).drop_first() =~= mv.skip(i as int + 1));
        }
        i = i + 1;
    }
    proof {
        assert(mv.skip(mems@.len() as int) =~= Seq::<(Seq<char>, MemoryV)>::empty());
    }
    None
}

impl Memory {
    pub fn new() -> (r: Self)
        ensures
            r@.name =~= Seq::<char>::empty(),
            r@.fields =~= Seq::<(Seq<char>, MemFieldV)>::empty(),
    {
        Memory { name: String::new(), fields: Vec::new() }
    }

    /// Plans this node's persistent state from its equations, using the
    /// already-built memories of every stateful node it may call.
    pub fn build(node: &nast::Node, mems: &Vec<(String, Memory)>) -> (r: Memory)
        requires
            fby_inits_const(node@.body),
        ensures
            r@.name == mem_struct_name(node@.name),
            r@.fields == mem_fields_of(node@.body, mem_table_view(mems@)),
    {
        let ghost bv = node@.body;
        let ghost mv = mem_table_view(mems@);
        let name = crate::text::make_mem_name(&node.name);
        let mut fields: Vec<(String, MemField)> = Vec::new();
        let ghost fields_view = |f: Seq<(String, MemField)>| f.map_values(
            |p: (String, MemField)| (p.0@, p.1@),
        );
        let mut i: usize = 0;
        proof {
            assert(bv.take(0) =~= Seq::<nast::EquationV>::empty());
            assert(fields_view(fields@) =~= mem_fields_of(bv.take(0), mv));
        }
        while i < node.body.len()
            invariant
                i <= node.body.len(),
                bv == node@.body,
                mv == mem_table_view(mems@),
                bv.len() == node.body@.len(),
                fby_inits_const(bv),
                fields_view == (|f: Seq<(String, MemField)>| f.map_values(
                    |p: (String, MemField)| (p.0@, p.1@),
                )),
                fields_view(fields@) == mem_fields_of(bv.take(i as int), mv),
            decreases node.body@.len() - i,
        {
            proof {
                assert(bv[i as int] == node.body@[i as int]@);
                assert(bv.take(i as int + 1).drop_last() =~= bv.take(i as int));
                assert(bv.take(i as int + 1).last() == bv[i as int]);
            }
            let eq = &node.body[i];
            let ghost pre = fields_view(fields@);
            match &eq.body {
                nast::Expr::Call { name: callee, args: _ } => {
                    match get_mem(mems, callee) {
                        Some(m) => {
                            let dest = join_names(&eq.names);
                            let mem_name = m.name.clone();
                            fields.push(
                                (
                                    dest,
                                    MemField::Callee { callee: callee.clone(), mem_name },
                                ),
                            );
                            proof {
                                assert(fields_view(fields@) =~= mem_fields_of(
                                    bv.take(i as int + 1),
                                    mv,
                                ));
                            }
                        }
                        None => {
                            proof {
                                assert(fields_view(fields@) =~= mem_fields_of(
                                    bv.take(i as int + 1),
                                    mv,
                                ));
                            }
                        }
                    }
                }
                nast::Expr::Fby(init, next) => {
                    let dest = join_names(&eq.names);
                    let ghost initv = nast::seq_atom_view(init@);
                    proof {
                        assert(bv[i as int].body->Fby_0 == initv);
                        assert(forall|j: int| 0 <= j < initv.len() ==> (
                        #[trigger] initv[j]) is Const);
                    }
                    let mut consts: Vec<Const> = Vec::new();
                    let mut j: usize = 0;
                    while j < init.len()
                        invariant
                            j <= init.len(),
                            initv == nast::seq_atom_view(init@),
                            initv.len() == init@.len(),
                            forall|k: int| 0 <= k < initv.len() ==> (
                            #[trigger] initv[k]) is Const,
                            consts@.len() == j as nat,
                            forall|k: int| 0 <= k < j ==> (#[trigger] consts@[k]@)
                                == initv[k]->Const_0,
                        decreases init@.len() - j,
                    {
                        proof {
                            assert(initv[j as int] == init@[j as int]@);
                        }
                        match &init[j] {
                            nast::Atom::Const(c) => {
                                consts.push(c.clone());
                            }
                            nast::Atom::Ident(_) => {
                                proof {
                                    assert(initv[j as int] is Const);
                                    assert(false);
                                }
                                unreached()
                            }
                        }
                        j = j + 1;
                    }
                    proof {
                        assert(consts@.map_values(|c: Const| c@) =~= consts_of(initv));
                    }
                    let typ = fby_type_exec(&consts, Ghost(initv));
                    let nexts = nast::clone_bexpr_vec(next);
                    proof {
                        nast::seq_bexpr_view_props(nexts@);
                        nast::seq_bexpr_view_props(next@);
                        assert(nast::seq_bexpr_view(nexts@) =~= nast::seq_bexpr_view(next@));
                    }
                    fields.push((dest, MemField::Fby { typ, init: consts, next: nexts }));
                    proof {
                        assert(fields_view(fields@) =~= mem_fields_of(bv.take(i as int + 1), mv));
                    }
                }
                nast::Expr::Bexpr(_) => {
                    proof {
                        assert(fields_view(fields@) =~= mem_fields_of(bv.take(i as int + 1), mv));
                    }
                }
            }
            i = i + 1;
        }
        proof {
            assert(bv.take(bv.len() as int) =~= bv);
        }
        Memory { name, fields }
    }
}

/// The declared type of a followed-by slot with the given seed constants.
fn fby_type_exec(consts: &Vec<Const>, Ghost(initv): Ghost<Seq<AtomV>>) -> (r: Type)
    requires
        consts@.map_values(|c: Const| c@) == consts_of(initv),
        initv.len() == consts@.len(),
    ensures
        r@ == fby_slot_type(initv),
{
    if consts.len() == 0 {
        Type::Unit
    } else if consts.len() == 1 {
        let r = consts[0].as_type();
        proof {
            assert(consts@[0]@ == consts_of(initv)[0]);
        }
        r
    } else {
        let mut elems: Vec<Type> = Vec::new();
        let mut i: usize = 0;
        while i < consts.len()
            invariant
                i <= consts.len(),
                consts@.map_values(|c: Const| c@) == consts_of(initv),
                initv.len() == consts@.len(),
                elems@.len() == i as nat,
                forall|k: int| 0 <= k < i ==> (#[trigger] elems@[k]@) == consts_of(
                    initv,
                )[k].as_type(),
            decreases consts@.len() - i,
        {
            proof {
                assert(consts@[i as int]@ == consts_of(initv)[i as int]);
            }
            elems.push(consts[i].as_type());
            i = i + 1;
        }
        let r = Type::Tuple(elems);
        proof {
            crate::ast::seq_type_view_props(elems@);
            let target = consts_of(initv).map_values(|c: ConstV| c.as_type());
            assert forall|k: int| 0 <= k < elems@.len() implies crate::ast::seq_type_view(
                elems@,
            )[k] == target[k] by {
                assert(elems@[k]@ == consts_of(initv)[k].as_type());
            }
            assert(crate::ast::seq_type_view(elems@) =~= target);
        }
        r
    }
}


/// A value form on the right of a bind statement.
#[derive(Debug, PartialEq, Eq)]
pub enum RVal {
    /// A basic expression, evaluated directly.
    Bexpr(nast::Bexpr),
    /// The current, pre-update value of a followed-by memory field.
    MemRead { field: String },
    /// A call; a stateful callee is threaded a mutable borrow of the
    /// caller's memory field named here as its leading argument.
    Call { callee: String, mem_field: Option<String>, args: Vec<nast::Bexpr> },
}

/// Ghost mirror of [`RVal`].
pub enum RValV {
    Bexpr(BexprV),
    MemRead { field: Seq<char> },
    Call { callee: Seq<char>, mem_field: Option<Seq<char>>, args: Seq<BexprV> },
}

impl View for RVal {
    type V = RValV;

    open spec fn view(&self) -> RValV {
        match self {
            RVal::Bexpr(b) => RValV::Bexpr(b@),
            RVal::MemRead { field } => RValV::MemRead { field: field@ },
            RVal::Call { callee, mem_field, args } => RValV::Call {
                callee: callee@,
                mem_field: match mem_field {
                    Some(f) => Some(f@),
                    None => None,
                },
                args: nast::seq_bexpr_view(args@),
            },
        }
    }
}

/// One statement of a step procedure.
#[derive(Debug, PartialEq, Eq)]
pub enum Stmt {
    /// Bind the equation's names to the evaluated value.
    Bind { names: Vec<String>, value: RVal },
    /// After every bind: store the next-step value into a followed-by field.
    Update { field: String, next: Vec<nast::Bexpr> },
}

/// Ghost mirror of [`Stmt`].
pub enum StmtV {
    Bind { names: Seq<Seq<char>>, value: RValV },
    Update { field: Seq<char>, next: Seq<BexprV> },
}

impl View for Stmt {
    type V = StmtV;

    open spec fn view(&self) -> StmtV {
        match self {
            Stmt::Bind { names, value } => StmtV::Bind {
                names: crate::ast::names_view(names@),
                value: value@,
            },
            Stmt::Update { field, next } => StmtV::Update {
                field: field@,
                next: nast::seq_bexpr_view(next@),
            },
        }
    }
}

/// A node's step procedure: its memory record name (when stateful), the
/// declared inputs in order, the ordered statement list, and the declared
/// outputs as the returned values.
#[derive(Debug, PartialEq, Eq)]
pub struct StepProc {
    pub node: String,
    pub mem: Option<String>,
    pub params: Vec<(String, Type)>,
    pub results: Vec<(String, Type)>,
    pub body: Vec<Stmt>,
}

/// Ghost mirror of [`StepProc`].
pub struct StepProcV {
    pub node: Seq<char>,
    pub mem: Option<Seq<char>>,
    pub params: Seq<(Seq<char>, TypeV)>,
    pub results: Seq<(Seq<char>, TypeV)>,
    pub body: Seq<StmtV>,
}

impl View for StepProc {
    type V = StepProcV;

    open spec fn view(&self) -> StepProcV {
        StepProcV {
            node: self.node@,
            mem: match &self.mem {
                Some(m) => Some(m@),
                None => None,
            },
            params: crate::ast::arg_list_view(self.params@),
            results: crate::ast::arg_list_view(self.results@),
            body: self.body@.map_values(|s: Stmt| s@),
        }
    }
}

/// The bind statement one scheduled equation turns into.
pub open spec fn stmt_of_eq(eq: nast::EquationV, mems: Seq<(Seq<char>, MemoryV)>) -> StmtV {
    match eq.body {
        nast::ExprV::Bexpr(b) => StmtV::Bind { names: eq.names, value: RValV::Bexpr(b) },
        nast::ExprV::Fby(_, _) => StmtV::Bind {
            names: eq.names,
            value: RValV::MemRead { field: joined(eq.names) },
        },
        nast::ExprV::Call { name, args } => StmtV::Bind {
            names: eq.names,
            value: RValV::Call {
                callee: name,
                mem_field: if mem_lookup(mems, name) is Some {
                    Some(joined(eq.names))
                } else {
                    None
                },
                args,
            },
        },
    }
}

/// One bind per scheduled equation, in order.
pub open spec fn binds_of(
    body: Seq<nast::EquationV>,
    mems: Seq<(Seq<char>, MemoryV)>,
) -> Seq<StmtV> {
    body.map_values(|eq: nast::EquationV| stmt_of_eq(eq, mems))
}

/// One update per followed-by equation, in order, after every bind.
pub open spec fn updates_of(body: Seq<nast::EquationV>) -> Seq<StmtV>
    decreases body,
{
    if body.len() == 0 {
        Seq::empty()
    } else {
        let pre = updates_of(body.drop_last());
        match body.last().body {
            nast::ExprV::Fby(_, next) => pre.push(
                StmtV::Update { field: joined(body.last().names), next },
            ),
            _ => pre,
        }
    }
}

/// The whole step procedure of a scheduled node.
pub open spec fn step_model(n: nast::NodeV, mems: Seq<(Seq<char>, MemoryV)>) -> StepProcV {
    StepProcV {
        node: n.name,
        mem: if mem_fields_of(n.body, mems).len() > 0 {
            Some(mem_struct_name(n.name))
        } else {
            None
        },
        params: n.args_in,
        results: n.args_out,
        body: binds_of(n.body, mems) + updates_of(n.body),
    }
}

/// The fixed library of stateless builtin callees.
pub open spec fn is_builtin(n: Seq<char>) -> bool {
    ||| n == "print"@
    ||| n == "not"@
    ||| n == "sin"@
    ||| n == "cos"@
    ||| n == "float_of_int"@
    ||| n == "int_of_float"@
}

/// Every called name is an earlier-declared node or a builtin.
pub open spec fn callees_ok(body: Seq<nast::EquationV>, earlier: Seq<Seq<char>>) -> bool {
    forall|i: int|
        0 <= i < body.len() ==> ((#[trigger] body[i]).body matches nast::ExprV::Call {
            name,
            args: _,
        } ==> earlier.contains(name) || is_builtin(name))
}

fn is_builtin_exec(name: &String) -> (r: bool)
    ensures
        r == is_builtin(name@),
{
    let s = name.as_str();
    s.eq("print") || s.eq("not") || s.eq("sin") || s.eq("cos") || s.eq("float_of_int") || s.eq(
        "int_of_float",
    )
}

/// Emits the step procedure of a scheduled node: one bind per equation in
/// order, then one update per followed-by field, with stateful calls
/// threaded through the memory field of their destination. `earlier` are
/// the names of the nodes already compiled, `declared` all node names of
/// the unit.
pub fn gen_step(
    node: &nast::Node,
    mems: &Vec<(String, Memory)>,
    earlier: &Vec<String>,
    declared: &Vec<String>,
) -> (r: Result<StepProc, Error>)
    ensures
        (r is Ok <==> callees_ok(node@.body, crate::ast::names_view(earlier@))),
        r matches Ok(sp) ==> sp@ == step_model(node@, mem_table_view(mems@)),
        r matches Err(e) ==> exists|i: int|
            {
                &&& 0 <= i < node@.body.len()
                &&& (#[trigger] node@.body[i]).body matches nast::ExprV::Call { name, args: _ }
                    && !crate::ast::names_view(earlier@).contains(name) && !is_builtin(name)
                    && ((e@ == crate::error::ErrorV::UnsupportedRecursion {
                    node: node@.name,
                    callee: name,
                } && crate::ast::names_view(declared@).contains(name)) || (e@
                    == crate::error::ErrorV::UnknownCallee { node: node@.name, callee: name }
                    && !crate::ast::names_view(declared@).contains(name)))
            },
{
    let ghost bv = node@.body;
    let ghost mv = mem_table_view(mems@);
    let ghost ev = crate::ast::names_view(earlier@);
    let mut stmts: Vec<Stmt> = Vec::new();
    let mut pending: Vec<Stmt> = Vec::new();
    let mut i: usize = 0;
    proof {
        assert(bv.take(0) =~= Seq::<nast::EquationV>::empty());
        assert(stmts@.map_values(|s: Stmt| s@) =~= binds_of(bv.take(0), mv));
        assert(pending@.map_values(|s: Stmt| s@) =~= updates_of(bv.take(0)));
    }
    while i < node.body.len()
        invariant
            i <= node.body.len(),
            bv == node@.body,
            mv == mem_table_view(mems@),
            ev == crate::ast::names_view(earlier@),
            bv.len() == node.body@.len(),
            stmts@.map_values(|s: Stmt| s@) == binds_of(bv.take(i as int), mv),
            pending@.map_values(|s: Stmt| s@) == updates_of(bv.take(i as int)),
            forall|k: int| 0 <= k < i ==> ((#[trigger] bv[k]).body matches nast::ExprV::Call {
                name,
                args: _,
            } ==> ev.contains(name) || is_builtin(name)),
        decreases node.body@.len() - i,
    {
        proof {
            assert(bv[i as int] == node.body@[i as int]@);
            assert(bv.take(i as int + 1).drop_last() =~= bv.take(i as int));
            assert(bv.take(i as int + 1).last() == bv[i as int]);
        }
        let eq = &node.body[i];
        let ghost pre_stmts = stmts@;
        let ghost pre_pending = pending@;
        match &eq.body {
            nast::Expr::Bexpr(b) => {
                let names = eq.names.clone();
                proof {
                    assert(names@ =~= eq.names@);
                }
                stmts.push(Stmt::Bind { names, value: RVal::Bexpr(b.clone()) });
                proof {
                    assert(stmts@.last()@ == stmt_of_eq(bv[i as int], mv));
                    lemma_binds_push(
                        bv,
                        i as int,
                        mv,
                        pre_stmts.map_values(|s: Stmt| s@),
                        stmts@.last()@,
                    );
                    assert(stmts@.map_values(|s: Stmt| s@) =~= pre_stmts.map_values(
                        |s: Stmt| s@,
                    ).push(stmts@.last()@));
                    assert(pending@.map_values(|s: Stmt| s@) =~= updates_of(bv.take(i as int + 1)));
                }
            }
            nast::Expr::Fby(_, next) => {
                let names = eq.names.clone();
                proof {
                    assert(names@ =~= eq.names@);
                }
                let field = join_names(&eq.names);
                let field2 = field.clone();
                let nexts = nast::clone_bexpr_vec(next);
                proof {
                    nast::seq_bexpr_view_props(nexts@);
                    nast::seq_bexpr_view_props(next@);
                    assert(nast::seq_bexpr_view(nexts@) =~= nast::seq_bexpr_view(next@));
                }
                stmts.push(Stmt::Bind { names, value: RVal::MemRead { field } });
                pending.push(Stmt::Update { field: field2, next: nexts });
                proof {
                    assert(stmts@.last()@ == stmt_of_eq(bv[i as int], mv));
                    lemma_binds_push(
                        bv,
                        i as int,
                        mv,
                        pre_stmts.map_values(|s: Stmt| s@),
                        stmts@.last()@,
                    );
                    assert(stmts@.map_values(|s: Stmt| s@) =~= pre_stmts.map_values(
                        |s: Stmt| s@,
                    ).push(stmts@.last()@));
                    assert(pending@.map_values(|s: Stmt| s@) =~= updates_of(bv.take(i as int + 1)));
                }
            }
            nast::Expr::Call { name: callee, args } => {
                if !names_contain(earlier, callee) {
                    if !is_builtin_exec(callee) {
                        let err = if names_contain(declared, callee) {
                            Error::UnsupportedRecursion {
                                node: node.name.clone(),
                                callee: callee.clone(),
                            }
                        } else {
                            Error::UnknownCallee {
                                node: node.name.clone(),
                                callee: callee.clone(),
                            }
                        };
                        proof {
                            assert(bv[i as int].body matches nast::ExprV::Call {
                                name,
                                args: _,
                            } && name == callee@);
                        }
                        return Err(err);
                    }
                }
                let names = eq.names.clone();
                proof {
                    assert(names@ =~= eq.names@);
                }
                let mem_field = match get_mem(mems, callee) {
                    Some(_) => Some(join_names(&eq.names)),
                    None => None,
                };
                let cargs = nast::clone_bexpr_vec(args);
                proof {
                    nast::seq_bexpr_view_props(cargs@);
                    nast::seq_bexpr_view_props(args@);
                    assert(nast::seq_bexpr_view(cargs@) =~= nast::seq_bexpr_view(args@));
                }
                stmts.push(
                    Stmt::Bind {
                        names,
                        value: RVal::Call { callee: callee.clone(), mem_field, args: cargs },
                    },
                );
                proof {
                    assert(stmts@.last()@ == stmt_of_eq(bv[i as int], mv));
                    lemma_binds_push(
                        bv,
                        i as int,
                        mv,
                        pre_stmts.map_values(|s: Stmt| s@),
                        stmts@.last()@,
                    );
                    assert(stmts@.map_values(|s: Stmt| s@) =~= pre_stmts.map_values(
                        |s: Stmt| s@,
                    ).push(stmts@.last()@));
                    assert(pending@.map_values(|s: Stmt| s@) =~= updates_of(bv.take(i as int + 1)));
                }
            }
        }
        i = i + 1;
    }
    proof {
        assert(bv.take(bv.len() as int) =~= bv);
    }
    let mem = if mems_needed(node, mems) {
        Some(crate::text::make_mem_name(&node.name))
    } else {
        None
    };
    let ghost pre_stmts = stmts@;
    let ghost pre_pending = pending@;
    stmts.append(&mut pending);
    proof {
        assert(stmts@.map_values(|s: Stmt| s@) =~= binds_of(bv, mv) + updates_of(bv));
    }
    let params = node.args_in.clone();
    let results = node.args_out.clone();
    let sp = StepProc { node: node.name.clone(), mem, params: params.0, results: results.0, body: stmts };
    proof {
        assert(crate::ast::arg_list_view(sp.params@) == node@.args_in);
        assert(crate::ast::arg_list_view(sp.results@) == node@.args_out);
    }
    Ok(sp)
}

/// Whether the node has any memory field at all.
fn mems_needed(node: &nast::Node, mems: &Vec<(String, Memory)>) -> (r: bool)
    ensures
        r == (mem_fields_of(node@.body, mem_table_view(mems@)).len() > 0),
{
    let ghost bv = node@.body;
    let ghost mv = mem_table_view(mems@);
    let mut i: usize = 0;
    proof {
        assert(bv.take(0) =~= Seq::<nast::EquationV>::empty());
    }
    while i < node.body.len()
        invariant
            i <= node.body.len(),
            bv == node@.body,
            mv == mem_table_view(mems@),
            bv.len() == node.body@.len(),
            mem_fields_of(bv.take(i as int), mv).len() == 0,
        decreases node.body@.len() - i,
    {
        proof {
            assert(bv[i as int] == node.body@[i as int]@);
            assert(bv.take(i as int + 1).drop_last() =~= bv.take(i as int));
            assert(bv.take(i as int + 1).last() == bv[i as int]);
        }
        match &node.body[i].body {
            nast::Expr::Fby(_, _) => {
                proof {
                    lemma_mem_fields_prefix(bv, i as int + 1, mv);
                }
                return true;
            }
            nast::Expr::Call { name, args: _ } => {
                match get_mem(mems, name) {
                    Some(_) => {
                        proof {
                            lemma_mem_fields_prefix(bv, i as int + 1, mv);
                        }
                        return true;
                    }
                    None => {}
                }
            }
            nast::Expr::Bexpr(_) => {}
        }
        i = i + 1;
    }
    proof {
        assert(bv.take(bv.len() as int) =~= bv);
    }
    false
}

/// Field lists only grow along a body.
proof fn lemma_mem_fields_prefix(bv: Seq<nast::EquationV>, i: int, mv: Seq<(Seq<char>, MemoryV)>)
    requires
        0 <= i <= bv.len(),
    ensures
        mem_fields_of(bv, mv).len() >= mem_fields_of(bv.take(i), mv).len(),
    decreases bv.len() - i,
{
    if i == bv.len() {
        assert(bv.take(i) =~= bv);
    } else {
        assert(bv.take(i + 1).drop_last() =~= bv.take(i));
        lemma_mem_fields_prefix(bv, i + 1, mv);
    }
}


// The normalizer leaves every followed-by initial side constant; these
// lemmas carry that fact through the model to the planner's precondition.

proof fn lemma_const_atoms_all(es: Seq<crate::ast::ExprV>)
    ensures
        crate::normalizer::const_atoms(es) matches Some(atoms) ==> forall|j: int|
            0 <= j < atoms.len() ==> (#[trigger] atoms[j]) is Const,
    decreases es,
{
    if es.len() > 0 {
        lemma_const_atoms_all(es.drop_last());
    }
}

proof fn lemma_fby_inits_all(e: crate::ast::ExprV)
    ensures
        crate::normalizer::fby_inits(e) matches Some(atoms) ==> forall|j: int|
            0 <= j < atoms.len() ==> (#[trigger] atoms[j]) is Const,
{
    if let crate::ast::ExprV::Tuple(elems) = e {
        lemma_const_atoms_all(elems);
    }
}

proof fn lemma_norm_bexpr_fby(e: crate::ast::ExprV, c: nat)
    ensures
        crate::normalizer::norm_bexpr(e, c) matches Some(t) ==> fby_inits_const(t.1),
    decreases e,
{
    match e {
        crate::ast::ExprV::Unop(_, sub) => {
            lemma_norm_bexpr_fby(*sub, c);
        }
        crate::ast::ExprV::Binop(_, lhs, rhs) => {
            lemma_norm_bexpr_fby(*lhs, c);
            if let Some((_, a1, c1)) = crate::normalizer::norm_bexpr(*lhs, c) {
                lemma_norm_bexpr_fby(*rhs, c1);
                if let Some((_, a2, _)) = crate::normalizer::norm_bexpr(*rhs, c1) {
                    lemma_fby_concat(a1, a2);
                }
            }
        }
        crate::ast::ExprV::If { condition, if_body, else_body } => {
            lemma_norm_bexpr_fby(*condition, c);
            if let Some((_, a1, c1)) = crate::normalizer::norm_bexpr(*condition, c) {
                lemma_norm_bexpr_fby(*if_body, c1);
                if let Some((_, a2, c2)) = crate::normalizer::norm_bexpr(*if_body, c1) {
                    lemma_norm_bexpr_fby(*else_body, c2);
                    if let Some((_, a3, _)) = crate::normalizer::norm_bexpr(*else_body, c2) {
                        lemma_fby_concat(a1, a2);
                        lemma_fby_concat(a1 + a2, a3);
                    }
                }
            }
        }
        crate::ast::ExprV::Tuple(elems) => {
            lemma_norm_bexpr_seq_fby(elems, c);
        }
        crate::ast::ExprV::Call { name: _, args } => {
            lemma_norm_bexpr_seq_fby(args, c);
            if let Some((_, adds, _)) = crate::normalizer::norm_bexpr_seq(args, c) {
                let eqv = crate::normalizer::norm_bexpr(e, c).unwrap().1.last();
                assert(crate::normalizer::norm_bexpr(e, c).unwrap().1 == adds.push(eqv));
                lemma_fby_push_nonfby_or_const(adds, eqv);
            }
        }
        crate::ast::ExprV::Fby(init, next) => {
            if let crate::ast::ExprV::Const(_) = *init {
                lemma_norm_bexpr_fby(*next, c);
                if let Some((_, adds, _)) = crate::normalizer::norm_bexpr(*next, c) {
                    let eqv = crate::normalizer::norm_bexpr(e, c).unwrap().1.last();
                    assert(crate::normalizer::norm_bexpr(e, c).unwrap().1 == adds.push(eqv));
                    lemma_fby_push_nonfby_or_const(adds, eqv);
                }
            }
        }
        _ => {}
    }
}

/// Pushing an equation whose body is a call or a constant-seeded
/// followed-by keeps the property.
proof fn lemma_fby_push_nonfby_or_const(adds: Seq<nast::EquationV>, eqv: nast::EquationV)
    requires
        fby_inits_const(adds),
        eqv.body matches nast::ExprV::Fby(init, _) ==> forall|j: int|
            0 <= j < init.len() ==> (#[trigger] init[j]) is Const,
    ensures
        fby_inits_const(adds.push(eqv)),
{
    let all = adds.push(eqv);
    assert forall|i: int|
        0 <= i < all.len() implies ((#[trigger] all[i]).body matches nast::ExprV::Fby(init, _)
        ==> forall|j: int| 0 <= j < init.len() ==> (#[trigger] init[j]) is Const) by {
        if i < adds.len() {
            assert(all[i] == adds[i]);
        } else {
            assert(all[i] == eqv);
        }
    }
}

proof fn lemma_fby_concat(a1: Seq<nast::EquationV>, a2: Seq<nast::EquationV>)
    requires
        fby_inits_const(a1),
        fby_inits_const(a2),
    ensures
        fby_inits_const(a1 + a2),
{
    let all = a1 + a2;
    assert forall|i: int|
        0 <= i < all.len() implies ((#[trigger] all[i]).body matches nast::ExprV::Fby(init, _)
        ==> forall|j: int| 0 <= j < init.len() ==> (#[trigger] init[j]) is Const) by {
        if i < a1.len() {
            assert(all[i] == a1[i]);
        } else {
            assert(all[i] == a2[i - a1.len()]);
        }
    }
}

proof fn lemma_norm_bexpr_seq_fby(es: Seq<crate::ast::ExprV>, c: nat)
    ensures
        crate::normalizer::norm_bexpr_seq(es, c) matches Some(t) ==> fby_inits_const(t.1),
    decreases es,
{
    if es.len() > 0 {
        lemma_norm_bexpr_seq_fby(es.drop_last(), c);
        if let Some((_, a1, c1)) = crate::normalizer::norm_bexpr_seq(es.drop_last(), c) {
            lemma_norm_bexpr_fby(es.last(), c1);
            if let Some((_, a2, _)) = crate::normalizer::norm_bexpr(es.last(), c1) {
                lemma_fby_concat(a1, a2);
            }
        }
    }
}

proof fn lemma_norm_eq_fby(eq: crate::ast::EquationV, c: nat)
    ensures
        crate::normalizer::norm_eq(eq, c) matches Some(t) ==> fby_inits_const(t.1) && (
        t.0.body matches nast::ExprV::Fby(init, _) ==> forall|j: int|
            0 <= j < init.len() ==> (#[trigger] init[j]) is Const),
{
    match eq.body {
        crate::ast::ExprV::Call { name: _, args } => {
            lemma_norm_bexpr_seq_fby(args, c);
        }
        crate::ast::ExprV::Fby(init, next) => {
            lemma_fby_inits_all(*init);
            if let crate::ast::ExprV::Tuple(elems) = *next {
                lemma_norm_bexpr_seq_fby(elems, c);
            } else {
                lemma_norm_bexpr_fby(*next, c);
            }
        }
        _ => {
            lemma_norm_bexpr_fby(eq.body, c);
        }
    }
}

proof fn lemma_norm_body_fby(body: Seq<crate::ast::EquationV>, c: nat)
    ensures
        crate::normalizer::norm_body(body, c) matches Some(t) ==> fby_inits_const(t.0)
            && fby_inits_const(t.1),
    decreases body,
{
    if body.len() > 0 {
        lemma_norm_body_fby(body.drop_last(), c);
        if let Some((mains, adds, c1)) = crate::normalizer::norm_body(body.drop_last(), c) {
            lemma_norm_eq_fby(body.last(), c1);
            if let Some((ne, a2, _)) = crate::normalizer::norm_eq(body.last(), c1) {
                lemma_fby_push_nonfby_or_const(mains, ne);
                lemma_fby_concat(adds, a2);
            }
        }
    }
}

pub proof fn lemma_norm_node_fby(n: crate::ast::NodeV, c: nat)
    ensures
        crate::normalizer::norm_node(n, c) matches Some(t) ==> fby_inits_const(t.0.body),
{
    lemma_norm_body_fby(n.body, c);
    if let Some((mains, adds, _)) = crate::normalizer::norm_body(n.body, c) {
        lemma_fby_concat(mains, adds);
    }
}

/// The property only looks at individual equations, so any permutation of
/// the body keeps it.
pub proof fn lemma_fby_const_perm(b1: Seq<nast::EquationV>, b2: Seq<nast::EquationV>)
    requires
        fby_inits_const(b1),
        b2.to_multiset() == b1.to_multiset(),
    ensures
        fby_inits_const(b2),
{
    broadcast use vstd::seq_lib::group_to_multiset_ensures;

    assert forall|i: int|
        0 <= i < b2.len() implies ((#[trigger] b2[i]).body matches nast::ExprV::Fby(init, _)
        ==> forall|j: int| 0 <= j < init.len() ==> (#[trigger] init[j]) is Const) by {
        assert(b2.contains(b2[i]));
        assert(b2.to_multiset().contains(b2[i]));
        assert(b1.to_multiset().contains(b2[i]));
        assert(b1.contains(b2[i]));
        let k = choose|k: int| 0 <= k < b1.len() && b1[k] == b2[i];
        assert(b1[k] == b2[i]);
    }
}

/// So does the callee legality check.
pub proof fn lemma_callees_perm(
    b1: Seq<nast::EquationV>,
    b2: Seq<nast::EquationV>,
    earlier: Seq<Seq<char>>,
)
    requires
        b2.to_multiset() == b1.to_multiset(),
    ensures
        callees_ok(b1, earlier) ==> callees_ok(b2, earlier),
        callees_ok(b2, earlier) ==> callees_ok(b1, earlier),
{
    broadcast use vstd::seq_lib::group_to_multiset_ensures;

    if callees_ok(b1, earlier) {
        assert forall|i: int|
            0 <= i < b2.len() implies ((#[trigger] b2[i]).body matches nast::ExprV::Call {
            name,
            args: _,
        } ==> earlier.contains(name) || is_builtin(name)) by {
            assert(b2.contains(b2[i]));
            assert(b1.to_multiset().contains(b2[i]));
            assert(b1.contains(b2[i]));
            let k = choose|k: int| 0 <= k < b1.len() && b1[k] == b2[i];
            assert(b1[k] == b2[i]);
        }
    }
    if callees_ok(b2, earlier) {
        assert forall|i: int|
            0 <= i < b1.len() implies ((#[trigger] b1[i]).body matches nast::ExprV::Call {
            name,
            args: _,
        } ==> earlier.contains(name) || is_builtin(name)) by {
            assert(b1.contains(b1[i]));
            assert(b2.to_multiset().contains(b1[i]));
            assert(b2.contains(b1[i]));
            let k = choose|k: int| 0 <= k < b2.len() && b2[k] == b1[i];
            assert(b2[k] == b1[i]);
        }
    }
}


/// Everything the pipeline produces for one node: its persistent state, if
/// it has any, and its step procedure.
#[derive(Debug, PartialEq, Eq)]
pub struct CompiledNode {
    pub memory: Option<Memory>,
    pub step: StepProc,
}

/// Ghost mirror of [`CompiledNode`].
pub struct CompiledNodeV {
    pub memory: Option<MemoryV>,
    pub step: StepProcV,
}

impl View for CompiledNode {
    type V = CompiledNodeV;

    open spec fn view(&self) -> CompiledNodeV {
        CompiledNodeV {
            memory: match &self.memory {
                Some(m) => Some(m@),
                None => None,
            },
            step: self.step@,
        }
    }
}

pub open spec fn compiled_view(v: Seq<CompiledNode>) -> Seq<CompiledNodeV> {
    v.map_values(|c: CompiledNode| c@)
}

/// The names of a unit's nodes, in declaration order.
pub open spec fn unit_names(nodes: Seq<nast::NodeV>) -> Seq<Seq<char>> {
    nodes.map_values(|n: nast::NodeV| n.name)
}

/// The callee-memory table the first `i` compiled nodes give rise to: one
/// entry per stateful node.
pub open spec fn result_mems(v: Seq<CompiledNodeV>, names: Seq<Seq<char>>, i: int) -> Seq<(
    Seq<char>,
    MemoryV,
)>
    decreases i,
{
    if i <= 0 {
        Seq::empty()
    } else {
        let pre = result_mems(v, names, i - 1);
        match v[i - 1].memory {
            Some(m) => pre.push((names[i - 1], m)),
            None => pre,
        }
    }
}

proof fn lemma_result_mems_prefix(
    v1: Seq<CompiledNodeV>,
    v2: Seq<CompiledNodeV>,
    names: Seq<Seq<char>>,
    i: int,
)
    requires
        0 <= i <= v1.len(),
        v1.len() <= v2.len(),
        forall|k: int| 0 <= k < v1.len() ==> v1[k] == v2[k],
    ensures
        result_mems(v2, names, i) == result_mems(v1, names, i),
    decreases i,
{
    if i > 0 {
        lemma_result_mems_prefix(v1, v2, names, i - 1);
    }
}

/// Every node of the normalized unit passes scheduling and calls only
/// earlier-declared nodes or builtins.
pub open spec fn stages_ok(nodes: Seq<nast::NodeV>) -> bool {
    forall|i: int|
        0 <= i < nodes.len() ==> crate::sequentializer::schedulable(#[trigger] nodes[i])
            && callees_ok(nodes[i].body, unit_names(nodes).take(i))
}

/// A whole compiled unit against its normalized nodes: one compiled node
/// per source node, each driven by some valid evaluation order.
pub open spec fn compiled_matches(v: Seq<CompiledNodeV>, nodes: Seq<nast::NodeV>) -> bool {
    &&& v.len() == nodes.len()
    &&& forall|i: int|
        0 <= i < nodes.len() ==> exists|ob: Seq<nast::EquationV>|
            compiled_node_ok(
                #[trigger] v[i],
                nodes[i],
                result_mems(v, unit_names(nodes), i),
                ob,
            )
}

/// What one compiled node must look like: some valid evaluation order `ob`
/// of the normalized node's equations drives both the memory layout and the
/// step procedure, against the memories of the earlier nodes.
pub open spec fn compiled_node_ok(
    cn: CompiledNodeV,
    n: nast::NodeV,
    mems: Seq<(Seq<char>, MemoryV)>,
    ob: Seq<nast::EquationV>,
) -> bool {
    let on = nast::NodeV {
        name: n.name,
        args_in: n.args_in,
        args_out: n.args_out,
        locals: n.locals,
        body: ob,
    };
    &&& ob.to_multiset() == n.body.to_multiset()
    &&& crate::sequentializer::ordered_ok(crate::sequentializer::input_names(n), ob)
    &&& cn.step == step_model(on, mems)
    &&& match cn.memory {
        Some(m) => m.name == mem_struct_name(n.name) && m.fields == mem_fields_of(ob, mems)
            && mem_fields_of(ob, mems).len() > 0,
        None => mem_fields_of(ob, mems).len() == 0,
    }
}

fn clone_memory(m: &Memory) -> (r: Memory)
    ensures
        r@ == m@,
{
    let name = m.name.clone();
    let mut fields: Vec<(String, MemField)> = Vec::new();
    let mut i: usize = 0;
    while i < m.fields.len()
        invariant
            i <= m.fields.len(),
            fields@.len() == i as nat,
            forall|k: int| 0 <= k < i ==> (#[trigger] fields@[k]).0@ == m.fields@[k].0@
                && fields@[k].1@ == m.fields@[k].1@,
        decreases m.fields@.len() - i,
    {
        let key = m.fields[i].0.clone();
        let field = match &m.fields[i].1 {
            MemField::Fby { typ, init, next } => {
                let mut init2: Vec<Const> = Vec::new();
                let mut j: usize = 0;
                while j < init.len()
                    invariant
                        j <= init.len(),
                        init2@.len() == j as nat,
                        forall|k: int| 0 <= k < j ==> (#[trigger] init2@[k]@) == init@[k]@,
                    decreases init@.len() - j,
                {
                    init2.push(init[j].clone());
                    j = j + 1;
                }
                let next2 = nast::clone_bexpr_vec(next);
                proof {
                    nast::seq_bexpr_view_props(next2@);
                    nast::seq_bexpr_view_props(next@);
                    assert(init2@.map_values(|c: Const| c@) =~= init@.map_values(
                        |c: Const| c@,
                    ));
                    assert(nast::seq_bexpr_view(next2@) =~= nast::seq_bexpr_view(next@));
                }
                MemField::Fby { typ: typ.clone(), init: init2, next: next2 }
            }
            MemField::Callee { callee, mem_name } => MemField::Callee {
                callee: callee.clone(),
                mem_name: mem_name.clone(),
            },
        };
        fields.push((key, field));
        i = i + 1;
    }
    let r = Memory { name, fields };
    proof {
        assert(r@.fields =~= m@.fields);
    }
    r
}

/// The whole pipeline: normalize every node with one shared counter, order
/// each node's equations, plan its memory and emit its step procedure, in
/// declaration order so callee memories exist before their callers need
/// them. The first failing node aborts the unit.
#[verifier::rlimit(100)]
pub fn compile(ast: &crate::ast::Ast) -> (r: Result<Vec<CompiledNode>, Error>)
    requires
        crate::normalizer::hoist_weight_unit(ast@) <= u64::MAX as nat,
    ensures
        (r is Ok <==> (crate::normalizer::norm_unit(ast@, 0) matches Some(t) && stages_ok(
            t.0,
        ))),
        r matches Ok(v) ==> crate::normalizer::norm_unit(ast@, 0) matches Some(t)
            && compiled_matches(compiled_view(v@), t.0),
{
    let mut nz = crate::normalizer::Normalizer::new();
    let normalized: Vec<nast::Node> = match ast.normalize(&mut nz) {
        Ok(v) => v,
        Err(e) => {
            return Err(e);
        }
    };
    let ghost nv = crate::normalizer::norm_unit(ast@, 0).unwrap().0;
    proof {
        assert(normalized@.map_values(|n: nast::Node| n@) == nv);
    }
    let mut declared: Vec<String> = Vec::new();
    let mut i: usize = 0;
    while i < normalized.len()
        invariant
            i <= normalized.len(),
            nv == normalized@.map_values(|n: nast::Node| n@),
            nv.len() == normalized@.len(),
            crate::ast::names_view(declared@) == unit_names(nv).take(i as int),
        decreases normalized@.len() - i,
    {
        proof {
            assert(nv[i as int] == normalized@[i as int]@);
        }
        let ghost pre_d = declared@;
        declared.push(normalized[i].name.clone());
        proof {
            assert(crate::ast::names_view(declared@) =~= crate::ast::names_view(pre_d).push(
                nv[i as int].name,
            ));
            assert(unit_names(nv).take(i as int + 1) =~= unit_names(nv).take(i as int).push(
                nv[i as int].name,
            ));
        }
        i = i + 1;
    }
    proof {
        assert(unit_names(nv).take(nv.len() as int) =~= unit_names(nv));
    }
    let mut rest = normalized;
    let mut out: Vec<CompiledNode> = Vec::new();
    let mut mems: Vec<(String, Memory)> = Vec::new();
    let mut earlier: Vec<String> = Vec::new();
    let ghost mut obs: Seq<Seq<nast::EquationV>> = Seq::empty();
    let ghost total = nv.len();
    proof {
        assert(crate::ast::names_view(earlier@) =~= unit_names(nv).take(0));
        assert(mem_table_view(mems@) =~= result_mems(compiled_view(out@), unit_names(nv), 0));
    }
    while rest.len() > 0
        invariant
            nv.len() == total,
            crate::normalizer::norm_unit(ast@, 0) matches Some(t) && t.0 == nv,
            out@.len() + rest@.len() == total,
            obs.len() == out@.len(),
            rest@.map_values(|n: nast::Node| n@) == nv.skip(out@.len() as int),
            crate::ast::names_view(earlier@) == unit_names(nv).take(out@.len() as int),
            crate::ast::names_view(declared@) == unit_names(nv),
            mem_table_view(mems@) == result_mems(
                compiled_view(out@),
                unit_names(nv),
                out@.len() as int,
            ),
            forall|k: int| 0 <= k < out@.len() ==> compiled_node_ok(
                #[trigger] compiled_view(out@)[k],
                nv[k],
                result_mems(compiled_view(out@), unit_names(nv), k),
                obs[k],
            ),
            forall|k: int| 0 <= k < out@.len() ==> crate::sequentializer::schedulable(
                #[trigger] nv[k],
            ) && callees_ok(nv[k].body, unit_names(nv).take(k)),
        decreases rest@.len(),
    {
        let ghost i = out@.len() as int;
        let node = rest.remove(0);
        proof {
            assert(nv.skip(i)[0] == node@);
            assert(nv[i] == node@);
            assert forall|k: int| 0 <= k < rest@.len() implies #[trigger] rest@[k]@ == nv.skip(
                i + 1,
            )[k] by {
                assert(rest@.map_values(|n: nast::Node| n@)[k] == nv.skip(i)[k + 1]);
            }
            assert(rest@.map_values(|n: nast::Node| n@) =~= nv.skip(i + 1));
        }
        let ordered = match node.order() {
            Ok(o) => o,
            Err(e) => {
                proof {
                    assert(!crate::sequentializer::schedulable(nv[i]));
                    assert(!stages_ok(nv));
                }
                return Err(e);
            }
        };
        proof {
            lemma_norm_unit_node_fby(ast@, nv, i);
            lemma_fby_const_perm(nv[i].body, ordered@.body);
        }
        let memory = Memory::build(&ordered, &mems);
        let step = match gen_step(&ordered, &mems, &earlier, &declared) {
            Ok(s) => s,
            Err(e) => {
                proof {
                    lemma_callees_perm(
                        nv[i].body,
                        ordered@.body,
                        crate::ast::names_view(earlier@),
                    );
                    assert(!callees_ok(nv[i].body, unit_names(nv).take(i)));
                    assert(!stages_ok(nv));
                }
                return Err(e);
            }
        };
        let stateful = memory.fields.len() > 0;
        let ghost pre_out = out@;
        let ghost pre_mems_v = mem_table_view(mems@);
        if stateful {
            let m2 = clone_memory(&memory);
            mems.push((ordered.name.clone(), m2));
            out.push(CompiledNode { memory: Some(memory), step });
        } else {
            out.push(CompiledNode { memory: None, step });
        }
        let ghost pre_e = earlier@;
        earlier.push(ordered.name.clone());
        proof {
            obs = obs.push(ordered@.body);
            assert(crate::ast::names_view(earlier@) =~= crate::ast::names_view(pre_e).push(
                ordered@.name,
            ));
            assert(unit_names(nv).take(i + 1) =~= unit_names(nv).take(i).push(nv[i].name));
            lemma_callees_perm(nv[i].body, ordered@.body, crate::ast::names_view(pre_e));
            assert(compiled_view(out@) =~= compiled_view(pre_out).push(out@.last()@));
            lemma_result_mems_prefix(
                compiled_view(pre_out),
                compiled_view(out@),
                unit_names(nv),
                i,
            );
            assert(result_mems(compiled_view(out@), unit_names(nv), i) == pre_mems_v);
            assert(ordered@.name == nv[i].name);
            if stateful {
                assert(mem_table_view(mems@) =~= pre_mems_v.push((nv[i].name, out@.last()@.memory->Some_0)));
                assert(mem_table_view(mems@) =~= result_mems(
                    compiled_view(out@),
                    unit_names(nv),
                    i + 1,
                ));
            } else {
                assert(mem_table_view(mems@) =~= result_mems(
                    compiled_view(out@),
                    unit_names(nv),
                    i + 1,
                ));
            }
            assert(compiled_node_ok(
                compiled_view(out@)[i],
                nv[i],
                result_mems(compiled_view(out@), unit_names(nv), i),
                obs[i],
            ));
            assert forall|k: int| 0 <= k < out@.len() implies compiled_node_ok(
                #[trigger] compiled_view(out@)[k],
                nv[k],
                result_mems(compiled_view(out@), unit_names(nv), k),
                obs[k],
            ) by {
                if k < i {
                    lemma_result_mems_prefix(
                        compiled_view(pre_out),
                        compiled_view(out@),
                        unit_names(nv),
                        k,
                    );
                    assert(compiled_view(out@)[k] == compiled_view(pre_out)[k]);
                }
            }
        }
    }
    proof {
        assert(compiled_view(out@).len() == nv.len());
        assert(stages_ok(nv));
        assert forall|i2: int| 0 <= i2 < nv.len() implies exists|ob: Seq<nast::EquationV>|
            compiled_node_ok(
                #[trigger] compiled_view(out@)[i2],
                nv[i2],
                result_mems(compiled_view(out@), unit_names(nv), i2),
                ob,
            ) by {
            assert(compiled_node_ok(
                compiled_view(out@)[i2],
                nv[i2],
                result_mems(compiled_view(out@), unit_names(nv), i2),
                obs[i2],
            ));
        }
        assert(compiled_matches(compiled_view(out@), nv));
    }
    Ok(out)
}

/// Every node of a normalized unit has constant followed-by initial sides.
proof fn lemma_norm_unit_node_fby(unit: Seq<crate::ast::NodeV>, nv: Seq<nast::NodeV>, i: int)
    requires
        crate::normalizer::norm_unit(unit, 0) matches Some(t) && t.0 == nv,
        0 <= i < nv.len(),
    ensures
        fby_inits_const(nv[i].body),
{
    lemma_norm_unit_fby_rec(unit, 0, i);
}

proof fn lemma_norm_unit_fby_rec(unit: Seq<crate::ast::NodeV>, c: nat, i: int)
    requires
        crate::normalizer::norm_unit(unit, c) is Some,
        0 <= i < crate::normalizer::norm_unit(unit, c).unwrap().0.len(),
    ensures
        fby_inits_const(crate::normalizer::norm_unit(unit, c).unwrap().0[i].body),
    decreases unit,
{
    let t = crate::normalizer::norm_unit(unit, c).unwrap();
    if unit.len() > 0 {
        let pre = crate::normalizer::norm_unit(unit.drop_last(), c).unwrap();
        if i < pre.0.len() {
            lemma_norm_unit_fby_rec(unit.drop_last(), c, i);
        } else {
            lemma_norm_node_fby(unit.last(), pre.1);
        }
    }
}

} // verus!
