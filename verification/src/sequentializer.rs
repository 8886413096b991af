//! Scheduling: ordering a normalized node's equations into a valid
//! evaluation sequence.
//!
//! Four steps. First the direct dependencies of every equation: the
//! identifiers its body reads. A followed-by contributes none — reading a
//! followed-by variable reads the memory written at the end of the previous
//! step, and both of its sides are only used in the update that runs after
//! all of the step's values are computed, so neither side is a same-step
//! dependency. (The initial side could not be one anyway: it is constant.)
//! Second, transitive closure of the dependency map by a breadth-first
//! worklist walk. Third, the cycle check: after closure, a cycle exists
//! exactly when some variable depends on itself. Fourth, emission: scan the
//! remaining equations for one whose every dependency is an input or already
//! emitted, move it over, repeat — a fixed-point relaxation rather than a
//! queue-based sort, because one equation may define several names at once
//! and those must move together.

use vstd::prelude::*;


use crate::ast::names_view;
use crate::error::Error;
use crate::nast;
use crate::nast::{AtomV, BexprV};

verus! {

broadcast use
    vstd::std_specs::vec::axiom_vec_decreases_to_view,
    vstd::seq::axiom_seq_index_decreases,
    vstd::seq::axiom_seq_subrange_decreases;

// Direct dependencies.

/// The identifiers a basic expression reads, in walk order.
pub open spec fn bexpr_deps(b: BexprV) -> Seq<Seq<char>>
    decreases b,
{
    match b {
        BexprV::Atom(a) => match a {
            AtomV::Ident(n) => seq![n],
            AtomV::Const(_) => Seq::empty(),
        },
        BexprV::Unop(_, sub) => bexpr_deps(*sub),
        BexprV::Binop(_, lhs, rhs) => bexpr_deps(*lhs) + bexpr_deps(*rhs),
        BexprV::If { condition, if_body, else_body } => bexpr_deps(*condition) + bexpr_deps(
            *if_body,
        ) + bexpr_deps(*else_body),
        BexprV::Tuple(elems) => bexpr_seq_deps(elems),
    }
}

pub open spec fn bexpr_seq_deps(s: Seq<BexprV>) -> Seq<Seq<char>>
    decreases s,
{
    if s.len() == 0 {
        Seq::empty()
    } else {
        bexpr_seq_deps(s.drop_last()) + bexpr_deps(s.last())
    }
}

/// The same-step dependencies of a normalized equation body.
pub open spec fn expr_deps(e: nast::ExprV) -> Seq<Seq<char>> {
    match e {
        nast::ExprV::Bexpr(b) => bexpr_deps(b),
        nast::ExprV::Call { name: _, args } => bexpr_seq_deps(args),
        nast::ExprV::Fby(_, _) => Seq::empty(),
    }
}

pub open spec fn eq_deps(eq: nast::EquationV) -> Seq<Seq<char>> {
    expr_deps(eq.body)
}

fn collect_bexpr_deps(b: &nast::Bexpr, out: &mut Vec<String>)
    ensures
        names_view(final(out)@) == names_view(old(out)@) + bexpr_deps(b@),
    decreases b,
{
    match b {
        nast::Bexpr::Atom(a) => {
            match a {
                nast::Atom::Ident(n) => {
                    out.push(n.clone());
                    proof {
                        assert(names_view(out@) =~= names_view(old(out)@) + seq![n@]);
                    }
                }
                nast::Atom::Const(_) => {
                    proof {
                        assert(names_view(out@) =~= names_view(out@) + Seq::empty());
                    }
                }
            }
        }
        nast::Bexpr::Unop(_, sub) => {
            collect_bexpr_deps(&**sub, out);
        }
        nast::Bexpr::Binop(_, lhs, rhs) => {
            collect_bexpr_deps(&**lhs, out);
            collect_bexpr_deps(&**rhs, out);
            proof {
                assert(names_view(out@) =~= names_view(old(out)@) + (bexpr_deps((**lhs)@)
                    + bexpr_deps((**rhs)@)));
            }
        }
        nast::Bexpr::If { condition, if_body, else_body } => {
            collect_bexpr_deps(&**condition, out);
            collect_bexpr_deps(&**if_body, out);
            collect_bexpr_deps(&**else_body, out);
            proof {
                assert(names_view(out@) =~= names_view(old(out)@) + (bexpr_deps((**condition)@)
                    + bexpr_deps((**if_body)@) + bexpr_deps((**else_body)@)));
            }
        }
        nast::Bexpr::Tuple(elems) => {
            collect_bexpr_seq_deps(elems, out);
        }
    }
}

fn collect_bexpr_seq_deps(es: &Vec<nast::Bexpr>, out: &mut Vec<String>)
    ensures
        names_view(final(out)@) == names_view(old(out)@) + bexpr_seq_deps(
            nast::seq_bexpr_view(es@),
        ),
    decreases es,
{
    let ghost vs = nast::seq_bexpr_view(es@);
    proof {
        nast::seq_bexpr_view_props(es@);
        assert(vs.take(0) =~= Seq::<BexprV>::empty());
        assert(names_view(out@) =~= names_view(out@) + bexpr_seq_deps(vs.take(0)));
    }
    let mut i: usize = 0;
    while i < es.len()
        invariant
            i <= es.len(),
            vs == nast::seq_bexpr_view(es@),
            vs.len() == es@.len(),
            names_view(out@) == names_view(old(out)@) + bexpr_seq_deps(vs.take(i as int)),
        decreases es@.len() - i,
    {
        proof {
            nast::seq_bexpr_view_props(es@);
            assert(es@[i as int]@ == vs[i as int]);
        }
        collect_bexpr_deps(&es[i], out);
        proof {
            assert(vs.take(i as int + 1).drop_last() =~= vs.take(i as int));
            assert(vs.take(i as int + 1).last() == vs[i as int]);
            assert(names_view(out@) =~= names_view(old(out)@) + bexpr_seq_deps(
                vs.take(i as int + 1),
            ));
        }
        i = i + 1;
    }
    proof {
        assert(vs.take(vs.len() as int) =~= vs);
    }
}

impl nast::Equation {
    /// The names this equation's body reads in the current step.
    pub fn dependencies(&self) -> (r: Vec<String>)
        ensures
            names_view(r@) == eq_deps(self@),
    {
        let mut out: Vec<String> = Vec::new();
        proof {
            assert(names_view(out@) =~= Seq::<Seq<char>>::empty());
        }
        match &self.body {
            nast::Expr::Bexpr(b) => {
                collect_bexpr_deps(b, &mut out);
                proof {
                    assert(names_view(out@) =~= bexpr_deps(b@));
                }
            }
            nast::Expr::Call { name: _, args } => {
                collect_bexpr_seq_deps(args, &mut out);
                proof {
                    assert(names_view(out@) =~= bexpr_seq_deps(nast::seq_bexpr_view(args@)));
                }
            }
            nast::Expr::Fby(_, _) => {}
        }
        out
    }
}

// The dependency graph.

/// The names defined by a body's equations, in order.
pub open spec fn defined_names(body: Seq<nast::EquationV>) -> Seq<Seq<char>>
    decreases body,
{
    if body.len() == 0 {
        Seq::empty()
    } else {
        defined_names(body.drop_last()) + body.last().names
    }
}

/// One graph entry per defined name, carrying its equation's dependencies.
pub open spec fn graph_of(body: Seq<nast::EquationV>) -> Seq<(Seq<char>, Seq<Seq<char>>)>
    decreases body,
{
    if body.len() == 0 {
        Seq::empty()
    } else {
        graph_of(body.drop_last()) + body.last().names.map_values(
            |n: Seq<char>| (n, eq_deps(body.last())),
        )
    }
}

/// First-match lookup in a graph.
pub open spec fn lookup_spec(g: Seq<(Seq<char>, Seq<Seq<char>>)>, a: Seq<char>) -> Option<
    Seq<Seq<char>>,
>
    decreases g,
{
    if g.len() == 0 {
        None
    } else if g.first().0 == a {
        Some(g.first().1)
    } else {
        lookup_spec(g.drop_first(), a)
    }
}

/// The dependency table of one node, keyed by defined variable name.
#[derive(Debug)]
pub struct Sequentializer {
    pub dependencies: Vec<(String, Vec<String>)>,
}

/// The view of a dependency table.
pub open spec fn graph_view(d: Seq<(String, Vec<String>)>) -> Seq<(Seq<char>, Seq<Seq<char>>)> {
    d.map_values(|p: (String, Vec<String>)| (p.0@, names_view(p.1@)))
}

impl View for Sequentializer {
    type V = Seq<(Seq<char>, Seq<Seq<char>>)>;

    open spec fn view(&self) -> Seq<(Seq<char>, Seq<Seq<char>>)> {
        graph_view(self.dependencies@)
    }
}

/// The keys of a graph, in order.
pub open spec fn graph_keys(g: Seq<(Seq<char>, Seq<Seq<char>>)>) -> Seq<Seq<char>> {
    g.map_values(|p: (Seq<char>, Seq<Seq<char>>)| p.0)
}

fn clone_names(v: &Vec<String>) -> (r: Vec<String>)
    ensures
        r@ =~= v@,
{
    let r = v.clone();
    proof {
        assert forall|i: int| 0 <= i < v@.len() implies r@[i] == v@[i] by {
        }
    }
    r
}

/// Whether any of the pairs' first components equals `name`.
fn contains_key(d: &Vec<(String, Vec<String>)>, name: &String) -> (r: bool)
    ensures
        r == graph_keys(graph_view(d@)).contains(name@),
{
    let mut i: usize = 0;
    while i < d.len()
        invariant
            i <= d.len(),
            forall|j: int| 0 <= j < i ==> graph_view(d@)[j].0 != name@,
        decreases d@.len() - i,
    {
        if d[i].0.eq(name) {
            proof {
                assert(graph_keys(graph_view(d@))[i as int] == name@);
            }
            return true;
        }
        i = i + 1;
    }
    proof {
        assert forall|k: int| 0 <= k < d@.len() implies graph_keys(graph_view(d@))[k] != name@
            by {
            assert(graph_view(d@)[k].0 != name@);
        }
    }
    false
}

/// Whether a name list holds `name`.
pub fn names_contain(v: &Vec<String>, name: &String) -> (r: bool)
    ensures
        r == names_view(v@).contains(name@),
{
    let mut i: usize = 0;
    while i < v.len()
        invariant
            i <= v.len(),
            forall|j: int| 0 <= j < i ==> names_view(v@)[j] != name@,
        decreases v@.len() - i,
    {
        if v[i].eq(name) {
            proof {
                assert(names_view(v@)[i as int] == name@);
            }
            return true;
        }
        i = i + 1;
    }
    false
}

impl Sequentializer {
    pub fn new() -> (r: Self)
        ensures
            r@ =~= Seq::<(Seq<char>, Seq<Seq<char>>)>::empty(),
    {
        Sequentializer { dependencies: Vec::new() }
    }

    /// Builds the direct dependency graph of a normalized node: one entry
    /// per defined name. Fails when an equation binds no name or when two
    /// equations define the same name.
    pub fn build(node: &nast::Node) -> (r: Result<Sequentializer, Error>)
        ensures
            (r is Ok <==> all_named(node@.body) && defined_names(node@.body).no_duplicates()),
            r matches Ok(s) ==> s@ == graph_of(node@.body),
            r matches Err(e) ==> (e@ matches crate::error::ErrorV::DuplicateDefinition {
                node: n,
                name,
            } && n == node@.name && defined_names(node@.body).contains(name)
                && !defined_names(node@.body).no_duplicates())
                || (e@ matches crate::error::ErrorV::StructuralViolation { node: n, name: _ }
                && n == node@.name && !all_named(node@.body)),
    {
        let ghost bv = node@.body;
        let mut deps: Vec<(String, Vec<String>)> = Vec::new();
        let mut i: usize = 0;
        proof {
            assert(bv.take(0) =~= Seq::<nast::EquationV>::empty());
            assert(graph_view(deps@) =~= graph_of(bv.take(0)));
            assert(defined_names(bv.take(0)) =~= Seq::<Seq<char>>::empty());
        }
        while i < node.body.len()
            invariant
                i <= node.body.len(),
                bv == node@.body,
                bv.len() == node.body@.len(),
                graph_view(deps@) == graph_of(bv.take(i as int)),
                graph_keys(graph_view(deps@)) =~= defined_names(bv.take(i as int)),
                defined_names(bv.take(i as int)).no_duplicates(),
                all_named(bv.take(i as int)),
            decreases node.body@.len() - i,
        {
            proof {
                assert(bv[i as int] == node.body@[i as int]@);
            }
            let eq = &node.body[i];
            if eq.names.len() == 0 {
                let err = Error::StructuralViolation {
                    node: node.name.clone(),
                    name: node.name.clone(),
                };
                proof {
                    assert(bv[i as int].names.len() == 0);
                    assert(!all_named(bv));
                }
                return Err(err);
            }
            let ds = eq.dependencies();
            let mut j: usize = 0;
            let ghost pre = graph_view(deps@);
            while j < eq.names.len()
                invariant
                    j <= eq.names.len(),
                    eq == &node.body[i as int],
                    i < node.body.len(),
                    bv == node@.body,
                    bv.len() == node.body@.len(),
                    bv[i as int] == node.body@[i as int]@,
                    names_view(ds@) == eq_deps(bv[i as int]),
                    pre == graph_of(bv.take(i as int)),
                    graph_keys(pre) =~= defined_names(bv.take(i as int)),
                    defined_names(bv.take(i as int)).no_duplicates(),
                    all_named(bv.take(i as int)),
                    graph_view(deps@) == pre + bv[i as int].names.take(j as int).map_values(
                        |n: Seq<char>| (n, eq_deps(bv[i as int])),
                    ),
                    graph_keys(graph_view(deps@)) =~= defined_names(bv.take(i as int))
                        + bv[i as int].names.take(j as int),
                    graph_keys(graph_view(deps@)).no_duplicates(),
                decreases eq.names@.len() - j,
            {
                let name = &eq.names[j];
                if contains_key(&deps, name) {
                    let err = Error::DuplicateDefinition {
                        node: node.name.clone(),
                        name: name.clone(),
                    };
                    proof {
                        assert(graph_keys(graph_view(deps@)).contains(name@));
                        let keys = defined_names(bv.take(i as int)) + bv[i as int].names.take(
                            j as int,
                        );
                        assert(keys.contains(name@));
                        let k = choose|k: int| 0 <= k < keys.len() && keys[k] == name@;
                        if k < defined_names(bv.take(i as int)).len() {
                            assert(defined_names(bv.take(i as int)).contains(name@));
                        } else {
                            assert(bv[i as int].names.take(j as int).contains(name@));
                        }
                        lemma_defined_names_dup(bv, i as int, j as int);
                        assert(bv.take(i as int + 1).drop_last() =~= bv.take(i as int));
                        assert(bv.take(i as int + 1).last() == bv[i as int]);
                        let upto = defined_names(bv.take(i as int + 1));
                        assert(upto =~= defined_names(bv.take(i as int)) + bv[i as int].names);
                        assert(upto[defined_names(bv.take(i as int)).len() + j as int] == name@);
                        assert(upto.contains(name@));
                        lemma_defined_names_prefix_contains(bv, i as int + 1, name@);
                    }
                    return Err(err);
                }
                let ghost gpre = graph_view(deps@);
                deps.push((name.clone(), clone_names(&ds)));
                proof {
                    assert(graph_view(deps@) =~= gpre.push((name@, eq_deps(bv[i as int]))));
                    assert(bv[i as int].names.take(j as int + 1) =~= bv[i as int].names.take(
                        j as int,
                    ).push(name@));
                    assert(graph_view(deps@) =~= pre + bv[i as int].names.take(j as int
                        + 1).map_values(|n: Seq<char>| (n, eq_deps(bv[i as int]))));
                    assert(graph_keys(graph_view(deps@)) =~= graph_keys(gpre).push(name@));
                    assert(graph_keys(graph_view(deps@)) =~= defined_names(bv.take(i as int))
                        + bv[i as int].names.take(j as int + 1));
                }
                j = j + 1;
            }
            proof {
                assert(bv[i as int].names.take(bv[i as int].names.len() as int)
                    =~= bv[i as int].names);
                assert(bv.take(i as int + 1).drop_last() =~= bv.take(i as int));
                assert(bv.take(i as int + 1).last() == bv[i as int]);
                assert(graph_view(deps@) =~= graph_of(bv.take(i as int + 1)));
                assert(defined_names(bv.take(i as int + 1)) =~= defined_names(bv.take(i as int))
                    + bv[i as int].names);
                assert(all_named(bv.take(i as int + 1)));
            }
            i = i + 1;
        }
        proof {
            assert(bv.take(bv.len() as int) =~= bv);
        }
        Ok(Sequentializer { dependencies: deps })
    }
}

/// Every equation binds at least one name.
pub open spec fn all_named(body: Seq<nast::EquationV>) -> bool {
    forall|i: int| 0 <= i < body.len() ==> (#[trigger] body[i]).names.len() > 0
}

proof fn lemma_defined_names_prefix_contains(bv: Seq<nast::EquationV>, i: int, n: Seq<char>)
    requires
        0 <= i <= bv.len(),
        defined_names(bv.take(i)).contains(n),
    ensures
        defined_names(bv).contains(n),
    decreases bv.len() - i,
{
    if i < bv.len() {
        assert(bv.take(i + 1).drop_last() =~= bv.take(i));
        assert(bv.take(i + 1).last() == bv[i]);
        assert(defined_names(bv.take(i + 1)) =~= defined_names(bv.take(i)) + bv[i].names);
        let k = choose|k: int| 0 <= k < defined_names(bv.take(i)).len() && defined_names(
            bv.take(i),
        )[k] == n;
        assert(defined_names(bv.take(i + 1))[k] == n);
        assert(defined_names(bv.take(i + 1)).contains(n));
        lemma_defined_names_prefix_contains(bv, i + 1, n);
    } else {
        assert(bv.take(i) =~= bv);
    }
}

/// A name that already has a graph entry and turns up again is defined twice.
proof fn lemma_defined_names_dup(bv: Seq<nast::EquationV>, i: int, j: int)
    requires
        0 <= i < bv.len(),
        0 <= j < bv[i].names.len(),
        defined_names(bv.take(i)).contains(bv[i].names[j]) || bv[i].names.take(j).contains(
            bv[i].names[j],
        ),
    ensures
        !defined_names(bv).no_duplicates(),
{
    let n = bv[i].names[j];
    assert(bv.take(i + 1).drop_last() =~= bv.take(i));
    assert(bv.take(i + 1).last() == bv[i]);
    let upto = defined_names(bv.take(i + 1));
    assert(upto == defined_names(bv.take(i)) + bv[i].names);
    let base = defined_names(bv.take(i)).len() as int;
    if defined_names(bv.take(i)).contains(n) {
        let k1 = choose|k: int| 0 <= k < base && defined_names(bv.take(i))[k] == n;
        assert(upto[k1] == n);
        assert(upto[base + j] == n);
        assert(!upto.no_duplicates());
    } else {
        let k1 = choose|k: int| 0 <= k < j && bv[i].names.take(j)[k] == n;
        assert(upto[base + k1] == n);
        assert(upto[base + j] == n);
        assert(!upto.no_duplicates());
    }
    lemma_defined_names_prefix_dup(bv, i + 1);
}

/// Duplicates in a prefix's names are duplicates of the whole body's names.
proof fn lemma_defined_names_prefix_dup(bv: Seq<nast::EquationV>, i: int)
    requires
        0 <= i <= bv.len(),
        !defined_names(bv.take(i)).no_duplicates(),
    ensures
        !defined_names(bv).no_duplicates(),
    decreases bv.len() - i,
{
    if i < bv.len() {
        assert(bv.take(i + 1).drop_last() =~= bv.take(i));
        assert(bv.take(i + 1).last() == bv[i]);
        let prev = defined_names(bv.take(i));
        let next = defined_names(bv.take(i + 1));
        assert(next == prev + bv[i].names);
        let (a, b) = choose|a: int, b: int| 0 <= a < b < prev.len() && prev[a] == prev[b];
        assert(next[a] == prev[a] && next[b] == prev[b]);
        assert(!next.no_duplicates());
        lemma_defined_names_prefix_dup(bv, i + 1);
    } else {
        assert(bv.take(i) =~= bv);
    }
}


// Reachability.

/// One dependency step: `a`'s entry lists `b`.
pub open spec fn edge(g: Seq<(Seq<char>, Seq<Seq<char>>)>, a: Seq<char>, b: Seq<char>) -> bool {
    match lookup_spec(g, a) {
        Some(ds) => ds.contains(b),
        None => false,
    }
}

pub open spec fn is_path(g: Seq<(Seq<char>, Seq<Seq<char>>)>, p: Seq<Seq<char>>) -> bool {
    forall|i: int| 0 <= i < p.len() - 1 ==> #[trigger] edge(g, p[i], p[i + 1])
}

/// `b` is computable only after `a`: some chain of one or more dependency
/// steps leads from `a` to `b`.
pub open spec fn reaches(g: Seq<(Seq<char>, Seq<Seq<char>>)>, a: Seq<char>, b: Seq<char>) -> bool {
    exists|p: Seq<Seq<char>>|
        #![auto]
        p.len() >= 2 && p[0] == a && p.last() == b && is_path(g, p)
}

pub proof fn lemma_edge_reaches(g: Seq<(Seq<char>, Seq<Seq<char>>)>, a: Seq<char>, b: Seq<char>)
    requires
        edge(g, a, b),
    ensures
        reaches(g, a, b),
{
    let p = seq![a, b];
    assert(p.len() >= 2 && p[0] == a && p.last() == b);
    assert(is_path(g, p)) by {
        assert forall|i: int| 0 <= i < p.len() - 1 implies #[trigger] edge(g, p[i], p[i + 1]) by {
            assert(i == 0);
            assert(p[0] == a && p[1] == b);
        }
    }
}

pub proof fn lemma_reaches_trans(
    g: Seq<(Seq<char>, Seq<Seq<char>>)>,
    a: Seq<char>,
    b: Seq<char>,
    c: Seq<char>,
)
    requires
        reaches(g, a, b),
        reaches(g, b, c),
    ensures
        reaches(g, a, c),
{
    let p1 = choose|p: Seq<Seq<char>>|
        #![auto]
        p.len() >= 2 && p[0] == a && p.last() == b && is_path(g, p);
    let p2 = choose|p: Seq<Seq<char>>|
        #![auto]
        p.len() >= 2 && p[0] == b && p.last() == c && is_path(g, p);
    let p = p1 + p2.drop_first();
    assert(p.len() >= 2 && p[0] == a);
    assert(p.last() == p2.last());
    assert(is_path(g, p)) by {
        assert forall|i: int| 0 <= i < p.len() - 1 implies #[trigger] edge(g, p[i], p[i + 1]) by {
            if i < p1.len() - 1 {
                assert(p[i] == p1[i] && p[i + 1] == p1[i + 1]);
                assert(edge(g, p1[i], p1[i + 1]));
            } else if i == p1.len() - 1 {
                assert(p[i] == p1.last());
                assert(p1.last() == p2[0]);
                assert(p[i + 1] == p2.drop_first()[0]);
                assert(p2.drop_first()[0] == p2[1]);
                assert(edge(g, p2[0], p2[1]));
            } else {
                let k = i - p1.len();
                assert(p[i] == p2.drop_first()[k]);
                assert(p[i + 1] == p2.drop_first()[k + 1]);
                assert(p2.drop_first()[k] == p2[k + 1]);
                assert(p2.drop_first()[k + 1] == p2[k + 2]);
                assert(edge(g, p2[k + 1], p2[k + 2]));
            }
        }
    }
}

/// Along a path from `a`, every node after the first stays inside a set that
/// holds `a`'s successors and is closed under dependency steps.
proof fn lemma_path_closed(
    g: Seq<(Seq<char>, Seq<Seq<char>>)>,
    s: Seq<Seq<char>>,
    p: Seq<Seq<char>>,
    a: Seq<char>,
)
    requires
        p.len() >= 2,
        p[0] == a,
        is_path(g, p),
        forall|d: Seq<char>| edge(g, a, d) ==> s.contains(d),
        forall|x: Seq<char>, d: Seq<char>| s.contains(x) && edge(g, x, d) ==> s.contains(d),
    ensures
        s.contains(p.last()),
    decreases p.len(),
{
    if p.len() == 2 {
        let z: int = 0;
        assert(edge(g, p[z], p[z + 1]));
        assert(p[z + 1] == p.last());
    } else {
        let q = p.drop_last();
        assert(q.len() >= 2 && q[0] == a);
        assert(is_path(g, q)) by {
            assert forall|i: int| 0 <= i < q.len() - 1 implies #[trigger] edge(g, q[i], q[i + 1])
                by {
                assert(q[i] == p[i] && q[i + 1] == p[i + 1]);
                assert(edge(g, p[i], p[i + 1]));
            }
        }
        lemma_path_closed(g, s, q, a);
        let m = p.len() - 2;
        assert(edge(g, p[m], p[m + 1]));
        assert(q.last() == p[m]);
        assert(p[m + 1] == p.last());
    }
}

/// The names a graph mentions anywhere: keys and dependency values.
pub open spec fn graph_names(g: Seq<(Seq<char>, Seq<Seq<char>>)>) -> Seq<Seq<char>>
    decreases g,
{
    if g.len() == 0 {
        Seq::empty()
    } else {
        graph_names(g.drop_last()) + seq![g.last().0] + g.last().1
    }
}

proof fn lemma_graph_names_complete(g: Seq<(Seq<char>, Seq<Seq<char>>)>, i: int)
    requires
        0 <= i < g.len(),
    ensures
        graph_names(g).contains(g[i].0),
        forall|j: int| 0 <= j < g[i].1.len() ==> graph_names(g).contains(#[trigger] g[i].1[j]),
    decreases g.len(),
{
    if i == g.len() - 1 {
        let base = graph_names(g.drop_last()).len() as int;
        assert(graph_names(g)[base] == g[i].0);
        assert forall|j: int| 0 <= j < g[i].1.len() implies graph_names(g).contains(
            #[trigger] g[i].1[j],
        ) by {
            assert(graph_names(g)[base + 1 + j] == g[i].1[j]);
        }
    } else {
        lemma_graph_names_complete(g.drop_last(), i);
        assert(g.drop_last()[i] == g[i]);
        let prev = graph_names(g.drop_last());
        assert forall|x: Seq<char>| prev.contains(x) implies graph_names(g).contains(x) by {
            let k = choose|k: int| 0 <= k < prev.len() && prev[k] == x;
            assert(graph_names(g)[k] == x);
        }
    }
}

proof fn lemma_lookup_is_entry(g: Seq<(Seq<char>, Seq<Seq<char>>)>, a: Seq<char>)
    ensures
        lookup_spec(g, a) matches Some(ds) ==> exists|i: int|
            0 <= i < g.len() && g[i] == (a, ds),
    decreases g,
{
    if g.len() > 0 {
        if g.first().0 == a {
            assert(g[0] == (a, g.first().1));
        } else {
            lemma_lookup_is_entry(g.drop_first(), a);
            if let Some(ds) = lookup_spec(g.drop_first(), a) {
                let i = choose|i: int|
                    0 <= i < g.drop_first().len() && g.drop_first()[i] == (a, ds);
                assert(g[i + 1] == (a, ds));
            }
        }
    }
}

/// With distinct keys, looking a key up gives its own entry.
pub proof fn lemma_lookup_unique(g: Seq<(Seq<char>, Seq<Seq<char>>)>, i: int)
    requires
        graph_keys(g).no_duplicates(),
        0 <= i < g.len(),
    ensures
        lookup_spec(g, g[i].0) == Some(g[i].1),
    decreases i,
{
    if i == 0 {
        assert(g.first() == g[0]);
    } else {
        assert(graph_keys(g)[0] == g[0].0);
        assert(graph_keys(g)[i] == g[i].0);
        assert(g.first().0 != g[i].0);
        assert(graph_keys(g.drop_first()).no_duplicates()) by {
            assert forall|x: int, y: int|
                0 <= x < y < g.drop_first().len() implies #[trigger] graph_keys(
                g.drop_first(),
            )[x] != #[trigger] graph_keys(g.drop_first())[y] by {
                assert(graph_keys(g.drop_first())[x] == graph_keys(g)[x + 1]);
                assert(graph_keys(g.drop_first())[y] == graph_keys(g)[y + 1]);
            }
        }
        assert(g.drop_first()[i - 1] == g[i]);
        lemma_lookup_unique(g.drop_first(), i - 1);
    }
}

/// First-match lookup of one name.
fn graph_get<'a>(g: &'a Vec<(String, Vec<String>)>, name: &String) -> (r: Option<&'a Vec<String>>)
    ensures
        lookup_spec(graph_view(g@), name@) matches Some(ds) ==> r matches Some(v)
            && names_view(v@) == ds,
        (lookup_spec(graph_view(g@), name@) is None ==> r is None),
{
    let ghost gv = graph_view(g@);
    proof {
        assert(gv.skip(0) =~= gv);
    }
    let mut i: usize = 0;
    while i < g.len()
        invariant
            i <= g.len(),
            gv == graph_view(g@),
            gv.len() == g@.len(),
            lookup_spec(gv.skip(i as int), name@) == lookup_spec(gv, name@),
        decreases g@.len() - i,
    {
        if g[i].0.eq(name) {
            proof {
                assert(gv.skip(i as int).first() == gv[i as int]);
                assert(lookup_spec(gv.skip(i as int), name@) == Some(gv[i as int].1));
            }
            return Some(&g[i].1);
        }
        proof {
            assert(gv.skip(i as int).first() == gv[i as int]);
            assert(gv.skip(i as int).drop_first() =~= gv.skip(i as int + 1));
        }
        i = i + 1;
    }
    proof {
        assert(gv.skip(g@.len() as int) =~= Seq::<(Seq<char>, Seq<Seq<char>>)>::empty());
    }
    None
}

/// Breadth-first closure: every name reachable from `key`, whose direct
/// successors are `start`.
fn close_from(
    g: &Vec<(String, Vec<String>)>,
    start: &Vec<String>,
    Ghost(key): Ghost<Seq<char>>,
) -> (r: Vec<String>)
    requires
        lookup_spec(graph_view(g@), key) matches Some(ds) && ds == names_view(start@),
    ensures
        forall|b: Seq<char>| #[trigger] names_view(r@).contains(b) <==> reaches(
            graph_view(g@),
            key,
            b,
        ),
{
    let ghost gv = graph_view(g@);
    let ghost universe = graph_names(gv).to_set().insert(key);
    proof {
        vstd::seq_lib::seq_to_set_is_finite(graph_names(gv));
        lemma_lookup_is_entry(gv, key);
        let i = choose|i: int| 0 <= i < gv.len() && gv[i] == (key, names_view(start@));
        lemma_graph_names_complete(gv, i);
        assert forall|j: int| 0 <= j < start@.len() implies universe.contains(
            #[trigger] names_view(start@)[j],
        ) by {
            assert(graph_names(gv).contains(gv[i].1[j]));
            assert(graph_names(gv).to_set().contains(gv[i].1[j]));
        }
    }
    let mut queue: Vec<String> = clone_names(start);
    let mut visited: Vec<String> = Vec::new();
    proof {
        assert(names_view(queue@) =~= names_view(start@));
        assert(names_view(visited@) =~= Seq::<Seq<char>>::empty());
        assert(names_view(visited@).to_set().subset_of(universe)) by {
            assert forall|x: Seq<char>|
                names_view(visited@).to_set().contains(x) implies universe.contains(x) by {
                assert(names_view(visited@).contains(x));
            }
        }
        names_view(visited@).unique_seq_to_set();
        vstd::set_lib::lemma_len_subset(names_view(visited@).to_set(), universe);
        assert forall|x: Seq<char>| #[trigger] names_view(queue@).contains(x) implies reaches(
            gv,
            key,
            x,
        ) by {
            assert(edge(gv, key, x));
            lemma_edge_reaches(gv, key, x);
        }
        assert forall|x: Seq<char>| #[trigger] names_view(queue@).contains(x) implies
            universe.contains(x) by {
            let k = choose|k: int| 0 <= k < names_view(queue@).len() && names_view(queue@)[k]
                == x;
            assert(names_view(start@)[k] == x);
        }
    }
    while queue.len() > 0
        invariant
            gv == graph_view(g@),
            universe == graph_names(gv).to_set().insert(key),
            universe.finite(),
            lookup_spec(gv, key) matches Some(ds) && ds == names_view(start@),
            forall|x: Seq<char>| #[trigger] names_view(visited@).contains(x) ==> reaches(
                gv,
                key,
                x,
            ),
            forall|x: Seq<char>| #[trigger] names_view(queue@).contains(x) ==> reaches(
                gv,
                key,
                x,
            ),
            forall|x: Seq<char>, d: Seq<char>|
                names_view(visited@).contains(x) && #[trigger] edge(gv, x, d) ==> names_view(
                    visited@,
                ).contains(d) || names_view(queue@).contains(d),
            forall|d: Seq<char>| #[trigger] edge(gv, key, d) ==> names_view(visited@).contains(d)
                || names_view(queue@).contains(d),
            names_view(visited@).no_duplicates(),
            names_view(visited@).to_set().subset_of(universe),
            names_view(visited@).to_set().len() <= universe.len(),
            forall|x: Seq<char>| #[trigger] names_view(queue@).contains(x) ==> universe.contains(
                x,
            ),
        decreases universe.len() - names_view(visited@).to_set().len(), queue@.len(),
    {
        let ghost pre_queue = queue@;
        let ghost pre_visited = visited@;
        let first = queue.remove(0);
        let ghost fv = first@;
        proof {
            assert(names_view(pre_queue)[0] == fv);
            assert(names_view(pre_queue).contains(fv));
            assert forall|x: Seq<char>| #[trigger] names_view(queue@).contains(x) implies
                names_view(pre_queue).contains(x) by {
                let k = choose|k: int| 0 <= k < names_view(queue@).len() && names_view(
                    queue@,
                )[k] == x;
                assert(names_view(pre_queue)[k + 1] == x);
            }
            assert forall|x: Seq<char>|
                names_view(pre_queue).contains(x) && x != fv implies names_view(
                queue@,
            ).contains(x) by {
                let k = choose|k: int| 0 <= k < names_view(pre_queue).len() && names_view(
                    pre_queue,
                )[k] == x;
                assert(k != 0);
                assert(names_view(queue@)[k - 1] == x);
            }
        }
        if !names_contain(&visited, &first) {
            let deps_opt = graph_get(g, &first);
            visited.push(first);
            proof {
                assert(names_view(visited@) =~= names_view(pre_visited).push(fv));
                assert forall|x: Seq<char>| #[trigger] names_view(visited@).contains(x) implies
                    names_view(pre_visited).contains(x) || x == fv by {
                    let k = choose|k: int| 0 <= k < names_view(visited@).len() && names_view(
                        visited@,
                    )[k] == x;
                    if k < names_view(pre_visited).len() {
                        assert(names_view(pre_visited)[k] == x);
                    }
                }
                assert(names_view(visited@).no_duplicates());
                assert(names_view(visited@).to_set().subset_of(universe)) by {
                    assert forall|x: Seq<char>|
                        names_view(visited@).to_set().contains(x) implies universe.contains(x)
                        by {
                        assert(names_view(visited@).contains(x));
                    }
                }
                names_view(visited@).unique_seq_to_set();
                names_view(pre_visited).unique_seq_to_set();
                vstd::set_lib::lemma_len_subset(names_view(visited@).to_set(), universe);
                assert(names_view(visited@).to_set().len() == names_view(pre_visited).len() + 1);
                assert(names_view(visited@).last() == fv);
                assert(names_view(visited@).contains(fv));
                assert forall|x: Seq<char>|
                    names_view(pre_visited).contains(x) implies names_view(visited@).contains(x)
                    by {
                    let k = choose|k: int| 0 <= k < names_view(pre_visited).len() && names_view(
                        pre_visited,
                    )[k] == x;
                    assert(names_view(visited@)[k] == x);
                }
                assert forall|d: Seq<char>| #[trigger] edge(gv, key, d) implies names_view(
                    visited@,
                ).contains(d) || names_view(queue@).contains(d) by {
                    if names_view(pre_visited).contains(d) {
                    } else {
                        assert(names_view(pre_queue).contains(d));
                        if d != fv {
                            assert(names_view(queue@).contains(d));
                        }
                    }
                }
                assert forall|x: Seq<char>, d: Seq<char>|
                    names_view(pre_visited).contains(x) && #[trigger] edge(gv, x, d) implies
                    names_view(visited@).contains(d) || names_view(queue@).contains(d) by {
                    if names_view(pre_visited).contains(d) {
                    } else {
                        assert(names_view(pre_queue).contains(d));
                        if d != fv {
                            assert(names_view(queue@).contains(d));
                        }
                    }
                }
                assert(names_view(visited@).drop_last() =~= names_view(pre_visited));
            }
            match deps_opt {
                Some(ds) => {
                    let ghost fixed_visited = visited@;
                    proof {
                        assert(lookup_spec(gv, fv) == Some(names_view(ds@)));
                        lemma_lookup_is_entry(gv, fv);
                        let ei = choose|i: int| 0 <= i < gv.len() && gv[i] == (
                            fv,
                            names_view(ds@),
                        );
                        lemma_graph_names_complete(gv, ei);
                        assert forall|k: int| 0 <= k < names_view(ds@).len() implies
                            universe.contains(#[trigger] names_view(ds@)[k]) by {
                            assert(graph_names(gv).contains(gv[ei].1[k]));
                            assert(graph_names(gv).to_set().contains(gv[ei].1[k]));
                        }
                        assert(names_view(visited@).drop_last() =~= names_view(pre_visited));
                    }
                    let mut j: usize = 0;
                    while j < ds.len()
                        invariant
                            j <= ds.len(),
                            gv == graph_view(g@),
                            universe == graph_names(gv).to_set().insert(key),
                            universe.finite(),
                            lookup_spec(gv, key) matches Some(dd) && dd == names_view(start@),
                            visited@ == fixed_visited,
                            names_view(visited@).len() > 0,
                            fv == names_view(visited@).last(),
                            lookup_spec(gv, fv) == Some(names_view(ds@)),
                            reaches(gv, key, fv),
                            forall|x: Seq<char>| #[trigger] names_view(visited@).contains(x)
                                ==> reaches(gv, key, x),
                            forall|x: Seq<char>| #[trigger] names_view(queue@).contains(x)
                                ==> reaches(gv, key, x),
                            forall|x: Seq<char>, d: Seq<char>|
                                names_view(visited@).drop_last().contains(x) && #[trigger] edge(
                                    gv,
                                    x,
                                    d,
                                ) ==> names_view(visited@).contains(d) || names_view(
                                    queue@,
                                ).contains(d),
                            forall|k: int| 0 <= k < j ==> names_view(visited@).contains(
                                #[trigger] names_view(ds@)[k],
                            ) || names_view(queue@).contains(names_view(ds@)[k]),
                            forall|d: Seq<char>| #[trigger] edge(gv, key, d) ==> names_view(
                                visited@,
                            ).contains(d) || names_view(queue@).contains(d),
                            names_view(visited@).no_duplicates(),
                            names_view(visited@).to_set().subset_of(universe),
                            names_view(visited@).to_set().len() <= universe.len(),
                            forall|x: Seq<char>| #[trigger] names_view(queue@).contains(x)
                                ==> universe.contains(x),
                            forall|k: int| 0 <= k < names_view(ds@).len() ==> universe.contains(
                                #[trigger] names_view(ds@)[k],
                            ),
                        decreases ds@.len() - j,
                    {
                        let d = &ds[j];
                        proof {
                            assert(names_view(ds@)[j as int] == d@);
                        }
                        let in_v = names_contain(&visited, d);
                        let in_q = names_contain(&queue, d);
                        if !in_v && !in_q {
                            let ghost pq = queue@;
                            queue.push(d.clone());
                            proof {
                                assert(names_view(queue@) =~= names_view(pq).push(d@));
                                assert(edge(gv, fv, d@));
                                lemma_edge_reaches(gv, fv, d@);
                                lemma_reaches_trans(gv, key, fv, d@);
                                assert forall|x: Seq<char>| #[trigger] names_view(
                                    queue@,
                                ).contains(x) implies names_view(pq).contains(x) || x == d@ by {
                                    let k = choose|k: int| 0 <= k < names_view(queue@).len()
                                        && names_view(queue@)[k] == x;
                                    if k < names_view(pq).len() {
                                        assert(names_view(pq)[k] == x);
                                    }
                                }
                                assert forall|x: Seq<char>| #[trigger] names_view(pq).contains(
                                    x,
                                ) implies names_view(queue@).contains(x) by {
                                    let k = choose|k: int| 0 <= k < names_view(pq).len()
                                        && names_view(pq)[k] == x;
                                    assert(names_view(queue@)[k] == x);
                                }
                                assert(names_view(queue@)[names_view(queue@).len() - 1] == d@);
                                assert(names_view(queue@).contains(d@));
                            }
                        }
                        j = j + 1;
                    }
                    proof {
                        assert forall|x: Seq<char>, d: Seq<char>|
                            names_view(visited@).contains(x) && #[trigger] edge(gv, x, d) implies
                            names_view(visited@).contains(d) || names_view(queue@).contains(d)
                            by {
                            if x == fv {
                                assert(names_view(ds@).contains(d));
                                let k = choose|k: int| 0 <= k < names_view(ds@).len()
                                    && names_view(ds@)[k] == d;
                            } else {
                                let k = choose|k: int| 0 <= k < names_view(visited@).len()
                                    && names_view(visited@)[k] == x;
                                assert(k < names_view(visited@).len() - 1);
                                assert(names_view(visited@).drop_last()[k] == x);
                                assert(names_view(visited@).drop_last().contains(x));
                            }
                        }
                    }
                }
                None => {
                    proof {
                        assert(names_view(visited@).drop_last() =~= names_view(pre_visited));
                        assert forall|x: Seq<char>, d: Seq<char>|
                            names_view(visited@).contains(x) && #[trigger] edge(gv, x, d) implies
                            names_view(visited@).contains(d) || names_view(queue@).contains(d)
                            by {
                            if x == fv {
                                assert(lookup_spec(gv, x) is None);
                                assert(!edge(gv, x, d));
                            } else {
                                let k = choose|k: int| 0 <= k < names_view(visited@).len()
                                    && names_view(visited@)[k] == x;
                                assert(k < names_view(visited@).len() - 1);
                                assert(names_view(pre_visited)[k] == x);
                                assert(names_view(pre_visited).contains(x));
                            }
                        }
                    }
                }
            }
        } else {
            proof {
                assert forall|x: Seq<char>, d: Seq<char>|
                    names_view(visited@).contains(x) && #[trigger] edge(gv, x, d) implies
                    names_view(visited@).contains(d) || names_view(queue@).contains(d) by {
                    assert(names_view(pre_visited).contains(x));
                    if !names_view(visited@).contains(d) {
                        assert(names_view(pre_queue).contains(d));
                        if d == fv {
                            assert(names_view(visited@).contains(d));
                        } else {
                            assert(names_view(queue@).contains(d));
                        }
                    }
                }
                assert forall|d: Seq<char>| #[trigger] edge(gv, key, d) implies names_view(
                    visited@,
                ).contains(d) || names_view(queue@).contains(d) by {
                    if !names_view(visited@).contains(d) {
                        assert(names_view(pre_queue).contains(d));
                        if d == fv {
                            assert(names_view(visited@).contains(d));
                        } else {
                            assert(names_view(queue@).contains(d));
                        }
                    }
                }
            }
        }
    }
    proof {
        assert forall|b: Seq<char>| reaches(gv, key, b) implies names_view(visited@).contains(b)
            by {
            let p = choose|p: Seq<Seq<char>>|
                #![auto]
                p.len() >= 2 && p[0] == key && p.last() == b && is_path(gv, p);
            lemma_path_closed(gv, names_view(visited@), p, key);
        }
    }
    visited
}

impl Sequentializer {
    /// Replaces every entry's direct dependencies by its full transitive
    /// closure: everything the variable reaches through the graph.
    pub fn propagate(self) -> (r: Self)
        requires
            graph_keys(self@).no_duplicates(),
        ensures
            r@.len() == self@.len(),
            forall|i: int| 0 <= i < self@.len() ==> (#[trigger] r@[i]).0 == self@[i].0,
            forall|i: int, b: Seq<char>|
                0 <= i < self@.len() ==> ((#[trigger] r@[i].1.contains(b)) <==> reaches(
                    self@,
                    self@[i].0,
                    b,
                )),
    {
        let ghost gv = self@;
        let mut out: Vec<(String, Vec<String>)> = Vec::new();
        let mut i: usize = 0;
        while i < self.dependencies.len()
            invariant
                i <= self.dependencies.len(),
                gv == self@,
                gv.len() == self.dependencies@.len(),
                graph_keys(gv).no_duplicates(),
                graph_view(out@).len() == i as nat,
                forall|k: int| 0 <= k < i ==> (#[trigger] graph_view(out@)[k]).0 == gv[k].0,
                forall|k: int, b: Seq<char>|
                    0 <= k < i ==> ((#[trigger] graph_view(out@)[k].1.contains(b)) <==> reaches(
                        gv,
                        gv[k].0,
                        b,
                    )),
            decreases self.dependencies@.len() - i,
        {
            proof {
                lemma_lookup_unique(gv, i as int);
                assert(gv[i as int].1 == names_view(self.dependencies@[i as int].1@));
            }
            let key = self.dependencies[i].0.clone();
            let closed = close_from(
                &self.dependencies,
                &self.dependencies[i].1,
                Ghost(gv[i as int].0),
            );
            let ghost pre = graph_view(out@);
            out.push((key, closed));
            proof {
                assert(graph_view(out@) =~= pre.push(
                    (gv[i as int].0, names_view(closed@)),
                ));
            }
            i = i + 1;
        }
        Sequentializer { dependencies: out }
    }

    /// The cycle test: after closure, a cycle exists exactly when some
    /// variable's dependency set holds the variable itself. Gives back the
    /// offending variable on failure.
    pub fn check(self) -> (r: Result<Self, String>)
        ensures
            (r is Ok <==> forall|i: int|
                0 <= i < self@.len() ==> !(#[trigger] self@[i]).1.contains(self@[i].0)),
            r matches Ok(s) ==> s == self,
            r matches Err(name) ==> exists|i: int|
                0 <= i < self@.len() && (#[trigger] self@[i]).1.contains(self@[i].0)
                    && name@ == self@[i].0,
    {
        let mut i: usize = 0;
        while i < self.dependencies.len()
            invariant
                i <= self.dependencies.len(),
                self@.len() == self.dependencies@.len(),
                forall|k: int| 0 <= k < i ==> !(#[trigger] self@[k]).1.contains(self@[k].0),
            decreases self.dependencies@.len() - i,
        {
            proof {
                assert(self@[i as int] == (
                    self.dependencies@[i as int].0@,
                    names_view(self.dependencies@[i as int].1@),
                ));
            }
            if names_contain(&self.dependencies[i].1, &self.dependencies[i].0) {
                let name = self.dependencies[i].0.clone();
                return Err(name);
            }
            i = i + 1;
        }
        Ok(self)
    }
}


// Facts about graphs of bodies.

/// Defined names distribute over concatenation.
pub proof fn lemma_defined_names_concat(a: Seq<nast::EquationV>, b: Seq<nast::EquationV>)
    ensures
        defined_names(a + b) == defined_names(a) + defined_names(b),
    decreases b,
{
    if b.len() == 0 {
        assert(a + b =~= a);
        assert(defined_names(a) + defined_names(b) =~= defined_names(a));
    } else {
        lemma_defined_names_concat(a, b.drop_last());
        assert((a + b).drop_last() =~= a + b.drop_last());
        assert((a + b).last() == b.last());
        assert(defined_names(a + b) == defined_names(a + b.drop_last()) + b.last().names);
        assert(defined_names(b) == defined_names(b.drop_last()) + b.last().names);
        assert(defined_names(a) + defined_names(b.drop_last()) + b.last().names
            =~= defined_names(a) + (defined_names(b.drop_last()) + b.last().names));
    }
}

/// A name is defined exactly when some equation binds it.
pub proof fn lemma_defined_names_iff(body: Seq<nast::EquationV>, d: Seq<char>)
    ensures
        defined_names(body).contains(d) <==> exists|i: int|
            0 <= i < body.len() && (#[trigger] body[i]).names.contains(d),
    decreases body,
{
    if body.len() > 0 {
        lemma_defined_names_iff(body.drop_last(), d);
        if defined_names(body).contains(d) {
            let k = choose|k: int| 0 <= k < defined_names(body).len() && defined_names(
                body,
            )[k] == d;
            let base = defined_names(body.drop_last()).len() as int;
            if k < base {
                assert(defined_names(body.drop_last()).contains(d));
                let i = choose|i: int|
                    0 <= i < body.drop_last().len() && (#[trigger] body.drop_last()[i]
                    ).names.contains(d);
                assert(body[i].names.contains(d));
            } else {
                assert(body.last().names[k - base] == d);
                assert(body[body.len() - 1].names.contains(d));
            }
        }
        if exists|i: int| 0 <= i < body.len() && (#[trigger] body[i]).names.contains(d) {
            let i = choose|i: int| 0 <= i < body.len() && (#[trigger] body[i]).names.contains(d);
            let base = defined_names(body.drop_last()).len() as int;
            if i == body.len() - 1 {
                let j = choose|j: int| 0 <= j < body[i].names.len() && body[i].names[j] == d;
                assert(defined_names(body)[base + j] == d);
            } else {
                assert(body.drop_last()[i] == body[i]);
                assert(defined_names(body.drop_last()).contains(d));
                let k = choose|k: int|
                    0 <= k < defined_names(body.drop_last()).len() && defined_names(
                        body.drop_last(),
                    )[k] == d;
                assert(defined_names(body)[k] == d);
            }
        }
    }
}

/// The graph's keys are exactly the defined names, in order.
pub proof fn lemma_graph_of_keys(body: Seq<nast::EquationV>)
    ensures
        graph_keys(graph_of(body)) == defined_names(body),
    decreases body,
{
    if body.len() == 0 {
        assert(graph_keys(graph_of(body)) =~= defined_names(body));
    } else {
        lemma_graph_of_keys(body.drop_last());
        assert(graph_keys(graph_of(body)) =~= defined_names(body));
    }
}

/// Each graph entry sits at its name's position among the defined names.
pub proof fn lemma_graph_of_entry(body: Seq<nast::EquationV>, i: int, jn: int)
    requires
        0 <= i < body.len(),
        0 <= jn < body[i].names.len(),
    ensures
        defined_names(body.take(i)).len() + jn < graph_of(body).len(),
        graph_of(body)[defined_names(body.take(i)).len() + jn] == (
            body[i].names[jn],
            eq_deps(body[i]),
        ),
        defined_names(body)[defined_names(body.take(i)).len() + jn] == body[i].names[jn],
    decreases body,
{
    lemma_graph_of_keys(body);
    if i == body.len() - 1 {
        assert(body.take(i) =~= body.drop_last());
        let base = defined_names(body.drop_last()).len() as int;
        lemma_graph_of_keys(body.drop_last());
        assert(graph_of(body)[base + jn] == body.last().names.map_values(
            |n: Seq<char>| (n, eq_deps(body.last())),
        )[jn]);
    } else {
        lemma_graph_of_entry(body.drop_last(), i, jn);
        assert(body.drop_last().take(i) =~= body.take(i));
        assert(body.drop_last()[i] == body[i]);
        let pos = defined_names(body.take(i)).len() + jn;
        assert(graph_of(body)[pos] == graph_of(body.drop_last())[pos]);
        assert(defined_names(body)[pos] == defined_names(body.drop_last())[pos]);
    }
}

/// With distinct defined names, looking up a name bound by equation `i`
/// gives that equation's dependencies.
pub proof fn lemma_graph_lookup_name(body: Seq<nast::EquationV>, i: int, k: Seq<char>)
    requires
        defined_names(body).no_duplicates(),
        0 <= i < body.len(),
        body[i].names.contains(k),
    ensures
        lookup_spec(graph_of(body), k) == Some(eq_deps(body[i])),
{
    let jn = choose|j: int| 0 <= j < body[i].names.len() && body[i].names[j] == k;
    lemma_graph_of_entry(body, i, jn);
    lemma_graph_of_keys(body);
    let pos = defined_names(body.take(i)).len() + jn;
    lemma_lookup_unique(graph_of(body), pos);
}

/// Only keys reach anywhere: a name with no entry has no outgoing edge.
pub proof fn lemma_reaches_is_key(g: Seq<(Seq<char>, Seq<Seq<char>>)>, a: Seq<char>, b: Seq<char>)
    requires
        reaches(g, a, b),
    ensures
        exists|i: int| 0 <= i < g.len() && (#[trigger] g[i]).0 == a,
{
    let p = choose|p: Seq<Seq<char>>|
        #![auto]
        p.len() >= 2 && p[0] == a && p.last() == b && is_path(g, p);
    let z: int = 0;
    assert(edge(g, p[z], p[z + 1]));
    lemma_lookup_is_entry(g, a);
    let ds = lookup_spec(g, a).unwrap();
    let i = choose|i: int| 0 <= i < g.len() && g[i] == (a, ds);
    assert(g[i].0 == a);
}

// Resolvability.

/// Every dependency of every equation names an input or a defined variable.
pub open spec fn resolved(body: Seq<nast::EquationV>, inputs: Seq<Seq<char>>) -> bool {
    forall|i: int, d: Seq<char>|
        0 <= i < body.len() && #[trigger] eq_deps(body[i]).contains(d) ==> inputs.contains(d)
            || defined_names(body).contains(d)
}

/// No variable transitively depends on itself.
pub open spec fn acyclic(g: Seq<(Seq<char>, Seq<Seq<char>>)>) -> bool {
    forall|a: Seq<char>| !reaches(g, a, a)
}

/// The names of a node's declared inputs.
pub open spec fn input_names(n: nast::NodeV) -> Seq<Seq<char>> {
    crate::ast::declared_names(n.args_in)
}

/// A node the scheduler accepts: every equation binds a name, no name is
/// defined twice, every dependency resolves, and no dependency cycle exists.
pub open spec fn schedulable(n: nast::NodeV) -> bool {
    &&& all_named(n.body)
    &&& defined_names(n.body).no_duplicates()
    &&& resolved(n.body, input_names(n))
    &&& acyclic(graph_of(n.body))
}

/// A valid evaluation order: every dependency of every equation is an input
/// or is defined by an earlier equation.
pub open spec fn ordered_ok(inputs: Seq<Seq<char>>, body: Seq<nast::EquationV>) -> bool {
    forall|i: int, d: Seq<char>|
        0 <= i < body.len() && #[trigger] eq_deps(body[i]).contains(d) ==> inputs.contains(d)
            || exists|j: int| 0 <= j < i && (#[trigger] body[j]).names.contains(d)
}

/// Whether an argument list declares `name`.
fn arglist_contains(l: &crate::ast::ArgList, name: &String) -> (r: bool)
    ensures
        r == crate::ast::declared_names(l@).contains(name@),
{
    let mut i: usize = 0;
    while i < l.0.len()
        invariant
            i <= l.0.len(),
            l@.len() == l.0@.len(),
            forall|j: int| 0 <= j < i ==> crate::ast::declared_names(l@)[j] != name@,
        decreases l.0@.len() - i,
    {
        proof {
            assert(crate::ast::declared_names(l@)[i as int] == l.0@[i as int].0@);
        }
        if l.0[i].0.eq(name) {
            proof {
                assert(crate::ast::declared_names(l@)[i as int] == name@);
            }
            return true;
        }
        i = i + 1;
    }
    false
}

/// Whether any equation of `eqs` binds `name`.
fn any_eq_defines(eqs: &Vec<nast::Equation>, name: &String) -> (r: bool)
    ensures
        r == defined_names(eqs@.map_values(|e: nast::Equation| e@)).contains(name@),
{
    let ghost ev = eqs@.map_values(|e: nast::Equation| e@);
    proof {
        lemma_defined_names_iff(ev, name@);
    }
    let mut i: usize = 0;
    while i < eqs.len()
        invariant
            i <= eqs.len(),
            ev == eqs@.map_values(|e: nast::Equation| e@),
            ev.len() == eqs@.len(),
            forall|j: int| 0 <= j < i ==> !(#[trigger] ev[j]).names.contains(name@),
        decreases eqs@.len() - i,
    {
        proof {
            assert(ev[i as int] == eqs@[i as int]@);
        }
        if names_contain(&eqs[i].names, name) {
            proof {
                lemma_defined_names_iff(ev, name@);
            }
            return true;
        }
        i = i + 1;
    }
    proof {
        lemma_defined_names_iff(ev, name@);
    }
    false
}


/// An equation whose every dependency is an input or an already-emitted name.
pub open spec fn ready(eq: nast::EquationV, inputs: Seq<Seq<char>>, dv: Seq<nast::EquationV>) -> bool {
    forall|d: Seq<char>| #[trigger] eq_deps(eq).contains(d) ==> inputs.contains(d)
        || defined_names(dv).contains(d)
}

fn eq_ready(eq: &nast::Equation, args_in: &crate::ast::ArgList, done: &Vec<nast::Equation>) -> (r:
    bool)
    ensures
        r == ready(eq@, crate::ast::declared_names(args_in@), done@.map_values(
            |e: nast::Equation| e@,
        )),
{
    let ghost dv = done@.map_values(|e: nast::Equation| e@);
    let ds = eq.dependencies();
    let ghost dsv = names_view(ds@);
    let mut i: usize = 0;
    while i < ds.len()
        invariant
            i <= ds.len(),
            dv == done@.map_values(|e: nast::Equation| e@),
            dsv == names_view(ds@),
            dsv.len() == ds@.len(),
            dsv == eq_deps(eq@),
            forall|k: int| 0 <= k < i ==> crate::ast::declared_names(args_in@).contains(
                #[trigger] dsv[k],
            ) || defined_names(dv).contains(dsv[k]),
        decreases ds@.len() - i,
    {
        proof {
            assert(dsv[i as int] == ds@[i as int]@);
        }
        let in_args = arglist_contains(args_in, &ds[i]);
        if !in_args {
            if !any_eq_defines(done, &ds[i]) {
                proof {
                    assert(eq_deps(eq@).contains(dsv[i as int]));
                }
                return false;
            }
        }
        i = i + 1;
    }
    proof {
        assert forall|d: Seq<char>| #[trigger] eq_deps(eq@).contains(d) implies
            crate::ast::declared_names(args_in@).contains(d) || defined_names(dv).contains(d)
            by {
            let k = choose|k: int| 0 <= k < dsv.len() && dsv[k] == d;
        }
    }
    true
}

fn find_ready(
    remaining: &Vec<nast::Equation>,
    args_in: &crate::ast::ArgList,
    done: &Vec<nast::Equation>,
) -> (r: Option<usize>)
    ensures
        r matches Some(j) ==> (j as int) < remaining@.len() && ready(
            remaining@.map_values(|e: nast::Equation| e@)[j as int],
            crate::ast::declared_names(args_in@),
            done@.map_values(|e: nast::Equation| e@),
        ),
        r is None ==> forall|j: int| #![trigger remaining@[j]]
            0 <= j < remaining@.len() ==> !ready(
                remaining@.map_values(|e: nast::Equation| e@)[j],
                crate::ast::declared_names(args_in@),
                done@.map_values(|e: nast::Equation| e@),
            ),
{
    let ghost rv = remaining@.map_values(|e: nast::Equation| e@);
    let mut j: usize = 0;
    while j < remaining.len()
        invariant
            j <= remaining.len(),
            rv == remaining@.map_values(|e: nast::Equation| e@),
            rv.len() == remaining@.len(),
            forall|k: int| #![trigger remaining@[k]] 0 <= k < j ==> !ready(
                rv[k],
                crate::ast::declared_names(args_in@),
                done@.map_values(|e: nast::Equation| e@),
            ),
        decreases remaining@.len() - j,
    {
        proof {
            assert(rv[j as int] == remaining@[j as int]@);
        }
        if eq_ready(&remaining[j], args_in, done) {
            return Some(j);
        }
        j = j + 1;
    }
    None
}

/// In an acyclic, resolved body with distinct names, some remaining
/// equation is always ready: follow an unmet dependency downward; since no
/// chain of dependencies can revisit a variable, the walk must bottom out.
proof fn lemma_find_ready(
    bv: Seq<nast::EquationV>,
    inputs: Seq<Seq<char>>,
    dv: Seq<nast::EquationV>,
    rv: Seq<nast::EquationV>,
    k: Seq<char>,
    j: int,
)
    requires
        defined_names(bv).no_duplicates(),
        resolved(bv, inputs),
        acyclic(graph_of(bv)),
        (dv + rv).to_multiset() == bv.to_multiset(),
        (defined_names(dv) + defined_names(rv)).to_multiset() == defined_names(bv).to_multiset(),
        0 <= j < rv.len(),
        rv[j].names.contains(k),
    ensures
        exists|j2: int| 0 <= j2 < rv.len() && ready(#[trigger] rv[j2], inputs, dv),
    decreases defined_names(rv).to_set().filter(|b: Seq<char>| reaches(graph_of(bv), k, b)).len(),
{
    broadcast use vstd::seq_lib::group_to_multiset_ensures;

    let gv = graph_of(bv);
    if ready(rv[j], inputs, dv) {
        assert(0 <= j < rv.len() && ready(rv[j], inputs, dv));
    } else {
        let d = choose|d: Seq<char>|
            #[trigger] eq_deps(rv[j]).contains(d) && !inputs.contains(d) && !defined_names(
                dv,
            ).contains(d);
        assert(rv.contains(rv[j]));
        assert((dv + rv).contains(rv[j])) by {
            let x = choose|x: int| 0 <= x < rv.len() && rv[x] == rv[j];
            assert((dv + rv)[dv.len() + x] == rv[j]);
        }
        assert((dv + rv).to_multiset().contains(rv[j]));
        assert(bv.to_multiset().contains(rv[j]));
        assert(bv.contains(rv[j]));
        let i = choose|i: int| 0 <= i < bv.len() && bv[i] == rv[j];
        assert(eq_deps(bv[i]).contains(d));
        assert(inputs.contains(d) || defined_names(bv).contains(d));
        assert(defined_names(bv).contains(d));
        assert(defined_names(bv).to_multiset().contains(d));
        assert((defined_names(dv) + defined_names(rv)).to_multiset().contains(d));
        assert((defined_names(dv) + defined_names(rv)).contains(d));
        assert(defined_names(rv).contains(d)) by {
            let x = choose|x: int|
                0 <= x < (defined_names(dv) + defined_names(rv)).len() && (defined_names(dv)
                    + defined_names(rv))[x] == d;
            if x < defined_names(dv).len() {
                assert(defined_names(dv)[x] == d);
            } else {
                assert(defined_names(rv)[x - defined_names(dv).len()] == d);
            }
        }
        lemma_defined_names_iff(rv, d);
        let j2 = choose|j2: int| 0 <= j2 < rv.len() && (#[trigger] rv[j2]).names.contains(d);
        lemma_graph_lookup_name(bv, i, k);
        assert(edge(gv, k, d));
        lemma_edge_reaches(gv, k, d);
        let big = defined_names(rv).to_set().filter(|b: Seq<char>| reaches(gv, k, b));
        let small = defined_names(rv).to_set().filter(|b: Seq<char>| reaches(gv, d, b));
        vstd::seq_lib::seq_to_set_is_finite(defined_names(rv));
        defined_names(rv).to_set().lemma_len_filter(|b: Seq<char>| reaches(gv, k, b));
        defined_names(rv).to_set().lemma_len_filter(|b: Seq<char>| reaches(gv, d, b));
        assert(defined_names(rv).to_set().contains(d));
        assert(big.contains(d));
        assert(small.subset_of(big.remove(d))) by {
            assert forall|b: Seq<char>| small.contains(b) implies big.remove(d).contains(b) by {
                assert(reaches(gv, d, b));
                lemma_reaches_trans(gv, k, d, b);
                if b == d {
                    assert(reaches(gv, d, d));
                    assert(false);
                }
            }
        }
        assert(big.remove(d).len() == big.len() - 1);
        vstd::set_lib::lemma_len_subset(small, big.remove(d));
        lemma_find_ready(bv, inputs, dv, rv, d, j2);
    }
}

impl nast::Node {
    /// Reorders this node's equations into a valid evaluation order: every
    /// equation comes after everything it depends on. Fails on an equation
    /// binding no name, a name defined twice, a dependency that resolves to
    /// neither an input nor an equation, or a dependency cycle.
    pub fn order(self) -> (r: Result<nast::Node, Error>)
        ensures
            (r is Ok <==> schedulable(self@)),
            r matches Ok(out) ==> ({
                &&& out@.name == self@.name
                &&& out@.args_in == self@.args_in
                &&& out@.args_out == self@.args_out
                &&& out@.locals == self@.locals
                &&& out@.body.to_multiset() == self@.body.to_multiset()
                &&& ordered_ok(input_names(self@), out@.body)
            }),
            r matches Err(e) ==> ({
                ||| (e@ matches crate::error::ErrorV::StructuralViolation { node, name: _ }
                    && node == self@.name && !(all_named(self@.body) && resolved(
                    self@.body,
                    input_names(self@),
                )))
                ||| (e@ matches crate::error::ErrorV::DuplicateDefinition { node, name: _ }
                    && node == self@.name && !defined_names(self@.body).no_duplicates())
                ||| (e@ matches crate::error::ErrorV::CircularDependency { node, name }
                    && node == self@.name && reaches(graph_of(self@.body), name, name))
            }),
    {
        broadcast use vstd::seq_lib::group_to_multiset_ensures;

        let ghost n0 = self@;
        let ghost gv = graph_of(n0.body);
        let ghost iv = input_names(n0);
        let s = match Sequentializer::build(&self) {
            Ok(s) => s,
            Err(e) => {
                return Err(e);
            }
        };
        match check_resolved_node(&self) {
            Some(d) => {
                let err = Error::StructuralViolation { node: self.name.clone(), name: d };
                return Err(err);
            }
            None => {}
        }
        proof {
            lemma_graph_of_keys(n0.body);
        }
        let closed = s.propagate();
        let ghost cv = closed@;
        let closed = match closed.check() {
            Ok(c) => c,
            Err(name) => {
                proof {
                    let i = choose|i: int|
                        0 <= i < cv.len() && (#[trigger] cv[i]).1.contains(cv[i].0) && name@
                            == cv[i].0;
                    assert(reaches(gv, gv[i].0, gv[i].0));
                }
                let err = Error::CircularDependency { node: self.name.clone(), name };
                return Err(err);
            }
        };
        proof {
            assert(acyclic(gv)) by {
                assert forall|a: Seq<char>| !reaches(gv, a, a) by {
                    if reaches(gv, a, a) {
                        lemma_reaches_is_key(gv, a, a);
                        let i = choose|i: int| 0 <= i < gv.len() && (#[trigger] gv[i]).0 == a;
                        assert(!cv[i].1.contains(cv[i].0));
                        assert(cv[i].0 == gv[i].0);
                        assert(!reaches(gv, gv[i].0, a));
                    }
                }
            }
            assert(schedulable(n0));
        }
        let nast::Node { name, args_in, args_out, locals, body } = self;
        let mut remaining: Vec<nast::Equation> = body;
        let mut done: Vec<nast::Equation> = Vec::new();
        proof {
            let dv0 = done@.map_values(|e: nast::Equation| e@);
            let rv0 = remaining@.map_values(|e: nast::Equation| e@);
            assert(dv0 =~= Seq::<nast::EquationV>::empty());
            assert(rv0 =~= n0.body);
            assert(dv0 + rv0 =~= n0.body);
            assert(defined_names(dv0) =~= Seq::<Seq<char>>::empty());
            assert(defined_names(dv0) + defined_names(rv0) =~= defined_names(n0.body));
        }
        while remaining.len() > 0
            invariant
                gv == graph_of(n0.body),
                iv == input_names(n0),
                schedulable(n0),
                args_in@ == n0.args_in,
                (done@.map_values(|e: nast::Equation| e@) + remaining@.map_values(
                    |e: nast::Equation| e@,
                )).to_multiset() == n0.body.to_multiset(),
                (defined_names(done@.map_values(|e: nast::Equation| e@)) + defined_names(
                    remaining@.map_values(|e: nast::Equation| e@),
                )).to_multiset() == defined_names(n0.body).to_multiset(),
                ordered_ok(iv, done@.map_values(|e: nast::Equation| e@)),
            decreases remaining@.len(),
        {
            broadcast use vstd::seq_lib::group_to_multiset_ensures;

            let ghost dv = done@.map_values(|e: nast::Equation| e@);
            let ghost rv = remaining@.map_values(|e: nast::Equation| e@);
            match find_ready(&remaining, &args_in, &done) {
                Some(j) => {
                    let ghost eqv = rv[j as int];
                    let eq = remaining.remove(j);
                    let ghost pre_done = done@;
                    done.push(eq);
                    proof {
                        let dv2 = done@.map_values(|e: nast::Equation| e@);
                        let rv2 = remaining@.map_values(|e: nast::Equation| e@);
                        assert(dv2 =~= dv.push(eqv));
                        assert(rv2 =~= rv.remove(j as int));
                        // equation multiset is preserved
                        vstd::seq_lib::lemma_multiset_commutative(dv, rv);
                        vstd::seq_lib::lemma_multiset_commutative(dv2, rv2);
                        vstd::seq_lib::to_multiset_remove(rv, j as int);
                        assert(dv2.to_multiset() =~= dv.to_multiset().insert(eqv));
                        assert((dv2 + rv2).to_multiset() =~= (dv + rv).to_multiset());
                        // name multiset is preserved
                        assert(rv =~= rv.take(j as int) + (seq![eqv] + rv.skip(j as int + 1)));
                        lemma_defined_names_concat(
                            rv.take(j as int),
                            seq![eqv] + rv.skip(j as int + 1),
                        );
                        lemma_defined_names_concat(seq![eqv], rv.skip(j as int + 1));
                        assert(defined_names(seq![eqv]) =~= eqv.names) by {
                            let one = seq![eqv];
                            assert(one.drop_last() =~= Seq::<nast::EquationV>::empty());
                            assert(defined_names(one.drop_last()) =~= Seq::<Seq<char>>::empty());
                            assert(one.last() == eqv);
                            assert(defined_names(one) == defined_names(one.drop_last())
                                + one.last().names);
                        }
                        assert(rv2 =~= rv.take(j as int) + rv.skip(j as int + 1));
                        lemma_defined_names_concat(rv.take(j as int), rv.skip(j as int + 1));
                        assert(defined_names(dv2) =~= defined_names(dv) + eqv.names) by {
                            assert(dv2.drop_last() =~= dv);
                        }
                        let a = defined_names(dv);
                        let b = eqv.names;
                        let c = defined_names(rv.take(j as int));
                        let e = defined_names(rv.skip(j as int + 1));
                        assert(defined_names(rv) == c + (b + e));
                        assert(defined_names(rv2) == c + e);
                        vstd::seq_lib::lemma_multiset_commutative(a, b);
                        vstd::seq_lib::lemma_multiset_commutative(c, b + e);
                        vstd::seq_lib::lemma_multiset_commutative(b, e);
                        vstd::seq_lib::lemma_multiset_commutative(a + b, c + e);
                        vstd::seq_lib::lemma_multiset_commutative(c, e);
                        vstd::seq_lib::lemma_multiset_commutative(a, b + (c + e));
                        vstd::seq_lib::lemma_multiset_commutative(a, c + (b + e));
                        assert((defined_names(dv2) + defined_names(rv2)).to_multiset()
                            =~= (defined_names(dv) + defined_names(rv)).to_multiset());
                        // the order stays valid
                        assert(ordered_ok(iv, dv2)) by {
                            assert forall|i: int, d: Seq<char>|
                                0 <= i < dv2.len() && #[trigger] eq_deps(dv2[i]).contains(d)
                                    implies iv.contains(d) || exists|j3: int|
                                    0 <= j3 < i && (#[trigger] dv2[j3]).names.contains(d) by {
                                if i < dv.len() {
                                    assert(dv2[i] == dv[i]);
                                    assert(eq_deps(dv[i]).contains(d));
                                    if !iv.contains(d) {
                                        let j3 = choose|j3: int|
                                            0 <= j3 < i && (#[trigger] dv[j3]).names.contains(
                                                d,
                                            );
                                        assert(dv2[j3].names.contains(d));
                                    }
                                } else {
                                    assert(dv2[i] == eqv);
                                    assert(ready(eqv, iv, dv));
                                    if !iv.contains(d) {
                                        assert(defined_names(dv).contains(d));
                                        lemma_defined_names_iff(dv, d);
                                        let j3 = choose|j3: int|
                                            0 <= j3 < dv.len() && (#[trigger] dv[j3]
                                            ).names.contains(d);
                                        assert(dv2[j3].names.contains(d));
                                    }
                                }
                            }
                        }
                    }
                }
                None => {
                    proof {
                        assert(rv.len() > 0);
                        assert(rv.contains(rv[0]));
                        assert((dv + rv).contains(rv[0])) by {
                            assert((dv + rv)[dv.len() as int] == rv[0]);
                        }
                        assert((dv + rv).to_multiset().contains(rv[0]));
                        assert(n0.body.to_multiset().contains(rv[0]));
                        assert(n0.body.contains(rv[0]));
                        let bi = choose|bi: int| 0 <= bi < n0.body.len() && n0.body[bi] == rv[0];
                        assert(n0.body[bi].names.len() > 0);
                        lemma_find_ready(n0.body, iv, dv, rv, rv[0].names[0], 0);
                        let j2 = choose|j2: int|
                            0 <= j2 < rv.len() && ready(#[trigger] rv[j2], iv, dv);
                        assert(rv[j2] == remaining@[j2]@);
                        assert(false);
                    }
                    unreached()
                }
            }
        }
        let out = nast::Node { name, args_in, args_out, locals, body: done };
        proof {
            let dv = out.body@.map_values(|e: nast::Equation| e@);
            let rv = Seq::<nast::Equation>::empty().map_values(|e: nast::Equation| e@);
            assert(out@.body == dv);
            assert(dv + rv =~= dv);
            assert((dv + rv).to_multiset() == n0.body.to_multiset());
            assert(out@.name == n0.name);
        }
        Ok(out)
    }
}

fn check_resolved_node(node: &nast::Node) -> (r: Option<String>)
    ensures
        (r is None <==> resolved(node@.body, input_names(node@))),
        r is Some ==> !resolved(node@.body, input_names(node@)),
{
    let ghost bv = node@.body;
    let ghost iv = input_names(node@);
    let mut i: usize = 0;
    while i < node.body.len()
        invariant
            i <= node.body.len(),
            bv == node@.body,
            iv == input_names(node@),
            bv.len() == node.body@.len(),
            forall|k: int, d: Seq<char>|
                0 <= k < i && #[trigger] eq_deps(bv[k]).contains(d) ==> iv.contains(d)
                    || defined_names(bv).contains(d),
        decreases node.body@.len() - i,
    {
        proof {
            assert(bv[i as int] == node.body@[i as int]@);
        }
        let ds = node.body[i].dependencies();
        let ghost dsv = names_view(ds@);
        let mut j: usize = 0;
        while j < ds.len()
            invariant
                j <= ds.len(),
                i < node.body.len(),
                bv == node@.body,
                iv == input_names(node@),
                bv.len() == node.body@.len(),
                dsv == names_view(ds@),
                dsv.len() == ds@.len(),
                dsv == eq_deps(bv[i as int]),
                forall|k: int| 0 <= k < j ==> iv.contains(#[trigger] dsv[k]) || defined_names(
                    bv,
                ).contains(dsv[k]),
            decreases ds@.len() - j,
        {
            proof {
                assert(dsv[j as int] == ds@[j as int]@);
            }
            if !arglist_contains(&node.args_in, &ds[j]) {
                if !any_eq_defines(&node.body, &ds[j]) {
                    let d = ds[j].clone();
                    proof {
                        assert(eq_deps(bv[i as int]).contains(dsv[j as int]));
                        assert(!iv.contains(dsv[j as int]));
                        assert(!defined_names(bv).contains(dsv[j as int]));
                    }
                    return Some(d);
                }
            }
            j = j + 1;
        }
        proof {
            assert forall|d: Seq<char>| #[trigger] eq_deps(bv[i as int]).contains(d) implies
                iv.contains(d) || defined_names(bv).contains(d) by {
                let k = choose|k: int| 0 <= k < dsv.len() && dsv[k] == d;
            }
        }
        i = i + 1;
    }
    None
}

} // verus!
