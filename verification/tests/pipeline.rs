//! Normalization and scheduling tests.

use mlustre::ast::{ArgList, Ast, Binop, Const, Equation, Expr, Locals, Node, Type};
use mlustre::error::Error;
use mlustre::nast;
use mlustre::normalizer::Normalizer;
use mlustre::sequentializer::Sequentializer;

fn ident(n: &str) -> Expr {
    Expr::Ident(n.to_string())
}

fn lit(i: i32) -> Expr {
    Expr::Const(Const::Int(i))
}

fn plus(a: Expr, b: Expr) -> Expr {
    Expr::Binop(Binop::Plus, Box::new(a), Box::new(b))
}

fn eq(names: &[&str], body: Expr) -> Equation {
    Equation {
        names: names.iter().map(|n| n.to_string()).collect(),
        body,
    }
}

fn node(name: &str, inputs: &[&str], outputs: &[&str], body: Vec<Equation>) -> Node {
    Node {
        name: name.to_string(),
        args_in: ArgList(inputs.iter().map(|n| (n.to_string(), Type::Int)).collect()),
        args_out: ArgList(outputs.iter().map(|n| (n.to_string(), Type::Int)).collect()),
        locals: Locals(ArgList(Vec::new())),
        body,
    }
}

fn norm(n: &Node) -> nast::Node {
    let mut nz = Normalizer::new();
    n.normalize(&mut nz).expect("normalization failed")
}

fn names_of(eq: &nast::Equation) -> Vec<String> {
    eq.names.clone()
}

#[test]
fn nested_call_hoisted() {
    // expr = f(f(42)); becomes tmp_0 = f(42); expr = f(tmp_0);
    let n = node(
        "main",
        &[],
        &["expr"],
        vec![eq(
            &["expr"],
            Expr::Call {
                name: "f".to_string(),
                args: vec![Expr::Call {
                    name: "f".to_string(),
                    args: vec![lit(42)],
                }],
            },
        )],
    );
    let out = norm(&n);
    assert_eq!(out.body.len(), 2);
    assert_eq!(names_of(&out.body[0]), vec!["expr".to_string()]);
    match &out.body[0].body {
        nast::Expr::Call { name, args } => {
            assert_eq!(name, "f");
            assert_eq!(
                args,
                &vec![nast::Bexpr::Atom(nast::Atom::Ident("tmp_0".to_string()))]
            );
        }
        other => panic!("unexpected body {other:?}"),
    }
    assert_eq!(names_of(&out.body[1]), vec!["tmp_0".to_string()]);
    match &out.body[1].body {
        nast::Expr::Call { name, args } => {
            assert_eq!(name, "f");
            assert_eq!(
                args,
                &vec![nast::Bexpr::Atom(nast::Atom::Const(Const::Int(42)))]
            );
        }
        other => panic!("unexpected body {other:?}"),
    }
    // the synthesized name is registered as a unit-typed local
    assert_eq!(out.locals.0 .0, vec![("tmp_0".to_string(), Type::Unit)]);
}

#[test]
fn normalization_idempotent_in_shape() {
    // a body already in normalized shape mints no temporary at all
    let n = node(
        "plain",
        &["a", "b"],
        &["x"],
        vec![
            eq(&["x"], plus(ident("a"), ident("b"))),
            eq(&["y"], Expr::Fby(Box::new(lit(0)), Box::new(ident("x")))),
            eq(
                &["z"],
                Expr::Call {
                    name: "f".to_string(),
                    args: vec![ident("a")],
                },
            ),
        ],
    );
    let mut nz = Normalizer::new();
    let out = n.normalize(&mut nz).expect("normalization failed");
    assert_eq!(nz.counter, 0);
    assert_eq!(out.body.len(), 3);
}

#[test]
fn fresh_names_across_nodes() {
    // one counter threads the whole unit: temporaries never collide
    let nested = |konst: i32| Expr::Call {
        name: "f".to_string(),
        args: vec![Expr::Call {
            name: "g".to_string(),
            args: vec![lit(konst)],
        }],
    };
    let unit = Ast(vec![
        node("one", &[], &["x"], vec![eq(&["x"], nested(1))]),
        node("two", &[], &["y"], vec![eq(&["y"], nested(2))]),
    ]);
    let mut nz = Normalizer::new();
    let out = unit.normalize(&mut nz).expect("normalization failed");
    let mut tmps: Vec<String> = Vec::new();
    for n in &out {
        for e in &n.body {
            for name in &e.names {
                if name.starts_with("tmp_") {
                    tmps.push(name.clone());
                }
            }
        }
    }
    assert_eq!(tmps, vec!["tmp_0".to_string(), "tmp_1".to_string()]);
    assert_eq!(nz.counter, 2);
}

#[test]
fn fby_init_must_be_constant() {
    let n = node(
        "bad",
        &["a"],
        &["x"],
        vec![eq(&["x"], Expr::Fby(Box::new(ident("a")), Box::new(ident("x"))))],
    );
    let mut nz = Normalizer::new();
    match n.normalize(&mut nz) {
        Err(Error::StructuralViolation { node, name }) => {
            assert_eq!(node, "bad");
            assert_eq!(name, "x");
        }
        other => panic!("expected a structural violation, got {other:?}"),
    }
}

#[test]
fn scheduling_orders_dependencies() {
    let n = node(
        "chain",
        &["a"],
        &["c"],
        vec![
            eq(&["c"], plus(ident("b"), ident("b"))),
            eq(&["b"], plus(ident("a"), lit(1))),
        ],
    );
    let out = norm(&n).order().expect("scheduling failed");
    assert_eq!(names_of(&out.body[0]), vec!["b".to_string()]);
    assert_eq!(names_of(&out.body[1]), vec!["c".to_string()]);
}

#[test]
fn cycle_rejected() {
    // a = b + 1; b = a + 1; has no valid order
    let n = node(
        "loopy",
        &[],
        &["a"],
        vec![
            eq(&["a"], plus(ident("b"), lit(1))),
            eq(&["b"], plus(ident("a"), lit(1))),
        ],
    );
    match norm(&n).order() {
        Err(Error::CircularDependency { node, name }) => {
            assert_eq!(node, "loopy");
            assert!(name == "a" || name == "b");
        }
        other => panic!("expected a circular dependency, got {other:?}"),
    }
}

#[test]
fn fby_breaks_cycle() {
    // a = 0 fby b; b = a + 1; is a legitimate accumulator, not a cycle
    let n = node(
        "acc",
        &[],
        &["b"],
        vec![
            eq(&["a"], Expr::Fby(Box::new(lit(0)), Box::new(ident("b")))),
            eq(&["b"], plus(ident("a"), lit(1))),
        ],
    );
    let out = norm(&n).order().expect("the followed-by must break the cycle");
    assert_eq!(out.body.len(), 2);
    assert_eq!(names_of(&out.body[0]), vec!["a".to_string()]);
    assert_eq!(names_of(&out.body[1]), vec!["b".to_string()]);
}

#[test]
fn duplicate_definition_rejected() {
    let n = node(
        "twice",
        &["a"],
        &["x"],
        vec![eq(&["x"], ident("a")), eq(&["x"], plus(ident("a"), lit(1)))],
    );
    match norm(&n).order() {
        Err(Error::DuplicateDefinition { node, name }) => {
            assert_eq!(node, "twice");
            assert_eq!(name, "x");
        }
        other => panic!("expected a duplicate definition, got {other:?}"),
    }
}

#[test]
fn unresolved_dependency_rejected() {
    let n = node("dangling", &["a"], &["x"], vec![eq(&["x"], ident("ghostly"))]);
    match norm(&n).order() {
        Err(Error::StructuralViolation { node, name }) => {
            assert_eq!(node, "dangling");
            assert_eq!(name, "ghostly");
        }
        other => panic!("expected a structural violation, got {other:?}"),
    }
}

#[test]
fn tuple_equation_is_atomic() {
    // (x, y) = swap(a, b); every reader of x or y follows the whole tuple
    let n = node(
        "caller",
        &["a", "b"],
        &["u", "v"],
        vec![
            eq(&["u"], plus(ident("x"), lit(1))),
            eq(
                &["x", "y"],
                Expr::Call {
                    name: "swap".to_string(),
                    args: vec![ident("a"), ident("b")],
                },
            ),
            eq(&["v"], plus(ident("y"), lit(1))),
        ],
    );
    let out = norm(&n).order().expect("scheduling failed");
    let pos = |want: &str| {
        out.body
            .iter()
            .position(|e| e.names.iter().any(|n| n == want))
            .unwrap()
    };
    assert_eq!(pos("x"), pos("y"));
    assert!(pos("x") < pos("u"));
    assert!(pos("y") < pos("v"));
}

#[test]
fn dependencies_ignore_followed_by() {
    let e = eq(&["a"], Expr::Fby(Box::new(lit(0)), Box::new(ident("b"))));
    let mut nz = Normalizer::new();
    let ne = e.normalize(&mut nz).expect("normalization failed");
    assert_eq!(ne.dependencies(), Vec::<String>::new());
    let e2 = eq(&["c"], plus(ident("a"), ident("b")));
    let ne2 = e2.normalize(&mut nz).expect("normalization failed");
    assert_eq!(ne2.dependencies(), vec!["a".to_string(), "b".to_string()]);
}

#[test]
fn sequentializer_tables() {
    let n = node(
        "tbl",
        &["a"],
        &["c"],
        vec![
            eq(&["b"], plus(ident("a"), lit(1))),
            eq(&["c"], plus(ident("b"), lit(1))),
        ],
    );
    let s = Sequentializer::build(&norm(&n)).expect("build failed");
    assert_eq!(s.dependencies.len(), 2);
    assert_eq!(s.dependencies[0].0, "b");
    assert_eq!(s.dependencies[0].1, vec!["a".to_string()]);
    assert_eq!(s.dependencies[1].0, "c");
    assert_eq!(s.dependencies[1].1, vec!["b".to_string()]);
    let closed = s.propagate();
    // after closure, c depends on b and transitively on a
    let c_deps = &closed.dependencies[1].1;
    assert!(c_deps.contains(&"b".to_string()));
    assert!(c_deps.contains(&"a".to_string()));
    assert!(closed.check().is_ok());
    let empty = Sequentializer::new();
    assert_eq!(empty.dependencies.len(), 0);
}

#[test]
fn budget_counts_hoists() {
    let unit = Ast(vec![node(
        "main",
        &[],
        &["x"],
        vec![eq(
            &["x"],
            Expr::Call {
                name: "f".to_string(),
                args: vec![Expr::Call {
                    name: "g".to_string(),
                    args: vec![lit(0)],
                }],
            },
        )],
    )]);
    assert_eq!(unit.hoist_budget(), 2);
}

fn raw_of_bexpr(b: &nast::Bexpr) -> Expr {
    match b {
        nast::Bexpr::Atom(nast::Atom::Ident(n)) => Expr::Ident(n.clone()),
        nast::Bexpr::Atom(nast::Atom::Const(c)) => Expr::Const(c.clone()),
        nast::Bexpr::Unop(op, sub) => Expr::Unop(*op, Box::new(raw_of_bexpr(sub))),
        nast::Bexpr::Binop(op, l, r) => {
            Expr::Binop(*op, Box::new(raw_of_bexpr(l)), Box::new(raw_of_bexpr(r)))
        }
        nast::Bexpr::If { condition, if_body, else_body } => Expr::If {
            condition: Box::new(raw_of_bexpr(condition)),
            if_body: Box::new(raw_of_bexpr(if_body)),
            else_body: Box::new(raw_of_bexpr(else_body)),
        },
        nast::Bexpr::Tuple(es) => Expr::Tuple(es.iter().map(raw_of_bexpr).collect()),
    }
}

fn raw_of_normalized(e: &nast::Expr) -> Expr {
    match e {
        nast::Expr::Bexpr(b) => raw_of_bexpr(b),
        nast::Expr::Call { name, args } => Expr::Call {
            name: name.clone(),
            args: args.iter().map(raw_of_bexpr).collect(),
        },
        nast::Expr::Fby(init, next) => {
            let inits: Vec<Expr> = init
                .iter()
                .map(|a| match a {
                    nast::Atom::Const(c) => Expr::Const(c.clone()),
                    nast::Atom::Ident(n) => Expr::Ident(n.clone()),
                })
                .collect();
            let nexts: Vec<Expr> = next.iter().map(raw_of_bexpr).collect();
            let one = |mut v: Vec<Expr>| {
                if v.len() == 1 { v.remove(0) } else { Expr::Tuple(v) }
            };
            Expr::Fby(Box::new(one(inits)), Box::new(one(nexts)))
        }
    }
}

#[test]
fn renormalizing_output_adds_nothing() {
    // run a nested body through the normalizer, write its output back as a
    // raw body, and normalize again: no new temporary appears
    let n = node(
        "nested",
        &["a"],
        &["x"],
        vec![eq(
            &["x"],
            plus(
                Expr::Call {
                    name: "f".to_string(),
                    args: vec![Expr::Fby(Box::new(lit(0)), Box::new(ident("a")))],
                },
                lit(1),
            ),
        )],
    );
    let mut nz = Normalizer::new();
    let once = n.normalize(&mut nz).expect("normalization failed");
    let first_count = nz.counter;
    assert!(first_count > 0);
    let replay = Node {
        name: once.name.clone(),
        args_in: once.args_in.clone(),
        args_out: once.args_out.clone(),
        locals: once.locals.clone(),
        body: once
            .body
            .iter()
            .map(|e| Equation { names: e.names.clone(), body: raw_of_normalized(&e.body) })
            .collect(),
    };
    let twice = replay.normalize(&mut nz).expect("normalization failed");
    assert_eq!(nz.counter, first_count);
    assert_eq!(twice.body.len(), once.body.len());
}
