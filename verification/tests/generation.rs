//! Memory planning, step generation and whole-pipeline tests, including a
//! tiny interpreter for the emitted step descriptions.

use std::collections::HashMap;

use mlustre::ast::{ArgList, Ast, Binop, Const, Equation, Expr, Locals, Node, Type};
use mlustre::codegen::{compile, CompiledNode, MemField, RVal, Stmt};
use mlustre::error::Error;
use mlustre::nast;

fn ident(n: &str) -> Expr {
    Expr::Ident(n.to_string())
}

fn lit(i: i32) -> Expr {
    Expr::Const(Const::Int(i))
}

fn plus(a: Expr, b: Expr) -> Expr {
    Expr::Binop(Binop::Plus, Box::new(a), Box::new(b))
}

fn eq(names: &[&str], body: Expr) -> Equation {
    Equation {
        names: names.iter().map(|n| n.to_string()).collect(),
        body,
    }
}

fn node(name: &str, inputs: &[&str], outputs: &[&str], body: Vec<Equation>) -> Node {
    Node {
        name: name.to_string(),
        args_in: ArgList(inputs.iter().map(|n| (n.to_string(), Type::Int)).collect()),
        args_out: ArgList(outputs.iter().map(|n| (n.to_string(), Type::Int)).collect()),
        locals: Locals(ArgList(Vec::new())),
        body,
    }
}

// A miniature evaluator over integer step procedures, enough to watch the
// compiled state machines run.

#[derive(Clone, Debug, PartialEq)]
enum Val {
    Int(i32),
    Tuple(Vec<Val>),
    Nested(HashMap<String, Val>),
}

fn init_mem(unit: &[CompiledNode], names: &[String], who: &str) -> HashMap<String, Val> {
    let idx = names.iter().position(|n| n == who).unwrap();
    let mut m = HashMap::new();
    if let Some(mem) = &unit[idx].memory {
        for (field, f) in &mem.fields {
            match f {
                MemField::Fby { init, .. } => {
                    let vals: Vec<Val> = init
                        .iter()
                        .map(|c| match c {
                            Const::Int(i) => Val::Int(*i),
                            other => panic!("non-integer seed {other:?}"),
                        })
                        .collect();
                    let v = if vals.len() == 1 {
                        vals.into_iter().next().unwrap()
                    } else {
                        Val::Tuple(vals)
                    };
                    m.insert(field.clone(), v);
                }
                MemField::Callee { callee, .. } => {
                    m.insert(field.clone(), Val::Nested(init_mem(unit, names, callee)));
                }
            }
        }
    }
    m
}

fn eval_bexpr(b: &nast::Bexpr, env: &HashMap<String, Val>) -> Val {
    match b {
        nast::Bexpr::Atom(nast::Atom::Ident(n)) => env.get(n).cloned().unwrap(),
        nast::Bexpr::Atom(nast::Atom::Const(Const::Int(i))) => Val::Int(*i),
        nast::Bexpr::Atom(nast::Atom::Const(other)) => panic!("constant {other:?}"),
        nast::Bexpr::Binop(Binop::Plus, l, r) => {
            match (eval_bexpr(l, env), eval_bexpr(r, env)) {
                (Val::Int(a), Val::Int(b)) => Val::Int(a + b),
                other => panic!("ill-typed sum {other:?}"),
            }
        }
        other => panic!("operator not needed by these tests: {other:?}"),
    }
}

fn run_step(
    unit: &[CompiledNode],
    names: &[String],
    who: &str,
    mem: &mut HashMap<String, Val>,
    inputs: &[Val],
) -> Vec<Val> {
    let idx = names.iter().position(|n| n == who).unwrap();
    let step = &unit[idx].step;
    let mut env: HashMap<String, Val> = HashMap::new();
    for (i, (p, _)) in step.params.iter().enumerate() {
        env.insert(p.clone(), inputs[i].clone());
    }
    for stmt in &step.body {
        match stmt {
            Stmt::Bind { names: dest, value } => {
                let v = match value {
                    RVal::Bexpr(b) => eval_bexpr(b, &env),
                    RVal::MemRead { field } => mem.get(field).cloned().unwrap(),
                    RVal::Call { callee, mem_field, args } => {
                        let argv: Vec<Val> =
                            args.iter().map(|a| eval_bexpr(a, &env)).collect();
                        let outs = match mem_field {
                            Some(field) => {
                                let nested = match mem.get_mut(field).unwrap() {
                                    Val::Nested(n) => n,
                                    other => panic!("not a nested state: {other:?}"),
                                };
                                run_step(unit, names, callee, nested, &argv)
                            }
                            None => {
                                let mut fresh = HashMap::new();
                                run_step(unit, names, callee, &mut fresh, &argv)
                            }
                        };
                        if outs.len() == 1 {
                            outs.into_iter().next().unwrap()
                        } else {
                            Val::Tuple(outs)
                        }
                    }
                };
                if dest.len() == 1 {
                    env.insert(dest[0].clone(), v);
                } else {
                    match v {
                        Val::Tuple(vs) => {
                            for (n, v) in dest.iter().zip(vs) {
                                env.insert(n.clone(), v);
                            }
                        }
                        other => panic!("expected a tuple, got {other:?}"),
                    }
                }
            }
            Stmt::Update { field, next } => {
                let vals: Vec<Val> = next.iter().map(|b| eval_bexpr(b, &env)).collect();
                let v = if vals.len() == 1 {
                    vals.into_iter().next().unwrap()
                } else {
                    Val::Tuple(vals)
                };
                mem.insert(field.clone(), v);
            }
        }
    }
    step.results
        .iter()
        .map(|(n, _)| env.get(n).cloned().unwrap())
        .collect()
}

#[test]
fn counter_memory() {
    // c = 0 fby c + 1: one slot, seeded with 0, refreshed with c + 1
    let unit = Ast(vec![node(
        "counter",
        &[],
        &["c"],
        vec![eq(
            &["c"],
            Expr::Fby(Box::new(lit(0)), Box::new(plus(ident("c"), lit(1)))),
        )],
    )]);
    let out = compile(&unit).expect("compilation failed");
    assert_eq!(out.len(), 1);
    let mem = out[0].memory.as_ref().expect("the counter must be stateful");
    assert_eq!(mem.name, "MemCounter");
    assert_eq!(mem.fields.len(), 1);
    assert_eq!(mem.fields[0].0, "c");
    match &mem.fields[0].1 {
        MemField::Fby { typ, init, next } => {
            assert_eq!(typ, &Type::Int);
            assert_eq!(init, &vec![Const::Int(0)]);
            assert_eq!(
                next,
                &vec![nast::Bexpr::Binop(
                    Binop::Plus,
                    Box::new(nast::Bexpr::Atom(nast::Atom::Ident("c".to_string()))),
                    Box::new(nast::Bexpr::Atom(nast::Atom::Const(Const::Int(1)))),
                )]
            );
        }
        other => panic!("expected a followed-by slot, got {other:?}"),
    }
    // the step reads the slot before the update refreshes it
    let step = &out[0].step;
    assert_eq!(step.mem.as_deref(), Some("MemCounter"));
    assert_eq!(step.body.len(), 2);
    match &step.body[0] {
        Stmt::Bind { names, value } => {
            assert_eq!(names, &vec!["c".to_string()]);
            assert_eq!(value, &RVal::MemRead { field: "c".to_string() });
        }
        other => panic!("expected a bind, got {other:?}"),
    }
    assert!(matches!(&step.body[1], Stmt::Update { field, .. } if field == "c"));
}

#[test]
fn counter_runs() {
    // the generated step, called repeatedly, yields 0, 1, 2, 3, ...
    let unit = Ast(vec![node(
        "counter",
        &[],
        &["c"],
        vec![eq(
            &["c"],
            Expr::Fby(Box::new(lit(0)), Box::new(plus(ident("c"), lit(1)))),
        )]),
    ]);
    let out = compile(&unit).expect("compilation failed");
    let names = vec!["counter".to_string()];
    let mut mem = init_mem(&out, &names, "counter");
    let mut seen = Vec::new();
    for _ in 0..4 {
        let outs = run_step(&out, &names, "counter", &mut mem, &[]);
        seen.push(outs[0].clone());
    }
    assert_eq!(
        seen,
        vec![Val::Int(0), Val::Int(1), Val::Int(2), Val::Int(3)]
    );
}

#[test]
fn call_threading() {
    // outer calls the stateful inner: one nested slot, threaded by reference
    let inner = node(
        "inner",
        &[],
        &["i"],
        vec![eq(
            &["i"],
            Expr::Fby(Box::new(lit(0)), Box::new(plus(ident("i"), lit(1)))),
        )],
    );
    let outer = node(
        "outer",
        &[],
        &["o"],
        vec![eq(
            &["o"],
            Expr::Call { name: "inner".to_string(), args: vec![] },
        )],
    );
    let unit = Ast(vec![inner, outer]);
    let out = compile(&unit).expect("compilation failed");
    let omem = out[1].memory.as_ref().expect("the caller must be stateful");
    assert_eq!(omem.name, "MemOuter");
    assert_eq!(omem.fields.len(), 1);
    assert_eq!(omem.fields[0].0, "o");
    assert_eq!(
        omem.fields[0].1,
        MemField::Callee { callee: "inner".to_string(), mem_name: "MemInner".to_string() }
    );
    // the generated call threads exactly that field
    match &out[1].step.body[0] {
        Stmt::Bind { value: RVal::Call { callee, mem_field, args }, .. } => {
            assert_eq!(callee, "inner");
            assert_eq!(mem_field.as_deref(), Some("o"));
            assert!(args.is_empty());
        }
        other => panic!("expected a call bind, got {other:?}"),
    }
    // state survives across the caller's steps: 0 then 1, never fresh
    let names = vec!["inner".to_string(), "outer".to_string()];
    let mut mem = init_mem(&out, &names, "outer");
    let a = run_step(&out, &names, "outer", &mut mem, &[]);
    let b = run_step(&out, &names, "outer", &mut mem, &[]);
    assert_eq!(a, vec![Val::Int(0)]);
    assert_eq!(b, vec![Val::Int(1)]);
}

#[test]
fn stateless_nodes_have_no_memory() {
    let double = node(
        "double",
        &["a"],
        &["d"],
        vec![eq(&["d"], plus(ident("a"), ident("a")))],
    );
    let caller = node(
        "caller",
        &["a"],
        &["r"],
        vec![eq(
            &["r"],
            Expr::Call { name: "double".to_string(), args: vec![ident("a")] },
        )],
    );
    let unit = Ast(vec![double, caller]);
    let out = compile(&unit).expect("compilation failed");
    assert!(out[0].memory.is_none());
    assert!(out[1].memory.is_none());
    assert_eq!(out[0].step.mem, None);
    // a stateless callee gets no memory argument
    match &out[1].step.body[0] {
        Stmt::Bind { value: RVal::Call { mem_field, .. }, .. } => {
            assert_eq!(mem_field, &None);
        }
        other => panic!("expected a call bind, got {other:?}"),
    }
    let names = vec!["double".to_string(), "caller".to_string()];
    let mut mem = init_mem(&out, &names, "caller");
    let r = run_step(&out, &names, "caller", &mut mem, &[Val::Int(21)]);
    assert_eq!(r, vec![Val::Int(42)]);
}

#[test]
fn tuple_memory_field_name() {
    // a tuple-destructured followed-by owns one flat slot named x_y
    let unit = Ast(vec![node(
        "pair",
        &[],
        &["x", "y"],
        vec![eq(
            &["x", "y"],
            Expr::Fby(
                Box::new(Expr::Tuple(vec![lit(0), lit(1)])),
                Box::new(Expr::Tuple(vec![ident("y"), ident("x")])),
            ),
        )],
    )]);
    let out = compile(&unit).expect("compilation failed");
    let mem = out[0].memory.as_ref().unwrap();
    assert_eq!(mem.fields.len(), 1);
    assert_eq!(mem.fields[0].0, "x_y");
    match &mem.fields[0].1 {
        MemField::Fby { typ, init, .. } => {
            assert_eq!(typ, &Type::Tuple(vec![Type::Int, Type::Int]));
            assert_eq!(init, &vec![Const::Int(0), Const::Int(1)]);
        }
        other => panic!("expected a followed-by slot, got {other:?}"),
    }
}

#[test]
fn unknown_callee_rejected() {
    let unit = Ast(vec![node(
        "main",
        &[],
        &["x"],
        vec![eq(
            &["x"],
            Expr::Call { name: "nowhere".to_string(), args: vec![] },
        )],
    )]);
    match compile(&unit) {
        Err(Error::UnknownCallee { node, callee }) => {
            assert_eq!(node, "main");
            assert_eq!(callee, "nowhere");
        }
        other => panic!("expected an unknown callee, got {other:?}"),
    }
}

#[test]
fn forward_and_self_calls_rejected() {
    // a node may only call nodes declared earlier in the file
    let first = node(
        "first",
        &[],
        &["x"],
        vec![eq(
            &["x"],
            Expr::Call { name: "second".to_string(), args: vec![] },
        )],
    );
    let second = node("second", &[], &["y"], vec![eq(&["y"], lit(1))]);
    match compile(&Ast(vec![first, second])) {
        Err(Error::UnsupportedRecursion { node, callee }) => {
            assert_eq!(node, "first");
            assert_eq!(callee, "second");
        }
        other => panic!("expected unsupported recursion, got {other:?}"),
    }
    let selfish = node(
        "selfish",
        &[],
        &["x"],
        vec![eq(
            &["x"],
            Expr::Call { name: "selfish".to_string(), args: vec![] },
        )],
    );
    match compile(&Ast(vec![selfish])) {
        Err(Error::UnsupportedRecursion { node, callee }) => {
            assert_eq!(node, "selfish");
            assert_eq!(callee, "selfish");
        }
        other => panic!("expected unsupported recursion, got {other:?}"),
    }
}

#[test]
fn builtins_are_stateless_callees() {
    let unit = Ast(vec![node(
        "main",
        &["a"],
        &["x"],
        vec![eq(
            &["x"],
            Expr::Call { name: "print".to_string(), args: vec![ident("a")] },
        )],
    )]);
    let out = compile(&unit).expect("builtins must resolve");
    assert!(out[0].memory.is_none());
}

#[test]
fn hoisted_state_compiles() {
    // a followed-by buried in an operand is hoisted and still owns a slot
    let unit = Ast(vec![node(
        "main",
        &[],
        &["x"],
        vec![eq(
            &["x"],
            plus(
                Expr::Fby(Box::new(lit(0)), Box::new(plus(ident("x"), lit(1)))),
                lit(10),
            ),
        )]),
    ]);
    let out = compile(&unit).expect("compilation failed");
    let mem = out[0].memory.as_ref().unwrap();
    assert_eq!(mem.fields.len(), 1);
    assert_eq!(mem.fields[0].0, "tmp_0");
    let names = vec!["main".to_string()];
    let mut m = init_mem(&out, &names, "main");
    let a = run_step(&out, &names, "main", &mut m, &[]);
    let b = run_step(&out, &names, "main", &mut m, &[]);
    let c = run_step(&out, &names, "main", &mut m, &[]);
    // x = tmp + 10 while tmp counts 0, 11, 22, ... (tmp's next side reads x)
    assert_eq!(a, vec![Val::Int(10)]);
    assert_eq!(b, vec![Val::Int(21)]);
    assert_eq!(c, vec![Val::Int(32)]);
}
