//! Rendering and token tests.

use mlustre::ast::{Arg, ArgList, Binop, Const, Type, Unop};
use mlustre::nast::{Atom, Bexpr};

#[test]
fn display() {
    assert_eq!(Type::Unit.to_string(), "()");
    assert_eq!(Type::Bool.to_string(), "bool");
    assert_eq!(Type::Int.to_string(), "i32");
    assert_eq!(Type::Float.to_string(), "f32");
    assert_eq!(Type::String.to_string(), "String");
    assert_eq!(
        Type::Tuple(vec![
            Type::Unit,
            Type::String,
            Type::Tuple(vec![Type::Float, Type::Int])
        ])
        .to_string(),
        "((),String,(f32,i32))"
    );
}

#[test]
fn const_display() {
    assert_eq!(Const::Unit.to_string(), "()");
    assert_eq!(Const::Bool(true).to_string(), "true");
    assert_eq!(Const::Bool(false).to_string(), "false");
    assert_eq!(Const::Int(0).to_string(), "0");
    assert_eq!(Const::Int(42).to_string(), "42");
    assert_eq!(Const::Int(-17).to_string(), "-17");
    assert_eq!(Const::Int(i32::MIN).to_string(), "-2147483648");
    assert_eq!(Const::Float("0.15".to_string()).to_string(), "0.15");
    assert_eq!(Const::String("\"hi\"".to_string()).to_string(), "\"hi\"");
}

#[test]
fn operator_strings() {
    assert_eq!(Unop::Minus.as_str(), "-");
    assert_eq!(Unop::MinusDot.as_str(), "-");
    assert_eq!(Unop::Not.as_str(), "!");
    assert_eq!(Binop::Plus.as_str(), "+");
    assert_eq!(Binop::PlusDot.as_str(), "+");
    assert_eq!(Binop::Eq.as_str(), "==");
    assert_eq!(Binop::And.as_str(), "&&");
    assert_eq!(Binop::Or.as_str(), "||");
    assert_eq!(Binop::Leq.as_str(), "<=");
}

#[test]
fn operator_tokens() {
    assert_eq!(Unop::from_str("-"), Some(Unop::Minus));
    assert_eq!(Unop::from_str("-."), Some(Unop::MinusDot));
    assert_eq!(Unop::from_str("not"), Some(Unop::Not));
    assert_eq!(Unop::from_str("!"), None);
    assert_eq!(Binop::from_str("+"), Some(Binop::Plus));
    assert_eq!(Binop::from_str("*."), Some(Binop::MultDot));
    assert_eq!(Binop::from_str("="), Some(Binop::Eq));
    assert_eq!(Binop::from_str("and"), Some(Binop::And));
    assert_eq!(Binop::from_str("fby"), None);
    assert_eq!(Type::from_str("int"), Some(Type::Int));
    assert_eq!(Type::from_str("unit"), Some(Type::Unit));
    assert_eq!(Type::from_str("i32"), None);
}

#[test]
fn bexpr_display() {
    let a = Bexpr::Atom(Atom::Ident("a".to_string()));
    let b = Bexpr::Atom(Atom::Ident("b".to_string()));
    let sum = Bexpr::Binop(Binop::Plus, Box::new(a), Box::new(b));
    assert_eq!(sum.to_string(), "a + b");
    let neg = Bexpr::Unop(Unop::Minus, Box::new(Bexpr::Atom(Atom::Const(Const::Int(3)))));
    assert_eq!(neg.to_string(), "- 3");
    let cond = Bexpr::If {
        condition: Box::new(Bexpr::Atom(Atom::Ident("c".to_string()))),
        if_body: Box::new(Bexpr::Atom(Atom::Const(Const::Int(1)))),
        else_body: Box::new(Bexpr::Atom(Atom::Const(Const::Int(2)))),
    };
    assert_eq!(cond.to_string(), "if c { 1 } else { 2 }");
    let tup = Bexpr::Tuple(vec![
        Bexpr::Atom(Atom::Ident("x".to_string())),
        Bexpr::Atom(Atom::Ident("y".to_string())),
    ]);
    assert_eq!(tup.to_string(), "(x,y)");
}

#[test]
fn synthesized_names() {
    assert_eq!(mlustre::text::make_tmp_name(0), "tmp_0");
    assert_eq!(mlustre::text::make_tmp_name(7), "tmp_7");
    assert_eq!(mlustre::text::make_tmp_name(1234), "tmp_1234");
    assert_eq!(mlustre::text::make_mem_name(&"counter".to_string()), "MemCounter");
    assert_eq!(mlustre::text::make_mem_name(&"x".to_string()), "MemX");
    assert_eq!(mlustre::text::make_mem_name(&"".to_string()), "Mem");
    assert_eq!(mlustre::text::make_mem_name(&"Upper".to_string()), "MemUpper");
}

#[test]
fn error_messages() {
    let e = mlustre::error::Error::DuplicateDefinition {
        node: "n".to_string(),
        name: "x".to_string(),
    };
    assert_eq!(e.message(), "multiple equations define `x` in node `n`");
    let e = mlustre::error::Error::CircularDependency {
        node: "n".to_string(),
        name: "a".to_string(),
    };
    assert_eq!(e.message(), "circular dependency through `a` in node `n`");
    let e = mlustre::error::Error::UnknownCallee {
        node: "n".to_string(),
        callee: "f".to_string(),
    };
    assert_eq!(e.message(), "unknown callee `f` in node `n`");
    let e = mlustre::error::Error::StructuralViolation {
        node: "n".to_string(),
        name: "x".to_string(),
    };
    assert_eq!(e.message(), "malformed equation for `x` in node `n`");
    let e = mlustre::error::Error::UnsupportedRecursion {
        node: "n".to_string(),
        callee: "g".to_string(),
    };
    assert_eq!(
        e.message(),
        "call to `g` before its declaration in node `n`"
    );
}

#[test]
fn const_types() {
    assert_eq!(Const::Unit.as_type(), Type::Unit);
    assert_eq!(Const::Bool(true).as_type(), Type::Bool);
    assert_eq!(Const::Int(3).as_type(), Type::Int);
    assert_eq!(Const::Float("1.5".to_string()).as_type(), Type::Float);
    assert_eq!(Const::String("\"s\"".to_string()).as_type(), Type::String);
}

#[test]
fn argument_lists() {
    let mut l = ArgList::new();
    assert_eq!(l.len(), 0);
    l.insert_arg(Arg {
        typ: Type::Int,
        names: vec!["a".to_string(), "b".to_string()],
    });
    l.insert_arg(Arg { typ: Type::Bool, names: vec!["c".to_string()] });
    assert_eq!(l.len(), 3);
    assert_eq!(
        l.0,
        vec![
            ("a".to_string(), Type::Int),
            ("b".to_string(), Type::Int),
            ("c".to_string(), Type::Bool),
        ]
    );
}

#[test]
fn atom_display() {
    assert_eq!(Atom::Ident("speed".to_string()).to_string(), "speed");
    assert_eq!(Atom::Const(Const::Int(-3)).to_string(), "-3");
}

#[test]
fn empty_memory() {
    let m = mlustre::codegen::Memory::new();
    assert_eq!(m.name, "");
    assert_eq!(m.fields.len(), 0);
}
