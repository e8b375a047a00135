//! The optimizer.
use forge::collections::{BlockList, EdgeList};
use forge::float::FloatOp;
use forge::interp::{interpret, interpret_within, RtValue};
use forge::ir::{Block, BlockData, Function, Inst, Span, Terminator, Ty, Value};
use forge::lower::{lower, BinaryOp, Expr, ExprKind, TypedAst, UnaryOp};
use forge::opt::dce::Dce;
use forge::opt::fold::ConstFold;
use forge::opt::gvn::Gvn;
use forge::opt::magic::{apply_magic, magic_signed};
use forge::opt::reassoc::Reassociate;
use forge::opt::simplify::AlgebraicSimplify;
use forge::opt::strength::StrengthReduceShifts;
use forge::opt::table::Table;
use forge::opt::{optimize, run_passes, Pass};
use forge::verify::verify;
use rand::{Rng, SeedableRng};
use std::cell::Cell;
use std::rc::Rc;

// ---------------------------------------------------------------------------
// A reader of expressions: enough of a parser and of type inference to write
// the inputs below as text.

#[derive(Clone, Debug, PartialEq)]
enum Token {
    Float(f64),
    Int(i64),
    Name(String),
    Sign(&'static str),
}

const SIGNS: [&str; 27] = [
    "<<", ">>", "<=", ">=", "==", "!=", "&&", "||", "+", "-", "*", "/", "%", "(", ")", "[", "]", ",",
    "<", ">", "=", "&", "|", "^", "~", "!", "@",
];

fn tokens(src: &str) -> Vec<Token> {
    let chars: Vec<char> = src.chars().collect();
    let mut out = Vec::new();
    let mut i = 0;
    while i < chars.len() {
        let c = chars[i];
        if c.is_whitespace() {
            i += 1;
        } else if c.is_ascii_digit() {
            let start = i;
            while i < chars.len() && (chars[i].is_ascii_digit() || chars[i] == '.') {
                i += 1;
            }
            let text: String = chars[start..i].iter().collect();
            if text.contains('.') {
                out.push(Token::Float(text.parse().unwrap()));
            } else {
                out.push(Token::Int(text.parse().unwrap()));
            }
        } else if c.is_ascii_alphabetic() || c == '_' {
            let start = i;
            while i < chars.len() && (chars[i].is_ascii_alphanumeric() || chars[i] == '_') {
                i += 1;
            }
            out.push(Token::Name(chars[start..i].iter().collect()));
        } else {
            let rest: String = chars[i..].iter().collect();
            let sign = SIGNS.iter().find(|s| rest.starts_with(**s)).expect("a known sign");
            out.push(Token::Sign(sign));
            i += sign.len();
        }
    }
    out
}

#[derive(Clone, Debug)]
enum Tree {
    Float(f64),
    Int(i64),
    Bool(bool),
    Name(String),
    Unary(UnaryOp, Box<Tree>),
    Binary(BinaryOp, Box<Tree>, Box<Tree>),
    Call(String, Vec<Tree>),
    If(Box<Tree>, Box<Tree>, Box<Tree>),
    Let(String, Box<Tree>, Box<Tree>),
    Index(Box<Tree>, Box<Tree>),
}

struct Parser {
    tokens: Vec<Token>,
    at: usize,
    scope: Vec<(String, String)>,
    lets: usize,
}

fn binary_op(sign: &str) -> Option<(u8, BinaryOp)> {
    Some(match sign {
        "||" => (1, BinaryOp::Or),
        "&&" => (2, BinaryOp::And),
        "|" => (3, BinaryOp::BitOr),
        "^" => (4, BinaryOp::BitXor),
        "&" => (5, BinaryOp::BitAnd),
        "==" => (6, BinaryOp::Eq),
        "!=" => (6, BinaryOp::Ne),
        "<" => (7, BinaryOp::Lt),
        "<=" => (7, BinaryOp::Le),
        ">" => (7, BinaryOp::Gt),
        ">=" => (7, BinaryOp::Ge),
        "<<" => (8, BinaryOp::Shl),
        ">>" => (8, BinaryOp::Shr),
        "+" => (9, BinaryOp::Add),
        "-" => (9, BinaryOp::Sub),
        "*" => (10, BinaryOp::Mul),
        "/" => (10, BinaryOp::Div),
        "%" => (10, BinaryOp::Rem),
        _ => return None,
    })
}

impl Parser {
    fn new(src: &str) -> Parser {
        Parser { tokens: tokens(src), at: 0, scope: Vec::new(), lets: 0 }
    }

    fn is(&self, sign: &str) -> bool {
        matches!(self.tokens.get(self.at), Some(Token::Sign(s)) if *s == sign)
    }

    fn word(&mut self, word: &str) -> bool {
        let found = self.tokens.get(self.at) == Some(&Token::Name(word.to_string()));
        if found {
            self.at += 1;
        }
        found
    }

    fn take(&mut self, sign: &str) {
        assert!(self.is(sign), "expected {sign} at {}", self.at);
        self.at += 1;
    }

    fn name(&mut self) -> String {
        match self.tokens[self.at].clone() {
            Token::Name(name) => {
                self.at += 1;
                name
            }
            other => panic!("expected a name, found {other:?}"),
        }
    }

    fn expression(&mut self) -> Tree {
        if self.word("if") {
            let cond = self.expression();
            assert!(self.word("then"));
            let then_ = self.expression();
            assert!(self.word("else"));
            let else_ = self.expression();
            return Tree::If(Box::new(cond), Box::new(then_), Box::new(else_));
        }
        if self.word("let") {
            let name = self.name();
            self.take("=");
            let value = self.expression();
            assert!(self.word("in"));
            self.lets += 1;
            let unique = format!("{name}#{}", self.lets);
            self.scope.push((name, unique.clone()));
            let body = self.expression();
            self.scope.pop();
            return Tree::Let(unique, Box::new(value), Box::new(body));
        }
        self.binary(1)
    }

    fn binary(&mut self, least: u8) -> Tree {
        let mut lhs = self.unary();
        while let Some(Token::Sign(sign)) = self.tokens.get(self.at) {
            let Some((level, op)) = binary_op(sign) else {
                break;
            };
            if level < least {
                break;
            }
            self.at += 1;
            let rhs = self.binary(level + 1);
            lhs = Tree::Binary(op, Box::new(lhs), Box::new(rhs));
        }
        lhs
    }

    fn unary(&mut self) -> Tree {
        for (sign, op) in [("-", UnaryOp::Neg), ("!", UnaryOp::Not), ("~", UnaryOp::BitNot)] {
            if self.is(sign) {
                self.at += 1;
                return Tree::Unary(op, Box::new(self.unary()));
            }
        }
        let mut tree = self.primary();
        while self.is("[") {
            self.at += 1;
            let index = self.expression();
            self.take("]");
            tree = Tree::Index(Box::new(tree), Box::new(index));
        }
        tree
    }

    fn primary(&mut self) -> Tree {
        let token = self.tokens[self.at].clone();
        self.at += 1;
        match token {
            Token::Float(x) => Tree::Float(x),
            Token::Int(n) => Tree::Int(n),
            Token::Sign("(") => {
                let inner = self.expression();
                self.take(")");
                inner
            }
            Token::Name(name) if name == "true" => Tree::Bool(true),
            Token::Name(name) if name == "false" => Tree::Bool(false),
            Token::Name(name) if self.is("(") => {
                self.at += 1;
                let mut args = vec![self.expression()];
                while self.is(",") {
                    self.at += 1;
                    args.push(self.expression());
                }
                self.take(")");
                Tree::Call(name, args)
            }
            Token::Name(name) => {
                let bound = self.scope.iter().rev().find(|(n, _)| *n == name);
                Tree::Name(bound.map_or(name.clone(), |(_, unique)| unique.clone()))
            }
            other => panic!("unexpected {other:?}"),
        }
    }
}

/// The parameters in order of appearance, with the type that their uses ask
/// for, if any.
fn wanted(tree: &Tree, expected: Option<Ty>, params: &mut Vec<(String, Option<Ty>)>) {
    match tree {
        Tree::Float(_) | Tree::Int(_) | Tree::Bool(_) => {}
        Tree::Name(name) => {
            if name.contains('#') {
                return;
            }
            match params.iter_mut().find(|(n, _)| n == name) {
                Some((_, ty)) => {
                    if ty.is_none() {
                        *ty = expected;
                    }
                }
                None => params.push((name.clone(), expected)),
            }
        }
        Tree::Unary(op, inner) => wanted(
            inner,
            match op {
                UnaryOp::Neg => expected,
                UnaryOp::Not => Some(Ty::Bool),
                UnaryOp::BitNot => Some(Ty::I64),
            },
            params,
        ),
        Tree::Binary(op, lhs, rhs) => {
            let inner = match op {
                BinaryOp::Add | BinaryOp::Sub | BinaryOp::Mul | BinaryOp::Div | BinaryOp::Rem => {
                    expected
                }
                BinaryOp::BitAnd
                | BinaryOp::BitOr
                | BinaryOp::BitXor
                | BinaryOp::Shl
                | BinaryOp::Shr => Some(Ty::I64),
                BinaryOp::And | BinaryOp::Or => Some(Ty::Bool),
                _ => None,
            };
            wanted(lhs, inner, params);
            wanted(rhs, inner, params);
        }
        Tree::Call(_, args) => {
            for arg in args {
                wanted(arg, Some(Ty::F64), params);
            }
        }
        Tree::If(cond, then_, else_) => {
            wanted(cond, Some(Ty::Bool), params);
            wanted(then_, expected, params);
            wanted(else_, expected, params);
        }
        Tree::Let(_, value, body) => {
            wanted(value, None, params);
            wanted(body, expected, params);
        }
        Tree::Index(_, _) => {}
    }
}

fn both(a: Ty, b: Ty) -> Ty {
    if a == b {
        a
    } else {
        Ty::F64
    }
}

fn typed_tree(tree: &Tree, types: &mut Vec<(String, Ty)>) -> Expr {
    let span = Span::new(0, 0);
    let (kind, ty) = match tree {
        Tree::Float(x) => (ExprKind::Float(x.to_bits()), Ty::F64),
        Tree::Int(n) => (ExprKind::Int(*n), Ty::I64),
        Tree::Bool(b) => (ExprKind::Bool(*b), Ty::Bool),
        Tree::Name(name) => {
            let ty = types.iter().rev().find(|(n, _)| n == name).expect("a bound name").1;
            (ExprKind::Ident(name.clone()), ty)
        }
        Tree::Unary(op, inner) => {
            let operand = typed_tree(inner, types);
            let ty = operand.ty;
            (ExprKind::Unary { op: *op, operand: Box::new(operand) }, ty)
        }
        Tree::Binary(op, lhs, rhs) => {
            let lhs = typed_tree(lhs, types);
            let rhs = typed_tree(rhs, types);
            let ty = match op {
                BinaryOp::Eq
                | BinaryOp::Ne
                | BinaryOp::Lt
                | BinaryOp::Le
                | BinaryOp::Gt
                | BinaryOp::Ge => Ty::Bool,
                _ => both(lhs.ty, rhs.ty),
            };
            (ExprKind::Binary { op: *op, lhs: Box::new(lhs), rhs: Box::new(rhs) }, ty)
        }
        Tree::Call(callee, args) => {
            let args = args.iter().map(|a| typed_tree(a, types)).collect();
            (ExprKind::Call { callee: callee.clone(), args }, Ty::F64)
        }
        Tree::If(cond, then_, else_) => {
            let cond = Box::new(typed_tree(cond, types));
            let then_ = Box::new(typed_tree(then_, types));
            let else_ = Box::new(typed_tree(else_, types));
            let ty = both(then_.ty, else_.ty);
            (ExprKind::If { cond, then_, else_ }, ty)
        }
        Tree::Let(name, value, body) => {
            let value = Box::new(typed_tree(value, types));
            types.push((name.clone(), value.ty));
            let body = Box::new(typed_tree(body, types));
            let ty = body.ty;
            (ExprKind::Let { name: name.clone(), value, body }, ty)
        }
        Tree::Index(base, index) => {
            let base = Box::new(typed_tree(base, types));
            let index = Box::new(typed_tree(index, types));
            (ExprKind::Index { base, index }, Ty::F64)
        }
    };
    Expr { kind, ty, span }
}

/// The expression, with every parameter a double unless its uses ask for
/// something else.
fn typed(src: &str) -> TypedAst {
    let mut parser = Parser::new(src);
    let tree = parser.expression();
    assert_eq!(parser.at, parser.tokens.len(), "{src:?} has a rest");
    let mut found = Vec::new();
    wanted(&tree, None, &mut found);
    let params: Vec<(String, Ty)> =
        found.into_iter().map(|(name, ty)| (name, ty.unwrap_or(Ty::F64))).collect();
    let mut types = params.clone();
    let root = typed_tree(&tree, &mut types);
    TypedAst { root, params }
}

fn lowered(src: &str) -> Function {
    lower(&typed(src))
}

// ---------------------------------------------------------------------------
// Doubles.

/// The machine's arithmetic.
fn unit(op: FloatOp, a: u64, b: u64, c: u64) -> u64 {
    let (x, y, z) = (f64::from_bits(a), f64::from_bits(b), f64::from_bits(c));
    let r = match op {
        FloatOp::Add => x + y,
        FloatOp::Sub => x - y,
        FloatOp::Mul => x * y,
        FloatOp::Div => x / y,
        FloatOp::Rem => x % y,
        FloatOp::Fma => x.mul_add(y, z),
        FloatOp::Sqrt => x.sqrt(),
        FloatOp::Floor => x.floor(),
        FloatOp::Ceil => x.ceil(),
        FloatOp::Round => x.round(),
        FloatOp::Trunc => x.trunc(),
        FloatOp::Min => x.min(y),
        FloatOp::Max => x.max(y),
        FloatOp::Sin => x.sin(),
        FloatOp::Cos => x.cos(),
        FloatOp::Tan => x.tan(),
        FloatOp::Exp => x.exp(),
        FloatOp::Log => x.ln(),
        FloatOp::Pow => x.powf(y),
        FloatOp::FromInt => (a as i64) as f64,
        FloatOp::ToInt => return (x as i64) as u64,
    };
    r.to_bits()
}

fn f(x: f64) -> RtValue {
    RtValue::F64(x.to_bits())
}

/// `& -1` keeps a number as it is and makes integers of bare names.
fn lowered_i64(src: &str) -> Function {
    lowered(&format!("({src}) & -1"))
}

fn fold(f: &mut Function) -> bool {
    ConstFold { unit }.run(f)
}

fn run(function: &Function, args: &[RtValue]) -> RtValue {
    interpret(function, args, &unit)
}

fn count_op<P: Fn(&Inst) -> bool>(f: &Function, pred: P) -> usize {
    f.insts.iter().filter(|i| pred(i)).count()
}

fn assert_same(expected: RtValue, actual: RtValue, what: &str) {
    match (expected, actual) {
        (RtValue::F64(e), RtValue::F64(a)) if f64::from_bits(e).is_nan() => {
            assert!(f64::from_bits(a).is_nan(), "{what}");
        }
        (e, a) => assert_eq!(e, a, "{what}"),
    }
}

// ---------------------------------------------------------------------------
// Dead code

#[test]
fn removes_an_unused_subexpression() {
    let mut f = lowered("let t = x * x in y");
    let before = f.blocks[f.entry.0 as usize].insts.len();
    let changed = Dce.run(&mut f);
    assert!(changed);
    let after = f.blocks[f.entry.0 as usize].insts.len();
    assert!(after < before, "the dead `x*x` should have been swept");
    assert!(verify(&f).is_ok());
}

#[test]
fn a_second_sweep_finds_nothing() {
    for src in ["let t = x * x in y", "x + y", "if x > 0.0 then 1.0 else 2.0"] {
        let mut f = lowered(src);
        Dce.run(&mut f);
        let listed: Vec<Vec<Value>> = f.blocks.iter().map(|b| b.insts.clone()).collect();
        assert!(!Dce.run(&mut f), "{src}");
        let again: Vec<Vec<Value>> = f.blocks.iter().map(|b| b.insts.clone()).collect();
        assert_eq!(listed, again, "{src}");
        assert!(verify(&f).is_ok(), "{src}");
    }
}

#[test]
fn does_not_remove_a_value_used_by_the_return() {
    let mut f = lowered("x + y");
    let before = f.blocks[f.entry.0 as usize].insts.len();
    Dce.run(&mut f);
    assert_eq!(f.blocks[f.entry.0 as usize].insts.len(), before);
}

#[test]
fn does_not_remove_a_value_used_only_by_a_branch_condition() {
    let mut f = lowered("if x > 0.0 then 1.0 else 2.0");
    Dce.run(&mut f);
    assert!(verify(&f).is_ok());
    assert!(f.insts.iter().any(|i| matches!(i, Inst::Cmp { .. })));
}

// ---------------------------------------------------------------------------
// Constants

#[test]
fn folds_f64_constant_arithmetic() {
    let mut f = lowered("1.0 + 2.0");
    fold(&mut f);
    let root = f.insts.last().unwrap();
    assert!(matches!(root, Inst::ConstF64(bits) if f64::from_bits(*bits) == 3.0));
}

#[test]
fn folds_i64_constant_arithmetic_with_wrapping() {
    let mut f = lowered("9223372036854775807 + 1");
    fold(&mut f);
    let root = f.insts.last().unwrap();
    assert!(matches!(root, Inst::ConstI64(n) if *n == i64::MIN));
}

#[test]
fn does_not_panic_on_i64_div_by_zero_even_in_dead_code() {
    let mut f = lowered("if false then 5 / 0 else 1");
    fold(&mut f);
}

#[test]
fn folds_i64_sar_hand_built() {
    let mut folded = Function {
        insts: vec![Inst::ConstI64(-8), Inst::ConstI64(2), Inst::Sar(Value(0), Value(1))],
        types: vec![Ty::I64, Ty::I64, Ty::I64],
        spans: vec![Span::new(0, 0), Span::new(0, 0), Span::new(0, 0)],
        blocks: vec![BlockData {
            insts: vec![Value(0), Value(1), Value(2)],
            term: Some(Terminator::Return(Value(2))),
            preds: BlockList::new(),
        }],
        entry: Block(0),
        params: vec![],
    };
    fold(&mut folded);
    assert!(matches!(folded.insts[2], Inst::ConstI64(n) if n == -2));
}

#[test]
fn does_not_fold_when_an_operand_is_not_literal() {
    let mut f = lowered("x + 1.0");
    let before = f.insts.len();
    let changed = fold(&mut f);
    assert!(!changed);
    assert_eq!(f.insts.len(), before);
}

#[test]
fn folding_never_changes_the_answer() {
    for src in [
        "1.0 / 0.0",
        "0.0 / 0.0",
        "-1.0 * 0.0",
        "sqrt(4.0)",
        "3.0 % 2.0",
        "7 / 2",
        "-7 / 2",
        "min(1.0, 2.0)",
        "max(1.0, 2.0)",
        "1.0 == 1.0",
        "sin(0.0)",
        "pow(2.0, 3.0)",
        "5 & 3",
        "5 | 2",
        "5 ^ 1",
        "~5",
        "1 << 4",
        "256 >> 4",
    ] {
        let expected = run(&lowered(src), &[]);
        let mut folded = lowered(src);
        fold(&mut folded);
        assert_same(expected, run(&folded, &[]), src);
    }
}

// ---------------------------------------------------------------------------
// Common subexpressions

#[test]
fn repeated_subexpression_cses_to_one_add() {
    let mut f = lowered("(a + b) * (a + b)");
    let before = count_op(&f, |i| matches!(i, Inst::Add(_, _)));
    assert_eq!(before, 2, "sanity: two separate Adds before GVN");
    Gvn.run(&mut f);
    let after = count_op(&f, |i| matches!(i, Inst::Add(_, _)));
    assert_eq!(after, 1, "GVN should have merged the two identical Adds into one");
}

#[test]
fn commutative_operands_cse_together() {
    let mut f = lowered("(a + b) + (b + a)");
    Gvn.run(&mut f);
    let after = count_op(&f, |i| matches!(i, Inst::Add(_, _)));
    assert_eq!(after, 2, "b+a should CSE with a+b via commutative canonicalization");
}

#[test]
fn does_not_cse_across_non_dominating_sibling_blocks() {
    let mut f = lowered("if x > 0.0 then x * x else x * x");
    let before = count_op(&f, |i| matches!(i, Inst::Mul(_, _)));
    assert_eq!(before, 2, "sanity: one Mul per branch before GVN");
    Gvn.run(&mut f);
    let after = count_op(&f, |i| matches!(i, Inst::Mul(_, _)));
    assert_eq!(after, 2);
    assert!(verify(&f).is_ok(), "result must still be valid SSA");
}

#[test]
fn cse_result_still_passes_the_verifier() {
    let mut f = lowered("(a + b) * (a + b) + sqrt(a + b)");
    Gvn.run(&mut f);
    assert!(verify(&f).is_ok());
}

#[test]
fn cses_across_a_multi_level_dominator_chain() {
    let mut f = lowered("x * x + (if x > 0.0 then (if y > 0.0 then x * x else 1.0) else 2.0)");
    let before = count_op(&f, |i| matches!(i, Inst::Mul(_, _)));
    assert_eq!(before, 2, "sanity: two separate x*x before GVN");
    Gvn.run(&mut f);
    let after = count_op(&f, |i| matches!(i, Inst::Mul(_, _)));
    assert_eq!(after, 1, "the nested x*x should CSE against entry's");
    assert!(verify(&f).is_ok());
}

// ---------------------------------------------------------------------------
// The driver

fn trivial_function() -> Function {
    Function {
        insts: vec![Inst::Param { index: 0, ty: Ty::F64 }],
        types: vec![Ty::F64],
        spans: vec![Span::new(0, 0)],
        blocks: vec![BlockData {
            insts: vec![Value(0)],
            term: Some(Terminator::Return(Value(0))),
            preds: BlockList::new(),
        }],
        entry: Block(0),
        params: vec![("x".to_string(), Ty::F64)],
    }
}

struct CountingPass {
    calls: Rc<Cell<u32>>,
    fire_times: u32,
}

impl Pass for CountingPass {
    fn name(&self) -> &'static str {
        "counting-test-pass"
    }
    fn run(&mut self, _f: &mut Function) -> bool {
        let n = self.calls.get();
        self.calls.set(n + 1);
        n < self.fire_times
    }
}

#[test]
fn driver_runs_to_fixed_point_and_stops() {
    let mut f = trivial_function();
    let calls = Rc::new(Cell::new(0));
    let mut passes = vec![CountingPass { calls: calls.clone(), fire_times: 3 }];
    assert!(run_passes(&mut f, &mut passes).is_ok());
    assert_eq!(calls.get(), 4);
}

#[test]
fn driver_caps_at_ten_rounds_even_if_always_changed() {
    let mut f = trivial_function();
    let calls = Rc::new(Cell::new(0));
    let mut passes = vec![CountingPass { calls: calls.clone(), fire_times: u32::MAX }];
    assert!(run_passes(&mut f, &mut passes).is_ok());
    assert_eq!(calls.get(), 10);
}

struct BreakingPass;

impl Pass for BreakingPass {
    fn name(&self) -> &'static str {
        "breaking-test-pass"
    }
    fn run(&mut self, f: &mut Function) -> bool {
        f.blocks[0].term = Some(Terminator::Return(Value(999)));
        true
    }
}

#[test]
fn the_driver_names_the_pass_that_broke_the_function() {
    let mut f = trivial_function();
    let mut passes = vec![BreakingPass];
    let failure = run_passes(&mut f, &mut passes).err().expect("the function is broken");
    assert_eq!((failure.pass, failure.round), ("breaking-test-pass", 0));
}

#[test]
#[should_panic(expected = "breaking-test-pass")]
fn verifier_runs_after_every_pass_and_names_the_culprit() {
    let mut f = trivial_function();
    let mut passes = vec![BreakingPass];
    if let Err(failure) = run_passes(&mut f, &mut passes) {
        panic!("{}", failure.pass);
    }
}

#[test]
fn empty_pipeline_leaves_function_unchanged() {
    let mut f = trivial_function();
    assert!(optimize(&mut f, unit).is_ok());
    assert_eq!(f.insts.len(), 1);
}

// ---------------------------------------------------------------------------
// Chains

fn dependency_depth(f: &Function, v: Value) -> u32 {
    match &f.insts[v.0 as usize] {
        Inst::Add(a, b) | Inst::Mul(a, b) => {
            1 + dependency_depth(f, *a).max(dependency_depth(f, *b))
        }
        _ => 0,
    }
}

fn returned(f: &Function) -> Value {
    match f.blocks[f.entry.0 as usize].term {
        Some(Terminator::Return(v)) => v,
        other => panic!("expected a return, found {other:?}"),
    }
}

fn unwrap_forced_i64(f: &Function, wrapped: Value) -> Value {
    match &f.insts[wrapped.0 as usize] {
        Inst::And(root, _) => *root,
        other => panic!("expected the `& -1` wrapper, found {other:?}"),
    }
}

#[test]
fn reduces_dependency_depth_on_an_i64_sum_chain() {
    let mut f = lowered_i64("((((((a + b) + c) + d) + e) + g) + h) + i");
    let before = dependency_depth(&f, unwrap_forced_i64(&f, returned(&f)));
    assert_eq!(before, 7, "sanity: a fully left-leaning 8-term chain has depth 7");
    Reassociate.run(&mut f);
    let after = dependency_depth(&f, unwrap_forced_i64(&f, returned(&f)));
    assert!(after < before, "got {after}, was {before}");
}

#[test]
fn does_not_reassociate_f64_chains() {
    let mut f = lowered("((((a + b) + c) + d) + e)");
    let before_insts = f.insts.len();
    let changed = Reassociate.run(&mut f);
    assert!(!changed, "f64 chains must not be reassociated");
    assert_eq!(f.insts.len(), before_insts);
}

#[test]
fn reassociation_never_changes_the_i64_answer() {
    let src = "((((((n + n) + n) + n) + n) + n) + n) + n";
    let expected = run(&lowered_i64(src), &[RtValue::I64(7)]);
    let mut reassoc = lowered_i64(src);
    Reassociate.run(&mut reassoc);
    assert_eq!(expected, run(&reassoc, &[RtValue::I64(7)]));
}

#[test]
fn multi_use_intermediate_value_is_preserved_not_discarded() {
    let src = "(let t = 3 + 4 in (((t + c) + d) + e) * t) & -1";
    let args = &[RtValue::I64(2), RtValue::I64(3), RtValue::I64(5)];
    let expected = run(&lowered(src), args);
    let mut f = lowered(src);
    let changed = Reassociate.run(&mut f);
    assert!(changed, "sanity: the 4-leaf add-chain (t,c,d,e) should get rebalanced");
    assert!(verify(&f).is_ok());
    assert_eq!(expected, run(&f, args));
}

#[test]
fn reassoc_verifies_after_rewrite() {
    let mut f = lowered_i64("((((((a + b) + c) + d) + e) + g) + h) + i");
    Reassociate.run(&mut f);
    assert!(verify(&f).is_ok());
}

#[test]
fn does_not_fire_on_a_short_i64_chain() {
    let mut f = lowered_i64("(a + b) + c");
    let changed = Reassociate.run(&mut f);
    assert!(!changed);
}

#[test]
fn stale_use_counts_across_dce_do_not_permanently_cap_rebalancing_depth() {
    let src = "let x = (((p1 & -1) + (p2 & -1)) + (p3 & -1)) + (p4 & -1) in \
               let dead = x + 99 in \
               (((x + (q1 & -1)) + (q2 & -1)) + (q3 & -1))";
    let mut f = lowered(src);
    assert!(optimize(&mut f, unit).is_ok());
    assert_eq!(dependency_depth(&f, returned(&f)), 3);
}

// ---------------------------------------------------------------------------
// Identities

#[test]
fn x_plus_neg_zero_simplifies_to_x() {
    let mut f = lowered("x + -0.0");
    let changed = AlgebraicSimplify.run(&mut f);
    assert!(changed);
    assert!(matches!(f.insts[returned(&f).0 as usize], Inst::Param { .. }));
}

#[test]
fn x_plus_pos_zero_is_not_simplified_for_f64() {
    let mut f = lowered("x + 0.0");
    let changed = AlgebraicSimplify.run(&mut f);
    assert!(!changed, "x + 0.0 must not simplify for f64");
}

#[test]
fn x_minus_zero_simplifies_for_f64() {
    let mut f = lowered("x - 0.0");
    let changed = AlgebraicSimplify.run(&mut f);
    assert!(changed);
}

#[test]
fn x_times_zero_is_not_simplified_for_f64_but_is_for_i64() {
    let mut f_float = lowered("x * 0.0");
    assert!(!AlgebraicSimplify.run(&mut f_float), "f64 x*0 must not fold");
    let mut f_int = lowered_i64("n * 0");
    assert!(AlgebraicSimplify.run(&mut f_int), "i64 x*0 should simplify to 0");
}

#[test]
fn zero_times_x_is_also_simplified_for_i64_zero_on_the_left() {
    let mut f_int = lowered_i64("0 * n");
    assert!(AlgebraicSimplify.run(&mut f_int));
}

#[test]
fn double_negation_cancels() {
    let mut f = lowered("- -x");
    assert!(AlgebraicSimplify.run(&mut f));
}

#[test]
fn x_times_one_and_x_div_one_actually_fire_for_f64() {
    let mut f_mul = lowered("x * 1.0");
    assert!(AlgebraicSimplify.run(&mut f_mul), "x * 1.0 should simplify");
    let mut f_div = lowered("x / 1.0");
    assert!(AlgebraicSimplify.run(&mut f_div), "x / 1.0 should simplify");
}

#[test]
fn and_of_same_value_simplifies_to_that_value() {
    let mut f = lowered("n & n");
    let changed = AlgebraicSimplify.run(&mut f);
    assert!(changed, "x & x should simplify to x");
    assert!(matches!(f.insts[returned(&f).0 as usize], Inst::Param { .. }));
}

#[test]
fn xor_of_same_value_simplifies_to_zero() {
    let mut f = lowered("n ^ n");
    let changed = AlgebraicSimplify.run(&mut f);
    assert!(changed, "x ^ x should simplify to 0");
    assert!(matches!(f.insts[returned(&f).0 as usize], Inst::ConstI64(0)));
}

#[test]
fn x_div_x_is_not_simplified_for_i64() {
    let mut f = lowered_i64("n / n");
    let changed = AlgebraicSimplify.run(&mut f);
    assert!(!changed, "x / x must not simplify to 1 for i64");
}

#[test]
fn dividing_by_zero_has_no_result_before_and_after_simplification() {
    let mut f = lowered_i64("n / n");
    assert_eq!(interpret_within(&f, &[RtValue::I64(0)], &unit, 1), None);
    AlgebraicSimplify.run(&mut f);
    assert_eq!(interpret_within(&f, &[RtValue::I64(0)], &unit, 1), None);
}

#[test]
fn simplification_never_changes_the_answer_for_a_representative_sample() {
    let cases: &[(&str, RtValue)] = &[
        ("x - 0.0", f(-0.0)),
        ("x - 0.0", f(3.5)),
        ("x * 1.0", f(f64::NAN)),
        ("x / 1.0", f(f64::INFINITY)),
        ("- -x", f(-0.0)),
        ("(n * 0) & -1", RtValue::I64(42)),
        ("(n - n) & -1", RtValue::I64(i64::MIN)),
        ("(n / n) & -1", RtValue::I64(7)),
    ];
    for (src, arg) in cases {
        let expected = run(&lowered(src), &[*arg]);
        let mut simplified = lowered(src);
        AlgebraicSimplify.run(&mut simplified);
        assert_same(expected, run(&simplified, &[*arg]), src);
    }
}

// ---------------------------------------------------------------------------
// Strength reduction

#[test]
fn bare_n_without_forcing_infers_as_f64() {
    let f = lowered("n * 8");
    assert_eq!(f.params, vec![("n".to_string(), Ty::F64)]);
    let forced = lowered_i64("n * 8");
    assert_eq!(forced.params, vec![("n".to_string(), Ty::I64)]);
}

fn run_both(src: &str, n: i64) -> (RtValue, RtValue) {
    let expected = run(&lowered_i64(src), &[RtValue::I64(n)]);
    let mut reduced = lowered_i64(src);
    StrengthReduceShifts.run(&mut reduced);
    (expected, run(&reduced, &[RtValue::I64(n)]))
}

#[test]
fn mul_by_power_of_two_matches_for_positive_and_negative_n() {
    for n in [0i64, 1, -1, 7, -7, i64::MIN, i64::MAX] {
        let (e, a) = run_both("n * 8", n);
        assert_eq!(e, a, "n={n}");
    }
}

#[test]
fn mul_fires_and_becomes_a_shift() {
    let mut f = lowered_i64("n * 8");
    let changed = StrengthReduceShifts.run(&mut f);
    assert!(changed);
    assert!(f.insts.iter().any(|i| matches!(i, Inst::Shl(..))));
    assert!(!f.insts.iter().any(|i| matches!(i, Inst::Mul(..))));
}

#[test]
fn mul_fires_with_constant_on_the_left_too() {
    let mut f = lowered_i64("8 * n");
    let changed = StrengthReduceShifts.run(&mut f);
    assert!(changed, "constant-on-the-left Mul should also strength-reduce");
    assert!(f.insts.iter().any(|i| matches!(i, Inst::Shl(..))));
}

#[test]
fn div_by_power_of_two_matches_wrapping_div_including_negative_dividends() {
    for n in [0i64, 1, -1, 7, -7, 8, -8, 15, -15, i64::MIN, i64::MAX, -100_000] {
        let (e, a) = run_both("n / 8", n);
        assert_eq!(e, a, "n={n}: expected {e:?}, got {a:?}");
    }
}

#[test]
fn rem_by_power_of_two_matches_wrapping_rem_including_negative_dividends() {
    for n in [0i64, 1, -1, 7, -7, 8, -8, 15, -15, i64::MIN, i64::MAX, -100_000] {
        let (e, a) = run_both("n % 8", n);
        assert_eq!(e, a, "n={n}: expected {e:?}, got {a:?}");
    }
}

#[test]
fn div_fires_and_removes_the_original_div() {
    let mut f = lowered_i64("n / 8");
    let changed = StrengthReduceShifts.run(&mut f);
    assert!(changed);
    assert!(!f.insts.iter().any(|i| matches!(i, Inst::Div(..))));
    assert!(f.insts.iter().any(|i| matches!(i, Inst::Sar(..))));
}

#[test]
fn rem_fires_and_removes_the_original_rem() {
    let mut f = lowered_i64("n % 8");
    let changed = StrengthReduceShifts.run(&mut f);
    assert!(changed);
    assert!(!f.insts.iter().any(|i| matches!(i, Inst::Rem(..))));
    assert!(f.insts.iter().any(|i| matches!(i, Inst::Sub(..))));
}

#[test]
fn does_not_fire_on_non_power_of_two_divisor() {
    let mut f = lowered_i64("n / 7");
    let changed = StrengthReduceShifts.run(&mut f);
    assert!(!changed, "7 is not a power of 2");
}

#[test]
fn does_not_fire_on_non_power_of_two_divisor_for_rem() {
    let mut f = lowered_i64("n % 7");
    let changed = StrengthReduceShifts.run(&mut f);
    assert!(!changed);
}

#[test]
fn does_not_fire_on_f64_division() {
    let mut f = lowered("x / 8.0");
    let changed = StrengthReduceShifts.run(&mut f);
    assert!(!changed, "f64 division must never be strength-reduced by this pass");
}

#[test]
fn does_not_fire_on_c_equal_to_one_or_zero() {
    let mut f1 = lowered_i64("n * 1");
    assert!(!StrengthReduceShifts.run(&mut f1));
    let mut f0 = lowered_i64("n * 0");
    assert!(!StrengthReduceShifts.run(&mut f0));
}

#[test]
fn strength_verifies_after_rewrite() {
    for src in ["n * 8", "n / 8", "n % 8"] {
        let mut f = lowered_i64(src);
        StrengthReduceShifts.run(&mut f);
        assert!(verify(&f).is_ok(), "verify failed for {src}");
    }
}

#[test]
fn magic_division_is_exact() {
    for d in [3i64, 5, 7, 10, 100, 1000, -3, -7, -100] {
        let m = magic_signed(d);
        for n in [0i64, 1, -1, 42, -42, i64::MAX, i64::MIN, i64::MAX - 1] {
            assert_eq!(
                apply_magic(n, d, &m),
                n.wrapping_div(d),
                "magic division wrong for {n} / {d}"
            );
        }
        let mut rng = rand_chacha::ChaCha8Rng::seed_from_u64(0xC0FFEE);
        for _ in 0..100_000 {
            let n: i64 = rng.gen();
            assert_eq!(
                apply_magic(n, d, &m),
                n.wrapping_div(d),
                "magic division wrong for {n} / {d}"
            );
        }
    }
}

// ---------------------------------------------------------------------------
// Everything together

#[test]
fn optimizing_never_changes_the_answer() {
    let cases: &[(&str, &[RtValue])] = &[
        ("(x + y) * (x + y) - 0.0", &[RtValue::F64(0x4008000000000000), RtValue::F64(0)]),
        ("if x > 0.0 then x * x else -(-x)", &[RtValue::F64(0xc008000000000000)]),
        ("((n * 8) / 4 + n % 16) & -1", &[RtValue::I64(-37)]),
        ("(((((n + 1) + n) + 2) + n) + 3) & -1", &[RtValue::I64(i64::MAX)]),
        ("let t = sqrt(x) in t * t + 1.0 * t", &[RtValue::F64(0x4022000000000000)]),
    ];
    for (src, args) in cases {
        let expected = run(&lowered(src), args);
        let mut optimized = lowered(src);
        assert!(optimize(&mut optimized, unit).is_ok());
        assert!(verify(&optimized).is_ok());
        assert_same(expected, run(&optimized, args), src);
    }
}

// ---------------------------------------------------------------------------
// The table of value numbering

#[test]
fn the_table_finds_what_was_entered_and_not_removed() {
    let phi = |from: u32, v: u32| {
        let mut incoming = EdgeList::new();
        incoming.push((Block(from), Value(v)));
        Inst::Phi { incoming }
    };
    let mut table = Table::new();
    assert_eq!(table.get(&Inst::Add(Value(0), Value(1))), None);
    table.enter(Inst::Add(Value(0), Value(1)), Value(2));
    table.enter(Inst::Sub(Value(0), Value(1)), Value(3));
    table.enter(Inst::ConstI64(-1), Value(4));
    table.enter(Inst::ConstF64(u64::MAX), Value(5));
    table.enter(phi(1, 2), Value(6));
    table.enter(phi(2, 1), Value(7));
    assert_eq!(table.len(), 6);
    assert_eq!(table.get(&Inst::Add(Value(0), Value(1))), Some(Value(2)));
    assert_eq!(table.get(&Inst::Add(Value(1), Value(0))), None);
    assert_eq!(table.get(&Inst::Sub(Value(0), Value(1))), Some(Value(3)));
    assert_eq!(table.get(&Inst::ConstI64(-1)), Some(Value(4)));
    assert_eq!(table.get(&Inst::ConstF64(u64::MAX)), Some(Value(5)));
    assert_eq!(table.get(&phi(1, 2)), Some(Value(6)));
    assert_eq!(table.get(&phi(2, 1)), Some(Value(7)));
    table.truncate(1);
    assert_eq!(table.len(), 1);
    assert_eq!(table.get(&Inst::Add(Value(0), Value(1))), Some(Value(2)));
    assert_eq!(table.get(&Inst::Sub(Value(0), Value(1))), None);
    table.enter(Inst::Sub(Value(0), Value(1)), Value(9));
    assert_eq!(table.get(&Inst::Sub(Value(0), Value(1))), Some(Value(9)));
}

// ---------------------------------------------------------------------------
// Division by zero

#[test]
fn a_division_by_zero_survives_the_passes() {
    for src in ["(n / m) * 0", "(n % m) - (n % m)", "let d = (n & -1) / (m & -1) in n"] {
        let function = lowered_i64(src);
        let mut fast = lowered_i64(src);
        assert!(optimize(&mut fast, unit).is_ok());
        let fine = [RtValue::I64(7), RtValue::I64(2)];
        assert_eq!(run(&fast, &fine), run(&function, &fine), "{src}");
        let zero = [RtValue::I64(7), RtValue::I64(0)];
        assert_eq!(interpret_within(&function, &zero, &unit, function.blocks.len()), None);
        assert_eq!(interpret_within(&fast, &zero, &unit, fast.blocks.len()), None, "{src}");
    }
}
