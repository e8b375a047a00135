//! The intermediate representation: lowering, the interpreter, the verifier,
//! printing, and vectorized programs.
use forge::array::{
    lower_array, verify_array, ArrayBound, ArrayError, ArrayInst, ArrayParamKind, ArrayTerminator,
    ArrayTy, TypedArray,
};
use forge::builder::Builder;
use forge::collections::{BlockList, EdgeList, ValueList};
use forge::dominance::{compute_dominators, dominates, reverse_postorder};
use forge::float::FloatOp;
use forge::interp::{interpret, interpret_within, outcome_within, Outcome, RtValue};
use forge::ir::{replace_value_everywhere, uses_of};
use forge::ir::{
    Block, BlockData, CmpOp, Function, Inst, LibFunc, Span, Terminator, Ty, Value,
};
use forge::lower::{can_lower, lower, BinaryOp, Expr, ExprKind, TypedAst, UnaryOp};
use forge::print::print_function;
use forge::verify::{verify, VerifyError};

// ---------------------------------------------------------------------------
// A reader of expressions: enough of a parser and of type inference to write
// the inputs below as text.

#[derive(Clone, Debug, PartialEq)]
enum Token {
    Float(f64),
    Int(i64),
    Name(String),
    Sign(&'static str),
}

const SIGNS: [&str; 27] = [
    "<<", ">>", "<=", ">=", "==", "!=", "&&", "||", "+", "-", "*", "/", "%", "(", ")", "[", "]", ",",
    "<", ">", "=", "&", "|", "^", "~", "!", "@",
];

fn tokens(src: &str) -> Vec<Token> {
    let chars: Vec<char> = src.chars().collect();
    let mut out = Vec::new();
    let mut i = 0;
    while i < chars.len() {
        let c = chars[i];
        if c.is_whitespace() {
            i += 1;
        } else if c.is_ascii_digit() {
            let start = i;
            while i < chars.len() && (chars[i].is_ascii_digit() || chars[i] == '.') {
                i += 1;
            }
            let text: String = chars[start..i].iter().collect();
            if text.contains('.') {
                out.push(Token::Float(text.parse().unwrap()));
            } else {
                out.push(Token::Int(text.parse().unwrap()));
            }
        } else if c.is_ascii_alphabetic() || c == '_' {
            let start = i;
            while i < chars.len() && (chars[i].is_ascii_alphanumeric() || chars[i] == '_') {
                i += 1;
            }
            out.push(Token::Name(chars[start..i].iter().collect()));
        } else {
            let rest: String = chars[i..].iter().collect();
            let sign = SIGNS.iter().find(|s| rest.starts_with(**s)).expect("a known sign");
            out.push(Token::Sign(sign));
            i += sign.len();
        }
    }
    out
}

#[derive(Clone, Debug)]
enum Tree {
    Float(f64),
    Int(i64),
    Bool(bool),
    Name(String),
    Unary(UnaryOp, Box<Tree>),
    Binary(BinaryOp, Box<Tree>, Box<Tree>),
    Call(String, Vec<Tree>),
    If(Box<Tree>, Box<Tree>, Box<Tree>),
    Let(String, Box<Tree>, Box<Tree>),
    Index(Box<Tree>, Box<Tree>),
}

struct Parser {
    tokens: Vec<Token>,
    at: usize,
    scope: Vec<(String, String)>,
    lets: usize,
}

fn binary_op(sign: &str) -> Option<(u8, BinaryOp)> {
    Some(match sign {
        "||" => (1, BinaryOp::Or),
        "&&" => (2, BinaryOp::And),
        "|" => (3, BinaryOp::BitOr),
        "^" => (4, BinaryOp::BitXor),
        "&" => (5, BinaryOp::BitAnd),
        "==" => (6, BinaryOp::Eq),
        "!=" => (6, BinaryOp::Ne),
        "<" => (7, BinaryOp::Lt),
        "<=" => (7, BinaryOp::Le),
        ">" => (7, BinaryOp::Gt),
        ">=" => (7, BinaryOp::Ge),
        "<<" => (8, BinaryOp::Shl),
        ">>" => (8, BinaryOp::Shr),
        "+" => (9, BinaryOp::Add),
        "-" => (9, BinaryOp::Sub),
        "*" => (10, BinaryOp::Mul),
        "/" => (10, BinaryOp::Div),
        "%" => (10, BinaryOp::Rem),
        _ => return None,
    })
}

impl Parser {
    fn new(src: &str) -> Parser {
        Parser { tokens: tokens(src), at: 0, scope: Vec::new(), lets: 0 }
    }

    fn is(&self, sign: &str) -> bool {
        matches!(self.tokens.get(self.at), Some(Token::Sign(s)) if *s == sign)
    }

    fn word(&mut self, word: &str) -> bool {
        let found = self.tokens.get(self.at) == Some(&Token::Name(word.to_string()));
        if found {
            self.at += 1;
        }
        found
    }

    fn take(&mut self, sign: &str) {
        assert!(self.is(sign), "expected {sign} at {}", self.at);
        self.at += 1;
    }

    fn name(&mut self) -> String {
        match self.tokens[self.at].clone() {
            Token::Name(name) => {
                self.at += 1;
                name
            }
            other => panic!("expected a name, found {other:?}"),
        }
    }

    fn expression(&mut self) -> Tree {
        if self.word("if") {
            let cond = self.expression();
            assert!(self.word("then"));
            let then_ = self.expression();
            assert!(self.word("else"));
            let else_ = self.expression();
            return Tree::If(Box::new(cond), Box::new(then_), Box::new(else_));
        }
        if self.word("let") {
            let name = self.name();
            self.take("=");
            let value = self.expression();
            assert!(self.word("in"));
            self.lets += 1;
            let unique = format!("{name}#{}", self.lets);
            self.scope.push((name, unique.clone()));
            let body = self.expression();
            self.scope.pop();
            return Tree::Let(unique, Box::new(value), Box::new(body));
        }
        self.binary(1)
    }

    fn binary(&mut self, least: u8) -> Tree {
        let mut lhs = self.unary();
        while let Some(Token::Sign(sign)) = self.tokens.get(self.at) {
            let Some((level, op)) = binary_op(sign) else {
                break;
            };
            if level < least {
                break;
            }
            self.at += 1;
            let rhs = self.binary(level + 1);
            lhs = Tree::Binary(op, Box::new(lhs), Box::new(rhs));
        }
        lhs
    }

    fn unary(&mut self) -> Tree {
        for (sign, op) in [("-", UnaryOp::Neg), ("!", UnaryOp::Not), ("~", UnaryOp::BitNot)] {
            if self.is(sign) {
                self.at += 1;
                return Tree::Unary(op, Box::new(self.unary()));
            }
        }
        let mut tree = self.primary();
        while self.is("[") {
            self.at += 1;
            let index = self.expression();
            self.take("]");
            tree = Tree::Index(Box::new(tree), Box::new(index));
        }
        tree
    }

    fn primary(&mut self) -> Tree {
        let token = self.tokens[self.at].clone();
        self.at += 1;
        match token {
            Token::Float(x) => Tree::Float(x),
            Token::Int(n) => Tree::Int(n),
            Token::Sign("(") => {
                let inner = self.expression();
                self.take(")");
                inner
            }
            Token::Name(name) if name == "true" => Tree::Bool(true),
            Token::Name(name) if name == "false" => Tree::Bool(false),
            Token::Name(name) if self.is("(") => {
                self.at += 1;
                let mut args = vec![self.expression()];
                while self.is(",") {
                    self.at += 1;
                    args.push(self.expression());
                }
                self.take(")");
                Tree::Call(name, args)
            }
            Token::Name(name) => {
                let bound = self.scope.iter().rev().find(|(n, _)| *n == name);
                Tree::Name(bound.map_or(name.clone(), |(_, unique)| unique.clone()))
            }
            other => panic!("unexpected {other:?}"),
        }
    }
}

/// The parameters in order of appearance, with the type that their uses ask
/// for, if any.
fn wanted(tree: &Tree, expected: Option<Ty>, params: &mut Vec<(String, Option<Ty>)>) {
    match tree {
        Tree::Float(_) | Tree::Int(_) | Tree::Bool(_) => {}
        Tree::Name(name) => {
            if name.contains('#') {
                return;
            }
            match params.iter_mut().find(|(n, _)| n == name) {
                Some((_, ty)) => {
                    if ty.is_none() {
                        *ty = expected;
                    }
                }
                None => params.push((name.clone(), expected)),
            }
        }
        Tree::Unary(op, inner) => wanted(
            inner,
            match op {
                UnaryOp::Neg => expected,
                UnaryOp::Not => Some(Ty::Bool),
                UnaryOp::BitNot => Some(Ty::I64),
            },
            params,
        ),
        Tree::Binary(op, lhs, rhs) => {
            let inner = match op {
                BinaryOp::Add | BinaryOp::Sub | BinaryOp::Mul | BinaryOp::Div | BinaryOp::Rem => {
                    expected
                }
                BinaryOp::BitAnd
                | BinaryOp::BitOr
                | BinaryOp::BitXor
                | BinaryOp::Shl
                | BinaryOp::Shr => Some(Ty::I64),
                BinaryOp::And | BinaryOp::Or => Some(Ty::Bool),
                _ => None,
            };
            wanted(lhs, inner, params);
            wanted(rhs, inner, params);
        }
        Tree::Call(_, args) => {
            for arg in args {
                wanted(arg, Some(Ty::F64), params);
            }
        }
        Tree::If(cond, then_, else_) => {
            wanted(cond, Some(Ty::Bool), params);
            wanted(then_, expected, params);
            wanted(else_, expected, params);
        }
        Tree::Let(_, value, body) => {
            wanted(value, None, params);
            wanted(body, expected, params);
        }
        Tree::Index(_, _) => {}
    }
}

fn both(a: Ty, b: Ty) -> Ty {
    if a == b {
        a
    } else {
        Ty::F64
    }
}

fn typed_tree(tree: &Tree, types: &mut Vec<(String, Ty)>) -> Expr {
    let span = Span::new(0, 0);
    let (kind, ty) = match tree {
        Tree::Float(x) => (ExprKind::Float(x.to_bits()), Ty::F64),
        Tree::Int(n) => (ExprKind::Int(*n), Ty::I64),
        Tree::Bool(b) => (ExprKind::Bool(*b), Ty::Bool),
        Tree::Name(name) => {
            let ty = types.iter().rev().find(|(n, _)| n == name).expect("a bound name").1;
            (ExprKind::Ident(name.clone()), ty)
        }
        Tree::Unary(op, inner) => {
            let operand = typed_tree(inner, types);
            let ty = operand.ty;
            (ExprKind::Unary { op: *op, operand: Box::new(operand) }, ty)
        }
        Tree::Binary(op, lhs, rhs) => {
            let lhs = typed_tree(lhs, types);
            let rhs = typed_tree(rhs, types);
            let ty = match op {
                BinaryOp::Eq
                | BinaryOp::Ne
                | BinaryOp::Lt
                | BinaryOp::Le
                | BinaryOp::Gt
                | BinaryOp::Ge => Ty::Bool,
                _ => both(lhs.ty, rhs.ty),
            };
            (ExprKind::Binary { op: *op, lhs: Box::new(lhs), rhs: Box::new(rhs) }, ty)
        }
        Tree::Call(callee, args) => {
            let args = args.iter().map(|a| typed_tree(a, types)).collect();
            (ExprKind::Call { callee: callee.clone(), args }, Ty::F64)
        }
        Tree::If(cond, then_, else_) => {
            let cond = Box::new(typed_tree(cond, types));
            let then_ = Box::new(typed_tree(then_, types));
            let else_ = Box::new(typed_tree(else_, types));
            let ty = both(then_.ty, else_.ty);
            (ExprKind::If { cond, then_, else_ }, ty)
        }
        Tree::Let(name, value, body) => {
            let value = Box::new(typed_tree(value, types));
            types.push((name.clone(), value.ty));
            let body = Box::new(typed_tree(body, types));
            let ty = body.ty;
            (ExprKind::Let { name: name.clone(), value, body }, ty)
        }
        Tree::Index(base, index) => {
            let base = Box::new(typed_tree(base, types));
            let index = Box::new(typed_tree(index, types));
            (ExprKind::Index { base, index }, Ty::F64)
        }
    };
    Expr { kind, ty, span }
}

/// The expression, with every parameter a double unless its uses ask for
/// something else.
fn typed(src: &str) -> TypedAst {
    let mut parser = Parser::new(src);
    let tree = parser.expression();
    assert_eq!(parser.at, parser.tokens.len(), "{src:?} has a rest");
    let mut found = Vec::new();
    wanted(&tree, None, &mut found);
    let params: Vec<(String, Ty)> =
        found.into_iter().map(|(name, ty)| (name, ty.unwrap_or(Ty::F64))).collect();
    let mut types = params.clone();
    let root = typed_tree(&tree, &mut types);
    TypedAst { root, params }
}

fn lowered(src: &str) -> Function {
    lower(&typed(src))
}

// ---------------------------------------------------------------------------
// Doubles.

/// The machine's arithmetic.
fn unit(op: FloatOp, a: u64, b: u64, c: u64) -> u64 {
    let (x, y, z) = (f64::from_bits(a), f64::from_bits(b), f64::from_bits(c));
    let r = match op {
        FloatOp::Add => x + y,
        FloatOp::Sub => x - y,
        FloatOp::Mul => x * y,
        FloatOp::Div => x / y,
        FloatOp::Rem => x % y,
        FloatOp::Fma => x.mul_add(y, z),
        FloatOp::Sqrt => x.sqrt(),
        FloatOp::Floor => x.floor(),
        FloatOp::Ceil => x.ceil(),
        FloatOp::Round => x.round(),
        FloatOp::Trunc => x.trunc(),
        FloatOp::Min => x.min(y),
        FloatOp::Max => x.max(y),
        FloatOp::Sin => x.sin(),
        FloatOp::Cos => x.cos(),
        FloatOp::Tan => x.tan(),
        FloatOp::Exp => x.exp(),
        FloatOp::Log => x.ln(),
        FloatOp::Pow => x.powf(y),
        FloatOp::FromInt => (a as i64) as f64,
        FloatOp::ToInt => return (x as i64) as u64,
    };
    r.to_bits()
}

fn f(x: f64) -> RtValue {
    RtValue::F64(x.to_bits())
}

fn double(v: RtValue) -> f64 {
    f64::from_bits(v.as_f64())
}

fn run(src: &str, args: &[RtValue]) -> RtValue {
    interpret(&lowered(src), args, &unit)
}

fn eval(src: &str, args: &[RtValue]) -> RtValue {
    let function = lowered(src);
    if let Err(e) = verify(&function) {
        panic!("verifier rejected {src:?}: {e:?}");
    }
    interpret(&function, args, &unit)
}

fn error_of(function: &Function) -> VerifyError {
    verify(function).expect_err("the function is not valid")
}

fn texts(function: &Function) -> Vec<String> {
    function
        .insts
        .iter()
        .map(|inst| match inst {
            Inst::ConstF64(bits) => format!("{}", f64::from_bits(*bits)),
            _ => String::new(),
        })
        .collect()
}

// ---------------------------------------------------------------------------
// Rewriting uses

fn hand_built_return_fn() -> Function {
    Function {
        insts: vec![Inst::ConstF64(1.0f64.to_bits()), Inst::ConstF64(2.0f64.to_bits())],
        types: vec![Ty::F64, Ty::F64],
        spans: vec![Span::new(0, 0), Span::new(0, 0)],
        blocks: vec![BlockData {
            insts: vec![Value(0), Value(1)],
            term: Some(Terminator::Return(Value(0))),
            preds: BlockList::new(),
        }],
        entry: Block(0),
        params: vec![],
    }
}

#[test]
fn replaces_return_terminator_operand() {
    let mut f = hand_built_return_fn();
    replace_value_everywhere(&mut f, Value(0), Value(1));
    assert!(matches!(f.blocks[0].term, Some(Terminator::Return(v)) if v == Value(1)));
}

#[test]
fn replaces_branch_terminator_condition() {
    let mut f = hand_built_return_fn();
    f.blocks[0].term =
        Some(Terminator::Branch { cond: Value(0), then_: Block(0), else_: Block(0) });
    replace_value_everywhere(&mut f, Value(0), Value(1));
    assert!(matches!(f.blocks[0].term, Some(Terminator::Branch { cond, .. }) if cond == Value(1)));
}

#[test]
fn still_replaces_instruction_operands_via_existing_replace_in_inst() {
    let mut f = hand_built_return_fn();
    f.insts.push(Inst::Add(Value(0), Value(1)));
    replace_value_everywhere(&mut f, Value(0), Value(1));
    assert!(matches!(f.insts[2], Inst::Add(a, b) if a == Value(1) && b == Value(1)));
}

// ---------------------------------------------------------------------------
// Lowering

#[test]
fn sqrt_of_sum_of_squares_is_exactly_six_instructions() {
    let f = lowered("sqrt(x * x + y * y)");
    assert_eq!(f.insts.len(), 6);
}

#[test]
fn if_produces_four_blocks_with_a_phi() {
    let f = lowered("if x > 0.0 then x else -x");
    assert_eq!(f.blocks.len(), 4);
    let merge = &f.blocks[3];
    let phi_count = merge
        .insts
        .iter()
        .filter(|&&v| matches!(f.insts[v.0 as usize], Inst::Phi { .. }))
        .count();
    assert_eq!(phi_count, 1);
}

#[test]
fn outer_reference_after_shadowing_let_resolves_to_the_parameter() {
    let f = lowered("(let x = 1.0 in x) + x");
    let add = f.insts.iter().find(|i| matches!(i, Inst::Add(_, _))).expect("an Add exists");
    let Inst::Add(_, r) = add else { unreachable!() };
    let param_idx = f.insts.iter().position(|i| matches!(i, Inst::Param { .. })).unwrap() as u32;
    assert_eq!(r.0, param_idx, "the trailing `x` must be the parameter");
}

#[test]
fn every_block_has_a_terminator() {
    let f = lowered("if x > 0.0 then x else -x");
    for b in &f.blocks {
        assert!(b.term.is_some());
    }
}

#[test]
fn int_literal_lowers_to_const_i64() {
    let f = lowered("1");
    assert!(f.insts.iter().any(|i| matches!(i, Inst::ConstI64(1))));
}

#[test]
fn bool_literal_lowers_to_const_bool() {
    let f = lowered("true");
    assert!(f.insts.iter().any(|i| matches!(i, Inst::ConstBool(true))));
}

#[test]
fn logical_not_lowers_to_inst_not() {
    let f = lowered("!true");
    assert!(f.insts.iter().any(|i| matches!(i, Inst::Not(_))));
}

#[test]
fn bitwise_not_lowers_to_inst_not() {
    let f = lowered("~n");
    assert!(f.insts.iter().any(|i| matches!(i, Inst::Not(_))));
}

#[test]
fn sub_lowers_to_inst_sub() {
    let f = lowered("x - 1.0");
    assert!(f.insts.iter().any(|i| matches!(i, Inst::Sub(_, _))));
}

#[test]
fn div_lowers_to_inst_div() {
    let f = lowered("x / 2.0");
    assert!(f.insts.iter().any(|i| matches!(i, Inst::Div(_, _))));
}

#[test]
fn bitand_lowers_to_inst_and() {
    let f = lowered("n & 1");
    assert!(f.insts.iter().any(|i| matches!(i, Inst::And(_, _))));
}

#[test]
fn eq_lowers_to_cmp_eq() {
    let f = lowered("x == 1.0");
    assert!(f.insts.iter().any(|i| matches!(i, Inst::Cmp { op: CmpOp::Eq, .. })));
}

#[test]
fn min_lowers_to_inst_min_with_both_args() {
    let f = lowered("min(x, y)");
    let min = f
        .insts
        .iter()
        .find_map(|i| match i {
            Inst::Min(a, b) => Some((*a, *b)),
            _ => None,
        })
        .expect("a Min inst exists");
    assert_ne!(min.0, min.1, "min's two args must be distinct params");
}

#[test]
fn max_lowers_to_inst_max_with_both_args() {
    let f = lowered("max(x, y)");
    let max = f
        .insts
        .iter()
        .find_map(|i| match i {
            Inst::Max(a, b) => Some((*a, *b)),
            _ => None,
        })
        .expect("a Max inst exists");
    assert_ne!(max.0, max.1, "max's two args must be distinct params");
}

#[test]
fn fma_lowers_to_inst_fma_with_three_distinct_args() {
    let f = lowered("fma(x, y, z)");
    let fma = f
        .insts
        .iter()
        .find_map(|i| match i {
            Inst::Fma { a, b, c } => Some((*a, *b, *c)),
            _ => None,
        })
        .expect("an Fma inst exists");
    assert_ne!(fma.0, fma.1);
    assert_ne!(fma.1, fma.2);
    assert_ne!(fma.0, fma.2);
}

#[test]
fn sin_lowers_to_libm_call() {
    let f = lowered("sin(x)");
    assert!(f.insts.iter().any(|i| matches!(i, Inst::Call { func: LibFunc::Sin, .. })));
}

#[test]
fn mixed_arithmetic_inserts_itof_for_the_integer_operand() {
    let f = lowered("1 + 2.0");
    let itof_count = f.insts.iter().filter(|i| matches!(i, Inst::IToF(_))).count();
    assert_eq!(itof_count, 1, "exactly one operand (the int literal) needs widening");
    let add = f.insts.iter().find(|i| matches!(i, Inst::Add(_, _))).expect("an Add exists");
    let Inst::Add(l, r) = add else { unreachable!() };
    assert_eq!(f.types[l.0 as usize], Ty::F64);
    assert_eq!(f.types[r.0 as usize], Ty::F64);
}

#[test]
fn pure_i64_arithmetic_inserts_no_itof() {
    let f = lowered("1 + 2");
    assert!(!f.insts.iter().any(|i| matches!(i, Inst::IToF(_))));
}

#[test]
fn intrinsic_call_with_int_literal_arg_inserts_itof() {
    let f = lowered("sqrt(4)");
    assert!(f.insts.iter().any(|i| matches!(i, Inst::IToF(_))));
    assert!(f.insts.iter().any(|i| matches!(i, Inst::Sqrt(_))));
}

#[test]
fn let_bound_i64_widens_with_one_itof_when_used_with_f64() {
    let f = lowered("let t = 1 in t + 2.0");
    let itof_count = f.insts.iter().filter(|i| matches!(i, Inst::IToF(_))).count();
    assert_eq!(itof_count, 1);
    let add = f.insts.iter().find(|i| matches!(i, Inst::Add(_, _))).expect("an Add exists");
    let Inst::Add(l, r) = add else { unreachable!() };
    assert_eq!(f.types[l.0 as usize], Ty::F64);
    assert_eq!(f.types[r.0 as usize], Ty::F64);
}

#[test]
fn every_operator_and_intrinsic_lowers_and_verifies() {
    for src in [
        "a | b",
        "a ^ b",
        "a << b",
        "a >> b",
        "x % y",
        "x != y",
        "x <= y",
        "x >= y",
        "(x > 0.0) && (y > 0.0)",
        "(x > 0.0) || (y > 0.0)",
        "floor(x) + ceil(x) + round(x) + trunc(x) + abs(x)",
        "cos(x) + tan(x) + exp(x) + log(x) + pow(x, y)",
        "if x > 0.0 then (if y > 0.0 then 1.0 else 2.0) else 3.0",
    ] {
        assert!(verify(&lowered(src)).is_ok(), "{src}");
    }
}

// ---------------------------------------------------------------------------
// The interpreter

#[test]
fn sqrt_of_three_four_five_triangle() {
    let r = run("sqrt(x * x + y * y)", &[f(3.0), f(4.0)]);
    assert_eq!(r, f(5.0));
}

#[test]
fn known_intrinsic_values() {
    assert_eq!(run("abs(x)", &[f(-2.5)]), f(2.5));
    assert_eq!(run("floor(x)", &[f(2.7)]), f(2.0));
    assert_eq!(run("ceil(x)", &[f(2.1)]), f(3.0));
    assert_eq!(run("min(x, y)", &[f(3.0), f(5.0)]), f(3.0));
    assert_eq!(run("max(x, y)", &[f(3.0), f(5.0)]), f(5.0));
    assert_eq!(run("sin(x)", &[f(0.0)]), f(0.0));
}

#[test]
fn nan_propagates_through_arithmetic() {
    assert!(double(run("x + 1.0", &[f(f64::NAN)])).is_nan());
}

#[test]
fn nan_comparison_takes_else_branch() {
    let r = run("if x > 0.0 then 1.0 else 2.0", &[f(f64::NAN)]);
    assert_eq!(r, f(2.0));
}

#[test]
fn i64_arithmetic_wraps_on_overflow() {
    let r = run("x + y", &[RtValue::I64(i64::MAX), RtValue::I64(1)]);
    assert_eq!(r, RtValue::I64(i64::MIN));
}

#[test]
fn bitwise_shift_matches_spec_example() {
    let r = run("(n * 2654435761) >> 16", &[RtValue::I64(12345)]);
    let expected = (12345i64.wrapping_mul(2654435761)) >> 16;
    assert_eq!(r, RtValue::I64(expected));
}

#[test]
fn negative_zero_division_matches_ieee754() {
    let v = double(run("1.0 / x", &[f(-0.0)]));
    assert!(v.is_infinite() && v.is_sign_negative(), "got {v}");
}

#[test]
fn infinity_propagates_through_arithmetic() {
    let r = run("x / y", &[f(1.0), f(0.0)]);
    assert_eq!(r, f(f64::INFINITY));
    assert!(double(run("x - x", &[f(f64::INFINITY)])).is_nan());
}

#[test]
fn i64_min_negation_wraps_to_itself() {
    let r = run("-x", &[RtValue::I64(i64::MIN)]);
    assert_eq!(r, RtValue::I64(i64::MIN));
}

#[test]
fn i64_min_div_by_neg_one_wraps_without_panicking() {
    let r = run("x / y", &[RtValue::I64(i64::MIN), RtValue::I64(-1)]);
    assert_eq!(r, RtValue::I64(i64::MIN));
}

#[test]
fn min_max_return_non_nan_operand_regardless_of_order() {
    assert_eq!(run("min(x, y)", &[f(f64::NAN), f(1.0)]), f(1.0));
    assert_eq!(run("min(x, y)", &[f(1.0), f(f64::NAN)]), f(1.0));
    assert_eq!(run("max(x, y)", &[f(f64::NAN), f(1.0)]), f(1.0));
    assert_eq!(run("max(x, y)", &[f(1.0), f(f64::NAN)]), f(1.0));
}

#[test]
fn combined_if_let_intrinsics_and_i64_pipeline() {
    let src = "let m = n & 1 in if m == 1 then sqrt(x * x + y * y) else abs(x)";
    let r_then = run(src, &[RtValue::I64(3), f(3.0), f(4.0)]);
    assert_eq!(r_then, f(5.0));
    let r_else = run(src, &[RtValue::I64(4), f(-6.0), f(4.0)]);
    assert_eq!(r_else, f(6.0));
}

#[test]
fn comparisons_of_doubles_follow_their_order() {
    for (a, b) in [(1.0, 2.0), (-1.0, 1.0), (-2.0, -1.0), (0.0, -0.0), (f64::NAN, 1.0)] {
        for (src, expected) in [
            ("x == y", a == b),
            ("x != y", a != b),
            ("x < y", a < b),
            ("x <= y", a <= b),
            ("x > y", a > b),
            ("x >= y", a >= b),
        ] {
            assert_eq!(run(src, &[f(a), f(b)]), RtValue::Bool(expected), "{a} {src} {b}");
        }
    }
}

#[test]
fn shifts_take_the_low_six_bits_of_their_count() {
    let args = [RtValue::I64(-8), RtValue::I64(65)];
    assert_eq!(run("(a << b)", &args), RtValue::I64(-16));
    assert_eq!(run("(a >> b)", &args), RtValue::I64(((-8i64 as u64) >> 1) as i64));
}

#[test]
fn a_bounded_run_says_when_there_is_no_result() {
    let f = lowered("(a / b) & -1");
    let args = |b: i64| [RtValue::I64(7), RtValue::I64(b)];
    assert_eq!(interpret_within(&f, &args(2), &unit, 1), Some(RtValue::I64(3)));
    assert_eq!(interpret_within(&f, &args(0), &unit, 1), None);
    let diamond = lowered("if x > 0.0 then x else -x");
    let one = [RtValue::F64(1.0f64.to_bits())];
    assert_eq!(interpret_within(&diamond, &one, &unit, 2), None);
    assert_eq!(interpret_within(&diamond, &one, &unit, 3), Some(one[0]));
    assert_eq!(interpret_within(&diamond, &[], &unit, 3), None);
}

#[test]
fn a_bounded_run_says_how_it_ended() {
    let args = |b: i64| [RtValue::I64(7), RtValue::I64(b)];
    let quotient = lowered("(a / b) & -1");
    let remainder = lowered("(a % b) & -1");
    assert_eq!(outcome_within(&quotient, &args(2), &unit, 1), Outcome::Returned(RtValue::I64(3)));
    assert_eq!(outcome_within(&remainder, &args(2), &unit, 1), Outcome::Returned(RtValue::I64(1)));
    assert_eq!(outcome_within(&quotient, &args(0), &unit, 1), Outcome::DividedByZero);
    assert_eq!(outcome_within(&remainder, &args(0), &unit, 1), Outcome::RemainderByZero);
    assert_eq!(outcome_within(&quotient, &args(0), &unit, 0), Outcome::Unfinished);
}

// ---------------------------------------------------------------------------
// From source to a result

#[test]
fn straight_line_arithmetic() {
    assert_eq!(eval("3.14159 * r * r", &[f(2.0)]), f(3.14159 * 2.0 * 2.0));
}

#[test]
fn if_and_let() {
    let r = eval("let t = a - b in if t > 0.0 then t else -t", &[f(3.0), f(5.0)]);
    assert_eq!(r, f(2.0));
}

#[test]
fn intrinsic_sqrt() {
    assert_eq!(eval("sqrt(x * x + y * y)", &[f(3.0), f(4.0)]), f(5.0));
}

#[test]
fn libm_call() {
    let r = eval("sin(x) + cos(y)", &[f(0.0), f(0.0)]);
    assert_eq!(r, f(0.0f64.sin() + 0.0f64.cos()));
}

#[test]
fn integer_and_bitwise_expression() {
    let r = eval("(n * 2654435761) >> 16", &[RtValue::I64(999)]);
    assert_eq!(r, RtValue::I64((999i64.wrapping_mul(2654435761)) >> 16));
}

#[test]
fn nan_producing_expression() {
    assert!(double(eval("x / y", &[f(0.0), f(0.0)])).is_nan());
}

#[test]
fn mixed_i64_f64_widening_end_to_end() {
    let r = eval("x + 1", &[f(2.5)]);
    assert_eq!(r, f(3.5));
}

// ---------------------------------------------------------------------------
// Printing

#[test]
fn prints_one_line_per_instruction_plus_terminator() {
    let f = lowered("sqrt(x * x + y * y)");
    let text = print_function(&f, &texts(&f));
    assert_eq!(text.lines().count(), 7);
    assert!(text.contains("sqrt"));
    assert!(text.contains("ret"));
}

#[test]
fn prints_blocks_phis_constants_and_branches() {
    let f = lowered("if x > 2.5 then x else -x");
    assert_eq!(
        print_function(&f, &texts(&f)),
        "block0:\n  v0 = param 0 : F64\n  v1 = const.f64 2.5\n  v2 = cmp.Gt v0, v1\n  \
         branch v2, block1, block2\nblock1:\n  jump block3\nblock2:\n  v3 = neg v0\n  \
         jump block3\nblock3:\n  v4 = phi [block1 -> v0, block2 -> v3]\n  ret v4\n"
    );
    let g = lowered("~n + -7 + pow(2.0, 3.0)");
    let text = print_function(&g, &texts(&g));
    assert!(text.contains("const.i64 7"));
    assert!(text.contains("call.Pow v"));
    let mut h = hand_built_return_fn();
    h.insts[0] = Inst::ConstI64(i64::MIN);
    h.insts[1] = Inst::ConstBool(true);
    h.blocks[0].term = None;
    assert_eq!(
        print_function(&h, &texts(&h)),
        "  v0 = const.i64 -9223372036854775808\n  v1 = const.bool true\n  <no terminator>\n"
    );
}

// ---------------------------------------------------------------------------
// The verifier

#[test]
fn straight_line_expression_verifies() {
    let f = lowered("sqrt(x * x + y * y)");
    assert!(verify(&f).is_ok());
}

#[test]
fn if_expression_verifies() {
    let f = lowered("if x > 0.0 then x else -x");
    assert!(verify(&f).is_ok());
}

#[test]
fn rejects_use_before_def() {
    let mut f = lowered("x * x");
    let bad = Value(f.insts.len() as u32);
    let last = f.insts.len() - 1;
    if let Inst::Mul(_, b) = &mut f.insts[last] {
        *b = bad;
    }
    assert!(verify(&f).is_err());
}

#[test]
fn rejects_same_block_use_before_definition_even_when_index_exists() {
    let mut f = lowered("x + 1.0");
    let last = f.blocks[0].insts.len() - 1;
    let future = f.blocks[0].insts[last];
    if let Inst::Add(lhs, _) = &mut f.insts[future.0 as usize] {
        *lhs = future;
    }
    assert!(error_of(&f).message().contains("used before its definition"));
}

#[test]
fn rejects_duplicate_instruction_placement() {
    let mut f = lowered("x + 1.0");
    let value = f.blocks[0].insts[0];
    f.blocks[0].insts.push(value);
    assert!(error_of(&f).message().contains("listed in both"));
}

#[test]
fn rejects_out_of_range_instruction_reference_without_panicking() {
    let mut f = lowered("x + 1.0");
    f.blocks[0].insts[0] = Value(u32::MAX);
    assert!(error_of(&f).message().contains("outside the instruction table"));
}

#[test]
fn rejects_mismatched_instruction_type_table() {
    let mut f = lowered("x + 1.0");
    f.types[0] = Ty::I64;
    assert!(error_of(&f).message().contains("result type"));
}

#[test]
fn rejects_phi_with_wrong_operand_count() {
    let mut f = lowered("if x > 0.0 then x else -x");
    let phi_idx = f.insts.iter().position(|i| matches!(i, Inst::Phi { .. })).unwrap();
    if let Inst::Phi { incoming } = &mut f.insts[phi_idx] {
        let mut shorter = EdgeList::new();
        shorter.push(incoming.get(0));
        *incoming = shorter;
    }
    assert!(verify(&f).is_err());
}

#[test]
fn dominance_rejects_a_value_used_outside_its_defining_branch() {
    let mut f = lowered("if x > 0.0 then x else -x");
    let else_val = *f.blocks[2].insts.first().expect("else block has at least one inst");
    let merge_idx = f.blocks.len() - 1;
    f.blocks[merge_idx].term = Some(Terminator::Return(else_val));
    assert!(verify(&f).is_err());
}

#[test]
fn rejects_branch_condition_that_does_not_dominate_its_block() {
    let mut f = lowered("if x > 0.0 then x else -x");
    let else_val = *f.blocks[2].insts.first().expect("else block has at least one inst");
    let Some(Terminator::Branch { then_, else_, .. }) = f.blocks[0].term else {
        panic!("entry block must end in a Branch");
    };
    f.blocks[0].term = Some(Terminator::Branch { cond: else_val, then_, else_ });
    assert!(verify(&f).is_err());
}

#[test]
fn names_what_is_wrong_with_a_function() {
    let mut f = hand_built_return_fn();
    f.entry = Block(7);
    assert_eq!(error_of(&f), VerifyError::EntryOutOfRange { entry: Block(7) });
    let mut f = hand_built_return_fn();
    f.types.pop();
    assert_eq!(error_of(&f), VerifyError::TypeTableLength { insts: 2, types: 1 });
    let mut f = hand_built_return_fn();
    f.spans.pop();
    assert_eq!(error_of(&f), VerifyError::SpanTableLength { insts: 2, spans: 1 });
    let mut f = hand_built_return_fn();
    f.blocks.clear();
    assert_eq!(error_of(&f), VerifyError::NoBlocks);
    let mut f = hand_built_return_fn();
    f.blocks[0].insts.push(Value(9));
    assert_eq!(
        error_of(&f),
        VerifyError::ValueOutsideTable { block: Block(0), value: Value(9) }
    );
    let mut f = hand_built_return_fn();
    f.blocks[0].term = None;
    assert!(verify(&f).is_err());
}

// ---------------------------------------------------------------------------
// Dominators

#[test]
fn the_entry_of_a_diamond_dominates_the_merge_and_its_arms_do_not() {
    let f = lowered("if x > 0.0 then x else -x");
    let idom = compute_dominators(&f);
    assert_eq!(idom[3], Some(Block(0)));
    assert!(dominates(&idom, Block(0), Block(3)));
    assert!(dominates(&idom, Block(3), Block(3)));
    assert!(!dominates(&idom, Block(1), Block(3)));
    assert!(!dominates(&idom, Block(2), Block(3)));
    assert_eq!(reverse_postorder(&f).first(), Some(&Block(0)));
    assert_eq!(reverse_postorder(&f).len(), 4);
}

/// A function of the given edges: a block with one target jumps to it, one with
/// two branches, one with none returns.
fn graph(targets: &[&[u32]]) -> forge::ir::Function {
    let mut f = lowered("x");
    let ret = match f.blocks[0].term {
        Some(Terminator::Return(v)) => v,
        _ => unreachable!(),
    };
    while f.blocks.len() < targets.len() {
        f.blocks.push(BlockData {
            insts: Vec::new(),
            term: None,
            preds: BlockList::new(),
        });
    }
    for (b, to) in targets.iter().enumerate() {
        f.blocks[b].term = Some(match to {
            [] => Terminator::Return(ret),
            [t] => Terminator::Jump(Block(*t)),
            [t, e, ..] => {
                Terminator::Branch { cond: ret, then_: Block(*t), else_: Block(*e) }
            }
        });
        for t in to.iter() {
            f.blocks[*t as usize].preds.push(Block(b as u32));
        }
    }
    f
}

#[test]
fn the_dominators_of_loops_are_found() {
    // 0 -> 1 <-> 2, 1 -> 3
    let f = graph(&[&[1], &[2, 3], &[1], &[]]);
    assert_eq!(
        compute_dominators(&f),
        vec![Some(Block(0)), Some(Block(0)), Some(Block(1)), Some(Block(1))]
    );
    // Two loops that share their blocks and are entered at either.
    let f = graph(&[&[1, 2], &[2], &[1, 3], &[2, 4], &[]]);
    assert_eq!(
        compute_dominators(&f),
        vec![Some(Block(0)), Some(Block(0)), Some(Block(0)), Some(Block(2)), Some(Block(3))]
    );
}

#[test]
fn the_parent_of_a_block_moves_up_in_a_later_round() {
    // A graph on which one round is not enough.
    let f = graph(&[&[5, 4], &[2], &[3, 1], &[2], &[2, 3], &[1]]);
    assert_eq!(
        compute_dominators(&f),
        vec![
            Some(Block(0)),
            Some(Block(0)),
            Some(Block(0)),
            Some(Block(0)),
            Some(Block(0)),
            Some(Block(0))
        ]
    );
}

#[test]
fn a_block_that_cannot_be_reached_has_no_dominator() {
    let f = graph(&[&[1], &[], &[1]]);
    assert_eq!(compute_dominators(&f), vec![Some(Block(0)), Some(Block(0)), None]);
    assert_eq!(reverse_postorder(&f), vec![Block(0), Block(1)]);
}

// ---------------------------------------------------------------------------
// The builder

fn span() -> Span {
    Span::new(0, 0)
}

#[test]
fn a_read_gives_back_what_was_written_in_the_block() {
    let mut b = Builder::new();
    let entry = b.create_block();
    b.seal_block(entry);
    let one = b.emit(entry, Inst::ConstI64(1), Ty::I64, span());
    let two = b.emit(entry, Inst::ConstI64(2), Ty::I64, span());
    b.write_variable("x", entry, one);
    b.write_variable("x", entry, two);
    b.write_variable("y", entry, one);
    assert_eq!(b.read_variable("x", entry, Ty::I64), two);
    assert_eq!(b.read_variable("y", entry, Ty::I64), one);
}

#[test]
fn a_block_with_one_predecessor_reads_through_it() {
    let mut b = Builder::new();
    let entry = b.create_block();
    let next = b.create_block();
    b.seal_block(entry);
    let one = b.emit(entry, Inst::ConstI64(1), Ty::I64, span());
    b.write_variable("x", entry, one);
    b.terminate(entry, Terminator::Jump(next));
    b.add_pred(next, entry);
    b.seal_block(next);
    assert_eq!(b.read_variable("x", next, Ty::I64), one);
    assert_eq!(b.f.insts.len(), 1);
}

#[test]
fn differing_writes_meet_in_a_phi_and_equal_ones_do_not() {
    let mut b = Builder::new();
    let entry = b.create_block();
    let left = b.create_block();
    let right = b.create_block();
    let merge = b.create_block();
    b.seal_block(entry);
    let cond = b.emit(entry, Inst::ConstBool(true), Ty::Bool, span());
    b.terminate(entry, Terminator::Branch { cond, then_: left, else_: right });
    b.add_pred(left, entry);
    b.add_pred(right, entry);
    b.seal_block(left);
    b.seal_block(right);
    let one = b.emit(left, Inst::ConstI64(1), Ty::I64, span());
    let two = b.emit(right, Inst::ConstI64(2), Ty::I64, span());
    b.write_variable("x", left, one);
    b.write_variable("x", right, two);
    b.write_variable("same", left, cond);
    b.write_variable("same", right, cond);
    b.terminate(left, Terminator::Jump(merge));
    b.terminate(right, Terminator::Jump(merge));
    b.add_pred(merge, left);
    b.add_pred(merge, right);
    b.seal_block(merge);
    let x = b.read_variable("x", merge, Ty::I64);
    match &b.f.insts[x.0 as usize] {
        Inst::Phi { incoming } => {
            assert_eq!(incoming.len(), 2);
            assert_eq!(incoming.get(0), (left, one));
            assert_eq!(incoming.get(1), (right, two));
        }
        other => panic!("expected a phi, found {other:?}"),
    }
    let same = b.read_variable("same", merge, Ty::Bool);
    assert!(matches!(b.f.insts[same.0 as usize], Inst::Phi { .. }));
    assert_eq!(b.read_variable("same", merge, Ty::Bool), cond);
    b.terminate(merge, Terminator::Return(x));
    assert!(verify(&b.f).is_ok());
}

#[test]
fn an_open_block_completes_its_phis_when_it_is_sealed() {
    let mut b = Builder::new();
    let entry = b.create_block();
    let head = b.create_block();
    b.seal_block(entry);
    let one = b.emit(entry, Inst::ConstI64(1), Ty::I64, span());
    b.write_variable("x", entry, one);
    b.terminate(entry, Terminator::Jump(head));
    b.add_pred(head, entry);
    let early = b.read_variable("x", head, Ty::I64);
    assert!(matches!(b.f.insts[early.0 as usize], Inst::Phi { .. }));
    let user = b.emit(head, Inst::Neg(early), Ty::I64, span());
    b.seal_block(head);
    assert!(matches!(b.f.insts[user.0 as usize], Inst::Neg(v) if v == one));
    assert_eq!(b.read_variable("x", head, Ty::I64), one);
}

// ---------------------------------------------------------------------------
// Lists

#[test]
fn lists_keep_their_items_in_order() {
    let mut values = ValueList::new();
    let mut blocks = BlockList::new();
    let mut edges = EdgeList::new();
    for i in 0..5u32 {
        values.push(Value(i));
        blocks.push(Block(i + 10));
        edges.push((Block(i), Value(i * 2)));
    }
    assert_eq!((values.len(), blocks.len(), edges.len()), (5, 5, 5));
    assert_eq!(values.get(3), Value(3));
    assert_eq!(blocks.get(4), Block(14));
    assert_eq!(edges.get(2), (Block(2), Value(4)));
    let call = Inst::Call { func: LibFunc::Pow, args: values };
    assert_eq!(uses_of(&call).len(), 5);
}

// ---------------------------------------------------------------------------
// Vectorized programs

/// `@vectorize out[i, ..] = body`: a name that is indexed is a column.
fn vectorized(src: &str) -> TypedArray {
    let mut parser = Parser::new(src);
    parser.take("@");
    assert!(parser.word("vectorize"));
    let output = parser.name();
    parser.take("[");
    let mut indices = vec![parser.name()];
    while parser.is(",") {
        parser.at += 1;
        indices.push(parser.name());
    }
    parser.take("]");
    parser.take("=");
    let tree = parser.expression();
    let mut params: Vec<(String, ArrayTy)> = Vec::new();
    columns(&tree, &indices, false, &mut params);
    let mut types: Vec<(String, Ty)> = params
        .iter()
        .map(|(name, ty)| {
            let ty = match ty {
                ArrayTy::I64 => Ty::I64,
                _ => Ty::F64,
            };
            (name.clone(), ty)
        })
        .collect();
    for index in &indices {
        types.push((index.clone(), Ty::I64));
    }
    let root = typed_tree(&tree, &mut types);
    TypedArray { root, params, output, index: indices[0].clone(), indices }
}

fn columns(tree: &Tree, indices: &[String], inside: bool, params: &mut Vec<(String, ArrayTy)>) {
    let mut note = |name: &String, ty: ArrayTy| {
        if !indices.contains(name) && !params.iter().any(|(n, _)| n == name) {
            params.push((name.clone(), ty));
        }
    };
    match tree {
        Tree::Name(name) => note(name, if inside { ArrayTy::I64 } else { ArrayTy::F64 }),
        Tree::Index(base, index) => {
            if let Tree::Name(name) = &**base {
                note(name, ArrayTy::ArrayF64);
            }
            columns(index, indices, true, params);
        }
        Tree::Binary(_, lhs, rhs) => {
            columns(lhs, indices, inside, params);
            columns(rhs, indices, inside, params);
        }
        Tree::Unary(_, inner) => columns(inner, indices, inside, params),
        _ => {}
    }
}

#[test]
fn lowers_vectorize_to_explicit_memory_loop() {
    let function = lower_array(&vectorized("@vectorize result[i] = a[i] * b[i] + c[i]")).unwrap();
    assert_eq!(function.blocks.len(), 3);
    assert_eq!(function.entry, Block(0));
    assert!(matches!(
        function.blocks[0].term,
        ArrayTerminator::LoopIfLess {
            bound: ArrayBound::InputLength,
            body: Block(1),
            exit: Block(2),
            ..
        }
    ));
    assert_eq!(
        function.blocks[1]
            .insts
            .iter()
            .filter(|inst| matches!(inst, ArrayInst::Load { .. }))
            .count(),
        3
    );
    assert!(matches!(
        function.blocks[1].insts.last(),
        Some(ArrayInst::Store { output, .. }) if output == "result"
    ));
    assert_eq!(function.element.params.len(), 3);
}

#[test]
fn lowers_scalar_broadcast_without_an_array_load() {
    let function = lower_array(&vectorized("@vectorize result[i] = a[i] + scale")).unwrap();
    assert_eq!(
        function.param_kinds,
        vec![ArrayParamKind::Column, ArrayParamKind::ScalarBroadcast]
    );
    assert_eq!(
        function.blocks[1]
            .insts
            .iter()
            .filter(|inst| matches!(inst, ArrayInst::Load { .. }))
            .count(),
        1
    );
}

#[test]
fn lowers_constant_index_offsets_into_verified_loads() {
    let function = lower_array(&vectorized(
        "@vectorize result[i] = left[i + 2] + right[i - 1] + left[i + 2]",
    ))
    .unwrap();
    let offsets = function.blocks[1]
        .insts
        .iter()
        .filter_map(|inst| match inst {
            ArrayInst::Load { column, offset, .. } => Some((*column, *offset)),
            _ => None,
        })
        .collect::<Vec<_>>();
    assert_eq!(offsets, vec![(0, 2), (1, -1), (0, 2)]);
}

#[test]
fn rejects_dynamic_index_offsets() {
    let typed = vectorized("@vectorize result[i] = a[i + shift]");
    assert!(lower_array(&typed).is_err());
}

#[test]
fn directs_nested_declarations_to_nested_evaluation() {
    let typed = vectorized("@vectorize result[i, j] = a[i + j]");
    let error = lower_array(&typed).err().unwrap();
    assert!(error.message().contains("nested-array evaluation entry point"));
}

#[test]
fn a_vectorized_element_computes_what_its_expression_says() {
    let function = lower_array(&vectorized("@vectorize r[i] = a[i] * b[i + 1] + bias")).unwrap();
    assert!(verify_array(&function).is_ok());
    let r = interpret(&function.element, &[f(3.0), f(4.0), f(0.5)], &unit);
    assert_eq!(r, f(12.5));
}

#[test]
fn a_broken_loop_is_refused() {
    let make = || lower_array(&vectorized("@vectorize r[i] = a[i] + b[i]")).unwrap();
    let mut function = make();
    function.blocks.pop();
    assert!(matches!(verify_array(&function), Err(ArrayError::LoopShape)));
    let mut function = make();
    function.param_kinds.pop();
    assert!(matches!(verify_array(&function), Err(ArrayError::ParamMetadata)));
    let mut function = make();
    function.blocks[1].insts.pop();
    assert!(verify_array(&function).is_err());
    let mut function = make();
    function.blocks[1].insts.remove(0);
    assert!(verify_array(&function).is_err());
    let mut function = make();
    function.element.blocks[0].term = None;
    assert!(matches!(verify_array(&function), Err(ArrayError::Element(_))));
}

#[test]
fn what_can_be_lowered() {
    let leaf = |kind: ExprKind, ty: Ty| Expr { kind, ty, span: Span { start: 0, end: 1 } };
    let call = |name: &str, count: usize| {
        let args = (0..count).map(|_| leaf(ExprKind::Float(0), Ty::F64)).collect();
        let root = leaf(ExprKind::Call { callee: name.to_string(), args }, Ty::F64);
        TypedAst { root, params: Vec::new() }
    };
    assert!(can_lower(&typed("if x > 1.0 then sqrt(x) else -x")));
    assert!(can_lower(&call("pow", 2)));
    assert!(can_lower(&call("fma", 3)));
    assert!(!can_lower(&call("pow", 1)));
    assert!(!can_lower(&call("sqrt", 2)));
    assert!(!can_lower(&call("gamma", 1)));
    let column = Box::new(leaf(ExprKind::Ident("a".to_string()), Ty::F64));
    let index = Box::new(leaf(ExprKind::Int(0), Ty::I64));
    let root = leaf(ExprKind::Index { base: column, index }, Ty::F64);
    assert!(!can_lower(&TypedAst { root, params: Vec::new() }));
}

#[test]
fn variables_are_found_across_nested_conditionals() {
    // Reading `x` and `t` after the conditionals goes through two merges.
    let src = "let t = x * 2.0 in \
        (if x > 0.0 then (if t > 4.0 then t else x) else -t) + (x - t)";
    assert_eq!(eval(src, &[f(3.0)]), f(6.0 + (3.0 - 6.0)));
    assert_eq!(eval(src, &[f(1.0)]), f(1.0 + (1.0 - 2.0)));
    assert_eq!(eval(src, &[f(-1.0)]), f(2.0 + (-1.0 + 2.0)));
}

#[test]
fn the_first_defect_is_the_one_reported() {
    let mut f = lowered("if x > 0.0 then x else -x");
    f.types[0] = Ty::I64;
    assert_eq!(
        error_of(&f).message(),
        "instruction Value(0) has result type I64, expected F64"
    );
    let last = f.blocks.len() - 1;
    f.blocks[last].term = None;
    assert_eq!(error_of(&f).message(), format!("block Block({last}) has no terminator"));
    let first = f.blocks[0].insts[0];
    f.blocks[last].insts.push(first);
    assert_eq!(
        error_of(&f).message(),
        format!("instruction value Value(0) is listed in both Block(0) and Block({last})")
    );
    f.types.pop();
    let n = f.insts.len();
    assert_eq!(
        error_of(&f).message(),
        format!(
            "instruction/type table length mismatch: {n} instruction(s), {} type(s)",
            n - 1
        )
    );
}
