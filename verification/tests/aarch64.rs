//! The AArch64 backend. Emitted code is run by a small model of the machine.
use forge::aarch64::encode::{
    add_reg, and_reg, blr, cmp_reg, encode_add_sub_imm, encode_branch, encode_branch_cond,
    encode_branch_link, encode_ldr_literal_d, encode_logical_imm, fadd_d, fcmp_d, fmadd_d, fmax_d,
    fmin_d, fmov_d, fsqrt_d, ldr, ldr_d, movz, sdiv, sp, str_, str_d, sub_reg, xzr, Assembler,
    Condition, Gpr,
};
use forge::aarch64::error::EmitError;
use forge::aarch64::functions::{backend_info, emit_f64, emit_i64, is_native_target};
use forge::aarch64::spill::LibmAddresses;
use forge::collections::BlockList;
use forge::float::FloatOp;
use forge::interp::{interpret, RtValue};
use forge::ir::{Block, BlockData, Function, Inst, Span, Terminator, Ty, Value};
use forge::lower::{lower, BinaryOp, Expr, ExprKind, TypedAst, UnaryOp};

// ---------------------------------------------------------------------------
// A reader of expressions: enough of a parser and of type inference to write
// the inputs below as text.

#[derive(Clone, Debug, PartialEq)]
enum Token {
    Float(f64),
    Int(i64),
    Name(String),
    Sign(&'static str),
}

const SIGNS: [&str; 27] = [
    "<<", ">>", "<=", ">=", "==", "!=", "&&", "||", "+", "-", "*", "/", "%", "(", ")", "[", "]", ",",
    "<", ">", "=", "&", "|", "^", "~", "!", "@",
];

fn tokens(src: &str) -> Vec<Token> {
    let chars: Vec<char> = src.chars().collect();
    let mut out = Vec::new();
    let mut i = 0;
    while i < chars.len() {
        let c = chars[i];
        if c.is_whitespace() {
            i += 1;
        } else if c.is_ascii_digit() {
            let start = i;
            while i < chars.len() && (chars[i].is_ascii_digit() || chars[i] == '.') {
                i += 1;
            }
            let text: String = chars[start..i].iter().collect();
            if text.contains('.') {
                out.push(Token::Float(text.parse().unwrap()));
            } else {
                out.push(Token::Int(text.parse().unwrap()));
            }
        } else if c.is_ascii_alphabetic() || c == '_' {
            let start = i;
            while i < chars.len() && (chars[i].is_ascii_alphanumeric() || chars[i] == '_') {
                i += 1;
            }
            out.push(Token::Name(chars[start..i].iter().collect()));
        } else {
            let rest: String = chars[i..].iter().collect();
            let sign = SIGNS.iter().find(|s| rest.starts_with(**s)).expect("a known sign");
            out.push(Token::Sign(sign));
            i += sign.len();
        }
    }
    out
}

#[derive(Clone, Debug)]
enum Tree {
    Float(f64),
    Int(i64),
    Bool(bool),
    Name(String),
    Unary(UnaryOp, Box<Tree>),
    Binary(BinaryOp, Box<Tree>, Box<Tree>),
    Call(String, Vec<Tree>),
    If(Box<Tree>, Box<Tree>, Box<Tree>),
    Let(String, Box<Tree>, Box<Tree>),
    Index(Box<Tree>, Box<Tree>),
}

struct Parser {
    tokens: Vec<Token>,
    at: usize,
    scope: Vec<(String, String)>,
    lets: usize,
}

fn binary_op(sign: &str) -> Option<(u8, BinaryOp)> {
    Some(match sign {
        "||" => (1, BinaryOp::Or),
        "&&" => (2, BinaryOp::And),
        "|" => (3, BinaryOp::BitOr),
        "^" => (4, BinaryOp::BitXor),
        "&" => (5, BinaryOp::BitAnd),
        "==" => (6, BinaryOp::Eq),
        "!=" => (6, BinaryOp::Ne),
        "<" => (7, BinaryOp::Lt),
        "<=" => (7, BinaryOp::Le),
        ">" => (7, BinaryOp::Gt),
        ">=" => (7, BinaryOp::Ge),
        "<<" => (8, BinaryOp::Shl),
        ">>" => (8, BinaryOp::Shr),
        "+" => (9, BinaryOp::Add),
        "-" => (9, BinaryOp::Sub),
        "*" => (10, BinaryOp::Mul),
        "/" => (10, BinaryOp::Div),
        "%" => (10, BinaryOp::Rem),
        _ => return None,
    })
}

impl Parser {
    fn new(src: &str) -> Parser {
        Parser { tokens: tokens(src), at: 0, scope: Vec::new(), lets: 0 }
    }

    fn is(&self, sign: &str) -> bool {
        matches!(self.tokens.get(self.at), Some(Token::Sign(s)) if *s == sign)
    }

    fn word(&mut self, word: &str) -> bool {
        let found = self.tokens.get(self.at) == Some(&Token::Name(word.to_string()));
        if found {
            self.at += 1;
        }
        found
    }

    fn take(&mut self, sign: &str) {
        assert!(self.is(sign), "expected {sign} at {}", self.at);
        self.at += 1;
    }

    fn name(&mut self) -> String {
        match self.tokens[self.at].clone() {
            Token::Name(name) => {
                self.at += 1;
                name
            }
            other => panic!("expected a name, found {other:?}"),
        }
    }

    fn expression(&mut self) -> Tree {
        if self.word("if") {
            let cond = self.expression();
            assert!(self.word("then"));
            let then_ = self.expression();
            assert!(self.word("else"));
            let else_ = self.expression();
            return Tree::If(Box::new(cond), Box::new(then_), Box::new(else_));
        }
        if self.word("let") {
            let name = self.name();
            self.take("=");
            let value = self.expression();
            assert!(self.word("in"));
            self.lets += 1;
            let unique = format!("{name}#{}", self.lets);
            self.scope.push((name, unique.clone()));
            let body = self.expression();
            self.scope.pop();
            return Tree::Let(unique, Box::new(value), Box::new(body));
        }
        self.binary(1)
    }

    fn binary(&mut self, least: u8) -> Tree {
        let mut lhs = self.unary();
        while let Some(Token::Sign(sign)) = self.tokens.get(self.at) {
            let Some((level, op)) = binary_op(sign) else {
                break;
            };
            if level < least {
                break;
            }
            self.at += 1;
            let rhs = self.binary(level + 1);
            lhs = Tree::Binary(op, Box::new(lhs), Box::new(rhs));
        }
        lhs
    }

    fn unary(&mut self) -> Tree {
        for (sign, op) in [("-", UnaryOp::Neg), ("!", UnaryOp::Not), ("~", UnaryOp::BitNot)] {
            if self.is(sign) {
                self.at += 1;
                return Tree::Unary(op, Box::new(self.unary()));
            }
        }
        let mut tree = self.primary();
        while self.is("[") {
            self.at += 1;
            let index = self.expression();
            self.take("]");
            tree = Tree::Index(Box::new(tree), Box::new(index));
        }
        tree
    }

    fn primary(&mut self) -> Tree {
        let token = self.tokens[self.at].clone();
        self.at += 1;
        match token {
            Token::Float(x) => Tree::Float(x),
            Token::Int(n) => Tree::Int(n),
            Token::Sign("(") => {
                let inner = self.expression();
                self.take(")");
                inner
            }
            Token::Name(name) if name == "true" => Tree::Bool(true),
            Token::Name(name) if name == "false" => Tree::Bool(false),
            Token::Name(name) if self.is("(") => {
                self.at += 1;
                let mut args = vec![self.expression()];
                while self.is(",") {
                    self.at += 1;
                    args.push(self.expression());
                }
                self.take(")");
                Tree::Call(name, args)
            }
            Token::Name(name) => {
                let bound = self.scope.iter().rev().find(|(n, _)| *n == name);
                Tree::Name(bound.map_or(name.clone(), |(_, unique)| unique.clone()))
            }
            other => panic!("unexpected {other:?}"),
        }
    }
}

/// The parameters in order of appearance, with the type that their uses ask
/// for, if any.
fn wanted(tree: &Tree, expected: Option<Ty>, params: &mut Vec<(String, Option<Ty>)>) {
    match tree {
        Tree::Float(_) | Tree::Int(_) | Tree::Bool(_) => {}
        Tree::Name(name) => {
            if name.contains('#') {
                return;
            }
            match params.iter_mut().find(|(n, _)| n == name) {
                Some((_, ty)) => {
                    if ty.is_none() {
                        *ty = expected;
                    }
                }
                None => params.push((name.clone(), expected)),
            }
        }
        Tree::Unary(op, inner) => wanted(
            inner,
            match op {
                UnaryOp::Neg => expected,
                UnaryOp::Not => Some(Ty::Bool),
                UnaryOp::BitNot => Some(Ty::I64),
            },
            params,
        ),
        Tree::Binary(op, lhs, rhs) => {
            let inner = match op {
                BinaryOp::Add | BinaryOp::Sub | BinaryOp::Mul | BinaryOp::Div | BinaryOp::Rem => {
                    expected
                }
                BinaryOp::BitAnd
                | BinaryOp::BitOr
                | BinaryOp::BitXor
                | BinaryOp::Shl
                | BinaryOp::Shr => Some(Ty::I64),
                BinaryOp::And | BinaryOp::Or => Some(Ty::Bool),
                _ => None,
            };
            wanted(lhs, inner, params);
            wanted(rhs, inner, params);
        }
        Tree::Call(_, args) => {
            for arg in args {
                wanted(arg, Some(Ty::F64), params);
            }
        }
        Tree::If(cond, then_, else_) => {
            wanted(cond, Some(Ty::Bool), params);
            wanted(then_, expected, params);
            wanted(else_, expected, params);
        }
        Tree::Let(_, value, body) => {
            wanted(value, None, params);
            wanted(body, expected, params);
        }
        Tree::Index(_, _) => {}
    }
}

fn both(a: Ty, b: Ty) -> Ty {
    if a == b {
        a
    } else {
        Ty::F64
    }
}

fn typed_tree(tree: &Tree, types: &mut Vec<(String, Ty)>) -> Expr {
    let span = Span::new(0, 0);
    let (kind, ty) = match tree {
        Tree::Float(x) => (ExprKind::Float(x.to_bits()), Ty::F64),
        Tree::Int(n) => (ExprKind::Int(*n), Ty::I64),
        Tree::Bool(b) => (ExprKind::Bool(*b), Ty::Bool),
        Tree::Name(name) => {
            let ty = types.iter().rev().find(|(n, _)| n == name).expect("a bound name").1;
            (ExprKind::Ident(name.clone()), ty)
        }
        Tree::Unary(op, inner) => {
            let operand = typed_tree(inner, types);
            let ty = operand.ty;
            (ExprKind::Unary { op: *op, operand: Box::new(operand) }, ty)
        }
        Tree::Binary(op, lhs, rhs) => {
            let lhs = typed_tree(lhs, types);
            let rhs = typed_tree(rhs, types);
            let ty = match op {
                BinaryOp::Eq
                | BinaryOp::Ne
                | BinaryOp::Lt
                | BinaryOp::Le
                | BinaryOp::Gt
                | BinaryOp::Ge => Ty::Bool,
                _ => both(lhs.ty, rhs.ty),
            };
            (ExprKind::Binary { op: *op, lhs: Box::new(lhs), rhs: Box::new(rhs) }, ty)
        }
        Tree::Call(callee, args) => {
            let args = args.iter().map(|a| typed_tree(a, types)).collect();
            (ExprKind::Call { callee: callee.clone(), args }, Ty::F64)
        }
        Tree::If(cond, then_, else_) => {
            let cond = Box::new(typed_tree(cond, types));
            let then_ = Box::new(typed_tree(then_, types));
            let else_ = Box::new(typed_tree(else_, types));
            let ty = both(then_.ty, else_.ty);
            (ExprKind::If { cond, then_, else_ }, ty)
        }
        Tree::Let(name, value, body) => {
            let value = Box::new(typed_tree(value, types));
            types.push((name.clone(), value.ty));
            let body = Box::new(typed_tree(body, types));
            let ty = body.ty;
            (ExprKind::Let { name: name.clone(), value, body }, ty)
        }
        Tree::Index(base, index) => {
            let base = Box::new(typed_tree(base, types));
            let index = Box::new(typed_tree(index, types));
            (ExprKind::Index { base, index }, Ty::F64)
        }
    };
    Expr { kind, ty, span }
}

/// The expression, with every parameter a double unless its uses ask for
/// something else.
fn typed(src: &str) -> TypedAst {
    let mut parser = Parser::new(src);
    let tree = parser.expression();
    assert_eq!(parser.at, parser.tokens.len(), "{src:?} has a rest");
    let mut found = Vec::new();
    wanted(&tree, None, &mut found);
    let params: Vec<(String, Ty)> =
        found.into_iter().map(|(name, ty)| (name, ty.unwrap_or(Ty::F64))).collect();
    let mut types = params.clone();
    let root = typed_tree(&tree, &mut types);
    TypedAst { root, params }
}

fn lowered(src: &str) -> Function {
    lower(&typed(src))
}

// ---------------------------------------------------------------------------
// Doubles.

/// The machine's arithmetic.
fn unit(op: FloatOp, a: u64, b: u64, c: u64) -> u64 {
    let (x, y, z) = (f64::from_bits(a), f64::from_bits(b), f64::from_bits(c));
    let r = match op {
        FloatOp::Add => x + y,
        FloatOp::Sub => x - y,
        FloatOp::Mul => x * y,
        FloatOp::Div => x / y,
        FloatOp::Rem => x % y,
        FloatOp::Fma => x.mul_add(y, z),
        FloatOp::Sqrt => x.sqrt(),
        FloatOp::Floor => x.floor(),
        FloatOp::Ceil => x.ceil(),
        FloatOp::Round => x.round(),
        FloatOp::Trunc => x.trunc(),
        FloatOp::Min => x.min(y),
        FloatOp::Max => x.max(y),
        FloatOp::Sin => x.sin(),
        FloatOp::Cos => x.cos(),
        FloatOp::Tan => x.tan(),
        FloatOp::Exp => x.exp(),
        FloatOp::Log => x.ln(),
        FloatOp::Pow => x.powf(y),
        FloatOp::FromInt => (a as i64) as f64,
        FloatOp::ToInt => return (x as i64) as u64,
    };
    r.to_bits()
}

fn libm() -> LibmAddresses {
    LibmAddresses {
        sin: 0x1_0000_1000,
        cos: 0x1_0000_2000,
        tan: 0x1_0000_3000,
        exp: 0x1_0000_4000,
        log: 0x1_0000_5000,
        pow: 0x7fff_1234_5678_9abc,
    }
}

fn words_of(bytes: &[u8]) -> Vec<u32> {
    bytes.chunks(4).map(|chunk| u32::from_le_bytes(chunk.try_into().unwrap())).collect()
}

fn f64_words(src: &str) -> Vec<u32> {
    words_of(&emit_f64(&lowered(src), &libm()).unwrap())
}

fn i64_words(src: &str) -> Vec<u32> {
    words_of(&emit_i64(&lowered(src)).unwrap())
}

fn repeated(piece: &str, count: usize) -> String {
    vec![piece; count].join(" + ")
}

fn masks(count: usize) -> String {
    (1..=count).map(|mask| format!("(n & {mask})")).collect::<Vec<_>>().join(" + ")
}

// ---------------------------------------------------------------------------
// A model of the machine

struct Machine {
    x: [u64; 32],
    d: [u64; 32],
    sp: u64,
    stack: Vec<u8>,
    flags: (bool, bool, bool, bool),
}

impl Machine {
    fn new(ints: &[i64], doubles: &[f64]) -> Machine {
        let mut m = Machine {
            x: [0; 32],
            d: [0; 32],
            sp: 1 << 16,
            stack: vec![0xa5; 1 << 16],
            flags: (false, false, false, false),
        };
        for i in 0..31 {
            m.x[i] = 0xdead_0000 + i as u64;
            m.d[i] = 0xbeef_0000 + i as u64;
        }
        for (i, n) in ints.iter().enumerate() {
            m.x[i] = *n as u64;
        }
        for (i, v) in doubles.iter().enumerate() {
            m.d[i] = v.to_bits();
        }
        m
    }

    fn load(&self, at: u64) -> u64 {
        let at = at as usize;
        u64::from_le_bytes(self.stack[at..at + 8].try_into().unwrap())
    }

    fn store(&mut self, at: u64, value: u64) {
        let at = at as usize;
        self.stack[at..at + 8].copy_from_slice(&value.to_le_bytes());
    }

    fn set(&mut self, r: usize, value: u64) {
        if r != 31 {
            self.x[r] = value;
        }
    }

    fn get(&self, r: usize) -> u64 {
        if r == 31 {
            0
        } else {
            self.x[r]
        }
    }

    fn holds(&self, condition: u32) -> bool {
        let (n, z, c, v) = self.flags;
        match condition {
            0 => z,
            1 => !z,
            4 => n,
            9 => !c || z,
            0xa => n == v,
            0xb => n != v,
            0xc => !z && n == v,
            0xd => z || n != v,
            other => panic!("condition {other} with carry {c}"),
        }
    }

    /// Calls the code, and checks that what a caller relies on is kept.
    fn call(&mut self, code: &[u8]) {
        let saved_x = self.x;
        let saved_d = self.d;
        let saved_sp = self.sp;
        let words = words_of(code);
        let mut pc: i64 = 0;
        for _ in 0..100_000 {
            let w = words[(pc / 4) as usize];
            let (rd, rn, rm) = ((w & 31) as usize, ((w >> 5) & 31) as usize, ((w >> 16) & 31) as usize);
            let ra = ((w >> 10) & 31) as usize;
            let mut next = pc + 4;
            if w == 0xd65f_03c0 {
                assert_eq!(self.sp, saved_sp);
                for r in 19..31 {
                    assert_eq!(self.x[r], saved_x[r], "x{r} is the caller's");
                }
                for r in 8..16 {
                    assert_eq!(self.d[r], saved_d[r], "d{r} is the caller's");
                }
                return;
            }
            match w & 0xffe0_fc00 {
                0x8b00_0000 => self.set(rd, self.get(rn).wrapping_add(self.get(rm))),
                0xcb00_0000 => self.set(rd, self.get(rn).wrapping_sub(self.get(rm))),
                0x8a00_0000 => self.set(rd, self.get(rn) & self.get(rm)),
                0xaa00_0000 => self.set(rd, self.get(rn) | self.get(rm)),
                0xca00_0000 => self.set(rd, self.get(rn) ^ self.get(rm)),
                0x9ac0_0c00 => {
                    let (n, m) = (self.get(rn) as i64, self.get(rm) as i64);
                    self.set(rd, if m == 0 { 0 } else { n.wrapping_div(m) as u64 });
                }
                0x9ac0_2000 => self.set(rd, self.get(rn) << (self.get(rm) & 63)),
                0x9ac0_2400 => self.set(rd, self.get(rn) >> (self.get(rm) & 63)),
                0x9ac0_2800 => {
                    self.set(rd, ((self.get(rn) as i64) >> (self.get(rm) & 63)) as u64)
                }
                0x1e60_2800 => self.d[rd] = unit(FloatOp::Add, self.d[rn], self.d[rm], 0),
                0x1e60_3800 => self.d[rd] = unit(FloatOp::Sub, self.d[rn], self.d[rm], 0),
                0x1e60_0800 => self.d[rd] = unit(FloatOp::Mul, self.d[rn], self.d[rm], 0),
                0x1e60_1800 => self.d[rd] = unit(FloatOp::Div, self.d[rn], self.d[rm], 0),
                0x1e60_7800 => self.d[rd] = unit(FloatOp::Min, self.d[rn], self.d[rm], 0),
                0x1e60_6800 => self.d[rd] = unit(FloatOp::Max, self.d[rn], self.d[rm], 0),
                _ if w & 0xffe0_8000 == 0x9b00_0000 => {
                    let sum = self.get(ra).wrapping_add(self.get(rn).wrapping_mul(self.get(rm)));
                    self.set(rd, sum)
                }
                _ if w & 0xffe0_8000 == 0x9b00_8000 => {
                    let rest = self.get(ra).wrapping_sub(self.get(rn).wrapping_mul(self.get(rm)));
                    self.set(rd, rest)
                }
                _ if w & 0xffe0_8000 == 0x1f40_0000 => {
                    self.d[rd] = unit(FloatOp::Fma, self.d[rn], self.d[rm], self.d[ra])
                }
                _ if w & 0xffff_fc00 == 0x1e61_c000 => {
                    self.d[rd] = unit(FloatOp::Sqrt, self.d[rn], 0, 0)
                }
                _ if w & 0xffff_fc00 == 0x1e60_c000 => self.d[rd] = self.d[rn] & (u64::MAX >> 1),
                _ if w & 0xffff_fc00 == 0x1e61_4000 => self.d[rd] = self.d[rn] ^ (1 << 63),
                _ if w & 0xffff_fc00 == 0x1e60_4000 => self.d[rd] = self.d[rn],
                _ if w & 0xffff_fc00 == 0x9e62_0000 => {
                    self.d[rd] = unit(FloatOp::FromInt, self.get(rn), 0, 0)
                }
                _ if w & 0xffff_fc00 == 0x9e78_0000 => {
                    self.set(rd, unit(FloatOp::ToInt, self.d[rn], 0, 0))
                }
                _ if w & 0xffe0_fc1f == 0xeb00_001f => {
                    let (a, b) = (self.get(rn), self.get(rm));
                    let (r, overflow) = (a as i64).overflowing_sub(b as i64);
                    self.flags = (r < 0, r == 0, a >= b, overflow);
                }
                _ if w & 0xffe0_fc1f == 0x1e60_2000 => {
                    let (a, b) = (f64::from_bits(self.d[rn]), f64::from_bits(self.d[rm]));
                    self.flags = if a.is_nan() || b.is_nan() {
                        (false, false, true, true)
                    } else {
                        (a < b, a == b, a >= b, false)
                    };
                }
                _ if w & 0xffc0_03e0 == 0xf940_03e0 => {
                    self.set(rd, self.load(self.sp + ((w >> 10) & 0xfff) as u64 * 8))
                }
                _ if w & 0xffc0_03e0 == 0xf900_03e0 => {
                    self.store(self.sp + ((w >> 10) & 0xfff) as u64 * 8, self.get(rd))
                }
                _ if w & 0xffc0_03e0 == 0xfd40_03e0 => {
                    self.d[rd] = self.load(self.sp + ((w >> 10) & 0xfff) as u64 * 8)
                }
                _ if w & 0xffc0_03e0 == 0xfd00_03e0 => {
                    self.store(self.sp + ((w >> 10) & 0xfff) as u64 * 8, self.d[rd])
                }
                _ if w & 0xff80_0000 == 0xd280_0000 => {
                    self.set(rd, ((w >> 5) & 0xffff) as u64 >> 0 << (((w >> 21) & 3) * 16))
                }
                _ if w & 0xff80_0000 == 0xf280_0000 => {
                    let shift = ((w >> 21) & 3) * 16;
                    let kept = self.get(rd) & !(0xffffu64 << shift);
                    self.set(rd, kept | (((w >> 5) & 0xffff) as u64) << shift)
                }
                _ if w & 0xffc0_03ff == 0xd100_03ff => self.sp -= ((w >> 10) & 0xfff) as u64,
                _ if w & 0xffc0_03ff == 0x9100_03ff => self.sp += ((w >> 10) & 0xfff) as u64,
                _ if w & 0xffff_fc1f == 0xd63f_0000 => {
                    let target = self.get(rn);
                    assert_eq!(self.sp % 16, 0, "calls keep the stack aligned");
                    let table = libm();
                    let ops = [
                        (table.sin, FloatOp::Sin),
                        (table.cos, FloatOp::Cos),
                        (table.tan, FloatOp::Tan),
                        (table.exp, FloatOp::Exp),
                        (table.log, FloatOp::Log),
                        (table.pow, FloatOp::Pow),
                    ];
                    let op = ops.iter().find(|(at, _)| *at == target).expect("a function").1;
                    let r = unit(op, self.d[0], self.d[1], 0);
                    for i in (0..8).chain(16..32) {
                        self.d[i] = 0xfeed_0000 + i as u64;
                    }
                    for i in 0..19 {
                        self.x[i] = 0xfade_0000 + i as u64;
                    }
                    self.x[30] = pc as u64 + 4;
                    self.d[0] = r;
                }
                _ if w & 0xff00_0000 == 0x5c00_0000 => {
                    let offset = ((w << 8) as i32 >> 13) as i64 * 4;
                    let at = ((pc + offset) / 4) as usize;
                    self.d[rd] = words[at] as u64 | (words[at + 1] as u64) << 32;
                }
                _ if w & 0xfc00_0000 == 0x1400_0000 => {
                    next = pc + ((w << 6) as i32 >> 6) as i64 * 4;
                }
                _ if w & 0xff00_0010 == 0x5400_0000 => {
                    if self.holds(w & 15) {
                        next = pc + ((w << 8) as i32 >> 13) as i64 * 4;
                    }
                }
                _ => panic!("unknown instruction {w:#010x} at {pc}"),
            }
            pc = next;
        }
        panic!("the code does not return");
    }
}

fn call_f64(src: &str, ints: &[i64], doubles: &[f64]) -> f64 {
    let bytes = emit_f64(&lowered(src), &libm()).unwrap();
    let mut machine = Machine::new(ints, doubles);
    machine.call(&bytes);
    f64::from_bits(machine.d[0])
}

fn call_i64(src: &str, ints: &[i64]) -> i64 {
    let bytes = emit_i64(&lowered(src)).unwrap();
    let mut machine = Machine::new(ints, &[]);
    machine.call(&bytes);
    machine.x[0] as i64
}

// ---------------------------------------------------------------------------
// Words

#[test]
fn emits_fixed_width_little_endian_words() {
    let mut code = Assembler::new();
    code.add_imm(Gpr::new(0), Gpr::new(1), 7, false);
    code.mul(Gpr::new(2), Gpr::new(0), Gpr::new(1));
    code.ret();
    assert_eq!(code.words(), &[0x9100_1c20, 0x9b01_7c02, 0xd65f_03c0]);
    assert_eq!(code.bytes().len(), 12);
}

#[test]
fn sub_immediate_sets_the_subtract_bit() {
    let mut code = Assembler::new();
    code.sub_imm(Gpr::new(0), Gpr::new(1), 1, false);
    assert_eq!(code.words(), &[0xd100_0420]);
}

#[test]
fn encodes_integer_and_float_instruction_families() {
    assert_eq!(add_reg(Gpr::new(0), Gpr::new(1), Gpr::new(2)), 0x8b02_0020);
    assert_eq!(sdiv(Gpr::new(0), Gpr::new(1), Gpr::new(2)), 0x9ac2_0c20);
    assert_eq!(and_reg(Gpr::new(0), Gpr::new(1), Gpr::new(2)), 0x8a02_0020);
    assert_eq!(cmp_reg(Gpr::new(1), Gpr::new(2)), 0xeb02_003f);
    assert_eq!(fadd_d(Gpr::new(0), Gpr::new(1), Gpr::new(2)), 0x1e62_2820);
    assert_eq!(fmin_d(Gpr::new(0), Gpr::new(1), Gpr::new(2)), 0x1e62_7820);
    assert_eq!(fmax_d(Gpr::new(0), Gpr::new(1), Gpr::new(2)), 0x1e62_6820);
    assert_eq!(fcmp_d(Gpr::new(1), Gpr::new(2)), 0x1e62_2020);
    assert_eq!(fsqrt_d(Gpr::new(0), Gpr::new(1)), 0x1e61_c020);
    assert_eq!(
        fmadd_d(Gpr::new(0), Gpr::new(1), Gpr::new(2), Gpr::new(3)),
        0x1f42_0c20
    );
}

#[test]
fn encodes_branches_and_scaled_memory_offsets() {
    assert_eq!(encode_branch(16), 0x1400_0004);
    assert_eq!(encode_branch_link(-4), 0x97ff_ffff);
    assert_eq!(encode_branch_cond(Condition::Ne, 8), 0x5400_0041);
    assert_eq!(ldr(Gpr::new(0), Gpr::new(1), 16), 0xf940_0820);
    assert_eq!(str_(Gpr::new(0), Gpr::new(1), 16), 0xf900_0820);
    assert_eq!(ldr_d(Gpr::new(0), Gpr::new(1), 16), 0xfd40_0820);
    assert_eq!(str_d(Gpr::new(0), Gpr::new(1), 16), 0xfd00_0820);
    assert_eq!(movz(Gpr::new(0), 0x1234, 16), 0xd2a2_4680);
}

#[test]
fn recognizes_repeated_rotated_logical_immediates() {
    assert_eq!(encode_logical_imm(0xff, true), Some((1, 0, 7)));
    assert_eq!(encode_logical_imm(0x00ff_00ff, false), Some((0, 0, 0x37)));
    assert_eq!(encode_logical_imm(0, true), None);
    assert_eq!(encode_logical_imm(u64::MAX, true), None);
    assert!(encode_logical_imm(0x0123_4567_89ab_cdef, true).is_none());
}

#[test]
fn the_code_of_a_logical_immediate_tells_its_element() {
    assert_eq!(encode_logical_imm(0x0101_0101_0101_0101, true), Some((0, 0, 0x30)));
    assert_eq!(encode_logical_imm(0x01ff_01ff_01ff_01ff, true), Some((0, 0, 0x28)));
    assert_eq!(encode_logical_imm(0x00ff_ffff, false), Some((0, 0, 0x17)));
    assert_eq!(encode_logical_imm(0xff00_ff00, false), Some((0, 8, 0x27)));
    assert_eq!(encode_logical_imm(0x5555_5555_5555_5555, true), Some((0, 0, 0x3c)));
    assert_eq!(encode_logical_imm(0x00ff_00ff_00ff_00ff, true), Some((0, 0, 0x27)));
}

#[test]
fn encodes_scalar_literal_load_and_register_move() {
    assert_eq!(encode_ldr_literal_d(Gpr::new(3), 8), 0x5c00_0043);
    assert_eq!(fmov_d(Gpr::new(0), Gpr::new(3)), 0x1e60_4060);
}

#[test]
fn integer_negation_uses_xzr_not_sp() {
    let mut code = Assembler::new();
    code.sub_reg(Gpr::new(8), xzr(), Gpr::new(0));
    assert_eq!(code.words(), &[sub_reg(Gpr::new(8), xzr(), Gpr::new(0))]);
    assert_eq!(xzr().index(), 31);
}

// ---------------------------------------------------------------------------
// Functions

#[test]
fn emits_straight_line_f64_function_and_deduplicates_literals() {
    let bytes = emit_f64(&lowered("x * 2.5 + 2.5"), &libm()).unwrap();
    assert_eq!(bytes.len() % 8, 0, "literal pool must be eight-byte aligned");
    let words = words_of(&bytes);
    assert_eq!(words.len(), 8, "two loads, two arithmetic ops, move, return, one literal");
    assert_eq!(u64::from(words[6]) | (u64::from(words[7]) << 32), 2.5f64.to_bits());
}

#[test]
fn emits_scalar_f64_min_and_max() {
    let min_words = f64_words("min(x, 2.0)");
    let max_words = f64_words("max(x, 2.0)");
    assert!(min_words.iter().any(|word| word & 0xffe0_fc00 == 0x1e60_7800));
    assert!(max_words.iter().any(|word| word & 0xffe0_fc00 == 0x1e60_6800));
}

#[test]
fn scalar_emitter_keeps_floating_temporaries_in_caller_saved_d_registers() {
    let words = f64_words("x + x");
    assert_eq!(words[0], fadd_d(Gpr::new(16), Gpr::new(0), Gpr::new(0)));
    assert_eq!(words[1], fmov_d(Gpr::new(0), Gpr::new(16)));
    assert_eq!(words[2], 0xd65f_03c0);
}

#[test]
fn mixed_scalar_emitter_keeps_integer_temporaries_in_caller_saved_x_registers() {
    let words = f64_words("x + (n & 3)");
    assert!(words.contains(&and_reg(Gpr::new(9), Gpr::new(0), Gpr::new(8))));
    assert!(words.contains(&fadd_d(Gpr::new(17), Gpr::new(0), Gpr::new(16))));
}

#[test]
fn scalar_emitter_uses_a_frame_before_spilling_excess_temporaries() {
    let words = f64_words(&repeated("x", 18));
    assert!(words.contains(&str_d(Gpr::new(8), sp(), 0)));
    let words = f64_words(&repeated("x", 26));
    assert!(words.contains(&ldr_d(Gpr::new(29), sp(), 0)));
    assert!(words.contains(&str_d(Gpr::new(29), sp(), 0)));
}

fn float_diamond() -> String {
    format!("if x > 0.0 then {} else {}", repeated("x", 14), repeated("-x", 14))
}

fn mixed_diamond() -> String {
    format!(
        "if (n & 1) > 0 then {} else {}",
        repeated("x + (n & 1)", 14),
        repeated("x - (n & 1)", 14)
    )
}

#[test]
fn emits_cfg_f64_stack_spills_and_phi_edge_stores() {
    let words = f64_words(&float_diamond());
    assert!(words.contains(&ldr_d(Gpr::new(29), sp(), 8)));
    assert!(words.contains(&str_d(Gpr::new(29), sp(), 0)));
    assert!(words.iter().any(|word| *word & 0x7f00_0000 == 0x5400_0000));
}

#[test]
fn emits_mixed_f64_stack_spills_for_both_register_banks() {
    let words = f64_words(&repeated("x + (n & 1)", 14));
    assert!(words.contains(&ldr(Gpr::new(28), sp(), 32)));
    assert!(words.contains(&str_(Gpr::new(28), sp(), 32)));
    assert!(words.contains(&ldr_d(Gpr::new(30), sp(), 40)));
    assert!(words.contains(&str_d(Gpr::new(29), sp(), 40)));
}

#[test]
fn emits_mixed_cfg_stack_spills_and_typed_phi_edge_stores() {
    let words = f64_words(&mixed_diamond());
    assert!(words.contains(&ldr(Gpr::new(28), sp(), 32)));
    assert!(words.contains(&str_(Gpr::new(28), sp(), 32)));
    assert!(words.iter().any(|word| *word & 0x7f00_0000 == 0x5400_0000));
    assert!(words.iter().filter(|word| **word & 0xffc0_0000 == 0x9e40_0000).count() >= 2);
}

#[test]
fn emits_mixed_cfg_integer_phi_stack_spills() {
    let words = f64_words(&repeated("x + (if (n & 1) > 0 then 1 else 2)", 14));
    let integer_load = ldr(Gpr::new(28), sp(), 0) & 0xffc0_03ff;
    let integer_store = str_(Gpr::new(28), sp(), 0) & 0xffc0_03ff;
    assert!(words.iter().any(|word| *word & 0xffc0_03ff == integer_store));
    assert!(words.iter().any(|word| *word & 0xffc0_03ff == integer_load));
    assert!(words.iter().any(|word| *word & 0x7f00_0000 == 0x5400_0000));
}

#[test]
fn emits_aarch64_libm_calls_with_aligned_indirect_dispatch() {
    let words = f64_words("sin(x) + pow(y, 2.0)");
    assert!(words.contains(&blr(Gpr::new(16))));
    assert!(words.contains(&str_d(Gpr::new(0), sp(), 8)));
    assert!(words.contains(&str_d(Gpr::new(1), sp(), 16)));
    assert!(words.contains(&0xd65f_03c0));
}

#[test]
fn emits_control_flow_and_phi_edge_copies() {
    let words = f64_words("if x > 0.0 then x else -x");
    assert!(words.iter().any(|word| word & 0x7f00_0000 == 0x5400_0000));
}

#[test]
fn emits_straight_line_i64_arithmetic_without_a_literal_pool() {
    let words = i64_words("n % 7 + (n >> 2) + ~n");
    assert!(words.iter().any(|word| word & 0xffc0_0000 == 0x9ac0_0000));
    assert!(words.iter().any(|word| word & 0xffc0_0000 == 0x9b00_0000));
    assert_eq!(words.last(), Some(&0xd65f_03c0));
}

#[test]
fn i64_emitter_preserves_callee_saved_temporaries_in_a_frame() {
    let words = i64_words(&masks(6));
    assert!(words.contains(&str_(Gpr::new(19), sp(), 0)));
    assert!(words.contains(&ldr(Gpr::new(19), sp(), 0)));
    assert!(words.contains(&encode_add_sub_imm(true, sp(), sp(), 48, false)));
    assert!(words.contains(&encode_add_sub_imm(false, sp(), sp(), 48, false)));
    assert_eq!(words.last(), Some(&0xd65f_03c0));
}

#[test]
fn i64_emitter_spills_excess_temporaries_to_stack_slots() {
    let words = i64_words(&masks(10));
    assert!(words.contains(&str_(Gpr::new(28), sp(), 24)));
    assert!(words.contains(&ldr(Gpr::new(29), sp(), 24)));
    assert!(words.contains(&ldr(Gpr::new(28), sp(), 0)));
    assert!(words.contains(&str_(Gpr::new(30), sp(), 16)));
    assert_eq!(words.last(), Some(&0xd65f_03c0));
}

#[test]
fn i64_emitter_rejects_mixed_parameters_explicitly() {
    let error = emit_i64(&lowered("x + 1")).unwrap_err();
    assert!(error.message().contains("i64 parameters only"));
}

#[test]
fn emits_mixed_i64_f64_parameters_and_conversion() {
    let words = f64_words("x + (n & 3)");
    assert!(words.iter().any(|word| word & 0xffc0_0000 == 0x8a00_0000));
    assert!(words.iter().any(|word| word & 0xffc0_0000 == 0x9e40_0000));
    assert_eq!(words.last(), Some(&0xd65f_03c0));
}

#[test]
fn emits_mixed_integer_comparison_branch_to_f64_result() {
    let words = f64_words("if (n & 1) > 0 then x + 1.0 else x - 1.0");
    assert!(words.iter().any(|word| *word & 0xffc0_001f == 0xeb00_001f));
    assert!(words.iter().any(|word| *word & 0x7f00_0000 == 0x5400_0000));
}

#[test]
fn what_cannot_be_emitted_is_named() {
    let none = Function {
        insts: vec![],
        types: vec![],
        spans: vec![],
        blocks: vec![],
        entry: Block(0),
        params: vec![],
    };
    assert_eq!(emit_f64(&none, &libm()), Err(EmitError::NoBlocks));
    let open = Function {
        insts: vec![Inst::ConstF64(0)],
        types: vec![Ty::F64],
        spans: vec![Span::new(0, 0)],
        blocks: vec![BlockData { insts: vec![Value(0)], term: None, preds: BlockList::new() }],
        entry: Block(0),
        params: vec![],
    };
    assert_eq!(emit_f64(&open, &libm()), Err(EmitError::NoTerminator(0)));
    let mut text = open;
    text.blocks[0].term = Some(Terminator::Jump(Block(4)));
    assert_eq!(emit_f64(&text, &libm()), Err(EmitError::TargetOutOfRange(4)));
    assert!(emit_f64(&lowered("n & 3"), &libm()).is_err());
    assert!(emit_i64(&lowered("if true then 1 else 2")).is_err());
}

#[test]
fn the_backend_is_native_on_its_own_architecture_only() {
    assert!(is_native_target(backend_info(true)));
    assert!(!is_native_target(backend_info(false)));
}

// ---------------------------------------------------------------------------
// Running what was emitted

#[test]
fn executes_aarch64_f64_function_with_stack_spills() {
    assert_eq!(call_f64(&repeated("x", 26), &[], &[3.0]), 78.0);
}

#[test]
fn executes_aarch64_cfg_f64_function_with_stack_spills() {
    assert_eq!(call_f64(&float_diamond(), &[], &[3.0]), 42.0);
    assert_eq!(call_f64(&float_diamond(), &[], &[-3.0]), 42.0);
}

#[test]
fn executes_aarch64_mixed_f64_function_with_stack_spills() {
    let src = repeated("x + (n & 1)", 14);
    assert_eq!(call_f64(&src, &[3], &[2.0]), 42.0);
    assert_eq!(call_f64(&src, &[4], &[2.0]), 28.0);
}

#[test]
fn executes_aarch64_mixed_cfg_function_with_stack_spills() {
    assert_eq!(call_f64(&mixed_diamond(), &[3], &[2.0]), 42.0);
    assert_eq!(call_f64(&mixed_diamond(), &[4], &[2.0]), 28.0);
}

#[test]
fn executes_aarch64_mixed_cfg_integer_phi_stack_spills() {
    let src = repeated("x + (if (n & 1) > 0 then 1 else 2)", 14);
    assert_eq!(call_f64(&src, &[3], &[2.0]), 42.0);
    assert_eq!(call_f64(&src, &[4], &[2.0]), 56.0);
}

#[test]
fn executes_aarch64_libm_calls_with_aapcs64_float_arguments() {
    let result = call_f64("sin(x) + pow(y, 2.0)", &[], &[0.5, 2.0]);
    assert_eq!(result.to_bits(), (0.5f64.sin() + 4.0).to_bits());
}

#[test]
fn native_min_max_match_interpreter_nan_semantics() {
    assert_eq!(call_f64("min(x, 1.0)", &[], &[f64::NAN]).to_bits(), 1.0f64.to_bits());
    assert_eq!(call_f64("max(x, 1.0)", &[], &[f64::NAN]).to_bits(), 1.0f64.to_bits());
}

#[test]
fn executes_i64_function_with_a_callee_saved_temporary_frame() {
    assert_eq!(call_i64(&masks(6), &[3]), 9);
}

#[test]
fn executes_i64_function_with_stack_spills() {
    assert_eq!(call_i64(&masks(10), &[3]), 15);
}

#[test]
fn executes_distinct_literal_pool_entries_on_native_aarch64() {
    let src = "if x > 0.0 then x * 2.0 else -x";
    assert_eq!(call_f64(src, &[], &[3.0]), 6.0);
    assert_eq!(call_f64(src, &[], &[-3.0]), 3.0);
}

#[test]
fn executes_emitted_f64_function_on_native_aarch64() {
    assert_eq!(call_f64("x * 2.5 + 2.5", &[], &[3.0]), 10.0);
}

#[test]
fn executes_emitted_conditional_on_native_aarch64() {
    assert_eq!(call_f64("if x > 0.0 then x else -x", &[], &[3.0]), 3.0);
    assert_eq!(call_f64("if x > 0.0 then x else -x", &[], &[-3.0]), 3.0);
}

#[test]
fn a_branch_goes_by_its_own_comparison() {
    let src = "let c = x > 0.0 in let d = y > 0.0 in \
               if c then (if d then 1.0 else 2.0) else (if d then 3.0 else 4.0)";
    assert_eq!(call_f64(src, &[], &[1.0, 1.0]), 1.0);
    assert_eq!(call_f64(src, &[], &[1.0, -1.0]), 2.0);
    assert_eq!(call_f64(src, &[], &[-1.0, 1.0]), 3.0);
    assert_eq!(call_f64(src, &[], &[-1.0, -1.0]), 4.0);
    // Where the comparison is the last one, it is made once.
    let once = f64_words("if x > 0.0 then x else y");
    assert_eq!(once.iter().filter(|w| **w & 0xffe0_fc1f == 0x1e60_2000).count(), 1);
    let again = f64_words("let c = x > 0.0 in let d = y > 0.0 in if c then x else y");
    assert_eq!(again.iter().filter(|w| **w & 0xffe0_fc1f == 0x1e60_2000).count(), 3);
}

#[test]
fn executes_aarch64_function_with_a_callee_saved_temporary_frame() {
    assert_eq!(call_f64(&repeated("x", 18), &[], &[3.0]), 54.0);
}

#[test]
fn emitted_integer_code_agrees_with_the_interpreter() {
    for src in [
        "(a + b * 3 - (a / 7)) & -1",
        "(a % b) ^ (a << 3) ^ (a >> b)",
        "(~a | (b & 255)) & -1",
        "(-a * b) & -1",
        "(a & 81985529216486895) ^ (b & -1)",
    ] {
        for (a, b) in [(0, 1), (5, 3), (-7, 2), (i64::MIN, -1), (i64::MAX, 13), (-1, 64)] {
            let function = lowered(src);
            let expected =
                interpret(&function, &[RtValue::I64(a), RtValue::I64(b)], &unit);
            assert_eq!(RtValue::I64(call_i64(src, &[a, b])), expected, "{src} at {a}, {b}");
        }
    }
}

// ---------------------------------------------------------------------------
// Banks and comparisons

#[test]
fn integers_and_bools_share_a_bank() {
    let mut ast = typed("if (n & -1) > 0 then 1.5 else 2.5");
    ast.params.insert(0, ("flag".to_string(), Ty::Bool));
    let bytes = emit_f64(&lower(&ast), &libm()).unwrap();
    for (n, expected) in [(5, 1.5), (-5, 2.5)] {
        let mut machine = Machine::new(&[1 - n, n], &[]);
        machine.call(&bytes);
        assert_eq!(f64::from_bits(machine.d[0]), expected);
    }
}

#[test]
fn a_branch_on_doubles_without_order_is_not_taken() {
    for (src, taken) in [
        ("if x < y then 1.0 else 2.0", 1.0),
        ("if x <= y then 1.0 else 2.0", 1.0),
        ("if x > y then 1.0 else 2.0", 2.0),
        ("if x >= y then 1.0 else 2.0", 2.0),
    ] {
        assert_eq!(call_f64(src, &[], &[1.0, 2.0]), taken, "{src}");
        assert_eq!(call_f64(src, &[], &[f64::NAN, 2.0]), 2.0, "{src}");
        assert_eq!(call_f64(src, &[], &[1.0, f64::NAN]), 2.0, "{src}");
    }
}

#[test]
fn messages_name_values_and_numbers() {
    let mut f = lowered("x + 1.0");
    f.blocks[0].insts[0] = Value(77);
    assert_eq!(
        emit_f64(&f, &libm()).unwrap_err().message(),
        "block references missing instruction Value(77)"
    );
}
