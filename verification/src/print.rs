//! Functions as text.
use crate::collections::EdgeList;
use crate::ir::{edge_blocks, edge_values, InstModel, Op};
use crate::ir::{Block, CmpOp, Function, Inst, LibFunc, Terminator, Ty, Value};
use crate::text::append_number;
use crate::text::digits;
use vstd::prelude::*;
use vstd::string::*;

verus! {

/// A value behind a text.
pub open spec fn put_value(out: Seq<char>, v: Value) -> Seq<char> {
    out + "v"@ + digits(v.0 as nat)
}

pub open spec fn put_block(out: Seq<char>, b: int) -> Seq<char> {
    out + "block"@ + digits(b as nat)
}

pub open spec fn type_text(ty: Ty) -> Seq<char> {
    match ty {
        Ty::F64 => "F64"@,
        Ty::I64 => "I64"@,
        Ty::Bool => "Bool"@,
    }
}

pub open spec fn comparison_text(op: CmpOp) -> Seq<char> {
    match op {
        CmpOp::Eq => "Eq"@,
        CmpOp::Ne => "Ne"@,
        CmpOp::Lt => "Lt"@,
        CmpOp::Le => "Le"@,
        CmpOp::Gt => "Gt"@,
        CmpOp::Ge => "Ge"@,
    }
}

pub open spec fn library_text(func: LibFunc) -> Seq<char> {
    match func {
        LibFunc::Sin => "Sin"@,
        LibFunc::Cos => "Cos"@,
        LibFunc::Tan => "Tan"@,
        LibFunc::Exp => "Exp"@,
        LibFunc::Log => "Log"@,
        LibFunc::Pow => "Pow"@,
    }
}

/// The first `k` values, with commas between them.
pub open spec fn put_values(out: Seq<char>, values: Seq<Value>, k: nat) -> Seq<char>
    decreases k,
{
    if k == 0 {
        out
    } else if k == 1 {
        put_value(out, values[0])
    } else {
        put_value(put_values(out, values, (k - 1) as nat) + ", "@, values[k - 1])
    }
}

/// The first `k` edges of a phi, with commas between them.
pub open spec fn put_edges(out: Seq<char>, froms: Seq<Block>, values: Seq<Value>, k: nat) -> Seq<char>
    decreases k,
{
    if k == 0 {
        out
    } else if k == 1 {
        put_value(put_block(out, froms[0].0 as int) + " -> "@, values[0])
    } else {
        put_value(
            put_block(
                put_edges(out, froms, values, (k - 1) as nat) + ", "@,
                froms[k - 1].0 as int,
            ) + " -> "@,
            values[k - 1],
        )
    }
}

/// A signed number.
pub open spec fn put_signed(out: Seq<char>, n: i64) -> Seq<char> {
    if n < 0 {
        out + "-"@ + digits((-n) as nat)
    } else {
        out + digits(n as nat)
    }
}

/// What stands before the operands of an instruction.
pub open spec fn op_text(op: Op) -> Seq<char> {
    match op {
        Op::Add => "add "@,
        Op::Sub => "sub "@,
        Op::Mul => "mul "@,
        Op::Div => "div "@,
        Op::Rem => "rem "@,
        Op::Neg => "neg "@,
        Op::Fma => "fma "@,
        Op::And => "and "@,
        Op::Or => "or "@,
        Op::Xor => "xor "@,
        Op::Not => "not "@,
        Op::Shl => "shl "@,
        Op::Shr => "shr "@,
        Op::Sar => "sar "@,
        Op::Sqrt => "sqrt "@,
        Op::Abs => "abs "@,
        Op::Min => "min "@,
        Op::Max => "max "@,
        Op::Floor => "floor "@,
        Op::Ceil => "ceil "@,
        Op::Round => "round "@,
        Op::Trunc => "trunc "@,
        Op::IToF => "itof "@,
        Op::FToI => "ftoi "@,
        _ => ""@,
    }
}

/// An instruction behind a text. How a double is written is given.
pub open spec fn put_inst(out: Seq<char>, m: InstModel, float: Seq<char>) -> Seq<char> {
    match m.op {
        Op::ConstF64(_) => out + "const.f64 "@ + float,
        Op::ConstI64(n) => put_signed(out + "const.i64 "@, n),
        Op::ConstBool(v) => out + "const.bool "@ + if v {
            "true"@
        } else {
            "false"@
        },
        Op::Param(index, ty) => out + "param "@ + digits(index as nat) + " : "@ + type_text(ty),
        Op::Compare(op) => put_values(
            out + "cmp."@ + comparison_text(op) + " "@,
            m.args,
            m.args.len(),
        ),
        Op::Call(func) => put_values(
            out + "call."@ + library_text(func) + " "@,
            m.args,
            m.args.len(),
        ),
        Op::Phi(froms) => put_edges(out + "phi ["@, froms, m.args, froms.len()) + "]"@,
        op => put_values(out + op_text(op), m.args, m.args.len()),
    }
}

pub open spec fn put_term(out: Seq<char>, term: Option<Terminator>) -> Seq<char> {
    match term {
        Some(Terminator::Return(v)) => put_value(out + "  ret "@, v) + "\n"@,
        Some(Terminator::Jump(b)) => put_block(out + "  jump "@, b.0 as int) + "\n"@,
        Some(Terminator::Branch { cond, then_, else_ }) => put_block(
            put_block(put_value(out + "  branch "@, cond) + ", "@, then_.0 as int) + ", "@,
            else_.0 as int,
        ) + "\n"@,
        None => out + "  <no terminator>\n"@,
    }
}

/// The first `k` instructions of a block, each on a line.
pub open spec fn put_listed(
    out: Seq<char>,
    f: Function,
    floats: Seq<String>,
    b: int,
    k: nat,
) -> Seq<char>
    decreases k,
{
    if k == 0 {
        out
    } else {
        let before = put_listed(out, f, floats, b, (k - 1) as nat);
        let v = f.listed(b)[k - 1];
        put_inst(
            put_value(before + "  "@, v) + " = "@,
            f.inst(v.0 as int),
            floats[v.0 as int]@,
        ) + "\n"@
    }
}

/// The first `n` blocks. A block has a label if there is more than one.
pub open spec fn put_blocks(f: Function, floats: Seq<String>, n: nat) -> Seq<char>
    decreases n,
{
    if n == 0 {
        Seq::empty()
    } else {
        let before = put_blocks(f, floats, (n - 1) as nat);
        let labelled = if f.blocks@.len() > 1 {
            put_block(before, n - 1) + ":\n"@
        } else {
            before
        };
        put_term(
            put_listed(labelled, f, floats, n - 1, f.listed(n - 1).len()),
            f.term(n - 1),
        )
    }
}

fn append_value(out: &mut String, v: Value)
    ensures
        final(out)@ == put_value(old(out)@, v),
{
    out.append("v");
    append_number(out, v.0 as usize);
}

fn append_block(out: &mut String, b: usize)
    ensures
        final(out)@ == put_block(old(out)@, b as int),
{
    out.append("block");
    append_number(out, b);
}

fn name_of_type(ty: Ty) -> (r: &'static str)
    ensures
        r@ == type_text(ty),
{
    match ty {
        Ty::F64 => "F64",
        Ty::I64 => "I64",
        Ty::Bool => "Bool",
    }
}

fn name_of_comparison(op: CmpOp) -> (r: &'static str)
    ensures
        r@ == comparison_text(op),
{
    match op {
        CmpOp::Eq => "Eq",
        CmpOp::Ne => "Ne",
        CmpOp::Lt => "Lt",
        CmpOp::Le => "Le",
        CmpOp::Gt => "Gt",
        CmpOp::Ge => "Ge",
    }
}

fn name_of_library(func: LibFunc) -> (r: &'static str)
    ensures
        r@ == library_text(func),
{
    match func {
        LibFunc::Sin => "Sin",
        LibFunc::Cos => "Cos",
        LibFunc::Tan => "Tan",
        LibFunc::Exp => "Exp",
        LibFunc::Log => "Log",
        LibFunc::Pow => "Pow",
    }
}

fn append_values(out: &mut String, values: &Vec<Value>)
    ensures
        final(out)@ == put_values(old(out)@, values@, values@.len()),
{
    let ghost start = out@;
    let mut k: usize = 0;
    while k < values.len()
        invariant
            k <= values@.len(),
            out@ == put_values(start, values@, k as nat),
        decreases values@.len() - k,
    {
        if k > 0 {
            out.append(", ");
        }
        append_value(out, values[k]);
        k += 1;
    }
}

fn append_edges(out: &mut String, incoming: &EdgeList)
    ensures
        final(out)@ == put_edges(
            old(out)@,
            edge_blocks(incoming@),
            edge_values(incoming@),
            incoming@.len(),
        ),
{
    let ghost start = out@;
    let ghost froms = edge_blocks(incoming@);
    let ghost values = edge_values(incoming@);
    let mut k: usize = 0;
    while k < incoming.len()
        invariant
            k <= incoming@.len(),
            froms == edge_blocks(incoming@),
            values == edge_values(incoming@),
            out@ == put_edges(start, froms, values, k as nat),
        decreases incoming@.len() - k,
    {
        if k > 0 {
            out.append(", ");
        }
        let (from, v): (Block, Value) = incoming.get(k);
        assert(froms[k as int] == from && values[k as int] == v);
        append_block(out, from.0 as usize);
        out.append(" -> ");
        append_value(out, v);
        k += 1;
    }
}

fn append_signed(out: &mut String, n: i64)
    ensures
        final(out)@ == put_signed(old(out)@, n),
{
    if n < 0 {
        out.append("-");
        append_wide(out, (-(n as i128)) as u64);
    } else {
        append_wide(out, n as u64);
    }
}

/// A number of 64 bits, whatever the size of an address.
fn append_wide(out: &mut String, n: u64)
    ensures
        final(out)@ == old(out)@ + digits(n as nat),
    decreases n,
{
    let ghost start = out@;
    if n >= 10 {
        append_wide(out, n / 10);
    }
    append_number(out, (n % 10) as usize);
    proof {
        let d = crate::text::digit((n % 10) as nat);
        assert(digits((n % 10) as nat) == seq![d]);
        if n >= 10 {
            assert(start + digits((n / 10) as nat) + seq![d] =~= start + digits(
                (n / 10) as nat,
            ).push(d));
        }
    }
}

/// What stands before the operands, for the instructions that are written as
/// a word and their operands.
fn word_of(inst: &Inst) -> (r: &'static str)
    ensures
        r@ == op_text(inst@.op),
{
    match inst {
        Inst::Add(_, _) => "add ",
        Inst::Sub(_, _) => "sub ",
        Inst::Mul(_, _) => "mul ",
        Inst::Div(_, _) => "div ",
        Inst::Rem(_, _) => "rem ",
        Inst::Neg(_) => "neg ",
        Inst::Fma { .. } => "fma ",
        Inst::And(_, _) => "and ",
        Inst::Or(_, _) => "or ",
        Inst::Xor(_, _) => "xor ",
        Inst::Not(_) => "not ",
        Inst::Shl(_, _) => "shl ",
        Inst::Shr(_, _) => "shr ",
        Inst::Sar(_, _) => "sar ",
        Inst::Sqrt(_) => "sqrt ",
        Inst::Abs(_) => "abs ",
        Inst::Min(_, _) => "min ",
        Inst::Max(_, _) => "max ",
        Inst::Floor(_) => "floor ",
        Inst::Ceil(_) => "ceil ",
        Inst::Round(_) => "round ",
        Inst::Trunc(_) => "trunc ",
        Inst::IToF(_) => "itof ",
        Inst::FToI(_) => "ftoi ",
        _ => "",
    }
}

fn append_inst(out: &mut String, inst: &Inst, float: &String)
    ensures
        final(out)@ == put_inst(old(out)@, inst@, float@),
{
    match inst {
        Inst::ConstF64(_) => {
            out.append("const.f64 ");
            out.append(float.as_str());
        },
        Inst::ConstI64(n) => {
            out.append("const.i64 ");
            append_signed(out, *n);
        },
        Inst::ConstBool(v) => {
            out.append("const.bool ");
            if *v {
                out.append("true");
            } else {
                out.append("false");
            }
        },
        Inst::Param { index, ty } => {
            out.append("param ");
            append_number(out, *index as usize);
            out.append(" : ");
            out.append(name_of_type(*ty));
        },
        Inst::Cmp { op, .. } => {
            out.append("cmp.");
            out.append(name_of_comparison(*op));
            out.append(" ");
            let values: Vec<Value> = crate::ir::uses_of(inst);
            append_values(out, &values);
        },
        Inst::Call { func, .. } => {
            out.append("call.");
            out.append(name_of_library(*func));
            out.append(" ");
            let values: Vec<Value> = crate::ir::uses_of(inst);
            append_values(out, &values);
        },
        Inst::Phi { incoming } => {
            out.append("phi [");
            append_edges(out, incoming);
            out.append("]");
        },
        _ => {
            out.append(word_of(inst));
            let values: Vec<Value> = crate::ir::uses_of(inst);
            append_values(out, &values);
        },
    }
}

fn append_term(out: &mut String, term: Option<Terminator>)
    ensures
        final(out)@ == put_term(old(out)@, term),
{
    match term {
        Some(Terminator::Return(v)) => {
            out.append("  ret ");
            append_value(out, v);
            out.append("\n");
        },
        Some(Terminator::Jump(b)) => {
            out.append("  jump ");
            append_block(out, b.0 as usize);
            out.append("\n");
        },
        Some(Terminator::Branch { cond, then_, else_ }) => {
            out.append("  branch ");
            append_value(out, cond);
            out.append(", ");
            append_block(out, then_.0 as usize);
            out.append(", ");
            append_block(out, else_.0 as usize);
            out.append("\n");
        },
        None => out.append("  <no terminator>\n"),
    }
}

/// Every block lists instructions that exist.
pub open spec fn all_listed(f: Function) -> bool {
    forall|b: int, k: int|
        #![trigger f.listed(b)[k]]
        0 <= b < f.blocks@.len() && 0 <= k < f.listed(b).len() ==> f.listed(b)[k].0 < f.insts@.len()
}

/// One line for every instruction and terminator, and one for every block if
/// there are several. `floats` says how the constant of each instruction is
/// written.
pub fn print_function(f: &Function, floats: &Vec<String>) -> (r: String)
    requires
        all_listed(*f),
        floats@.len() == f.insts@.len(),
    ensures
        r@ == put_blocks(*f, floats@, f.blocks@.len()),
{
    let mut out: String = String::new();
    let several: bool = f.blocks.len() > 1;
    let mut b: usize = 0;
    assert(out@ =~= Seq::empty());
    while b < f.blocks.len()
        invariant
            all_listed(*f),
            floats@.len() == f.insts@.len(),
            several == (f.blocks@.len() > 1),
            b <= f.blocks@.len(),
            out@ == put_blocks(*f, floats@, b as nat),
        decreases f.blocks@.len() - b,
    {
        if several {
            append_block(&mut out, b);
            out.append(":\n");
        }
        let ghost labelled = out@;
        let mut k: usize = 0;
        while k < f.blocks[b].insts.len()
            invariant
                all_listed(*f),
                floats@.len() == f.insts@.len(),
                b < f.blocks@.len(),
                k <= f.listed(b as int).len(),
                out@ == put_listed(labelled, *f, floats@, b as int, k as nat),
            decreases f.listed(b as int).len() - k,
        {
            let v: Value = f.blocks[b].insts[k];
            assert(v == f.listed(b as int)[k as int]);
            out.append("  ");
            append_value(&mut out, v);
            out.append(" = ");
            append_inst(&mut out, &f.insts[v.0 as usize], &floats[v.0 as usize]);
            out.append("\n");
            k += 1;
        }
        append_term(&mut out, f.blocks[b].term);
        b += 1;
    }
    out
}

} // verus!
