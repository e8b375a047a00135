//! Texts made of words, numbers and names.
use crate::ir::{Block, Ty, Value};
use crate::text::append_number;
use crate::text::digits;
use vstd::prelude::*;
use vstd::string::*;

verus! {

/// A piece of a text.
#[derive(Clone, Copy, Debug)]
pub enum Piece {
    Text(&'static str),
    Number(usize),
    Value(Value),
    Block(Block),
    Type(Ty),
}

pub open spec fn name_shown(ty: Ty) -> Seq<char> {
    match ty {
        Ty::F64 => "F64"@,
        Ty::I64 => "I64"@,
        Ty::Bool => "Bool"@,
    }
}

/// How a piece reads: values and blocks by their numbers, types by their names.
pub open spec fn shown(piece: Piece) -> Seq<char> {
    match piece {
        Piece::Text(text) => text@,
        Piece::Number(n) => digits(n as nat),
        Piece::Value(v) => "Value("@ + digits(v.0 as nat) + ")"@,
        Piece::Block(b) => "Block("@ + digits(b.0 as nat) + ")"@,
        Piece::Type(ty) => name_shown(ty),
    }
}

/// The pieces, one behind the other.
pub open spec fn spelled(pieces: Seq<Piece>) -> Seq<char>
    decreases pieces.len(),
{
    if pieces.len() == 0 {
        Seq::empty()
    } else {
        spelled(pieces.drop_last()) + shown(pieces.last())
    }
}

fn append_piece(out: &mut String, piece: Piece)
    ensures
        final(out)@ == old(out)@ + shown(piece),
{
    let ghost start = out@;
    match piece {
        Piece::Text(text) => out.append(text),
        Piece::Number(n) => append_number(out, n),
        Piece::Value(v) => {
            out.append("Value(");
            append_number(out, v.0 as usize);
            out.append(")");
            assert(out@ =~= start + shown(piece));
        },
        Piece::Block(b) => {
            out.append("Block(");
            append_number(out, b.0 as usize);
            out.append(")");
            assert(out@ =~= start + shown(piece));
        },
        Piece::Type(ty) => match ty {
            Ty::F64 => out.append("F64"),
            Ty::I64 => out.append("I64"),
            Ty::Bool => out.append("Bool"),
        },
    }
}

pub fn spell(pieces: &Vec<Piece>) -> (r: String)
    ensures
        r@ == spelled(pieces@),
{
    let mut out: String = String::new();
    let mut i: usize = 0;
    assert(out@ =~= spelled(pieces@.take(0)));
    while i < pieces.len()
        invariant
            i <= pieces@.len(),
            out@ == spelled(pieces@.take(i as int)),
        decreases pieces@.len() - i,
    {
        append_piece(&mut out, pieces[i]);
        proof {
            let some = pieces@.take(i + 1);
            assert(some.drop_last() =~= pieces@.take(i as int));
            assert(some.last() == pieces@[i as int]);
        }
        i += 1;
    }
    assert(pieces@.take(i as int) =~= pieces@);
    out
}

} // verus!
