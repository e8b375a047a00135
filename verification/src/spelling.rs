//! Texts that are read and written, stated by what they stand for.
use crate::cli::{
    decimal, equals_sign, hex_digit, hex_text, last_named, number, pieces, size, unnamed,
    unsigned, Argument, ArgumentModel, SizeError,
};
use crate::ir::{CmpOp, LibFunc, Op, Ty};
use crate::memory::{first_fit, Pages};
use crate::print::{comparison_text, library_text, op_text, type_text};
use crate::repl::{gap, white_space};
use crate::text::{digit, digits, lemma_digits_read_back, read_number};
use vstd::prelude::*;

verus! {

// ---------------------------------------------------------------------------
// Numbers

pub open spec fn all_decimal(text: Seq<char>) -> bool {
    forall|i: int| #![trigger text[i]] 0 <= i < text.len() ==> '0' <= text[i] <= '9'
}

proof fn lemma_number_front(text: Seq<char>, k: nat)
    requires
        k < text.len(),
    ensures
        number(text, k) == number(text.drop_last(), k),
    decreases k,
{
    if k > 0 {
        lemma_number_front(text, (k - 1) as nat);
    }
}

proof fn lemma_read_grows(text: Seq<char>)
    requires
        all_decimal(text),
    ensures
        read_number(text) >= 0,
        text.len() > 0 ==> read_number(text.drop_last()) <= read_number(text),
    decreases text.len(),
{
    if text.len() > 0 {
        let front = text.drop_last();
        assert forall|i: int| #![trigger front[i]] 0 <= i < front.len() implies '0' <= front[i]
            <= '9' by {
            assert(front[i] == text[i]);
        }
        lemma_read_grows(front);
        assert('0' <= text[text.len() - 1] <= '9');
    }
}

/// Digits are read as the number that they write, as far as there are such
/// numbers, and nothing but digits is read.
pub proof fn lemma_digits_are_read(text: Seq<char>)
    ensures
        all_decimal(text) && read_number(text) <= usize::MAX ==> number(text, text.len()) == Ok::<
            usize,
            SizeError,
        >(read_number(text) as usize),
        all_decimal(text) && read_number(text) > usize::MAX ==> number(text, text.len()) == Err::<
            usize,
            SizeError,
        >(SizeError::Overflow),
        !all_decimal(text) ==> number(text, text.len()) is Err,
    decreases text.len(),
{
    if text.len() > 0 {
        let front = text.drop_last();
        let last = text[text.len() - 1];
        lemma_number_front(text, front.len());
        lemma_digits_are_read(front);
        if all_decimal(text) {
            lemma_read_grows(text);
            assert forall|i: int| #![trigger front[i]] 0 <= i < front.len() implies '0' <= front[i]
                <= '9' by {
                assert(front[i] == text[i]);
            }
            lemma_read_grows(front);
            assert('0' <= last <= '9');
        } else if all_decimal(front) && decimal(last) {
            assert forall|i: int| #![trigger text[i]] 0 <= i < text.len() implies '0' <= text[i]
                <= '9' by {
                if i < front.len() {
                    assert(text[i] == front[i]);
                }
            }
        }
    }
}

/// A number that is written is read back. With a `K` behind it it counts
/// thousands, with an `M` millions, up to the largest number.
pub proof fn lemma_sizes_are_read(n: usize)
    ensures
        unsigned(digits(n as nat)) == Ok::<usize, SizeError>(n),
        size(digits(n as nat)) == Ok::<usize, SizeError>(n),
        n * 1000 <= usize::MAX ==> size(digits(n as nat).push('K')) == Ok::<usize, SizeError>(
            (n * 1000) as usize,
        ),
        n * 1000 > usize::MAX ==> size(digits(n as nat).push('K')) == Ok::<usize, SizeError>(
            usize::MAX,
        ),
        n * 1000000 <= usize::MAX ==> size(digits(n as nat).push('M')) == Ok::<usize, SizeError>(
            (n * 1000000) as usize,
        ),
        n * 1000000 > usize::MAX ==> size(digits(n as nat).push('M')) == Ok::<usize, SizeError>(
            usize::MAX,
        ),
{
    let text = digits(n as nat);
    lemma_digits_read_back(n as nat);
    lemma_digits_are_read(text);
    assert(text[0] != '+');
    assert(text.last() == text[text.len() - 1]);
    assert(text.push('K').drop_last() =~= text);
    assert(text.push('M').drop_last() =~= text);
}

// ---------------------------------------------------------------------------
// Lists

/// The first `k` texts, with commas between them.
pub open spec fn listed_text(list: Seq<Seq<char>>) -> Seq<char>
    decreases list.len(),
{
    if list.len() == 0 {
        Seq::empty()
    } else if list.len() == 1 {
        list[0]
    } else {
        listed_text(list.drop_last()).push(',') + list.last()
    }
}

proof fn lemma_pieces(text: Seq<char>, k: nat)
    requires
        k <= text.len(),
    ensures
        pieces(text, k).len() > 0,
        listed_text(pieces(text, k)) == text.take(k as int),
        forall|i: int, j: int|
            #![trigger pieces(text, k)[i][j]]
            0 <= i < pieces(text, k).len() && 0 <= j < pieces(text, k)[i].len() ==> pieces(
                text,
                k,
            )[i][j] != ',',
    decreases k,
{
    if k == 0 {
        assert(text.take(0) =~= Seq::<char>::empty());
    } else {
        let l = (k - 1) as nat;
        lemma_pieces(text, l);
        let before = pieces(text, l);
        let after = pieces(text, k);
        let c = text[l as int];
        assert(text.take(k as int) =~= text.take(l as int).push(c));
        if c == ',' {
            assert(after.drop_last() =~= before);
            assert(listed_text(before).push(',') + Seq::<char>::empty() =~= listed_text(
                before,
            ).push(','));
        } else {
            assert(after.drop_last() =~= before.drop_last());
            if before.len() > 1 {
                let front = listed_text(before.drop_last()).push(',');
                assert(front + before.last().push(c) =~= (front + before.last()).push(c));
            }
            assert forall|i: int, j: int|
                #![trigger after[i][j]]
                0 <= i < after.len() && 0 <= j < after[i].len() implies after[i][j] != ',' by {
                if i < after.len() - 1 {
                    assert(after[i] == before[i]);
                    assert(before[i][j] != ',');
                } else if j < before.last().len() {
                    assert(before[before.len() - 1][j] != ',');
                }
            }
        }
    }
}

/// A text is its pieces with commas between them, and no piece holds a comma.
pub proof fn lemma_pieces_of_text(text: Seq<char>)
    ensures
        listed_text(pieces(text, text.len())) == text,
        forall|i: int, j: int|
            #![trigger pieces(text, text.len())[i][j]]
            0 <= i < pieces(text, text.len()).len() && 0 <= j < pieces(text, text.len())[i].len()
                ==> pieces(text, text.len())[i][j] != ',',
{
    lemma_pieces(text, text.len());
    assert(text.take(text.len() as int) =~= text);
}

// ---------------------------------------------------------------------------
// Bytes

/// The value of a hexadecimal digit.
pub open spec fn hex_value(c: char) -> int {
    if 'a' <= c <= 'f' {
        c as int - 'a' as int + 10
    } else {
        c as int - '0' as int
    }
}

proof fn lemma_hex_digit(n: nat)
    requires
        n < 16,
    ensures
        hex_digit(n).len() == 1,
        hex_value(hex_digit(n)[0]) == n,
{
    reveal_strlit("a");
    reveal_strlit("b");
    reveal_strlit("c");
    reveal_strlit("d");
    reveal_strlit("e");
    reveal_strlit("f");
    if n < 10 {
        assert(digits(n) == seq![digit(n)]);
    }
}

/// Byte `i` stands at the places `3 * i` and `3 * i + 1`, its higher half
/// first, and a space behind it unless it is the last one.
pub proof fn lemma_bytes_are_written(bytes: Seq<u8>, k: nat, i: int)
    requires
        0 <= i < k <= bytes.len(),
    ensures
        hex_text(bytes, k).len() == 3 * k - 1,
        16 * hex_value(hex_text(bytes, k)[3 * i]) + hex_value(hex_text(bytes, k)[3 * i + 1])
            == bytes[i],
        i + 1 < k ==> hex_text(bytes, k)[3 * i + 2] == ' ',
    decreases k,
{
    reveal_strlit(" ");
    let b = bytes[k - 1];
    lemma_hex_digit((b / 16) as nat);
    lemma_hex_digit((b % 16) as nat);
    let before = hex_text(bytes, (k - 1) as nat);
    if k > 1 {
        lemma_bytes_are_written(
            bytes,
            (k - 1) as nat,
            if i < k - 1 {
                i
            } else {
                0
            },
        );
    }
}

// ---------------------------------------------------------------------------
// Arguments

/// The sign that is found is the first one.
pub proof fn lemma_first_sign(text: Seq<char>, i: int)
    requires
        0 <= i <= text.len(),
    ensures
        match equals_sign(text, i) {
            Some(k) => i <= k < text.len() && text[k] == '=' && forall|j: int|
                #![trigger text[j]]
                i <= j < k ==> text[j] != '=',
            None => forall|j: int| #![trigger text[j]] i <= j < text.len() ==> text[j] != '=',
        },
    decreases text.len() - i,
{
    if i < text.len() && text[i] != '=' {
        lemma_first_sign(text, i + 1);
    }
}

/// The arguments without a name are all listed, in their order.
pub proof fn lemma_unnamed_in_order(list: Seq<Argument>, k: nat)
    requires
        k <= list.len() <= usize::MAX,
    ensures
        forall|i: int|
            #![trigger unnamed(list, k)[i]]
            0 <= i < unnamed(list, k).len() ==> unnamed(list, k)[i] < k
                && list[unnamed(list, k)[i] as int] is Positional,
        forall|i: int, j: int|
            #![trigger unnamed(list, k)[i], unnamed(list, k)[j]]
            0 <= i < j < unnamed(list, k).len() ==> unnamed(list, k)[i] < unnamed(list, k)[j],
        forall|p: int|
            #![trigger list[p]]
            0 <= p < k && list[p] is Positional ==> unnamed(list, k).contains(p as usize),
    decreases k,
{
    if k > 0 {
        let l = (k - 1) as nat;
        lemma_unnamed_in_order(list, l);
        let before = unnamed(list, l);
        let after = unnamed(list, k);
        assert forall|p: int| #![trigger list[p]] 0 <= p < k && list[p] is Positional implies after.contains(
            p as usize,
        ) by {
            if p < l {
                assert(before.contains(p as usize));
                let i = choose|i: int| 0 <= i < before.len() && before[i] == p as usize;
                assert(after[i] == p as usize);
            } else {
                assert(after[before.len() as int] == p as usize);
            }
        }
    }
}

/// The argument that is found for a name is the last one that has it.
pub proof fn lemma_last_of_the_name(list: Seq<Argument>, name: Seq<char>, k: nat)
    requires
        k <= list.len() <= usize::MAX,
    ensures
        match last_named(list, name, k) {
            Some(j) => j < k && (list[j as int]@ matches ArgumentModel::Named(n, _) && n == name)
                && forall|i: int|
                #![trigger list[i]]
                j < i < k ==> !(list[i]@ matches ArgumentModel::Named(n, _) && n == name),
            None => forall|i: int|
                #![trigger list[i]]
                0 <= i < k ==> !(list[i]@ matches ArgumentModel::Named(n, _) && n == name),
        },
    decreases k,
{
    if k > 0 {
        lemma_last_of_the_name(list, name, (k - 1) as nat);
    }
}

/// A word ends at the first white space.
pub proof fn lemma_first_space(line: Seq<char>, i: int)
    requires
        0 <= i <= line.len(),
    ensures
        i <= gap(line, i) <= line.len(),
        gap(line, i) < line.len() ==> white_space(line[gap(line, i)]),
        forall|j: int| #![trigger line[j]] i <= j < gap(line, i) ==> !white_space(line[j]),
    decreases line.len() - i,
{
    if i < line.len() && !white_space(line[i]) {
        lemma_first_space(line, i + 1);
    }
}

// ---------------------------------------------------------------------------
// Free pages

/// The buffer that is found is the first that is large enough.
pub proof fn lemma_first_that_fits(free: Seq<Pages>, wanted: usize, i: int)
    requires
        0 <= i <= free.len(),
    ensures
        match first_fit(free, wanted, i) {
            Some(k) => i <= k < free.len() && free[k].len >= wanted && forall|j: int|
                #![trigger free[j]]
                i <= j < k ==> free[j].len < wanted,
            None => forall|j: int| #![trigger free[j]] i <= j < free.len() ==> free[j].len < wanted,
        },
    decreases free.len() - i,
{
    if i < free.len() && free[i].len < wanted {
        lemma_first_that_fits(free, wanted, i + 1);
    }
}

// ---------------------------------------------------------------------------
// Names

/// An operation is written by its own name.
pub proof fn lemma_operations_by_name()
    ensures
        op_text(Op::Add) == "add "@,
        op_text(Op::Sub) == "sub "@,
        op_text(Op::Mul) == "mul "@,
        op_text(Op::Div) == "div "@,
        op_text(Op::Rem) == "rem "@,
        op_text(Op::Neg) == "neg "@,
        op_text(Op::Fma) == "fma "@,
        op_text(Op::And) == "and "@,
        op_text(Op::Or) == "or "@,
        op_text(Op::Xor) == "xor "@,
        op_text(Op::Not) == "not "@,
        op_text(Op::Shl) == "shl "@,
        op_text(Op::Shr) == "shr "@,
        op_text(Op::Sar) == "sar "@,
        op_text(Op::Sqrt) == "sqrt "@,
        op_text(Op::Abs) == "abs "@,
        op_text(Op::Min) == "min "@,
        op_text(Op::Max) == "max "@,
        op_text(Op::Floor) == "floor "@,
        op_text(Op::Ceil) == "ceil "@,
        op_text(Op::Round) == "round "@,
        op_text(Op::Trunc) == "trunc "@,
        op_text(Op::IToF) == "itof "@,
        op_text(Op::FToI) == "ftoi "@,
{
}

/// Types, comparisons and functions of the library are written by name.
pub proof fn lemma_written_by_name()
    ensures
        type_text(Ty::F64) == "F64"@,
        type_text(Ty::I64) == "I64"@,
        type_text(Ty::Bool) == "Bool"@,
        comparison_text(CmpOp::Eq) == "Eq"@,
        comparison_text(CmpOp::Ne) == "Ne"@,
        comparison_text(CmpOp::Lt) == "Lt"@,
        comparison_text(CmpOp::Le) == "Le"@,
        comparison_text(CmpOp::Gt) == "Gt"@,
        comparison_text(CmpOp::Ge) == "Ge"@,
        library_text(LibFunc::Sin) == "Sin"@,
        library_text(LibFunc::Cos) == "Cos"@,
        library_text(LibFunc::Tan) == "Tan"@,
        library_text(LibFunc::Exp) == "Exp"@,
        library_text(LibFunc::Log) == "Log"@,
        library_text(LibFunc::Pow) == "Pow"@,
{
}

} // verus!
