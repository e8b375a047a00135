//! The decisions of the command line. Reading, printing, timing and
//! everything on doubles is left to the program around it.
use crate::ir::{Function, Terminator, Ty};
use crate::text::{append_number, chars_of, part, same_text, starts_with};
use crate::text::{begins, digits};
use vstd::prelude::*;
use vstd::string::*;

verus! {

pub struct SourceArgs {
    pub expression: String,
}

pub struct EvalArgs {
    pub expression: String,
    pub values: Vec<String>,
}

pub struct CompileArgs {
    pub expression: String,
    pub arch: String,
    pub opt: String,
    pub features: Option<String>,
    pub emit: bool,
}

pub struct IrArgs {
    pub expression: String,
    pub after: Option<String>,
}

pub struct CfgArgs {
    pub expression: String,
    pub dot: bool,
}

pub struct BenchArgs {
    pub expression: String,
    pub sizes: String,
}

pub struct VerifyArgs {
    pub expression: String,
    pub iters: usize,
}

/// What the program is asked to do.
pub enum Command {
    Eval(EvalArgs),
    Compile(CompileArgs),
    Asm(SourceArgs),
    Ir(IrArgs),
    Cfg(CfgArgs),
    Regalloc(SourceArgs),
    Bench(BenchArgs),
    Verify(VerifyArgs),
    Cpuinfo,
    Repl,
}

/// The message of a failure to compile.
pub open spec fn failed_to_compile(error: Seq<char>) -> bool {
    ||| begins(error, "lexing failed"@)
    ||| begins(error, "parsing failed"@)
    ||| begins(error, "type checking failed"@)
    ||| begins(error, "IR verification failed"@)
    ||| begins(error, "register allocation verification failed"@)
    ||| begins(error, "JIT unavailable"@)
    ||| begins(error, "executable memory allocation failed"@)
    ||| begins(error, "unknown architecture"@)
    ||| begins(error, "--opt must be"@)
    ||| begins(error, "WASM backend"@)
    ||| begins(error, "AArch64 currently"@)
    ||| begins(error, "AArch64 compilation failed"@)
}

pub fn is_compile_error(error: &str) -> (r: bool)
    ensures
        r == failed_to_compile(error@),
{
    starts_with(error, "lexing failed") || starts_with(error, "parsing failed") || starts_with(
        error,
        "type checking failed",
    ) || starts_with(error, "IR verification failed") || starts_with(
        error,
        "register allocation verification failed",
    ) || starts_with(error, "JIT unavailable") || starts_with(
        error,
        "executable memory allocation failed",
    ) || starts_with(error, "unknown architecture") || starts_with(error, "--opt must be")
        || starts_with(error, "WASM backend") || starts_with(error, "AArch64 currently")
        || starts_with(error, "AArch64 compilation failed")
}

/// The status that the program ends with: 3 where `verify` found a mismatch,
/// 2 where nothing could be compiled, else 1.
pub fn exit_code(command: &Command, error: &str) -> (r: i32)
    ensures
        r == (if command is Verify && begins(error@, "mismatch"@) {
            3int
        } else if failed_to_compile(error@) {
            2
        } else {
            1
        }),
{
    let verifying: bool = match command {
        Command::Verify(_) => true,
        _ => false,
    };
    if verifying && starts_with(error, "mismatch") {
        return 3;
    }
    if is_compile_error(error) {
        2
    } else {
        1
    }
}

/// Colours a text on a terminal, unless colours are unwanted.
pub fn paint(text: &str, color: u8, terminal: bool, no_color: bool) -> (r: String)
    ensures
        r@ == (if terminal && !no_color {
            "\x1b["@ + digits(color as nat) + "m"@ + text@ + "\x1b[0m"@
        } else {
            text@
        }),
{
    if terminal && !no_color {
        let mut r: String = "\x1b[".to_owned();
        append_number(&mut r, color as usize);
        r.append("m");
        r.append(text);
        r.append("\x1b[0m");
        r
    } else {
        text.to_owned()
    }
}

pub open spec fn letter(c: char) -> bool {
    'a' <= c <= 'z' || 'A' <= c <= 'Z'
}

pub open spec fn decimal(c: char) -> bool {
    '0' <= c <= '9'
}

/// A name starts with a letter or an underscore, and goes on with letters,
/// digits and underscores.
pub open spec fn identifier(name: Seq<char>) -> bool {
    &&& name.len() > 0
    &&& name[0] == '_' || letter(name[0])
    &&& forall|i: int|
        #![trigger name[i]]
        0 < i < name.len() ==> name[i] == '_' || letter(name[i]) || decimal(name[i])
}

fn is_letter(c: char) -> (r: bool)
    ensures
        r == letter(c),
{
    ('a' <= c && c <= 'z') || ('A' <= c && c <= 'Z')
}

fn is_decimal(c: char) -> (r: bool)
    ensures
        r == decimal(c),
{
    '0' <= c && c <= '9'
}

pub fn is_identifier(name: &str) -> (r: bool)
    ensures
        r == identifier(name@),
{
    let chars: Vec<char> = chars_of(name);
    if chars.len() == 0 {
        return false;
    }
    if !(chars[0] == '_' || is_letter(chars[0])) {
        return false;
    }
    let mut i: usize = 1;
    while i < chars.len()
        invariant
            chars@ == name@,
            1 <= i <= chars@.len(),
            name@[0] == '_' || letter(name@[0]),
            forall|j: int|
                #![trigger name@[j]]
                0 < j < i ==> name@[j] == '_' || letter(name@[j]) || decimal(name@[j]),
        decreases chars@.len() - i,
    {
        let c: char = chars[i];
        if !(c == '_' || is_letter(c) || is_decimal(c)) {
            assert(name@[i as int] == c);
            return false;
        }
        i += 1;
    }
    true
}

/// Why a size cannot be read.
#[derive(Clone, Copy, PartialEq, Eq, Debug, Structural)]
pub enum SizeError {
    Empty,
    InvalidDigit,
    Overflow,
}

pub open spec fn decimal_value(c: char) -> int {
    c as int - '0' as int
}

/// The number that the first `k` characters write; the first character that
/// is no digit, or takes the number out of range, decides.
pub open spec fn number(text: Seq<char>, k: nat) -> Result<usize, SizeError>
    decreases k,
{
    if k == 0 {
        Ok(0)
    } else {
        match number(text, (k - 1) as nat) {
            Err(e) => Err(e),
            Ok(n) => if !decimal(text[k - 1]) {
                Err(SizeError::InvalidDigit)
            } else if n * 10 + decimal_value(text[k - 1]) > usize::MAX {
                Err(SizeError::Overflow)
            } else {
                Ok((n * 10 + decimal_value(text[k - 1])) as usize)
            },
        }
    }
}

/// A number in decimal; a plus sign may stand before its digits.
pub open spec fn unsigned(text: Seq<char>) -> Result<usize, SizeError> {
    if text.len() == 0 {
        Err(SizeError::Empty)
    } else if text[0] == '+' && text.len() > 1 {
        number(text.skip(1), (text.len() - 1) as nat)
    } else {
        number(text, text.len())
    }
}

/// `n` times `by`, at most the largest number there is.
pub open spec fn times(n: usize, by: int) -> usize {
    if n * by > usize::MAX {
        usize::MAX
    } else {
        (n * by) as usize
    }
}

pub open spec fn scaled(r: Result<usize, SizeError>, by: int) -> Result<usize, SizeError> {
    match r {
        Ok(n) => Ok(times(n, by)),
        Err(e) => Err(e),
    }
}

/// A size: a number, in thousands with a `K` behind it, in millions with an
/// `M`.
pub open spec fn size(text: Seq<char>) -> Result<usize, SizeError> {
    if text.len() > 0 && text.last() == 'K' {
        scaled(unsigned(text.drop_last()), 1_000)
    } else if text.len() > 0 && text.last() == 'M' {
        scaled(unsigned(text.drop_last()), 1_000_000)
    } else {
        unsigned(text)
    }
}

fn digit_of(c: char) -> (r: usize)
    requires
        decimal(c),
    ensures
        r == decimal_value(c),
{
    (c as u32 - '0' as u32) as usize
}

fn read_number(chars: &Vec<char>, from: usize, to: usize) -> (r: Result<usize, SizeError>)
    requires
        from <= to <= chars@.len(),
    ensures
        r == number(chars@.subrange(from as int, to as int), (to - from) as nat),
{
    let ghost text = chars@.subrange(from as int, to as int);
    let mut n: usize = 0;
    let mut i: usize = from;
    while i < to
        invariant
            from <= i <= to <= chars@.len(),
            text == chars@.subrange(from as int, to as int),
            number(text, (i - from) as nat) == Ok::<usize, SizeError>(n),
        decreases to - i,
    {
        let c: char = chars[i];
        assert(c == text[i - from]);
        let ghost next = number(text, (i - from + 1) as nat);
        if !is_decimal(c) {
            proof {
                assert(next == Err::<usize, SizeError>(SizeError::InvalidDigit));
                lemma_number_stuck(text, (i - from + 1) as nat, (to - from) as nat);
            }
            return Err(SizeError::InvalidDigit);
        }
        let d: usize = digit_of(c);
        if n > (usize::MAX - d) / 10 {
            proof {
                assert(next == Err::<usize, SizeError>(SizeError::Overflow));
                lemma_number_stuck(text, (i - from + 1) as nat, (to - from) as nat);
            }
            return Err(SizeError::Overflow);
        }
        n = n * 10 + d;
        i += 1;
    }
    Ok(n)
}

proof fn lemma_number_stuck(text: Seq<char>, j: nat, k: nat)
    requires
        j <= k,
        number(text, j) is Err,
    ensures
        number(text, k) == number(text, j),
    decreases k,
{
    if j < k {
        lemma_number_stuck(text, j, (k - 1) as nat);
    }
}

fn read_unsigned(chars: &Vec<char>, to: usize) -> (r: Result<usize, SizeError>)
    requires
        to <= chars@.len(),
    ensures
        r == unsigned(chars@.take(to as int)),
{
    let ghost text = chars@.take(to as int);
    if to == 0 {
        return Err(SizeError::Empty);
    }
    if chars[0] == '+' && to > 1 {
        assert(text.skip(1) =~= chars@.subrange(1, to as int));
        read_number(chars, 1, to)
    } else {
        assert(text =~= chars@.subrange(0, to as int));
        read_number(chars, 0, to)
    }
}

fn scale(r: Result<usize, SizeError>, by: usize) -> (s: Result<usize, SizeError>)
    ensures
        s == scaled(r, by as int),
{
    match r {
        Ok(n) => match n.checked_mul(by) {
            Some(product) => Ok(product),
            None => Ok(usize::MAX),
        },
        Err(e) => Err(e),
    }
}

pub fn parse_size(value: &str) -> (r: Result<usize, SizeError>)
    ensures
        r == size(value@),
{
    let chars: Vec<char> = chars_of(value);
    let n: usize = chars.len();
    if n > 0 && chars[n - 1] == 'K' {
        assert(chars@.take(n - 1) =~= value@.drop_last());
        return scale(read_unsigned(&chars, n - 1), 1_000);
    }
    if n > 0 && chars[n - 1] == 'M' {
        assert(chars@.take(n - 1) =~= value@.drop_last());
        return scale(read_unsigned(&chars, n - 1), 1_000_000);
    }
    assert(chars@.take(n as int) =~= value@);
    read_unsigned(&chars, n)
}

/// The pieces of the first `k` characters, between commas.
pub open spec fn pieces(text: Seq<char>, k: nat) -> Seq<Seq<char>>
    decreases k,
{
    if k == 0 {
        seq![Seq::empty()]
    } else {
        let before = pieces(text, (k - 1) as nat);
        if text[k - 1] == ',' {
            before.push(Seq::empty())
        } else {
            before.drop_last().push(before.last().push(text[k - 1]))
        }
    }
}

/// The pieces of a text between commas, as places: piece `i` ends where
/// `ends[i]` says and starts behind the end of the one before it.
fn piece_starts(chars: &Vec<char>) -> (r: Vec<usize>)
    ensures
        r@.len() == pieces(chars@, chars@.len()).len(),
        r@.len() > 0,
        forall|i: int|
            #![trigger r@[i]]
            0 <= i < r@.len() ==> r@[i] <= piece_end(r@, i, chars@.len()) <= chars@.len()
                && chars@.subrange(r@[i] as int, piece_end(r@, i, chars@.len())) == pieces(
                chars@,
                chars@.len(),
            )[i],
{
    let mut r: Vec<usize> = Vec::new();
    r.push(0);
    let mut k: usize = 0;
    assert(chars@.subrange(0, 0) =~= Seq::empty());
    while k < chars.len()
        invariant
            k <= chars@.len(),
            r@.len() == pieces(chars@, k as nat).len(),
            r@.len() > 0,
            forall|i: int|
                #![trigger r@[i]]
                0 <= i < r@.len() ==> r@[i] <= piece_end(r@, i, k as nat) <= k && chars@.subrange(
                    r@[i] as int,
                    piece_end(r@, i, k as nat),
                ) == pieces(chars@, k as nat)[i],
        decreases chars@.len() - k,
    {
        let ghost was = r@;
        let ghost before = pieces(chars@, k as nat);
        let ghost after = pieces(chars@, (k + 1) as nat);
        let c: char = chars[k];
        if c == ',' {
            r.push(k + 1);
        }
        proof {
            assert forall|i: int|
                #![trigger r@[i]]
                0 <= i < r@.len() implies r@[i] <= piece_end(r@, i, (k + 1) as nat) <= k + 1
                && chars@.subrange(r@[i] as int, piece_end(r@, i, (k + 1) as nat)) == after[i] by {
                if i < was.len() {
                    assert(was[i] == r@[i]);
                    if i + 1 < was.len() {
                        assert(was[i + 1] == r@[i + 1]);
                    } else if c != ',' {
                        assert(chars@.subrange(was[i] as int, k + 1) =~= chars@.subrange(
                            was[i] as int,
                            k as int,
                        ).push(c));
                    }
                } else {
                    assert(chars@.subrange(k + 1, k + 1) =~= Seq::empty());
                }
            }
        }
        k += 1;
    }
    r
}

/// Where piece `i` of a text of `n` characters ends.
spec fn piece_end(starts: Seq<usize>, i: int, n: nat) -> int {
    if i + 1 < starts.len() {
        starts[i + 1] - 1
    } else {
        n as int
    }
}

/// The sizes that the first `k` pieces write; the first that writes none
/// decides.
pub open spec fn sizes(list: Seq<Seq<char>>, k: nat) -> Result<Seq<usize>, (int, SizeError)>
    decreases k,
{
    if k == 0 {
        Ok(Seq::empty())
    } else {
        match sizes(list, (k - 1) as nat) {
            Err(e) => Err(e),
            Ok(before) => match size(list[k - 1]) {
                Ok(n) => Ok(before.push(n)),
                Err(e) => Err((k - 1, e)),
            },
        }
    }
}

/// What stands where a size is wanted.
#[derive(Debug)]
pub struct BadSize {
    pub piece: String,
    pub error: SizeError,
}

/// The sizes of a list, between commas.
pub open spec fn sizes_read(text: Seq<char>, r: Result<Vec<usize>, BadSize>) -> bool {
    let list = pieces(text, text.len());
    match sizes(list, list.len()) {
        Ok(expected) => r is Ok && r->Ok_0@ == expected,
        Err((i, e)) => r is Err && r->Err_0.piece@ == list[i] && r->Err_0.error == e,
    }
}

proof fn lemma_sizes_stuck(list: Seq<Seq<char>>, j: nat, k: nat)
    requires
        j <= k,
        sizes(list, j) is Err,
    ensures
        sizes(list, k) == sizes(list, j),
    decreases k,
{
    if j < k {
        lemma_sizes_stuck(list, j, (k - 1) as nat);
    }
}

/// Reads the sizes that a benchmark runs with.
pub fn parse_sizes(text: &str) -> (r: Result<Vec<usize>, BadSize>)
    ensures
        sizes_read(text@, r),
{
    let chars: Vec<char> = chars_of(text);
    let starts: Vec<usize> = piece_starts(&chars);
    let ghost list = pieces(text@, text@.len());
    let mut r: Vec<usize> = Vec::new();
    let mut i: usize = 0;
    while i < starts.len()
        invariant
            chars@ == text@,
            list == pieces(text@, text@.len()),
            starts@.len() == list.len(),
            i <= starts@.len(),
            forall|j: int|
                #![trigger starts@[j]]
                0 <= j < starts@.len() ==> starts@[j] <= piece_end(starts@, j, chars@.len())
                    <= chars@.len() && chars@.subrange(
                    starts@[j] as int,
                    piece_end(starts@, j, chars@.len()),
                ) == list[j],
            sizes(list, i as nat) == Ok::<Seq<usize>, (int, SizeError)>(r@),
        decreases starts@.len() - i,
    {
        let from: usize = starts[i];
        let ghost end = piece_end(starts@, i as int, chars@.len());
        let to: usize = if i + 1 < starts.len() {
            assert(starts@[i as int] <= end);
            starts[i + 1] - 1
        } else {
            chars.len()
        };
        let piece: String = part(text, from, to);
        match parse_size(piece.as_str()) {
            Ok(n) => {
                r.push(n);
            },
            Err(error) => {
                proof {
                    assert(sizes(list, (i + 1) as nat) == Err::<Seq<usize>, (int, SizeError)>(
                        (i as int, error),
                    ));
                    lemma_sizes_stuck(list, (i + 1) as nat, list.len());
                }
                return Err(BadSize { piece, error });
            },
        }
        i += 1;
    }
    Ok(r)
}

/// A hexadecimal digit.
pub open spec fn hex_digit(n: nat) -> Seq<char> {
    if n < 10 {
        digits(n)
    } else if n == 10 {
        "a"@
    } else if n == 11 {
        "b"@
    } else if n == 12 {
        "c"@
    } else if n == 13 {
        "d"@
    } else if n == 14 {
        "e"@
    } else {
        "f"@
    }
}

/// The first `k` bytes, each as two hexadecimal digits, with spaces between
/// them.
pub open spec fn hex_text(bytes: Seq<u8>, k: nat) -> Seq<char>
    decreases k,
{
    if k == 0 {
        Seq::empty()
    } else {
        let before = hex_text(bytes, (k - 1) as nat);
        let spaced = if k == 1 {
            before
        } else {
            before + " "@
        };
        spaced + hex_digit((bytes[k - 1] / 16) as nat) + hex_digit((bytes[k - 1] % 16) as nat)
    }
}

fn append_hex(out: &mut String, n: usize)
    requires
        n < 16,
    ensures
        final(out)@ == old(out)@ + hex_digit(n as nat),
{
    match n {
        10 => out.append("a"),
        11 => out.append("b"),
        12 => out.append("c"),
        13 => out.append("d"),
        14 => out.append("e"),
        15 => out.append("f"),
        _ => append_number(out, n),
    }
}

pub fn hex(bytes: &Vec<u8>) -> (r: String)
    ensures
        r@ == hex_text(bytes@, bytes@.len()),
{
    let mut r: String = String::new();
    let mut k: usize = 0;
    assert(r@ =~= Seq::empty());
    while k < bytes.len()
        invariant
            k <= bytes@.len(),
            r@ == hex_text(bytes@, k as nat),
        decreases bytes@.len() - k,
    {
        if k > 0 {
            r.append(" ");
        }
        append_hex(&mut r, (bytes[k] / 16) as usize);
        append_hex(&mut r, (bytes[k] % 16) as usize);
        k += 1;
    }
    r
}

/// An argument behind the expression.
#[derive(Debug)]
pub enum Argument {
    Positional(String),
    Named { name: String, value: String },
}

/// An argument as text.
pub enum ArgumentModel {
    Positional(Seq<char>),
    Named(Seq<char>, Seq<char>),
}

impl View for Argument {
    type V = ArgumentModel;

    open spec fn view(&self) -> ArgumentModel {
        match *self {
            Argument::Positional(value) => ArgumentModel::Positional(value@),
            Argument::Named { name, value } => ArgumentModel::Named(name@, value@),
        }
    }
}

/// Where the arguments stop making sense.
#[derive(Clone, Copy, PartialEq, Eq, Debug, Structural)]
pub enum SplitError {
    /// Two hyphens without a name.
    EmptyName,
    /// The last argument, at this place, names a parameter without a value.
    MissingValue(usize),
}

/// The arguments up to the first that makes no sense, and what is wrong with
/// that one.
pub struct Split {
    pub arguments: Seq<ArgumentModel>,
    pub fault: Option<SplitError>,
}

/// Where the first `=` of a text stands, from place `i` on.
pub open spec fn equals_sign(text: Seq<char>, i: int) -> Option<int>
    decreases text.len() - i,
{
    if i < 0 || i >= text.len() {
        None
    } else if text[i] == '=' {
        Some(i)
    } else {
        equals_sign(text, i + 1)
    }
}

pub open spec fn behind(first: ArgumentModel, rest: Split) -> Split {
    Split { arguments: seq![first] + rest.arguments, fault: rest.fault }
}

/// `--name=value` and `--name value` name a parameter; anything else is a
/// value by its place.
pub open spec fn split(args: Seq<String>, i: int) -> Split
    decreases args.len() - i,
{
    if i < 0 || i >= args.len() {
        Split { arguments: Seq::empty(), fault: None }
    } else if begins(args[i]@, "--"@) {
        let name = args[i]@.skip(2);
        if name.len() == 0 {
            Split { arguments: Seq::empty(), fault: Some(SplitError::EmptyName) }
        } else {
            match equals_sign(name, 0) {
                Some(k) => behind(
                    ArgumentModel::Named(name.take(k), name.skip(k + 1)),
                    split(args, i + 1),
                ),
                None => if i + 1 < args.len() {
                    behind(ArgumentModel::Named(name, args[i + 1]@), split(args, i + 2))
                } else {
                    Split {
                        arguments: Seq::empty(),
                        fault: Some(SplitError::MissingValue(i as usize)),
                    }
                },
            }
        }
    } else {
        behind(ArgumentModel::Positional(args[i]@), split(args, i + 1))
    }
}

pub open spec fn argument_texts(list: Seq<Argument>) -> Seq<ArgumentModel> {
    list.map_values(|a: Argument| a@)
}

fn find_equals_sign(text: &Vec<char>, from: usize) -> (r: Option<usize>)
    requires
        from <= text@.len(),
    ensures
        match equals_sign(text@.skip(from as int), 0) {
            Some(k) => r is Some && r->Some_0 == from + k && from <= r->Some_0 < text@.len(),
            None => r is None,
        },
{
    let ghost rest = text@.skip(from as int);
    let mut i: usize = from;
    while i < text.len()
        invariant
            from <= i <= text@.len(),
            rest == text@.skip(from as int),
            equals_sign(rest, 0) == equals_sign(rest, i - from),
        decreases text@.len() - i,
    {
        assert(rest[i - from] == text@[i as int]);
        if text[i] == '=' {
            return Some(i);
        }
        i += 1;
    }
    None
}

proof fn lemma_behind(list: Seq<Argument>, a: Argument, rest: Split)
    ensures
        argument_texts(list) + behind(a@, rest).arguments == argument_texts(list.push(a))
            + rest.arguments,
{
    assert(argument_texts(list) + (seq![a@] + rest.arguments) =~= argument_texts(list.push(a))
        + rest.arguments);
}

/// Tells names and values apart. What comes before a fault is kept, so that
/// values can be read in the order in which they stand.
pub fn split_arguments(args: &Vec<String>) -> (r: (Vec<Argument>, Option<SplitError>))
    ensures
        argument_texts(r.0@) == split(args@, 0).arguments,
        r.1 == split(args@, 0).fault,
{
    let mut list: Vec<Argument> = Vec::new();
    let mut i: usize = 0;
    let ghost whole = split(args@, 0);
    assert(argument_texts(list@) + whole.arguments =~= whole.arguments);
    proof {
        reveal_strlit("--");
    }
    while i < args.len()
        invariant
            i <= args@.len(),
            whole == split(args@, 0),
            "--"@.len() == 2,
            whole.arguments == argument_texts(list@) + split(args@, i as int).arguments,
            whole.fault == split(args@, i as int).fault,
        decreases args@.len() - i,
    {
        let text: &String = &args[i];
        let n: usize = text.as_str().unicode_len();
        if starts_with(text.as_str(), "--") {
            let ghost name = text@.skip(2);
            if n == 2 {
                assert(argument_texts(list@) + Seq::<ArgumentModel>::empty() =~= argument_texts(
                    list@,
                ));
                return (list, Some(SplitError::EmptyName));
            }
            let chars: Vec<char> = chars_of(text.as_str());
            match find_equals_sign(&chars, 2) {
                Some(k) => {
                    let a: Argument = Argument::Named {
                        name: part(text.as_str(), 2, k),
                        value: part(text.as_str(), k + 1, n),
                    };
                    proof {
                        assert(text@.subrange(2, k as int) =~= name.take(k - 2));
                        assert(text@.subrange(k + 1, n as int) =~= name.skip(k - 1));
                        lemma_behind(list@, a, split(args@, i + 1));
                    }
                    list.push(a);
                },
                None => {
                    if i + 1 >= args.len() {
                        assert(argument_texts(list@) + Seq::<ArgumentModel>::empty()
                            =~= argument_texts(list@));
                        return (list, Some(SplitError::MissingValue(i)));
                    }
                    let a: Argument = Argument::Named {
                        name: part(text.as_str(), 2, n),
                        value: args[i + 1].clone(),
                    };
                    proof {
                        assert(text@.subrange(2, n as int) =~= name);
                        lemma_behind(list@, a, split(args@, i + 2));
                    }
                    list.push(a);
                    i += 1;
                },
            }
        } else {
            let a: Argument = Argument::Positional(text.clone());
            proof {
                lemma_behind(list@, a, split(args@, i + 1));
            }
            list.push(a);
        }
        i += 1;
    }
    assert(argument_texts(list@) + Seq::<ArgumentModel>::empty() =~= argument_texts(list@));
    (list, None)
}

/// Why the arguments do not fit the parameters.
#[derive(Clone, Copy, PartialEq, Eq, Debug, Structural)]
pub enum BindError {
    /// Some parameter is no double.
    NotFloat,
    TooMany { limit: usize, given: usize },
    /// No value for the parameter at this place.
    Missing(usize),
    /// The argument at this place names no parameter.
    Unknown(usize),
}

pub open spec fn float_params(params: Seq<(String, Ty)>) -> bool {
    forall|i: int| #![trigger params[i]] 0 <= i < params.len() ==> params[i].1 == Ty::F64
}

/// The places of the first `k` arguments that have no name.
pub open spec fn unnamed(list: Seq<Argument>, k: nat) -> Seq<usize>
    decreases k,
{
    if k == 0 {
        Seq::empty()
    } else {
        let before = unnamed(list, (k - 1) as nat);
        match list[k - 1] {
            Argument::Positional(_) => before.push((k - 1) as usize),
            Argument::Named { .. } => before,
        }
    }
}

/// The last of the first `k` arguments that has the name.
pub open spec fn last_named(list: Seq<Argument>, name: Seq<char>, k: nat) -> Option<usize>
    decreases k,
{
    if k == 0 {
        None
    } else {
        match list[k - 1]@ {
            ArgumentModel::Named(n, _) if n == name => Some((k - 1) as usize),
            _ => last_named(list, name, (k - 1) as nat),
        }
    }
}

/// The argument of parameter `i`: the last one that names it, else the one at
/// its place.
pub open spec fn argument_of(list: Seq<Argument>, params: Seq<(String, Ty)>, i: int) -> Option<
    usize,
> {
    match last_named(list, params[i].0@, list.len()) {
        Some(j) => Some(j),
        None => if i < unnamed(list, list.len()).len() {
            Some(unnamed(list, list.len())[i])
        } else {
            None
        },
    }
}

/// A parameter of the name.
pub open spec fn has_param(params: Seq<(String, Ty)>, name: Seq<char>) -> bool {
    exists|i: int| #![trigger params[i]] 0 <= i < params.len() && params[i].0@ == name
}

pub open spec fn known(a: Argument, params: Seq<(String, Ty)>) -> bool {
    match a {
        Argument::Positional(_) => true,
        Argument::Named { name, .. } => has_param(params, name@),
    }
}

/// Every parameter below `n` has an argument.
pub open spec fn supplied(list: Seq<Argument>, params: Seq<(String, Ty)>, n: int) -> bool {
    forall|i: int| #![trigger params[i]] 0 <= i < n ==> argument_of(list, params, i) is Some
}

/// Every argument below `n` belongs to a parameter.
pub open spec fn all_known(list: Seq<Argument>, params: Seq<(String, Ty)>, n: int) -> bool {
    forall|j: int| #![trigger list[j]] 0 <= j < n ==> known(list[j], params)
}

/// Where the value of every parameter stands, or the first thing wrong, of
/// these in this order: a parameter that is no double, more values than
/// parameters, a parameter without a value, a name of no parameter.
pub open spec fn bound(
    list: Seq<Argument>,
    params: Seq<(String, Ty)>,
    r: Result<Vec<usize>, BindError>,
) -> bool {
    let given = unnamed(list, list.len()).len();
    match r {
        Ok(v) => {
            &&& float_params(params)
            &&& given <= params.len()
            &&& v@.len() == params.len()
            &&& forall|i: int|
                #![trigger v@[i]]
                0 <= i < v@.len() ==> argument_of(list, params, i) == Some(v@[i])
            &&& all_known(list, params, list.len() as int)
        },
        Err(BindError::NotFloat) => !float_params(params),
        Err(BindError::TooMany { limit, given: g }) => {
            &&& float_params(params)
            &&& limit == params.len()
            &&& g == given
            &&& g > limit
        },
        Err(BindError::Missing(i)) => {
            &&& float_params(params)
            &&& given <= params.len()
            &&& i < params.len()
            &&& supplied(list, params, i as int)
            &&& argument_of(list, params, i as int) is None
        },
        Err(BindError::Unknown(j)) => {
            &&& float_params(params)
            &&& given <= params.len()
            &&& supplied(list, params, params.len() as int)
            &&& j < list.len()
            &&& all_known(list, params, j as int)
            &&& !known(list[j as int], params)
        },
    }
}

/// Whether every parameter is a double.
pub fn only_floats(params: &Vec<(String, Ty)>) -> (r: bool)
    ensures
        r == float_params(params@),
{
    let mut i: usize = 0;
    while i < params.len()
        invariant
            i <= params@.len(),
            forall|j: int| #![trigger params@[j]] 0 <= j < i ==> params@[j].1 == Ty::F64,
        decreases params@.len() - i,
    {
        if params[i].1 != Ty::F64 {
            assert(params@[i as int].1 != Ty::F64);
            return false;
        }
        i += 1;
    }
    true
}

fn find_unnamed(list: &Vec<Argument>) -> (r: Vec<usize>)
    ensures
        r@ == unnamed(list@, list@.len()),
        r@.len() <= list@.len(),
{
    let mut r: Vec<usize> = Vec::new();
    let mut k: usize = 0;
    while k < list.len()
        invariant
            k <= list@.len(),
            r@ == unnamed(list@, k as nat),
            r@.len() <= k,
        decreases list@.len() - k,
    {
        match &list[k] {
            Argument::Positional(_) => r.push(k),
            Argument::Named { .. } => {},
        }
        k += 1;
    }
    r
}

fn find_named(list: &Vec<Argument>, wanted: &String) -> (r: Option<usize>)
    ensures
        r == last_named(list@, wanted@, list@.len()),
{
    let mut k: usize = list.len();
    while k > 0
        invariant
            k <= list@.len(),
            last_named(list@, wanted@, list@.len()) == last_named(list@, wanted@, k as nat),
        decreases k,
    {
        match &list[k - 1] {
            Argument::Named { name, .. } => {
                if same_text(name.as_str(), wanted.as_str()) {
                    return Some(k - 1);
                }
            },
            Argument::Positional(_) => {},
        }
        k -= 1;
    }
    None
}

fn has_name(params: &Vec<(String, Ty)>, name: &String) -> (r: bool)
    ensures
        r == has_param(params@, name@),
{
    let mut i: usize = 0;
    while i < params.len()
        invariant
            i <= params@.len(),
            forall|j: int| #![trigger params@[j]] 0 <= j < i ==> params@[j].0@ != name@,
        decreases params@.len() - i,
    {
        if same_text(params[i].0.as_str(), name.as_str()) {
            assert(params@[i as int].0@ == name@);
            return true;
        }
        i += 1;
    }
    false
}

fn is_known(a: &Argument, params: &Vec<(String, Ty)>) -> (r: bool)
    ensures
        r == known(*a, params@),
{
    match a {
        Argument::Positional(_) => true,
        Argument::Named { name, .. } => has_name(params, name),
    }
}

/// Finds the argument of every parameter.
pub fn bind_arguments(list: &Vec<Argument>, params: &Vec<(String, Ty)>) -> (r: Result<
    Vec<usize>,
    BindError,
>)
    ensures
        bound(list@, params@, r),
{
    if !only_floats(params) {
        return Err(BindError::NotFloat);
    }
    let places: Vec<usize> = find_unnamed(list);
    if places.len() > params.len() {
        return Err(BindError::TooMany { limit: params.len(), given: places.len() });
    }
    let mut r: Vec<usize> = Vec::new();
    let mut i: usize = 0;
    while i < params.len()
        invariant
            float_params(params@),
            places@ == unnamed(list@, list@.len()),
            places@.len() <= params@.len(),
            i <= params@.len(),
            r@.len() == i,
            forall|j: int|
                #![trigger r@[j]]
                0 <= j < i ==> argument_of(list@, params@, j) == Some(r@[j]),
        decreases params@.len() - i,
    {
        match find_named(list, &params[i].0) {
            Some(j) => {
                r.push(j);
            },
            None => {
                if i >= places.len() {
                    proof {
                        assert forall|j: int| #![trigger params@[j]] 0 <= j < i implies argument_of(
                            list@,
                            params@,
                            j,
                        ) is Some by {
                            assert(argument_of(list@, params@, j) == Some(r@[j]));
                        }
                    }
                    return Err(BindError::Missing(i));
                }
                r.push(places[i]);
            },
        }
        i += 1;
    }
    let mut k: usize = 0;
    while k < list.len()
        invariant
            float_params(params@),
            places@ == unnamed(list@, list@.len()),
            places@.len() <= params@.len(),
            r@.len() == params@.len(),
            forall|j: int|
                #![trigger r@[j]]
                0 <= j < r@.len() ==> argument_of(list@, params@, j) == Some(r@[j]),
            k <= list@.len(),
            all_known(list@, params@, k as int),
        decreases list@.len() - k,
    {
        if !is_known(&list[k], params) {
            proof {
                assert forall|j: int|
                    #![trigger params@[j]]
                    0 <= j < params@.len() implies argument_of(list@, params@, j) is Some by {
                    assert(argument_of(list@, params@, j) == Some(r@[j]));
                }
            }
            return Err(BindError::Unknown(k));
        }
        k += 1;
    }
    Ok(r)
}

/// What a listing of the blocks says of block `b`.
pub open spec fn cfg_block(out: Seq<char>, b: int, count: nat, term: Option<Terminator>) -> Seq<
    char,
> {
    let start = out + "block"@ + digits(b as nat) + ": "@ + digits(count) + " instructions -> "@;
    match term {
        Some(Terminator::Jump(t)) => start + "block"@ + digits(t.0 as nat) + "\n"@,
        Some(Terminator::Branch { then_, else_, .. }) => start + "block"@ + digits(then_.0 as nat)
            + ", block"@ + digits(else_.0 as nat) + "\n"@,
        Some(Terminator::Return(_)) => start + "return\n"@,
        None => start + "unterminated\n"@,
    }
}

/// An edge of the graph.
pub open spec fn dot_edge(out: Seq<char>, from: int, to: int, label: Seq<char>) -> Seq<char> {
    out + "  block"@ + digits(from as nat) + " -> block"@ + digits(to as nat) + label + ";\n"@
}

/// What the graph says of block `b`.
pub open spec fn dot_block(out: Seq<char>, b: int, count: nat, term: Option<Terminator>) -> Seq<
    char,
> {
    let node = out + "  block"@ + digits(b as nat) + " [label=\"block"@ + digits(b as nat) + "\\n"@
        + digits(count) + " instructions\"];\n"@;
    match term {
        Some(Terminator::Jump(t)) => dot_edge(node, b, t.0 as int, ""@),
        Some(Terminator::Branch { then_, else_, .. }) => dot_edge(
            dot_edge(node, b, then_.0 as int, " [label=\"then\"]"@),
            b,
            else_.0 as int,
            " [label=\"else\"]"@,
        ),
        _ => node,
    }
}

/// The first `n` blocks.
pub open spec fn cfg_blocks(out: Seq<char>, f: Function, dot: bool, n: nat) -> Seq<char>
    decreases n,
{
    if n == 0 {
        out
    } else {
        let before = cfg_blocks(out, f, dot, (n - 1) as nat);
        if dot {
            dot_block(before, n - 1, f.listed(n - 1).len(), f.term(n - 1))
        } else {
            cfg_block(before, n - 1, f.listed(n - 1).len(), f.term(n - 1))
        }
    }
}

/// The blocks and where they go: one line for each, or a graph.
pub open spec fn cfg_listing(f: Function, dot: bool) -> Seq<char> {
    if dot {
        cfg_blocks("digraph forge_cfg {\n"@, f, dot, f.blocks@.len()) + "}\n"@
    } else {
        cfg_blocks(Seq::empty(), f, dot, f.blocks@.len())
    }
}

fn append_cfg_block(out: &mut String, b: usize, count: usize, term: Option<Terminator>)
    ensures
        final(out)@ == cfg_block(old(out)@, b as int, count as nat, term),
{
    out.append("block");
    append_number(out, b);
    out.append(": ");
    append_number(out, count);
    out.append(" instructions -> ");
    match term {
        Some(Terminator::Jump(t)) => {
            out.append("block");
            append_number(out, t.0 as usize);
            out.append("\n");
        },
        Some(Terminator::Branch { then_, else_, .. }) => {
            out.append("block");
            append_number(out, then_.0 as usize);
            out.append(", block");
            append_number(out, else_.0 as usize);
            out.append("\n");
        },
        Some(Terminator::Return(_)) => out.append("return\n"),
        None => out.append("unterminated\n"),
    }
}

fn append_dot_edge(out: &mut String, from: usize, to: usize, label: &str)
    ensures
        final(out)@ == dot_edge(old(out)@, from as int, to as int, label@),
{
    out.append("  block");
    append_number(out, from);
    out.append(" -> block");
    append_number(out, to);
    out.append(label);
    out.append(";\n");
}

fn append_dot_block(out: &mut String, b: usize, count: usize, term: Option<Terminator>)
    ensures
        final(out)@ == dot_block(old(out)@, b as int, count as nat, term),
{
    out.append("  block");
    append_number(out, b);
    out.append(" [label=\"block");
    append_number(out, b);
    out.append("\\n");
    append_number(out, count);
    out.append(" instructions\"];\n");
    match term {
        Some(Terminator::Jump(t)) => append_dot_edge(out, b, t.0 as usize, ""),
        Some(Terminator::Branch { then_, else_, .. }) => {
            append_dot_edge(out, b, then_.0 as usize, " [label=\"then\"]");
            append_dot_edge(out, b, else_.0 as usize, " [label=\"else\"]");
        },
        _ => {},
    }
}

/// The control-flow graph, as lines or in the language of Graphviz.
pub fn print_cfg(f: &Function, dot: bool) -> (r: String)
    ensures
        r@ == cfg_listing(*f, dot),
{
    let mut out: String = String::new();
    assert(out@ =~= Seq::empty());
    if dot {
        out.append("digraph forge_cfg {\n");
        assert(out@ =~= "digraph forge_cfg {\n"@);
    }
    let ghost start = out@;
    let mut b: usize = 0;
    while b < f.blocks.len()
        invariant
            b <= f.blocks@.len(),
            out@ == cfg_blocks(start, *f, dot, b as nat),
        decreases f.blocks@.len() - b,
    {
        let count: usize = f.blocks[b].insts.len();
        if dot {
            append_dot_block(&mut out, b, count, f.blocks[b].term);
        } else {
            append_cfg_block(&mut out, b, count, f.blocks[b].term);
        }
        b += 1;
    }
    if dot {
        out.append("}\n");
    }
    out
}

/// What a function can be compiled for.
#[derive(Clone, Copy, PartialEq, Eq, Debug, Structural)]
pub enum Target {
    Wasm,
    X86_64,
    Aarch64,
}

/// Why nothing is compiled.
#[derive(Clone, Copy, PartialEq, Eq, Debug, Structural)]
pub enum PlanError {
    Optimization,
    Architecture,
}

/// The target, and whether the function is optimized for it.
pub open spec fn plan(arch: Seq<char>, opt: Seq<char>) -> Result<(Target, bool), PlanError> {
    if opt != "0"@ && opt != "1"@ && opt != "2"@ {
        Err(PlanError::Optimization)
    } else if arch == "wasm"@ {
        Ok((Target::Wasm, opt != "0"@))
    } else if arch == "x86_64"@ {
        Ok((Target::X86_64, opt != "0"@))
    } else if arch == "aarch64"@ {
        Ok((Target::Aarch64, opt != "0"@))
    } else {
        Err(PlanError::Architecture)
    }
}

pub fn compile_plan(arch: &str, opt: &str) -> (r: Result<(Target, bool), PlanError>)
    ensures
        r == plan(arch@, opt@),
{
    let plain: bool = same_text(opt, "0");
    if !plain && !same_text(opt, "1") && !same_text(opt, "2") {
        return Err(PlanError::Optimization);
    }
    if same_text(arch, "wasm") {
        Ok((Target::Wasm, !plain))
    } else if same_text(arch, "x86_64") {
        Ok((Target::X86_64, !plain))
    } else if same_text(arch, "aarch64") {
        Ok((Target::Aarch64, !plain))
    } else {
        Err(PlanError::Architecture)
    }
}

/// Whether the representation is shown after the passes, rather than as it
/// was lowered.
pub fn shows_optimized(after: &Option<String>) -> (r: bool)
    ensures
        r == (match *after {
            Some(pass) => pass@ != "none"@ && pass@ != "lower"@,
            None => false,
        }),
{
    match after {
        Some(pass) => !same_text(pass.as_str(), "none") && !same_text(pass.as_str(), "lower"),
        None => false,
    }
}

/// Doubles go in, and the last instruction computes a double.
pub open spec fn float_function(f: Function) -> bool {
    float_params(f.params@) && f.types@.len() > 0 && f.types@.last() == Ty::F64
}

pub fn is_float_function(f: &Function) -> (r: bool)
    ensures
        r == float_function(*f),
{
    let n: usize = f.types.len();
    only_floats(&f.params) && n > 0 && f.types[n - 1] == Ty::F64
}

} // verus!
