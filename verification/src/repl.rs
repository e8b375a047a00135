//! What a line of the interactive evaluator asks for.
use crate::cli::{identifier, is_identifier};
use crate::text::{append_number, begins, chars_of, digits, part, same_text, starts_with};
use vstd::prelude::*;
use vstd::string::*;

verus! {

/// A line without the space around it.
#[derive(Clone, Copy, PartialEq, Eq, Debug, Structural)]
pub enum Entry {
    Quit,
    Blank,
    Command,
    Expression,
}

pub open spec fn entry_of(line: Seq<char>) -> Entry {
    if line == ":quit"@ || line == ":q"@ {
        Entry::Quit
    } else if line.len() == 0 {
        Entry::Blank
    } else if begins(line, ":"@) {
        Entry::Command
    } else {
        Entry::Expression
    }
}

pub fn classify(line: &str) -> (r: Entry)
    ensures
        r == entry_of(line@),
{
    if same_text(line, ":quit") || same_text(line, ":q") {
        Entry::Quit
    } else if line.unicode_len() == 0 {
        Entry::Blank
    } else if starts_with(line, ":") {
        Entry::Command
    } else {
        Entry::Expression
    }
}

/// A character with the Unicode property White_Space.
pub open spec fn white_space(c: char) -> bool {
    let n = c as u32;
    ||| 0x9 <= n <= 0xd
    ||| n == 0x20
    ||| n == 0x85
    ||| n == 0xa0
    ||| n == 0x1680
    ||| 0x2000 <= n <= 0x200a
    ||| n == 0x2028
    ||| n == 0x2029
    ||| n == 0x202f
    ||| n == 0x205f
    ||| n == 0x3000
}

fn is_white_space(c: char) -> (r: bool)
    ensures
        r == white_space(c),
{
    let n: u32 = c as u32;
    (0x9 <= n && n <= 0xd) || n == 0x20 || n == 0x85 || n == 0xa0 || n == 0x1680 || (0x2000 <= n
        && n <= 0x200a) || n == 0x2028 || n == 0x2029 || n == 0x202f || n == 0x205f || n == 0x3000
}

/// The first space of a line, from place `i` on; its end, if there is none.
pub open spec fn gap(line: Seq<char>, i: int) -> int
    decreases line.len() - i,
{
    if i < 0 || i >= line.len() {
        line.len() as int
    } else if white_space(line[i]) {
        i
    } else {
        gap(line, i + 1)
    }
}

pub open spec fn unless_empty(word: Seq<char>) -> Seq<Seq<char>> {
    if word.len() == 0 {
        Seq::empty()
    } else {
        seq![word]
    }
}

/// A line cut at its first two spaces, without the pieces that are empty.
pub open spec fn words(line: Seq<char>) -> Seq<Seq<char>> {
    let i = gap(line, 0);
    if i == line.len() {
        unless_empty(line)
    } else {
        let j = gap(line, i + 1);
        if j == line.len() {
            unless_empty(line.take(i)) + unless_empty(line.skip(i + 1))
        } else {
            unless_empty(line.take(i)) + unless_empty(line.subrange(i + 1, j)) + unless_empty(
                line.skip(j + 1),
            )
        }
    }
}

pub open spec fn word_texts(list: Seq<String>) -> Seq<Seq<char>> {
    list.map_values(|w: String| w@)
}

fn find_gap(chars: &Vec<char>, from: usize) -> (r: usize)
    requires
        from <= chars@.len(),
    ensures
        r == gap(chars@, from as int),
        from <= r <= chars@.len(),
{
    let mut i: usize = from;
    while i < chars.len()
        invariant
            from <= i <= chars@.len(),
            gap(chars@, from as int) == gap(chars@, i as int),
        decreases chars@.len() - i,
    {
        if is_white_space(chars[i]) {
            return i;
        }
        i += 1;
    }
    i
}

fn add_word(list: &mut Vec<String>, line: &str, from: usize, to: usize)
    requires
        from <= to <= line@.len(),
    ensures
        word_texts(final(list)@) == word_texts(old(list)@) + unless_empty(
            line@.subrange(from as int, to as int),
        ),
{
    let ghost was = list@;
    if from < to {
        list.push(part(line, from, to));
        assert(word_texts(list@) =~= word_texts(was) + seq![line@.subrange(from as int, to as int)]);
    } else {
        assert(word_texts(list@) =~= word_texts(was) + Seq::<Seq<char>>::empty());
    }
}

/// Cuts a line into a command and at most two operands, the second of which
/// may hold spaces.
pub fn cut(line: &str) -> (r: Vec<String>)
    ensures
        word_texts(r@) == words(line@),
{
    let chars: Vec<char> = chars_of(line);
    let n: usize = chars.len();
    let mut list: Vec<String> = Vec::new();
    assert(word_texts(list@) =~= Seq::<Seq<char>>::empty());
    let i: usize = find_gap(&chars, 0);
    proof {
        assert(line@.subrange(0, i as int) =~= line@.take(i as int));
        assert(line@.take(n as int) =~= line@);
        assert forall|s: Seq<Seq<char>>| #[trigger] (Seq::<Seq<char>>::empty() + s) == s by {
            assert(Seq::<Seq<char>>::empty() + s =~= s);
        }
    }
    add_word(&mut list, line, 0, i);
    if i == n {
        return list;
    }
    let j: usize = find_gap(&chars, i + 1);
    assert(line@.subrange(i + 1, n as int) =~= line@.skip(i + 1));
    add_word(&mut list, line, i + 1, j);
    if j == n {
        return list;
    }
    assert(line@.subrange(j + 1, n as int) =~= line@.skip(j + 1));
    add_word(&mut list, line, j + 1, n);
    list
}

/// What a command asks for.
#[derive(Debug)]
pub enum Request {
    Help,
    /// `identifier` says whether the name can be bound.
    Bind { name: String, value: String, identifier: bool },
    Unbind { name: String },
    Vars,
    History,
    Clear,
    Asm { expression: String },
    Ir { expression: String },
    Bench { expression: String, sizes: String },
    /// Too few operands: how the command is used.
    Usage(String),
    Unknown(String),
}

pub open spec fn word(list: Seq<Seq<char>>, i: int) -> Seq<char> {
    if 0 <= i < list.len() {
        list[i]
    } else {
        Seq::empty()
    }
}

/// The command and its operands, or the usage where an operand is missing.
pub open spec fn asks(list: Seq<Seq<char>>, r: Request) -> bool {
    let command = word(list, 0);
    if command == ":help"@ {
        r is Help
    } else if command == ":set"@ {
        if list.len() < 3 {
            r matches Request::Usage(u) && u@ == "usage: :set NAME VALUE"@
        } else {
            r matches Request::Bind { name, value, identifier: ok } && name@ == list[1] && value@
                == list[2] && ok == identifier(list[1])
        }
    } else if command == ":unset"@ {
        if list.len() < 2 {
            r matches Request::Usage(u) && u@ == "usage: :unset NAME"@
        } else {
            r matches Request::Unbind { name } && name@ == list[1]
        }
    } else if command == ":vars"@ {
        r is Vars
    } else if command == ":history"@ {
        r is History
    } else if command == ":clear"@ {
        r is Clear
    } else if command == ":asm"@ {
        if list.len() < 2 {
            r matches Request::Usage(u) && u@ == "usage: :asm EXPR"@
        } else {
            r matches Request::Asm { expression } && expression@ == list[1]
        }
    } else if command == ":ir"@ {
        if list.len() < 2 {
            r matches Request::Usage(u) && u@ == "usage: :ir EXPR"@
        } else {
            r matches Request::Ir { expression } && expression@ == list[1]
        }
    } else if command == ":bench"@ {
        if list.len() < 2 {
            r matches Request::Usage(u) && u@ == "usage: :bench EXPR [SIZES]"@
        } else {
            r matches Request::Bench { expression, sizes } && expression@ == list[1] && sizes@
                == if list.len() < 3 {
                "1,10,100,1K"@
            } else {
                list[2]
            }
        }
    } else {
        r matches Request::Unknown(c) && c@ == command
    }
}

/// Reads the words of a command.
pub fn request_of(list: &Vec<String>) -> (r: Request)
    ensures
        asks(word_texts(list@), r),
{
    let n: usize = list.len();
    let command: String = if n == 0 {
        String::new()
    } else {
        list[0].clone()
    };
    let ghost texts = word_texts(list@);
    assert(command@ =~= word(texts, 0));
    let c: &str = command.as_str();
    if same_text(c, ":help") {
        Request::Help
    } else if same_text(c, ":set") {
        if n < 3 {
            return Request::Usage("usage: :set NAME VALUE".to_owned());
        }
        Request::Bind {
            name: list[1].clone(),
            value: list[2].clone(),
            identifier: is_identifier(list[1].as_str()),
        }
    } else if same_text(c, ":unset") {
        if n < 2 {
            return Request::Usage("usage: :unset NAME".to_owned());
        }
        Request::Unbind { name: list[1].clone() }
    } else if same_text(c, ":vars") {
        Request::Vars
    } else if same_text(c, ":history") {
        Request::History
    } else if same_text(c, ":clear") {
        Request::Clear
    } else if same_text(c, ":asm") {
        if n < 2 {
            return Request::Usage("usage: :asm EXPR".to_owned());
        }
        Request::Asm { expression: list[1].clone() }
    } else if same_text(c, ":ir") {
        if n < 2 {
            return Request::Usage("usage: :ir EXPR".to_owned());
        }
        Request::Ir { expression: list[1].clone() }
    } else if same_text(c, ":bench") {
        if n < 2 {
            return Request::Usage("usage: :bench EXPR [SIZES]".to_owned());
        }
        let sizes: String = if n < 3 {
            "1,10,100,1K".to_owned()
        } else {
            list[2].clone()
        };
        Request::Bench { expression: list[1].clone(), sizes }
    } else {
        Request::Unknown(command)
    }
}

/// Reads a command.
pub fn read_command(line: &str) -> (r: Request)
    ensures
        asks(words(line@), r),
{
    let list: Vec<String> = cut(line);
    request_of(&list)
}

/// As many spaces as bring `n` characters up to four.
pub open spec fn padding(n: nat) -> Seq<char> {
    if n == 1 {
        "   "@
    } else if n == 2 {
        "  "@
    } else if n == 3 {
        " "@
    } else {
        ""@
    }
}

/// The first `k` entries of the history, each with its number.
pub open spec fn history_lines(entries: Seq<String>, k: nat) -> Seq<char>
    decreases k,
{
    if k == 0 {
        Seq::empty()
    } else {
        history_lines(entries, (k - 1) as nat) + padding(digits(k).len()) + digits(k) + "  "@
            + entries[k - 1]@ + "\n"@
    }
}

proof fn lemma_digit_count(n: nat)
    ensures
        n < 10 ==> digits(n).len() == 1,
        10 <= n < 100 ==> digits(n).len() == 2,
        100 <= n < 1000 ==> digits(n).len() == 3,
        1000 <= n ==> digits(n).len() >= 4,
    decreases n,
{
    if n >= 10 {
        lemma_digit_count(n / 10);
    }
}

/// The lines entered so far.
pub fn history_text(entries: &Vec<String>) -> (r: String)
    ensures
        r@ == history_lines(entries@, entries@.len()),
{
    let mut r: String = String::new();
    let mut k: usize = 0;
    assert(r@ =~= Seq::empty());
    while k < entries.len()
        invariant
            k <= entries@.len(),
            r@ == history_lines(entries@, k as nat),
        decreases entries@.len() - k,
    {
        let n: usize = k + 1;
        proof {
            lemma_digit_count(n as nat);
        }
        if n < 10 {
            r.append("   ");
        } else if n < 100 {
            r.append("  ");
        } else if n < 1000 {
            r.append(" ");
        } else {
            r.append("");
        }
        append_number(&mut r, n);
        r.append("  ");
        r.append(entries[k].as_str());
        r.append("\n");
        k += 1;
    }
    r
}

} // verus!
