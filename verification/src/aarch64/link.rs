//! Linking: from instructions that name blocks and literals to bytes.
use crate::aarch64::encode::{displacement_ok, le_bytes};
use crate::aarch64::encode::words_to_bytes;
use crate::aarch64::machine::{all_encodable, in_reach, word_of};
use crate::aarch64::machine::{encode, A64};
use crate::aarch64::decode::{lemma_linked_spells, registers_ok, spells};
use crate::aarch64::error::EmitError;
use vstd::prelude::*;

verus! {

/// The literals of the first `n` instructions, each once, in the order in
/// which they come up.
pub open spec fn pool_of(code: Seq<A64>, n: nat) -> Seq<u64>
    decreases n,
{
    if n == 0 {
        Seq::empty()
    } else {
        let pool = pool_of(code, (n - 1) as nat);
        match code[n - 1] {
            A64::Literal { bits, .. } => if pool.contains(bits) {
                pool
            } else {
                pool.push(bits)
            },
            _ => pool,
        }
    }
}

/// The literals of the whole code.
pub open spec fn pool(code: Seq<A64>) -> Seq<u64> {
    pool_of(code, code.len())
}

/// Where the pool starts, in words: behind the code, on an eight-byte
/// boundary.
pub open spec fn pool_start(code: Seq<A64>) -> int {
    if pool(code).len() > 0 && code.len() % 2 == 1 {
        code.len() as int + 1
    } else {
        code.len() as int
    }
}

/// Where `bits` first stands in the pool.
pub open spec fn literal_slot(pool: Seq<u64>, bits: u64) -> int {
    pool.index_of_first(bits).unwrap()
}

/// How many words instruction `i` has to reach. Block `b` starts at word
/// `starts[b]`.
pub open spec fn distance(code: Seq<A64>, starts: Seq<usize>, i: int) -> int {
    match code[i] {
        A64::Literal { bits, .. } => pool_start(code) + 2 * literal_slot(pool(code), bits) - i,
        A64::Jump { block } => starts[block as int] - i,
        A64::JumpIf { block, .. } => starts[block as int] - i,
        _ => 0,
    }
}

/// All displacements fit their instructions.
pub open spec fn linkable(code: Seq<A64>, starts: Seq<usize>) -> bool {
    forall|i: int|
        #![trigger code[i]]
        0 <= i < code.len() ==> in_reach(code[i], 4 * distance(code, starts, i))
}

/// The low and the high word of the literals.
pub open spec fn pool_words(pool: Seq<u64>) -> Seq<u32> {
    Seq::new(
        2 * pool.len(),
        |i: int|
            if i % 2 == 0 {
                pool[i / 2] as u32
            } else {
                (pool[i / 2] >> 32u64) as u32
            },
    )
}

/// The words of the code, with displacements filled in.
pub open spec fn code_words(code: Seq<A64>, starts: Seq<usize>) -> Seq<u32> {
    Seq::new(code.len(), |i: int| word_of(code[i], (4 * distance(code, starts, i)) as i32))
}

/// The linked words: code, a zero word if the pool needs it, the pool.
pub open spec fn image(code: Seq<A64>, starts: Seq<usize>) -> Seq<u32> {
    let padding = if pool_start(code) > code.len() {
        seq![0u32]
    } else {
        Seq::empty()
    };
    code_words(code, starts) + padding + pool_words(pool(code))
}

/// Branches name blocks that have a start.
pub open spec fn targets_known(code: Seq<A64>, count: nat) -> bool {
    forall|i: int|
        #![trigger code[i]]
        0 <= i < code.len() ==> match code[i] {
            A64::Jump { block } => block < count,
            A64::JumpIf { block, .. } => block < count,
            _ => true,
        }
}

proof fn lemma_pool_has(code: Seq<A64>, n: nat, i: int)
    requires
        0 <= i < n <= code.len(),
        code[i] is Literal,
    ensures
        pool_of(code, n).contains(code[i]->Literal_bits),
    decreases n,
{
    let bits = code[i]->Literal_bits;
    let before = pool_of(code, (n - 1) as nat);
    let now = pool_of(code, n);
    if i == n - 1 {
        if !before.contains(bits) {
            assert(now[before.len() as int] == bits);
        }
    } else {
        lemma_pool_has(code, (n - 1) as nat, i);
        let k = choose|k: int| 0 <= k < before.len() && before[k] == bits;
        assert(now[k] == bits);
    }
}

fn find(pool: &Vec<u64>, bits: u64) -> (r: Option<usize>)
    ensures
        match r {
            Some(k) => pool@.contains(bits) && k == literal_slot(pool@, bits) && k < pool@.len(),
            None => !pool@.contains(bits),
        },
{
    let mut k: usize = 0;
    while k < pool.len()
        invariant
            k <= pool@.len(),
            forall|j: int| 0 <= j < k ==> pool@[j] != bits,
        decreases pool@.len() - k,
    {
        if pool[k] == bits {
            proof {
                pool@.index_of_first_ensures(bits);
                assert(pool@[k as int] == bits);
                assert(pool@.contains(bits));
            }
            return Some(k);
        }
        k += 1;
    }
    None
}

fn collect_pool(code: &Vec<A64>) -> (r: Vec<u64>)
    ensures
        r@ == pool(code@),
{
    let mut pool: Vec<u64> = Vec::new();
    let mut i: usize = 0;
    while i < code.len()
        invariant
            i <= code@.len(),
            pool@ == pool_of(code@, i as nat),
        decreases code@.len() - i,
    {
        match code[i] {
            A64::Literal { bits, .. } => {
                if find(&pool, bits).is_none() {
                    pool.push(bits);
                }
            },
            _ => {},
        }
        i += 1;
    }
    pool
}

/// The displacement in bytes, if `words` fits a field that reaches `limit`
/// words.
fn displacement(words: i128, limit: i128) -> (r: Option<i32>)
    requires
        0 < limit <= 0x200_0000,
    ensures
        match r {
            Some(offset) => offset == 4 * words && displacement_ok(4 * words, limit as int),
            None => !displacement_ok(4 * words, limit as int),
        },
{
    if words < -limit || words >= limit {
        None
    } else {
        Some((4 * words) as i32)
    }
}

/// The word of instruction `i`, or nothing if it cannot reach.
fn link_word(code: &Vec<A64>, starts: &Vec<usize>, pool: &Vec<u64>, i: usize) -> (r: Option<u32>)
    requires
        i < code@.len(),
        pool@ == self::pool(code@),
        all_encodable(code@),
        targets_known(code@, starts@.len()),
    ensures
        match r {
            Some(w) => in_reach(code@[i as int], 4 * distance(code@, starts@, i as int)) && w
                == code_words(code@, starts@)[i as int] && registers_ok(code@[i as int]),
            None => !in_reach(code@[i as int], 4 * distance(code@, starts@, i as int)),
        },
{
    let inst: A64 = code[i];
    let at: i128 = i as i128;
    let end: i128 = code.len() as i128;
    let pool_at: i128 = if pool.len() > 0 && code.len() % 2 == 1 {
        end + 1
    } else {
        end
    };
    assert(pool_at == pool_start(code@));
    let offset: i32 = match inst {
        A64::Literal { bits, .. } => {
            proof {
                lemma_pool_has(code@, code@.len(), i as int);
            }
            match find(pool, bits) {
                Some(k) => match displacement(pool_at + 2 * (k as i128) - at, 0x4_0000) {
                    Some(offset) => offset,
                    None => return None,
                },
                None => return None,
            }
        },
        A64::Jump { block } => match displacement(starts[block] as i128 - at, 0x200_0000) {
            Some(offset) => offset,
            None => return None,
        },
        A64::JumpIf { block, .. } => match displacement(starts[block] as i128 - at, 0x4_0000) {
            Some(offset) => offset,
            None => return None,
        },
        _ => 0,
    };
    Some(encode(inst, offset))
}

/// The bytes of code that may have failed; a displacement may fail too.
pub open spec fn linked(code: Result<Seq<A64>, EmitError>, starts: Seq<usize>) -> Result<
    Seq<u8>,
    EmitError,
> {
    match code {
        Err(e) => Err(e),
        Ok(c) => if linkable(c, starts) {
            Ok(le_bytes(image(c, starts)))
        } else {
            Err(EmitError::OutOfReach)
        },
    }
}

pub open spec fn same_bytes(
    r: Result<Vec<u8>, EmitError>,
    expected: Result<Seq<u8>, EmitError>,
) -> bool {
    match r {
        Ok(bytes) => expected == Ok::<Seq<u8>, EmitError>(bytes@),
        Err(e) => expected == Err::<Seq<u8>, EmitError>(e),
    }
}

/// Links the code. There is no result if a displacement does not fit.
pub fn link(code: &Vec<A64>, starts: &Vec<usize>) -> (r: Option<Vec<u8>>)
    requires
        all_encodable(code@),
        targets_known(code@, starts@.len()),
    ensures
        match r {
            Some(bytes) => linkable(code@, starts@) && bytes@ == le_bytes(image(code@, starts@))
                && spells(bytes@, code@, starts@),
            None => !linkable(code@, starts@),
        },
{
    let pool: Vec<u64> = collect_pool(code);
    let mut words: Vec<u32> = Vec::new();
    let mut i: usize = 0;
    while i < code.len()
        invariant
            i <= code@.len(),
            pool@ == self::pool(code@),
            all_encodable(code@),
            targets_known(code@, starts@.len()),
            words@ == code_words(code@, starts@).take(i as int),
            forall|j: int|
                #![trigger code@[j]]
                0 <= j < i ==> in_reach(code@[j], 4 * distance(code@, starts@, j)) && registers_ok(
                    code@[j],
                ),
        decreases code@.len() - i,
    {
        match link_word(code, starts, &pool, i) {
            Some(w) => {
                words.push(w);
                assert(words@ =~= code_words(code@, starts@).take(i + 1));
            },
            None => {
                assert(code@[i as int] == code@[i as int]);
                return None;
            },
        }
        i += 1;
    }
    assert(words@ =~= code_words(code@, starts@));
    if pool.len() > 0 && code.len() % 2 == 1 {
        words.push(0);
    }
    let ghost base = words@;
    let mut k: usize = 0;
    assert(base + pool_words(pool@).take(0) =~= base);
    while k < pool.len()
        invariant
            k <= pool@.len(),
            words@ == base + pool_words(pool@).take(2 * k),
        decreases pool@.len() - k,
    {
        let bits: u64 = pool[k];
        words.push(bits as u32);
        words.push((bits >> 32u64) as u32);
        proof {
            let t = pool_words(pool@);
            assert(t[2 * k] == bits as u32);
            assert(t[2 * k + 1] == (bits >> 32u64) as u32);
            assert(t.take(2 * (k + 1)) =~= t.take(2 * k).push(t[2 * k]).push(t[2 * k + 1]));
        }
        k += 1;
    }
    proof {
        assert(pool_words(pool@).take(2 * pool@.len() as int) =~= pool_words(pool@));
        assert(words@ =~= image(code@, starts@));
        lemma_linked_spells(code@, starts@);
    }
    Some(words_to_bytes(&words))
}

/// The pool is aligned: its distance from the first instruction is a multiple
/// of eight bytes.
pub proof fn lemma_pool_aligned(code: Seq<A64>)
    ensures
        pool(code).len() > 0 ==> (4 * pool_start(code)) % 8 == 0,
{
}

/// Each literal load finds its literal: the two words it reaches are the low
/// and the high half.
pub proof fn lemma_literal_found(code: Seq<A64>, starts: Seq<usize>, i: int)
    requires
        0 <= i < code.len(),
        code[i] is Literal,
    ensures
        ({
            let at = i + distance(code, starts, i);
            let bits = code[i]->Literal_bits;
            &&& code.len() <= at
            &&& at + 1 < image(code, starts).len()
            &&& image(code, starts)[at] == bits as u32
            &&& image(code, starts)[at + 1] == (bits >> 32u64) as u32
        }),
{
    let bits = code[i]->Literal_bits;
    let p = pool(code);
    lemma_pool_has(code, code.len(), i);
    p.index_of_first_ensures(bits);
    let k = literal_slot(p, bits);
    let t = pool_words(p);
    assert(t[2 * k] == p[k] as u32);
    assert(t[2 * k + 1] == (p[k] >> 32u64) as u32);
}

} // verus!
