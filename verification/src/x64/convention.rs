//! The calling conventions and the frame, stated by themselves: where
//! arguments are passed, what a call keeps, and what a frame has room for.
use crate::ir::{Function, LibFunc, Ty};
use crate::x64::body::{
    capacity, needs_frame, overflows, param_offset, param_source, same_bank, slots_needed,
    spill_bytes, stack_before, used_saved, uses_register,
};
use crate::x64::calls::places_of;
use crate::x64::copies::slot_offset;
use crate::x64::layout::{clobbers, shadow, Clobber, Place};
use crate::x64::machine::{Abi, Location, PhysReg};
use crate::x64::translate::libm_entry;
use vstd::prelude::*;

verus! {

// ---------------------------------------------------------------------------
// Arguments

/// Where an argument is passed: in a register, or in a word of the stack. The
/// words are counted from the one above the return address.
pub enum Passed {
    In(PhysReg),
    Word(nat),
}

/// What the arguments so far have taken.
pub struct Taken {
    pub ints: nat,
    pub floats: nat,
    pub words: nat,
    pub all: nat,
}

pub open spec fn nothing_taken() -> Taken {
    Taken { ints: 0, floats: 0, words: 0, all: 0 }
}

/// The next argument. On Windows the first four arguments go to the register
/// of their position, and each argument has a word of its own on the stack.
/// Elsewhere an argument takes the next register of its bank, or the next word
/// when the bank is used up.
pub open spec fn pass(abi: Abi, float: bool, t: Taken) -> (Passed, Taken) {
    let next = Taken { all: t.all + 1, ..t };
    if abi.windows {
        let place = if t.all >= 4 {
            Passed::Word(t.all)
        } else if float {
            Passed::In(PhysReg::Xmm(t.all as u8))
        } else {
            Passed::In(
                seq![PhysReg::Rcx, PhysReg::Rdx, PhysReg::R8, PhysReg::R9][t.all as int],
            )
        };
        (place, next)
    } else if float && t.floats < abi.float_args@.len() {
        (Passed::In(abi.float_args@[t.floats as int]), Taken { floats: t.floats + 1, ..next })
    } else if !float && t.ints < abi.int_args@.len() {
        (Passed::In(abi.int_args@[t.ints as int]), Taken { ints: t.ints + 1, ..next })
    } else {
        (Passed::Word(t.words), Taken { words: t.words + 1, ..next })
    }
}

/// What the first `n` arguments take.
pub open spec fn taken(abi: Abi, types: Seq<Ty>, n: nat) -> Taken
    decreases n,
{
    if n == 0 {
        nothing_taken()
    } else {
        pass(abi, types[n - 1] == Ty::F64, taken(abi, types, (n - 1) as nat)).1
    }
}

/// Where argument `i` is passed.
pub open spec fn passed_at(abi: Abi, types: Seq<Ty>, i: int) -> Passed {
    pass(abi, types[i] == Ty::F64, taken(abi, types, i as nat)).0
}

pub open spec fn types_of(params: Seq<(String, Ty)>) -> Seq<Ty> {
    Seq::new(params.len(), |i: int| params[i].1)
}

proof fn lemma_taken(abi: Abi, params: Seq<(String, Ty)>, n: nat)
    requires
        n <= params.len(),
    ensures
        ({
            let t = taken(abi, types_of(params), n);
            let floats = same_bank(params, Ty::F64, n);
            let ints = same_bank(params, Ty::I64, n);
            &&& t.all == n
            &&& !abi.windows ==> {
                &&& t.floats == if floats < capacity(abi, Ty::F64) {
                    floats
                } else {
                    capacity(abi, Ty::F64)
                }
                &&& t.ints == if ints < capacity(abi, Ty::I64) {
                    ints
                } else {
                    capacity(abi, Ty::I64)
                }
                &&& t.words == stack_before(abi, params, n)
            }
        }),
    decreases n,
{
    if n > 0 {
        let m = (n - 1) as nat;
        lemma_taken(abi, params, m);
        assert(types_of(params)[m as int] == params[m as int].1);
        lemma_bank(params, params[m as int].1, m);
    }
}

/// Bools and integers are passed alike.
proof fn lemma_bank(params: Seq<(String, Ty)>, ty: Ty, n: nat)
    requires
        n <= params.len(),
    ensures
        ty != Ty::F64 ==> same_bank(params, ty, n) == same_bank(params, Ty::I64, n),
    decreases n,
{
    if n > 0 {
        lemma_bank(params, ty, (n - 1) as nat);
    }
}

/// A function finds a parameter where the convention passes it. The frame
/// pointer stands two words below the first word of the arguments: the return
/// address and the caller's frame pointer lie between.
pub proof fn lemma_parameter_found(abi: Abi, params: Seq<(String, Ty)>, i: int)
    requires
        0 <= i < params.len(),
    ensures
        match passed_at(abi, types_of(params), i) {
            Passed::In(r) => param_source(abi, params, i) == Some(r),
            Passed::Word(w) => {
                &&& param_source(abi, params, i) is None
                &&& param_offset(abi, params, i) == 8 * (w + 2)
            },
        },
{
    lemma_taken(abi, params, i as nat);
    lemma_bank(params, params[i].1, i as nat);
}

proof fn lemma_placed(abi: Abi, types: Seq<Ty>, n: nat)
    requires
        n <= types.len(),
    ensures
        ({
            let s = places_of(abi, types, n);
            let t = taken(abi, types, n);
            &&& s.places.len() == n
            &&& t.all == n
            &&& 0 <= s.stack <= n
            &&& abi.windows ==> s.stack == if n < 4 {
                0
            } else {
                n - 4
            }
            &&& !abi.windows ==> s.gprs == t.ints && s.xmms == t.floats && s.stack == t.words
        }),
    decreases n,
{
    if n > 0 {
        lemma_placed(abi, types, (n - 1) as nat);
    }
}

proof fn lemma_places_stay(abi: Abi, types: Seq<Ty>, n: nat, i: int)
    requires
        0 <= i < n <= types.len(),
    ensures
        places_of(abi, types, n).places[i] == places_of(abi, types, (i + 1) as nat).places[i],
    decreases n,
{
    lemma_placed(abi, types, (n - 1) as nat);
    if i < n - 1 {
        lemma_places_stay(abi, types, (n - 1) as nat, i);
    }
}

/// A caller puts an argument where the convention passes it: the word above
/// the return address is the one at the stack pointer before the call.
pub proof fn lemma_argument_put(abi: Abi, types: Seq<Ty>, i: int)
    requires
        0 <= i < types.len() <= usize::MAX,
    ensures
        match passed_at(abi, types, i) {
            Passed::In(r) => places_of(abi, types, types.len()).places[i] == Place::Register(r),
            Passed::Word(w) => places_of(abi, types, types.len()).places[i] matches Place::Stack(k)
                && shadow(abi.windows) + 8 * k == 8 * w,
        },
{
    lemma_places_stay(abi, types, types.len(), i);
    lemma_placed(abi, types, i as nat);
    let s = places_of(abi, types, i as nat);
    assert(places_of(abi, types, (i + 1) as nat).places.len() == i + 1);
}

// ---------------------------------------------------------------------------
// Calls

/// What overwrites a register: a call overwrites all but those that every
/// callee keeps, a division works in RDX and RAX, and a shift counts in RCX.
pub proof fn lemma_overwritten(r: PhysReg)
    ensures
        !clobbers(Clobber::Call, r) <==> (r == PhysReg::Rbx || r == PhysReg::Rsp || r
            == PhysReg::Rbp || r == PhysReg::R12 || r == PhysReg::R13 || r == PhysReg::R14 || r
            == PhysReg::R15),
        clobbers(Clobber::Division, r) <==> r == PhysReg::Rax || r == PhysReg::Rdx,
        clobbers(Clobber::Shift, r) <==> r == PhysReg::Rcx,
{
}

/// The entry of a function is its first one, and there is none only where the
/// function is not listed.
pub proof fn lemma_first_entry(libm: Seq<(LibFunc, i64)>, func: LibFunc)
    ensures
        match libm_entry(libm, func) {
            Some(address) => exists|i: int|
                #![trigger libm[i]]
                0 <= i < libm.len() && libm[i] == (func, address) && forall|j: int|
                    #![trigger libm[j]]
                    0 <= j < i ==> libm[j].0 != func,
            None => forall|i: int| #![trigger libm[i]] 0 <= i < libm.len() ==> libm[i].0 != func,
        },
    decreases libm.len(),
{
    if libm.len() > 0 && libm[0].0 != func {
        let rest = libm.skip(1);
        lemma_first_entry(rest, func);
        match libm_entry(rest, func) {
            Some(address) => {
                let i = choose|i: int|
                    #![trigger rest[i]]
                    0 <= i < rest.len() && rest[i] == (func, address) && forall|j: int|
                        #![trigger rest[j]]
                        0 <= j < i ==> rest[j].0 != func;
                assert(libm[i + 1] == rest[i]);
                assert forall|j: int| #![trigger libm[j]] 0 <= j < i + 1 implies libm[j].0
                    != func by {
                    if j > 0 {
                        assert(libm[j] == rest[j - 1]);
                    }
                }
            },
            None => {
                assert forall|i: int| #![trigger libm[i]] 0 <= i < libm.len() implies libm[i].0
                    != func by {
                    if i > 0 {
                        assert(libm[i] == rest[i - 1]);
                    }
                }
            },
        }
    } else if libm.len() > 0 {
        assert(libm[0] == (func, libm[0].1));
    }
}

// ---------------------------------------------------------------------------
// The frame

/// A frame saves the registers of the callee that hold a value, and no other.
pub proof fn lemma_saved_if_used(
    assignment: Seq<Option<Location>>,
    saved: Seq<PhysReg>,
    n: nat,
    r: PhysReg,
)
    requires
        n <= saved.len(),
    ensures
        used_saved(assignment, saved, n).contains(r) <==> saved.take(n as int).contains(r)
            && exists|i: int|
            0 <= i < assignment.len() && (#[trigger] assignment[i]) == Some(Location::Reg(r)),
    decreases n,
{
    if n > 0 {
        let m = (n - 1) as nat;
        lemma_saved_if_used(assignment, saved, m, r);
        let before = used_saved(assignment, saved, m);
        let front = saved.take(m as int);
        let last = saved[m as int];
        assert(saved.take(n as int) =~= front.push(last));
        lemma_push_contains(front, last, r);
        lemma_push_contains(before, last, r);
        assert(uses_register(assignment, r) <==> exists|i: int|
            0 <= i < assignment.len() && (#[trigger] assignment[i]) == Some(Location::Reg(r)));
    } else {
        assert(saved.take(0).len() == 0);
    }
}

proof fn lemma_push_contains(s: Seq<PhysReg>, last: PhysReg, r: PhysReg)
    ensures
        s.push(last).contains(r) <==> s.contains(r) || r == last,
{
    let t = s.push(last);
    if s.contains(r) {
        let i = choose|i: int| 0 <= i < s.len() && s[i] == r;
        assert(t[i] == r);
    }
    if t.contains(r) {
        let i = choose|i: int| 0 <= i < t.len() && t[i] == r;
        if i < s.len() {
            assert(s[i] == r);
        }
    }
    assert(t[s.len() as int] == last);
}

/// The frame has room for every slot, and for no more slots than the largest
/// one asks for.
pub proof fn lemma_slots_fit(assignment: Seq<Option<Location>>, n: nat)
    requires
        n <= assignment.len(),
        forall|i: int|
            #![trigger assignment[i]]
            0 <= i < n ==> assignment[i] != Some(Location::Spill(u32::MAX)),
    ensures
        forall|i: int|
            #![trigger assignment[i]]
            0 <= i < n ==> (assignment[i] matches Some(Location::Spill(slot)) ==> slot
                < slots_needed(assignment, n)),
        slots_needed(assignment, n) == 0 || exists|i: int|
            0 <= i < n && (#[trigger] assignment[i] matches Some(Location::Spill(slot)) && slot + 1
                == slots_needed(assignment, n)),
    decreases n,
{
    if n > 0 {
        lemma_slots_fit(assignment, (n - 1) as nat);
        let last = assignment[n - 1];
    }
}

/// Slots lie below the frame pointer and below what is saved there, within
/// the bytes of the frame, and a word apart from each other.
pub proof fn lemma_slots_apart(bias: i32, count: int, a: u32, b: u32)
    requires
        bias >= 0,
        a < count,
        b < count,
        a != b,
        slot_offset(a, bias) is Some,
        slot_offset(b, bias) is Some,
    ensures
        -bias - 8 * count <= slot_offset(a, bias).unwrap() <= -bias - 8,
        slot_offset(a, bias).unwrap() + 8 <= slot_offset(b, bias).unwrap() || slot_offset(
            b,
            bias,
        ).unwrap() + 8 <= slot_offset(a, bias).unwrap(),
{
}

/// A function without a frame has nothing on the stack: no slot, no register
/// of the caller's in use, and no parameter that comes there.
pub proof fn lemma_frame_where_needed(
    func: Function,
    assignment: Seq<Option<Location>>,
    abi: Abi,
)
    ensures
        !needs_frame(func, assignment, abi) <==> {
            &&& forall|i: int|
                #![trigger assignment[i]]
                0 <= i < assignment.len() ==> !(assignment[i] matches Some(Location::Spill(_)))
            &&& forall|i: int|
                #![trigger assignment[i]]
                0 <= i < assignment.len() ==> (assignment[i] matches Some(Location::Reg(r))
                    ==> !abi.callee_saved@.contains(r))
            &&& forall|i: int|
                #![trigger func.params@[i]]
                0 <= i < func.params@.len() ==> passed_at(abi, types_of(func.params@), i) is In
        },
{
    let saved = abi.callee_saved@;
    let used = used_saved(assignment, saved, saved.len());
    assert(saved.take(saved.len() as int) =~= saved);
    assert forall|r: PhysReg| #[trigger] used.contains(r) <==> saved.contains(r) && uses_register(
        assignment,
        r,
    ) by {
        lemma_saved_if_used(assignment, saved, saved.len(), r);
    }
    if used.len() > 0 {
        assert(used.contains(used[0]));
        let r = used[0];
        let i = choose|i: int|
            0 <= i < assignment.len() && (#[trigger] assignment[i]) == Some(Location::Reg(r));
        assert(assignment[i] == Some(Location::Reg(r)));
    } else {
        assert forall|i: int| #![trigger assignment[i]] 0 <= i < assignment.len() implies (
        assignment[i] matches Some(Location::Reg(r)) ==> !saved.contains(r)) by {
            if let Some(Location::Reg(r)) = assignment[i] {
                assert(uses_register(assignment, r));
                assert(!used.contains(r));
            }
        }
    }
    assert forall|i: int| #![trigger func.params@[i]] 0 <= i < func.params@.len() implies (
    passed_at(abi, types_of(func.params@), i) is In <==> param_source(abi, func.params@, i)
        is Some) && (!abi.windows ==> (overflows(abi, func.params@, i) <==> param_source(
        abi,
        func.params@,
        i,
    ) is None)) by {
        lemma_parameter_found(abi, func.params@, i);
    }
    if abi.windows && func.params@.len() > 4 {
        assert(func.params@[4] == func.params@[4]);
    }
    if !abi.windows && exists|i: int|
        0 <= i < func.params@.len() && #[trigger] overflows(abi, func.params@, i) {
        let i = choose|i: int|
            0 <= i < func.params@.len() && #[trigger] overflows(abi, func.params@, i);
        assert(func.params@[i] == func.params@[i]);
    }
}

/// The bytes of the slots are a word for each, where a number holds as many.
pub proof fn lemma_slot_bytes(assignment: Seq<Option<Location>>)
    requires
        8 * slots_needed(assignment, assignment.len()) <= u32::MAX,
        0 <= slots_needed(assignment, assignment.len()),
    ensures
        spill_bytes(assignment) == 8 * slots_needed(assignment, assignment.len()),
{
}

} // verus!
