//! Code that keeps every value in a register computes what its function
//! computes.
use crate::aarch64::emit::{count_params, type_of};
use crate::aarch64::encode::{lemma_reg, reg};
use crate::aarch64::encode::Gpr;
use crate::aarch64::execute::{
    after, int_value, lemma_after_add, lemma_after_one, lemma_cast_back, lemma_constant_runs,
    get_x, lemma_not_runs, lemma_or_zero, lemma_rem_runs, set_x, step, whole, Machine,
};
use crate::aarch64::functions::{i64_code, register_values};
use crate::aarch64::machine::{IntOp, A64};
use crate::aarch64::registers::{
    assign, assign_listed, assignment, epilogue, float_restores, float_saves, frame_bytes, i64_inst,
    int_op, int_restores, int_saves, lemma_covered, move_code, prologue, register_of, saved_count,
    Assignment,
};
use crate::arith::wrap;
use crate::float::FloatSem;
use crate::interp::{
    empty_frame, eval, eval_inst, int_binary, operand_values, reads, run, run_insts, slot, yields,
    Frame,
};
use crate::interp::RtValue;
use crate::ir::{Function, Terminator, Ty, Value};
use crate::ir::Op;
use vstd::prelude::*;

verus! {

// ---------------------------------------------------------------------------
// No two values share a register

pub open spec fn is_param(f: Function, v: int) -> bool {
    f.inst(v).op is Param
}

/// The number of the register that a parameter comes in.
pub open spec fn param_place(f: Function, integer: bool, v: int) -> int {
    match f.inst(v).op {
        Op::Param(index, ty) => if integer {
            index as int
        } else {
            count_params(f, ty, index as nat) as int
        },
        _ => 0,
    }
}

/// The value lives in a D register.
pub open spec fn in_float(f: Function, integer: bool, v: int) -> bool {
    !integer && type_of(f, Value(v as u32)) == Some(Ty::F64)
}

/// The register is one of those handed out for temporaries of its bank.
pub open spec fn handed_out(s: Assignment, float: bool, n: int) -> bool {
    if float {
        (16 <= n < 32 && n - 16 < s.floats) || (8 <= n < 16 && n - 8 < s.floats - 16)
    } else {
        8 <= n < 8 + s.ints
    }
}

pub open spec fn separate(f: Function, integer: bool, s: Assignment) -> bool {
    &&& s.regs.len() == f.insts@.len()
    &&& f.insts@.len() <= u32::MAX
    &&& 0 <= s.floats <= 24
    &&& 0 <= s.ints <= 21
    &&& s.saved_int.len() == if s.ints < 11 {
        0
    } else {
        s.ints - 11
    }
    &&& s.saved_float.len() == if s.floats < 16 {
        0
    } else {
        s.floats - 16
    }
    &&& integer ==> s.floats == 0
    &&& forall|i: int|
        #![trigger s.saved_int[i]]
        0 <= i < s.saved_int.len() ==> s.saved_int[i].number() == 19 + i
    &&& forall|i: int|
        #![trigger s.saved_float[i]]
        0 <= i < s.saved_float.len() ==> s.saved_float[i].number() == 8 + i
    &&& forall|v: int|
        #![trigger s.regs[v]]
        0 <= v < s.regs.len() && s.regs[v] is Some ==> if is_param(f, v) {
            s.regs[v].unwrap().number() == param_place(f, integer, v) && param_place(f, integer, v)
                < 8
        } else {
            handed_out(s, in_float(f, integer, v), s.regs[v].unwrap().number() as int)
        }
    &&& forall|u: int, v: int|
        #![trigger s.regs[u], s.regs[v]]
        0 <= u < s.regs.len() && 0 <= v < s.regs.len() && u != v && s.regs[u] is Some
            && s.regs[v] is Some && !is_param(f, u) && !is_param(f, v) && in_float(f, integer, u)
            == in_float(f, integer, v) ==> s.regs[u].unwrap().number()
            != s.regs[v].unwrap().number()
}

proof fn lemma_assign_separate(f: Function, integer: bool, v: Value, s: Assignment)
    requires
        separate(f, integer, s),
        assign(f, integer, v, s) is Ok,
    ensures
        separate(f, integer, assign(f, integer, v, s)->Ok_0),
{
    let t = assign(f, integer, v, s)->Ok_0;
    assert(Value(v.0 as int as u32) == v);
    assert forall|n: int| 0 <= n < 32 implies #[trigger] reg(n).number() == n by {
        lemma_reg(n);
    }
    match f.inst(v.0 as int).op {
        Op::Param(index, ty) => {},
        _ => {},
    }
    assert forall|u: int| #![trigger t.regs[u]] 0 <= u < t.regs.len() && u != v.0 implies t.regs[u]
        == s.regs[u] by {}
}

proof fn lemma_listed_separate(f: Function, integer: bool, b: int, k: nat, s: Assignment)
    requires
        separate(f, integer, s),
        assign_listed(f, integer, b, k, s) is Ok,
    ensures
        separate(f, integer, assign_listed(f, integer, b, k, s)->Ok_0),
    decreases k,
{
    if k > 0 {
        lemma_listed_separate(f, integer, b, (k - 1) as nat, s);
        lemma_assign_separate(
            f,
            integer,
            f.listed(b)[k - 1],
            assign_listed(f, integer, b, (k - 1) as nat, s)->Ok_0,
        );
    }
}

pub proof fn lemma_separate(f: Function, integer: bool, n: nat)
    requires
        f.insts@.len() <= u32::MAX,
        assignment(f, integer, n) is Ok,
    ensures
        separate(f, integer, assignment(f, integer, n)->Ok_0),
    decreases n,
{
    if n > 0 {
        lemma_separate(f, integer, (n - 1) as nat);
        lemma_listed_separate(
            f,
            integer,
            n - 1,
            f.listed(n - 1).len(),
            assignment(f, integer, (n - 1) as nat)->Ok_0,
        );
    }
}

// ---------------------------------------------------------------------------
// Saved registers

/// Slot `i` of the frame at `sp`.
pub open spec fn in_slot(memory: Map<int, u64>, sp: int, i: int) -> u64 {
    memory[sp + 8 * i]
}

/// The frame holds the callee's registers as they were in `m`.
pub open spec fn kept(p: Machine, a: Assignment, m: Machine) -> bool {
    &&& forall|i: int|
        #![trigger in_slot(p.memory, p.sp, i)]
        0 <= i < a.saved_float.len() ==> in_slot(p.memory, p.sp, i) == m.d[8 + i]
    &&& forall|i: int|
        #![trigger in_slot(p.memory, p.sp, i)]
        a.saved_float.len() <= i < a.saved_float.len() + a.saved_int.len() ==> in_slot(
            p.memory,
            p.sp,
            i,
        ) == m.x[19 + i - a.saved_float.len()] as u64
}

pub open spec fn numbered(a: Assignment) -> bool {
    &&& a.saved_int.len() <= 10
    &&& a.saved_float.len() <= 8
    &&& forall|i: int|
        #![trigger a.saved_int[i]]
        0 <= i < a.saved_int.len() ==> a.saved_int[i].number() == 19 + i
    &&& forall|i: int|
        #![trigger a.saved_float[i]]
        0 <= i < a.saved_float.len() ==> a.saved_float[i].number() == 8 + i
}

proof fn lemma_float_saves(m: Machine, a: Assignment, k: int, fs: FloatSem)
    requires
        whole(m),
        numbered(a),
        0 <= k <= a.saved_float.len(),
    ensures
        ({
            let p = after(m, float_saves(a).take(k), fs);
            &&& p == (Machine { memory: p.memory, ..m })
            &&& forall|i: int|
                #![trigger in_slot(p.memory, m.sp, i)]
                0 <= i < k ==> in_slot(p.memory, m.sp, i) == m.d[8 + i]
        }),
    decreases k,
{
    let code = float_saves(a).take(k);
    if k > 0 {
        lemma_float_saves(m, a, k - 1, fs);
        assert(code.drop_last() =~= float_saves(a).take(k - 1));
        assert(code.last() == A64::StoreFloat {
            src: a.saved_float[k - 1],
            slot: (8 * (k - 1)) as u16,
        });
        let before = after(m, code.drop_last(), fs);
        let p = after(m, code, fs);
        assert(a.saved_float[k - 1].number() == 8 + (k - 1));
        assert forall|i: int| #![trigger in_slot(p.memory, m.sp, i)] 0 <= i < k implies in_slot(
            p.memory,
            m.sp,
            i,
        ) == m.d[8 + i] by {
            if i < k - 1 {
                assert(in_slot(before.memory, m.sp, i) == m.d[8 + i]);
            }
        }
    }
}

proof fn lemma_int_saves(m: Machine, a: Assignment, k: int, fs: FloatSem)
    requires
        whole(m),
        numbered(a),
        0 <= k <= a.saved_int.len(),
    ensures
        ({
            let p = after(m, int_saves(a).take(k), fs);
            &&& p == (Machine { memory: p.memory, ..m })
            &&& forall|i: int|
                #![trigger in_slot(p.memory, m.sp, i)]
                0 <= i < a.saved_float.len() ==> in_slot(p.memory, m.sp, i) == in_slot(
                    m.memory,
                    m.sp,
                    i,
                )
            &&& forall|i: int|
                #![trigger in_slot(p.memory, m.sp, i)]
                a.saved_float.len() <= i < a.saved_float.len() + k ==> in_slot(p.memory, m.sp, i)
                    == m.x[19 + i - a.saved_float.len()] as u64
        }),
    decreases k,
{
    let code = int_saves(a).take(k);
    if k > 0 {
        lemma_int_saves(m, a, k - 1, fs);
        assert(code.drop_last() =~= int_saves(a).take(k - 1));
        assert(code.last() == A64::Store {
            src: a.saved_int[k - 1],
            slot: (8 * (a.saved_float.len() + k - 1)) as u16,
        });
        let n = a.saved_float.len() as int;
        let before = after(m, code.drop_last(), fs);
        let p = after(m, code, fs);
        assert(a.saved_int[k - 1].number() == 19 + (k - 1));
        assert forall|i: int| #![trigger in_slot(p.memory, m.sp, i)] 0 <= i < n implies in_slot(
            p.memory,
            m.sp,
            i,
        ) == in_slot(m.memory, m.sp, i) by {
            assert(in_slot(before.memory, m.sp, i) == in_slot(m.memory, m.sp, i));
        }
        assert forall|i: int| #![trigger in_slot(p.memory, m.sp, i)] n <= i < n + k implies in_slot(
            p.memory,
            m.sp,
            i,
        ) == m.x[19 + i - n] as u64 by {
            if i < n + k - 1 {
                assert(in_slot(before.memory, m.sp, i) == m.x[19 + i - n] as u64);
            }
        }
    }
}

/// The prologue opens a frame and saves the registers in it.
pub proof fn lemma_prologue(m: Machine, a: Assignment, fs: FloatSem)
    requires
        whole(m),
        numbered(a),
    ensures
        ({
            let p = after(m, prologue(a), fs);
            &&& p.x == m.x
            &&& p.d == m.d
            &&& kept(p, a, m)
            &&& p.sp == if saved_count(a) == 0 {
                m.sp
            } else {
                m.sp - frame_bytes(a)
            }
        }),
{
    if saved_count(a) > 0 {
        let open = A64::OpenFrame { bytes: frame_bytes(a) as u16 };
        let m1 = step(m, open, fs);
        lemma_after_one(m, open, fs);
        lemma_after_add(m, seq![open], float_saves(a), fs);
        let n = a.saved_float.len() as int;
        assert(float_saves(a).take(n) =~= float_saves(a));
        lemma_float_saves(m1, a, n, fs);
        let m2 = after(m1, float_saves(a), fs);
        lemma_after_add(m, seq![open] + float_saves(a), int_saves(a), fs);
        let k = a.saved_int.len() as int;
        assert(int_saves(a).take(k) =~= int_saves(a));
        lemma_int_saves(m2, a, k, fs);
    }
}

proof fn lemma_int_restores(q: Machine, a: Assignment, k: int, m: Machine, fs: FloatSem)
    requires
        whole(q),
        numbered(a),
        kept(q, a, m),
        whole(m),
        0 <= k <= a.saved_int.len(),
    ensures
        ({
            let p = after(q, int_restores(a).take(k), fs);
            let n = a.saved_int.len() as int;
            &&& p == (Machine { x: p.x, ..q })
            &&& whole(p)
            &&& forall|j: int|
                #![trigger p.x[j]]
                0 <= j < 32 ==> p.x[j] == if 19 + n - k <= j < 19 + n {
                    m.x[j]
                } else {
                    q.x[j]
                }
        }),
    decreases k,
{
    let code = int_restores(a).take(k);
    if k > 0 {
        let n = a.saved_int.len() as int;
        lemma_int_restores(q, a, k - 1, m, fs);
        assert(code.drop_last() =~= int_restores(a).take(k - 1));
        let i = n - 1 - (k - 1);
        assert(code.last() == A64::Load {
            dst: a.saved_int[i],
            slot: (8 * (a.saved_float.len() + i)) as u16,
        });
        let x = m.x[19 + i];
        lemma_cast_back(x);
        assert(a.saved_int[i].number() == 19 + i);
        assert(in_slot(q.memory, q.sp, a.saved_float.len() + i) == x as u64);
    }
}

proof fn lemma_float_restores(q: Machine, a: Assignment, k: int, m: Machine, fs: FloatSem)
    requires
        whole(q),
        numbered(a),
        kept(q, a, m),
        whole(m),
        0 <= k <= a.saved_float.len(),
    ensures
        ({
            let p = after(q, float_restores(a).take(k), fs);
            let n = a.saved_float.len() as int;
            &&& p == (Machine { d: p.d, ..q })
            &&& whole(p)
            &&& forall|j: int|
                #![trigger p.d[j]]
                0 <= j < 32 ==> p.d[j] == if 8 + n - k <= j < 8 + n {
                    m.d[j]
                } else {
                    q.d[j]
                }
        }),
    decreases k,
{
    let code = float_restores(a).take(k);
    if k > 0 {
        let n = a.saved_float.len() as int;
        lemma_float_restores(q, a, k - 1, m, fs);
        assert(code.drop_last() =~= float_restores(a).take(k - 1));
        let i = n - 1 - (k - 1);
        assert(code.last() == A64::LoadFloat { dst: a.saved_float[i], slot: (8 * i) as u16 });
        assert(a.saved_float[i].number() == 8 + i);
        assert(in_slot(q.memory, q.sp, i) == m.d[8 + i]);
    }
}

/// The epilogue gives the saved registers back, closes the frame, and changes
/// nothing else.
pub proof fn lemma_epilogue(q: Machine, a: Assignment, m: Machine, fs: FloatSem)
    requires
        whole(q),
        whole(m),
        numbered(a),
        kept(q, a, m),
    ensures
        ({
            let p = after(q, epilogue(a), fs);
            &&& whole(p)
            &&& p.sp == if saved_count(a) == 0 {
                q.sp
            } else {
                q.sp + frame_bytes(a)
            }
            &&& forall|j: int|
                #![trigger p.x[j]]
                0 <= j < 32 ==> p.x[j] == if 19 <= j < 19 + a.saved_int.len() {
                    m.x[j]
                } else {
                    q.x[j]
                }
            &&& forall|j: int|
                #![trigger p.d[j]]
                0 <= j < 32 ==> p.d[j] == if 8 <= j < 8 + a.saved_float.len() {
                    m.d[j]
                } else {
                    q.d[j]
                }
        }),
{
    if saved_count(a) > 0 {
        let n = a.saved_int.len() as int;
        let k = a.saved_float.len() as int;
        assert(int_restores(a).take(n) =~= int_restores(a));
        assert(float_restores(a).take(k) =~= float_restores(a));
        lemma_int_restores(q, a, n, m, fs);
        let q1 = after(q, int_restores(a), fs);
        assert(kept(q1, a, m));
        lemma_float_restores(q1, a, k, m, fs);
        lemma_after_add(q, int_restores(a), float_restores(a), fs);
        let both = int_restores(a) + float_restores(a);
        assert(epilogue(a).drop_last() =~= both);
    }
}

// ---------------------------------------------------------------------------
// Functions of integers

/// Every value computed so far is an integer, and is in its register.
spec fn ints_held(regs: Seq<Option<Gpr>>, vals: Frame, m: Machine) -> bool {
    &&& vals.len() == regs.len()
    &&& forall|v: int|
        #![trigger vals[v]]
        0 <= v < vals.len() && vals[v] is Some ==> {
            &&& regs[v] is Some
            &&& regs[v].unwrap().number() < 31
            &&& vals[v] == Some(RtValue::I64(m.x[regs[v].unwrap().number() as int]))
        }
}

/// The arguments are integers and come in X0 and the registers behind it.
pub open spec fn int_arguments(args: Seq<RtValue>, m: Machine) -> bool {
    forall|i: int|
        #![trigger args[i]]
        0 <= i < args.len() && i < 8 ==> args[i] == RtValue::I64(m.x[i])
}

/// The code of one value leaves it in its register.
#[verifier::rlimit(40)]
proof fn lemma_i64_value(
    f: Function,
    a: Assignment,
    v: Value,
    vals: Frame,
    m: Machine,
    args: Seq<RtValue>,
    fs: FloatSem,
) -> (z: i64)
    requires
        separate(f, true, a),
        v.0 < f.insts@.len(),
        a.regs[v.0 as int] is Some,
        whole(m),
        ints_held(a.regs, vals, m),
        vals[v.0 as int] is None,
        int_arguments(args, m),
        i64_inst(f, a.regs, v) is Ok,
        eval_inst(f.inst(v.0 as int), vals, None, args, fs) is Some,
    ensures
        eval_inst(f.inst(v.0 as int), vals, None, args, fs) == Some(RtValue::I64(z)),
        ({
            let r = a.regs[v.0 as int].unwrap();
            let p = after(m, i64_inst(f, a.regs, v)->Ok_0, fs);
            &&& r.number() < 31
            &&& p == set_x(m, r, z)
        }),
{
    let im = f.inst(v.0 as int);
    let dst = a.regs[v.0 as int].unwrap();
    let code = i64_inst(f, a.regs, v)->Ok_0;
    let vs = operand_values(im, vals);
    assert forall|j: int| 0 <= j < reads(im.op) && !(im.op is Param) implies ({
        let u = #[trigger] im.args[j];
        &&& u.0 < vals.len()
        &&& register_of(a.regs, u) is Ok
        &&& register_of(a.regs, u)->Ok_0.number() < 31
        &&& register_of(a.regs, u)->Ok_0.number() != dst.number()
        &&& vs[j] == RtValue::I64(get_x(m, register_of(a.regs, u)->Ok_0))
    }) by {
        let u = im.args[j];
        assert(slot(vals, u) is Some);
        assert(vals[u.0 as int] is Some);
        assert(u.0 != v.0);
        assert(a.regs[u.0 as int] is Some && a.regs[v.0 as int] is Some);
    }
    match im.op {
        Op::ConstI64(n) => {
            lemma_constant_runs(m, dst, n as u64, fs);
            lemma_cast_back(n);
            n
        },
        Op::Param(index, _) => {
            let z = m.x[index as int];
            assert(args[index as int] == RtValue::I64(z));
            assert(set_x(m, dst, z).x =~= m.x);
            assert(after(m, Seq::empty(), fs) == m);
            assert(set_x(m, dst, z) =~= m);
            z
        },
        Op::Rem => {
            let lhs = register_of(a.regs, im.args[0])->Ok_0;
            let rhs = register_of(a.regs, im.args[1])->Ok_0;
            lemma_rem_runs(m, dst, lhs, rhs, fs);
            int_binary(Op::Rem, get_x(m, lhs), get_x(m, rhs)).unwrap()
        },
        Op::Neg => {
            let src = register_of(a.regs, im.args[0])->Ok_0;
            lemma_reg(31);
            lemma_after_one(m, A64::Int { op: IntOp::Sub, dst, lhs: reg(31), rhs: src }, fs);
            wrap(-get_x(m, src))
        },
        Op::Not => {
            let src = register_of(a.regs, im.args[0])->Ok_0;
            lemma_not_runs(m, dst, src, fs);
            !get_x(m, src)
        },
        op => {
            let lhs = register_of(a.regs, im.args[0])->Ok_0;
            let rhs = register_of(a.regs, im.args[1])->Ok_0;
            let i = int_op(op).unwrap();
            assert(reads(op) == 2);
            lemma_after_one(m, A64::Int { op: i, dst, lhs, rhs }, fs);
            let z = int_value(i, get_x(m, lhs), get_x(m, rhs));
            assert(eval(op, vs, args, fs) == Some(RtValue::I64(z)));
            z
        },
    }
}

/// No value is listed twice in block `b`.
pub open spec fn listed_once(f: Function, b: int) -> bool {
    forall|i: int, j: int|
        #![trigger f.listed(b)[i], f.listed(b)[j]]
        0 <= i < j < f.listed(b).len() ==> f.listed(b)[i] != f.listed(b)[j]
}

/// The code of the first `k` values leaves them in their registers, and
/// touches no other register.
proof fn lemma_i64_values(
    f: Function,
    a: Assignment,
    k: nat,
    before: Seq<A64>,
    m: Machine,
    args: Seq<RtValue>,
    fs: FloatSem,
)
    requires
        separate(f, true, a),
        forall|j: int|
            #![trigger f.listed(0)[j]]
            0 <= j < f.listed(0).len() ==> f.listed(0)[j].0 < f.insts@.len()
                && a.regs[f.listed(0)[j].0 as int] is Some,
        listed_once(f, 0),
        k <= f.listed(0).len(),
        whole(after(m, before, fs)),
        int_arguments(args, after(m, before, fs)),
        register_values(f, a, true, 0, k, Ok(before)) is Ok,
        run_insts(f, 0, k as int, empty_frame(f.insts@.len()), None, args, fs) is Some,
    ensures
        ({
            let c = register_values(f, a, true, 0, k, Ok(before))->Ok_0;
            let w = run_insts(f, 0, k as int, empty_frame(f.insts@.len()), None, args, fs).unwrap();
            let p = after(m, before, fs);
            let q = after(m, c, fs);
            &&& whole(q)
            &&& ints_held(a.regs, w, q)
            &&& q == (Machine { x: q.x, ..p })
            &&& forall|j: int|
                #![trigger q.x[j]]
                0 <= j < 32 && (j < 8 || j >= 8 + a.ints) ==> q.x[j] == p.x[j]
            &&& forall|j: int|
                #![trigger f.listed(0)[j]]
                k <= j < f.listed(0).len() ==> w[f.listed(0)[j].0 as int] is None
        }),
    decreases k,
{
    let start = empty_frame(f.insts@.len());
    let p = after(m, before, fs);
    if k > 0 {
        let j = (k - 1) as nat;
        lemma_i64_values(f, a, j, before, m, args, fs);
        let c0 = register_values(f, a, true, 0, j, Ok(before))->Ok_0;
        let w0 = run_insts(f, 0, j as int, start, None, args, fs).unwrap();
        let q0 = after(m, c0, fs);
        let v = f.listed(0)[j as int];
        assert forall|i: int| #![trigger args[i]] 0 <= i < args.len() && i < 8 implies args[i]
            == RtValue::I64(q0.x[i]) by {
            assert(q0.x[i] == p.x[i]);
        }
        assert(w0[v.0 as int] is None);
        let z = lemma_i64_value(f, a, v, w0, q0, args, fs);
        let piece = i64_inst(f, a.regs, v)->Ok_0;
        lemma_after_add(m, c0, piece, fs);
        let r = a.regs[v.0 as int].unwrap();
        let w = w0.update(v.0 as int, Some(RtValue::I64(z)));
        let q = set_x(q0, r, z);
        if f.inst(v.0 as int).op is Param {
            // A parameter stays where it is.
            assert(piece =~= Seq::empty());
            assert(q == q0);
        }
        assert forall|u: int| #![trigger w[u]] 0 <= u < w.len() && w[u] is Some implies {
            &&& a.regs[u] is Some
            &&& a.regs[u].unwrap().number() < 31
            &&& w[u] == Some(RtValue::I64(q.x[a.regs[u].unwrap().number() as int]))
        } by {
            if u != v.0 {
                assert(w0[u] is Some);
                assert(a.regs[u] is Some && a.regs[v.0 as int] is Some);
            }
        }
        assert forall|i: int| #![trigger f.listed(0)[i]] k <= i < f.listed(0).len() implies w[f.listed(
            0,
        )[i].0 as int] is None by {
            assert(f.listed(0)[j as int] != f.listed(0)[i]);
        }
    }
}

/// What a caller finds after a function of integers returned: the result in
/// X0, and its own registers and stack pointer as they were.
pub open spec fn returned_int(m: Machine, p: Machine, x: RtValue) -> bool {
    &&& x == RtValue::I64(p.x[0])
    &&& p.sp == m.sp
    &&& p.d == m.d
    &&& forall|j: int| #![trigger p.x[j]] 19 <= j < 31 ==> p.x[j] == m.x[j]
}

/// The code of a function of integers that keeps its values in registers:
/// called with the arguments in X0 and the registers behind it, it returns
/// what the function yields, and keeps what belongs to the caller. Where the
/// function divides by zero it yields nothing, and nothing is said.
pub proof fn lemma_i64_code_computes(
    f: Function,
    result: Value,
    m: Machine,
    args: Seq<RtValue>,
    fs: FloatSem,
    x: RtValue,
)
    requires
        f.insts@.len() <= u32::MAX,
        f.blocks@.len() == 1,
        f.entry.0 == 0,
        f.term(0) == Some(Terminator::Return(result)),
        listed_once(f, 0),
        whole(m),
        int_arguments(args, m),
        i64_code(f, result) is Ok,
        yields(f, args, fs, x),
    ensures
        i64_code(f, result)->Ok_0.last() == A64::Return,
        returned_int(m, after(m, i64_code(f, result)->Ok_0, fs), x),
{
    let start = empty_frame(f.insts@.len());
    let n = choose|n: nat| #[trigger] run(f, 0, None, start, args, fs, n) == Some(x);
    assert(run(f, 0, None, start, args, fs, n) == Some(x));
    let k = f.listed(0).len();
    let w = run_insts(f, 0, k as int, start, None, args, fs).unwrap();
    let a = assignment(f, true, 1)->Ok_0;
    lemma_separate(f, true, 1);
    assert forall|j: int| #![trigger f.listed(0)[j]] 0 <= j < k implies f.listed(0)[j].0
        < f.insts@.len() && a.regs[f.listed(0)[j].0 as int] is Some by {
        lemma_covered(f, true, 1, 0, j);
    }
    assert(numbered(a));
    lemma_prologue(m, a, fs);
    let p = after(m, prologue(a), fs);
    lemma_i64_values(f, a, k, prologue(a), m, args, fs);
    let body = register_values(f, a, true, 0, k, Ok(prologue(a)))->Ok_0;
    let q = after(m, body, fs);
    let r = register_of(a.regs, result)->Ok_0;
    let tail = (move_code(false, reg(0), r) + epilogue(a)).push(A64::Return);
    let code = i64_code(f, result)->Ok_0;
    assert(code == body + tail);
    assert(code.last() == tail.last());
    lemma_after_add(m, body, tail, fs);
    let moved = move_code(false, reg(0), r);
    let inner = moved + epilogue(a);
    assert(tail.drop_last() =~= inner);
    lemma_after_add(q, moved, epilogue(a), fs);
    assert(slot(w, result) == Some(x));
    assert(w[result.0 as int] is Some);
    lemma_reg(0);
    lemma_reg(31);
    let q1 = after(q, moved, fs);
    if reg(0) == r {
        assert(q1 == q);
    } else {
        lemma_after_one(q, A64::Int { op: IntOp::Or, dst: reg(0), lhs: reg(31), rhs: r }, fs);
        let z = get_x(q, r);
        lemma_or_zero(z);
    }
    assert(kept(q1, a, m)) by {
        assert(q1.memory == p.memory && q1.sp == p.sp);
    }
    lemma_epilogue(q1, a, m, fs);
    let e = after(q1, epilogue(a), fs);
    assert(after(m, code, fs) == e);
    assert(e.d =~= m.d);
    assert forall|j: int| #![trigger e.x[j]] 19 <= j < 31 implies e.x[j] == m.x[j] by {
        if j >= 19 + a.saved_int.len() {
            assert(q1.x[j] == q.x[j]);
            assert(q.x[j] == p.x[j]);
        }
    }
}

} // verus!
