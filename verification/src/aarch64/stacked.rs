//! Code with control flow that keeps its values on the stack, and may call
//! the mathematics library, computes what its function computes.
use crate::aarch64::emit::{chain, count_params, one, type_of, Code};
use crate::aarch64::encode::{lemma_reg, reg};
use crate::aarch64::encode::Gpr;
use crate::aarch64::execute::{
    after, all_go_on, get_x, int_value, lemma_cast, lemma_cast_back, lemma_constant_runs,
    lemma_flip, lemma_or_zero, lemma_rest, set_d, set_x, step, unary_value, whole, Machine,
};
use crate::aarch64::machine::{constant, FloatUnaryOp, IntOp, A64};
use crate::aarch64::registers::{float_op, int_op, move_code};
use crate::aarch64::spill::{
    call_spill, first_slot, float_pair_spill, float_spill, float_unary_spill, fma_spill, layout,
    load, load_slot, load_two, load_typed, location_of, mixed_spill, mixed_store, move_argument,
    place, place_listed, scratch, store, store_slot, Kind, Layout, LibmAddresses, Location,
};
use crate::float::{lib_float_op, FloatSem};
use crate::interp::{eval, operand_values, readable, reads, slot, Frame, RtValue};
use crate::ir::{Function, LibFunc, Op, Ty, Value};
use crate::opt::simulate::value_ty;
use vstd::prelude::*;

verus! {

// ---------------------------------------------------------------------------
// Runs

/// What is outside of the code: the arithmetic unit, and what a call of an
/// address does.
pub struct Outside {
    pub fs: FloatSem,
    pub call: spec_fn(u64, Machine) -> Machine,
}

/// A call of a function of the library gives what the function gives, in D0,
/// and keeps what belongs to the caller.
pub open spec fn calls_ok(out: Outside, libm: LibmAddresses) -> bool {
    forall|func: LibFunc, m: Machine|
        #![trigger (out.call)(libm.spec_get(func), m)]
        whole(m) ==> {
            let e = (out.call)(libm.spec_get(func), m);
            &&& whole(e)
            &&& e.sp == m.sp
            &&& e.d[0] == (out.fs)(
                lib_float_op(func),
                m.d[0],
                if func == LibFunc::Pow {
                    m.d[1]
                } else {
                    0
                },
                0,
            )
            &&& forall|a: int| #![trigger e.memory[a]] a >= m.sp ==> e.memory[a] == m.memory[a]
            &&& forall|j: int| #![trigger e.x[j]] 19 <= j < 30 ==> e.x[j] == m.x[j]
            &&& forall|j: int| #![trigger e.d[j]] 8 <= j < 16 ==> e.d[j] == m.d[j]
        }
}

/// One instruction that is no jump.
pub open spec fn advance(m: Machine, i: A64, out: Outside) -> Option<Machine> {
    match i {
        A64::CallRegister { target } => Some((out.call)(get_x(m, target) as u64, m)),
        A64::Return | A64::Jump { .. } | A64::JumpIf { .. } => None,
        _ => Some(step(m, i, out.fs)),
    }
}

/// Where a run starts: behind the first `from` instructions.
pub struct Start {
    pub machine: Machine,
    pub from: nat,
}

/// One instruction after another, from the start on.
#[verifier::opaque]
pub open spec fn ran(start: Start, code: Seq<A64>, out: Outside) -> Option<Machine>
    decreases code.len(),
{
    if code.len() < start.from {
        None
    } else if code.len() == start.from {
        Some(start.machine)
    } else {
        match ran(start, code.drop_last(), out) {
            Some(m) => advance(m, code.last(), out),
            None => None,
        }
    }
}

pub open spec fn runs(start: Start, acc: Code, m: Machine, out: Outside) -> bool {
    acc is Ok && ran(start, acc->Ok_0, out) == Some(m)
}

pub(crate) proof fn lemma_one(start: Start, acc: Code, i: A64, m: Machine, out: Outside) -> (e: Machine)
    requires
        runs(start, acc, m, out),
        advance(m, i, out) is Some,
    ensures
        advance(m, i, out) == Some(e),
        runs(start, chain(acc, one(i)), e, out),
{
    reveal(ran);
    let code = acc->Ok_0;
    assert((code + seq![i]).drop_last() =~= code);
    assert((code + seq![i]).last() == i);
    advance(m, i, out).unwrap()
}

pub(crate) proof fn lemma_piece(start: Start, acc: Code, piece: Seq<A64>, m: Machine, out: Outside)
    requires
        runs(start, acc, m, out),
        all_go_on(piece),
    ensures
        runs(start, chain(acc, Ok(piece)), after(m, piece, out.fs), out),
    decreases piece.len(),
{
    let code = acc->Ok_0;
    if piece.len() == 0 {
        assert(code + piece =~= code);
    } else {
        let front = piece.drop_last();
        assert forall|i: int| #![trigger front[i]] 0 <= i < front.len() implies
            crate::aarch64::execute::goes_on(front[i]) by {
            assert(front[i] == piece[i]);
        }
        lemma_piece(start, acc, front, m, out);
        assert(crate::aarch64::execute::goes_on(piece[piece.len() - 1]));
        let e = lemma_one(start, chain(acc, Ok(front)), piece.last(), after(m, front, out.fs), out);
        assert((code + front) + seq![piece.last()] =~= code + piece);
    }
}

proof fn lemma_constant_piece(start: Start, acc: Code, dst: Gpr, value: u64, m: Machine, out: Outside)
    requires
        runs(start, acc, m, out),
        whole(m),
        dst.number() < 31,
    ensures
        runs(start, chain(acc, Ok(constant(dst, value))), set_x(m, dst, value as i64), out),
{
    lemma_constant_runs(m, dst, value, out.fs);
    assert(all_go_on(constant(dst, value)));
    lemma_piece(start, acc, constant(dst, value), m, out);
}

// ---------------------------------------------------------------------------
// Places

/// Where values are: a parameter of a function without calls stays in the
/// register in which it comes, a comparison has no place, and every other
/// value has a slot of its own.
pub open spec fn placed(f: Function, kind: Kind, s: Layout) -> bool {
    &&& s.locs.len() == f.insts@.len()
    &&& first_slot(kind) <= s.next <= u16::MAX
    &&& forall|v: int|
        #![trigger s.locs[v]]
        0 <= v < s.locs.len() ==> match s.locs[v] {
            None => true,
            Some(Location::Register(r)) => kind != (Kind::Floats { calls: true }) && match f.inst(
                v,
            ).op {
                Op::Param(index, ty) => {
                    let n = count_params(f, ty, index as nat) as int;
                    index < f.params@.len() && n < 8 && r == reg(n) && (kind is Floats ==> ty
                        == Ty::F64)
                },
                _ => false,
            },
            Some(Location::Stack(o)) => {
                &&& first_slot(kind) <= o
                &&& o + 8 <= s.next
                &&& !(f.inst(v).op is Compare)
                &&& f.inst(v).op is Param ==> kind == (Kind::Floats { calls: true })
                    && f.inst(v).op->Param_1 == Ty::F64 && f.inst(v).op->Param_0
                    < f.params@.len() && count_params(
                    f,
                    Ty::F64,
                    f.inst(v).op->Param_0 as nat,
                ) < 8
                &&& kind is Floats && !(f.inst(v).op is Param) ==> type_of(f, Value(v as u32))
                    == Some(Ty::F64)
            },
        }
    &&& forall|u: int, v: int|
        #![trigger s.locs[u], s.locs[v]]
        0 <= u < s.locs.len() && 0 <= v < s.locs.len() && u != v ==> match (s.locs[u], s.locs[v]) {
            (Some(Location::Stack(o)), Some(Location::Stack(p))) => o + 8 <= p || p + 8 <= o,
            _ => true,
        }
}

/// The listed values have their places.
pub open spec fn covered(f: Function, s: Layout, b: int, k: int) -> bool {
    let v = f.listed(b)[k];
    v.0 < f.insts@.len() && (s.locs[v.0 as int] is Some || f.inst(v.0 as int).op is Compare)
}

#[verifier::rlimit(60)]
proof fn lemma_place(f: Function, kind: Kind, v: Value, s: Layout)
    requires
        !(kind is Ints),
        placed(f, kind, s),
        place(f, kind, v, s) is Ok,
    ensures
        placed(f, kind, place(f, kind, v, s)->Ok_0),
        v.0 < f.insts@.len(),
        place(f, kind, v, s)->Ok_0.locs[v.0 as int] is Some || f.inst(v.0 as int).op is Compare,
        forall|u: int|
            #![trigger place(f, kind, v, s)->Ok_0.locs[u]]
            0 <= u < f.insts@.len() && s.locs[u] is Some ==> place(
                f,
                kind,
                v,
                s,
            )->Ok_0.locs[u] is Some,
{
    let t = place(f, kind, v, s)->Ok_0;
    assert(Value(v.0 as int as u32) == v);
    assert forall|u: int| #![trigger t.locs[u]] 0 <= u < t.locs.len() && u != v.0 implies t.locs[u]
        == s.locs[u] by {}
}

proof fn lemma_place_listed(f: Function, kind: Kind, b: int, k: nat, s: Layout)
    requires
        !(kind is Ints),
        placed(f, kind, s),
        place_listed(f, kind, b, k, s) is Ok,
    ensures
        placed(f, kind, place_listed(f, kind, b, k, s)->Ok_0),
        forall|j: int| 0 <= j < k ==> #[trigger] covered(f, place_listed(f, kind, b, k, s)->Ok_0, b, j),
        forall|u: int|
            #![trigger place_listed(f, kind, b, k, s)->Ok_0.locs[u]]
            0 <= u < f.insts@.len() && s.locs[u] is Some ==> place_listed(
                f,
                kind,
                b,
                k,
                s,
            )->Ok_0.locs[u] is Some,
    decreases k,
{
    if k > 0 {
        let l = (k - 1) as nat;
        lemma_place_listed(f, kind, b, l, s);
        let t = place_listed(f, kind, b, l, s)->Ok_0;
        lemma_place(f, kind, f.listed(b)[k - 1], t);
        let r = place_listed(f, kind, b, k, s)->Ok_0;
        assert forall|j: int| 0 <= j < k implies #[trigger] covered(f, r, b, j) by {
            if j < l {
                assert(covered(f, t, b, j));
                assert(t.locs[f.listed(b)[j].0 as int] is Some ==> r.locs[f.listed(
                    b,
                )[j].0 as int] is Some);
            }
        }
        assert forall|u: int|
            #![trigger r.locs[u]]
            0 <= u < f.insts@.len() && s.locs[u] is Some implies r.locs[u] is Some by {
            assert(t.locs[u] is Some);
        }
    }
}

pub(crate) proof fn lemma_layout_placed(f: Function, kind: Kind, n: nat)
    requires
        !(kind is Ints),
        n <= f.blocks@.len(),
        layout(f, kind, n) is Ok,
    ensures
        placed(f, kind, layout(f, kind, n)->Ok_0),
        forall|b: int, k: int|
            0 <= b < n && 0 <= k < f.listed(b).len() ==> #[trigger] covered(
                f,
                layout(f, kind, n)->Ok_0,
                b,
                k,
            ),
    decreases n,
{
    if n == 0 {
    } else {
        let l = (n - 1) as nat;
        lemma_layout_placed(f, kind, l);
        let s = layout(f, kind, l)->Ok_0;
        lemma_place_listed(f, kind, n - 1, f.listed(n - 1).len(), s);
        let t = layout(f, kind, n)->Ok_0;
        assert forall|b: int, k: int|
            0 <= b < n && 0 <= k < f.listed(b).len() implies #[trigger] covered(f, t, b, k) by {
            if b < l {
                assert(covered(f, s, b, k));
                assert(s.locs[f.listed(b)[k].0 as int] is Some ==> t.locs[f.listed(
                    b,
                )[k].0 as int] is Some);
            }
        }
    }
}

// ---------------------------------------------------------------------------
// What the places hold

/// The value is in the place. Nothing is said of a bool.
pub open spec fn holds(x: RtValue, l: Location, m: Machine) -> bool {
    match (x, l) {
        (RtValue::F64(bits), Location::Register(r)) => m.d[r.number() as int] == bits,
        (RtValue::F64(bits), Location::Stack(o)) => m.memory[m.sp + o] == bits,
        (RtValue::I64(z), Location::Register(r)) => m.x[r.number() as int] == z,
        (RtValue::I64(z), Location::Stack(o)) => m.memory[m.sp + o] == z as u64,
        (RtValue::Bool(_), _) => true,
    }
}

/// Every value computed so far is a comparison, or in its place.
pub open spec fn stored(f: Function, locs: Seq<Option<Location>>, vals: Frame, m: Machine) -> bool {
    &&& vals.len() == locs.len()
    &&& forall|v: int|
        #![trigger vals[v]]
        0 <= v < vals.len() && vals[v] is Some ==> f.inst(v).op is Compare || (locs[v] is Some
            && holds(vals[v].unwrap(), locs[v].unwrap(), m))
}

/// Every parameter is in its place.
pub open spec fn supplied(
    f: Function,
    locs: Seq<Option<Location>>,
    args: Seq<RtValue>,
    m: Machine,
) -> bool {
    forall|b: int, k: int|
        #![trigger f.listed(b)[k]]
        0 <= b < f.blocks@.len() && 0 <= k < f.listed(b).len() ==> param_there(
            f,
            locs,
            args,
            f.listed(b)[k].0 as int,
            m,
        )
}

/// The value is in its place, if it is a parameter.
pub open spec fn param_there(
    f: Function,
    locs: Seq<Option<Location>>,
    args: Seq<RtValue>,
    v: int,
    m: Machine,
) -> bool {
    0 <= v < locs.len() && locs[v] is Some && f.inst(v).op is Param ==> {
        let index = f.inst(v).op->Param_0;
        index < args.len() ==> holds(args[index as int], locs[v].unwrap(), m)
    }
}

/// Only scratch registers changed, and what a call may change.
pub open spec fn unchanged(kind: Kind, p: Machine, q: Machine) -> bool {
    let calls = kind == (Kind::Floats { calls: true });
    &&& whole(q)
    &&& q.sp == p.sp
    &&& forall|a: int| #![trigger q.memory[a]] a >= p.sp ==> q.memory[a] == p.memory[a]
    &&& forall|j: int|
        #![trigger q.x[j]]
        19 <= j < 28 || (kind is Floats && 28 <= j < 30) || (!calls && 0 <= j < 8) || (kind == (
        Kind::Floats { calls: false }) && j == 30) ==> q.x[j] == p.x[j]
    &&& forall|j: int|
        #![trigger q.d[j]]
        8 <= j < 16 || (!calls && 0 <= j < 8) ==> q.d[j] == p.d[j]
}

pub(crate) proof fn lemma_unchanged_trans(kind: Kind, p: Machine, q: Machine, r: Machine)
    requires
        unchanged(kind, p, q),
        unchanged(kind, q, r),
    ensures
        unchanged(kind, p, r),
{
    assert forall|a: int| #![trigger r.memory[a]] a >= p.sp implies r.memory[a] == p.memory[a] by {
        assert(q.memory[a] == p.memory[a]);
    }
    assert forall|j: int|
        #![trigger r.x[j]]
        19 <= j < 28 || (kind is Floats && 28 <= j < 30) || (kind != (Kind::Floats { calls: true })
            && 0 <= j < 8) || (kind == (Kind::Floats { calls: false }) && j == 30) implies r.x[j]
        == p.x[j] by {
        assert(q.x[j] == p.x[j]);
    }
    assert forall|j: int|
        #![trigger r.d[j]]
        8 <= j < 16 || (kind != (Kind::Floats { calls: true }) && 0 <= j < 8) implies r.d[j]
        == p.d[j] by {
        assert(q.d[j] == p.d[j]);
    }
}

/// A place keeps its value where nothing but scratch registers changes.
pub(crate) proof fn lemma_place_kept(f: Function, kind: Kind, s: Layout, v: int, x: RtValue, p: Machine, q: Machine)
    requires
        placed(f, kind, s),
        0 <= v < s.locs.len(),
        s.locs[v] is Some,
        holds(x, s.locs[v].unwrap(), p),
        unchanged(kind, p, q),
    ensures
        holds(x, s.locs[v].unwrap(), q),
{
    match s.locs[v].unwrap() {
        Location::Register(r) => {
            let index = f.inst(v).op->Param_0;
            let n = count_params(f, f.inst(v).op->Param_1, index as nat) as int;
            lemma_reg(n);
            assert(q.x[n] == p.x[n] && q.d[n] == p.d[n]);
        },
        Location::Stack(o) => {
            assert(q.memory[p.sp + o] == p.memory[p.sp + o]);
        },
    }
}

pub(crate) proof fn lemma_all_kept(
    f: Function,
    kind: Kind,
    s: Layout,
    vals: Frame,
    args: Seq<RtValue>,
    p: Machine,
    q: Machine,
)
    requires
        placed(f, kind, s),
        stored(f, s.locs, vals, p),
        supplied(f, s.locs, args, p),
        unchanged(kind, p, q),
    ensures
        stored(f, s.locs, vals, q),
        supplied(f, s.locs, args, q),
{
    assert forall|v: int|
        #![trigger vals[v]]
        0 <= v < vals.len() && vals[v] is Some implies f.inst(v).op is Compare || (
    s.locs[v] is Some && holds(vals[v].unwrap(), s.locs[v].unwrap(), q)) by {
        if !(f.inst(v).op is Compare) {
            lemma_place_kept(f, kind, s, v, vals[v].unwrap(), p, q);
        }
    }
    assert forall|b: int, k: int|
        #![trigger f.listed(b)[k]]
        0 <= b < f.blocks@.len() && 0 <= k < f.listed(b).len() implies param_there(
        f,
        s.locs,
        args,
        f.listed(b)[k].0 as int,
        q,
    ) by {
        let v = f.listed(b)[k].0 as int;
        assert(param_there(f, s.locs, args, v, p));
        if 0 <= v < s.locs.len() && s.locs[v] is Some && f.inst(v).op is Param {
            let index = f.inst(v).op->Param_0;
            if index < args.len() {
                lemma_place_kept(f, kind, s, v, args[index as int], p, q);
            }
        }
    }
}

/// The register is free for computing.
pub open spec fn is_free(kind: Kind, float: bool, n: int) -> bool {
    if float {
        29 <= n < 32 || (kind == (Kind::Floats { calls: true }) && 0 <= n < 2)
    } else {
        kind is Mixed && 28 <= n < 31 || (kind == (Kind::Floats { calls: true }) && n == 16)
    }
}

pub open spec fn put(float: bool, m: Machine, dst: Gpr, bits: u64) -> Machine {
    if float {
        set_d(m, dst, bits)
    } else {
        set_x(m, dst, bits as i64)
    }
}

pub(crate) proof fn lemma_put_unchanged(kind: Kind, float: bool, m: Machine, dst: Gpr, bits: u64)
    requires
        whole(m),
        is_free(kind, float, dst.number() as int),
    ensures
        unchanged(kind, m, put(float, m, dst, bits)),
{
}

/// The bits of a value, as far as they are known.
pub open spec fn shows(x: RtValue, float: bool, bits: u64) -> bool {
    match x {
        RtValue::F64(b) => float ==> bits == b,
        RtValue::I64(z) => !float ==> bits as i64 == z,
        RtValue::Bool(_) => true,
    }
}

/// A load brings a value into a register.
#[verifier::rlimit(40)]
pub(crate) proof fn lemma_loads(
    start: Start,
    acc: Code,
    f: Function,
    kind: Kind,
    s: Layout,
    float: bool,
    v: Value,
    dst: Gpr,
    vals: Frame,
    m: Machine,
    out: Outside,
) -> (bits: u64)
    requires
        placed(f, kind, s),
        runs(start, acc, m, out),
        whole(m),
        stored(f, s.locs, vals, m),
        load(acc, s.locs, float, v, dst) is Ok,
        slot(vals, v) is Some,
        !(f.inst(v.0 as int).op is Compare) || slot(vals, v).unwrap() is Bool,
        dst.number() < 31 || float,
        dst.number() < 32,
    ensures
        runs(start, load(acc, s.locs, float, v, dst), put(float, m, dst, bits), out),
        shows(slot(vals, v).unwrap(), float, bits),
{
    assert(vals[v.0 as int] is Some);
    let x = vals[v.0 as int].unwrap();
    match location_of(s.locs, v).unwrap() {
        Location::Register(r) => {
            let index = f.inst(v.0 as int).op->Param_0;
            let n = count_params(f, f.inst(v.0 as int).op->Param_1, index as nat) as int;
            lemma_reg(n);
            lemma_reg(31);
            let piece = move_code(float, dst, r);
            assert(all_go_on(piece));
            lemma_piece(start, acc, piece, m, out);
            if float {
                if dst == r {
                    assert(set_d(m, dst, m.d[n]).d =~= m.d);
                    assert(after(m, piece, out.fs) == m);
                } else {
                    crate::aarch64::execute::lemma_after_one(
                        m,
                        A64::Unary { unary: FloatUnaryOp::Move, dst, src: r },
                        out.fs,
                    );
                }
                m.d[n]
            } else {
                let z = m.x[n];
                lemma_cast_back(z);
                if dst == r {
                    assert(set_x(m, dst, m.x[n]).x =~= m.x);
                    assert(after(m, piece, out.fs) == m);
                } else {
                    crate::aarch64::execute::lemma_after_one(
                        m,
                        A64::Int { op: IntOp::Or, dst, lhs: reg(31), rhs: r },
                        out.fs,
                    );
                    lemma_or_zero(z);
                }
                z as u64
            }
        },
        Location::Stack(o) => {
            let e = lemma_one(start, acc, load_slot(float, dst, o), m, out);
            if let RtValue::I64(z) = x {
                lemma_cast_back(z);
            }
            m.memory[m.sp + o]
        },
    }
}

/// Other places keep what they hold when `v` goes to its slot.
pub open spec fn others_kept(s: Layout, v: int, p: Machine, q: Machine) -> bool {
    forall|u: int, x: RtValue|
        #![trigger holds(x, s.locs[u].unwrap(), q)]
        0 <= u < s.locs.len() && u != v && s.locs[u] is Some && holds(x, s.locs[u].unwrap(), p)
            ==> holds(x, s.locs[u].unwrap(), q)
}

/// What belongs to the caller is as the prologue left it.
pub open spec fn caller_kept(kind: Kind, frame: int, p: Machine, q: Machine) -> bool {
    &&& whole(q)
    &&& q.sp == p.sp
    &&& forall|a: int|
        #![trigger q.memory[a]]
        p.sp <= a < p.sp + first_slot(kind) - 7 || a >= p.sp + frame ==> q.memory[a] == p.memory[a]
    &&& forall|j: int|
        #![trigger q.x[j]]
        19 <= j < 28 || (kind is Floats && 28 <= j < 30) || (kind == (Kind::Floats { calls: false })
            && j == 30) ==> q.x[j] == p.x[j]
    &&& forall|j: int| #![trigger q.d[j]] 8 <= j < 16 ==> q.d[j] == p.d[j]
}

pub(crate) proof fn lemma_caller_trans(kind: Kind, frame: int, p: Machine, q: Machine, r: Machine)
    requires
        caller_kept(kind, frame, p, q),
        caller_kept(kind, frame, q, r),
    ensures
        caller_kept(kind, frame, p, r),
{
    assert forall|a: int|
        #![trigger r.memory[a]]
        p.sp <= a < p.sp + first_slot(kind) - 7 || a >= p.sp + frame implies r.memory[a]
        == p.memory[a] by {
        assert(q.memory[a] == p.memory[a]);
    }
    assert forall|j: int|
        #![trigger r.x[j]]
        19 <= j < 28 || (kind is Floats && 28 <= j < 30) || (kind == (Kind::Floats { calls: false })
            && j == 30) implies r.x[j] == p.x[j] by {
        assert(q.x[j] == p.x[j]);
    }
    assert forall|j: int| #![trigger r.d[j]] 8 <= j < 16 implies r.d[j] == p.d[j] by {
        assert(q.d[j] == p.d[j]);
    }
}

/// A value goes from a register to its slot.
#[verifier::rlimit(60)]
pub(crate) proof fn lemma_stores(
    start: Start,
    made: Code,
    f: Function,
    kind: Kind,
    s: Layout,
    frame: int,
    float: bool,
    slots_only: bool,
    v: Value,
    source: Gpr,
    x: RtValue,
    p: Machine,
    q: Machine,
    out: Outside,
) -> (e: Machine)
    requires
        placed(f, kind, s),
        s.next <= frame,
        unchanged(kind, p, q),
        runs(start, made, q, out),
        v.0 < s.locs.len(),
        s.locs[v.0 as int] matches Some(Location::Stack(_)),
        source.number() < 31 || float,
        source.number() < 32,
        match x {
            RtValue::F64(bits) => float && q.d[source.number() as int] == bits,
            RtValue::I64(z) => !float && q.x[source.number() as int] == z,
            RtValue::Bool(_) => true,
        },
    ensures
        runs(start, store(made, s.locs, float, slots_only, v, source), e, out),
        holds(x, s.locs[v.0 as int].unwrap(), e),
        others_kept(s, v.0 as int, p, e),
        caller_kept(kind, frame, p, e),
        e.flags == q.flags,
        e.x == q.x,
        e.d == q.d,
{
    let o = s.locs[v.0 as int].unwrap()->Stack_0;
    let i = store_slot(float, source, o);
    let e = lemma_one(start, made, i, q, out);
    assert forall|u: int, y: RtValue|
        #![trigger holds(y, s.locs[u].unwrap(), e)]
        0 <= u < s.locs.len() && u != v.0 && s.locs[u] is Some && holds(y, s.locs[u].unwrap(), p)
        implies holds(y, s.locs[u].unwrap(), e) by {
        lemma_place_kept(f, kind, s, u, y, p, q);
        assert(s.locs[u] is Some && s.locs[v.0 as int] is Some);
    }
    assert forall|a: int|
        #![trigger e.memory[a]]
        p.sp <= a < p.sp + first_slot(kind) - 7 || a >= p.sp + frame implies e.memory[a]
        == p.memory[a] by {
        assert(q.memory[a] == p.memory[a]);
    }
    assert forall|j: int|
        #![trigger e.x[j]]
        19 <= j < 28 || (kind is Floats && 28 <= j < 30) || (kind == (Kind::Floats { calls: false })
            && j == 30) implies e.x[j] == p.x[j] by {
        assert(q.x[j] == p.x[j]);
    }
    assert forall|j: int| #![trigger e.d[j]] 8 <= j < 16 implies e.d[j] == p.d[j] by {
        assert(q.d[j] == p.d[j]);
    }
    e
}

// ---------------------------------------------------------------------------
// Instructions

/// Two operands in two registers.
pub(crate) proof fn lemma_two_loads(
    start: Start,
    acc: Code,
    f: Function,
    kind: Kind,
    s: Layout,
    float: bool,
    a: Value,
    b: Value,
    r1: Gpr,
    r2: Gpr,
    vals: Frame,
    args: Seq<RtValue>,
    m: Machine,
    out: Outside,
) -> (r: (u64, u64))
    requires
        placed(f, kind, s),
        runs(start, acc, m, out),
        whole(m),
        stored(f, s.locs, vals, m),
        supplied(f, s.locs, args, m),
        load(load(acc, s.locs, float, a, r1), s.locs, float, b, r2) is Ok,
        slot(vals, a) is Some,
        slot(vals, b) is Some,
        !(f.inst(a.0 as int).op is Compare) || slot(vals, a).unwrap() is Bool,
        !(f.inst(b.0 as int).op is Compare) || slot(vals, b).unwrap() is Bool,
        is_free(kind, float, r1.number() as int),
        is_free(kind, float, r2.number() as int),
    ensures
        ({
            let q = put(float, put(float, m, r1, r.0), r2, r.1);
            &&& runs(start, load(load(acc, s.locs, float, a, r1), s.locs, float, b, r2), q, out)
            &&& unchanged(kind, m, q)
        }),
        shows(slot(vals, a).unwrap(), float, r.0),
        shows(slot(vals, b).unwrap(), float, r.1),
{
    let first = load(acc, s.locs, float, a, r1);
    let x = lemma_loads(start, acc, f, kind, s, float, a, r1, vals, m, out);
    let p = put(float, m, r1, x);
    lemma_put_unchanged(kind, float, m, r1, x);
    lemma_all_kept(f, kind, s, vals, args, m, p);
    let y = lemma_loads(start, first, f, kind, s, float, b, r2, vals, p, out);
    lemma_put_unchanged(kind, float, p, r2, y);
    lemma_unchanged_trans(kind, m, p, put(float, p, r2, y));
    (x, y)
}

/// What is known where a value is computed.
pub open spec fn computing(
    start: Start,
    acc: Code,
    f: Function,
    kind: Kind,
    s: Layout,
    frame: int,
    v: Value,
    vals: Frame,
    args: Seq<RtValue>,
    m: Machine,
    out: Outside,
    x: RtValue,
) -> bool {
    let im = f.inst(v.0 as int);
    &&& placed(f, kind, s)
    &&& s.next <= frame
    &&& runs(start, acc, m, out)
    &&& whole(m)
    &&& stored(f, s.locs, vals, m)
    &&& supplied(f, s.locs, args, m)
    &&& v.0 < f.insts@.len()
    &&& s.locs[v.0 as int] is Some
    &&& !(im.op is Param) && !(im.op is Compare) && !(im.op is Phi)
    &&& readable(im, vals)
    &&& eval(im.op, operand_values(im, vals), args, out.fs) == Some(x)
    &&& forall|j: int|
        #![trigger im.args[j]]
        0 <= j < reads(im.op) ==> (f.inst(im.args[j].0 as int).op is Compare ==> slot(
            vals,
            im.args[j],
        ).unwrap() is Bool)
}

/// A value of a function of doubles goes to its slot.
#[verifier::rlimit(100)]
#[verifier::spinoff_prover]
pub(crate) proof fn lemma_float_value(
    start: Start,
    acc: Code,
    f: Function,
    kind: Kind,
    s: Layout,
    frame: int,
    libm: LibmAddresses,
    v: Value,
    vals: Frame,
    args: Seq<RtValue>,
    m: Machine,
    out: Outside,
    x: RtValue,
) -> (e: Machine)
    requires
        kind is Floats,
        computing(start, acc, f, kind, s, frame, v, vals, args, m, out, x),
        x is F64,
        f.inst(v.0 as int).op is Call ==> kind == (Kind::Floats { calls: true }) && calls_ok(
            out,
            libm,
        ),
        float_spill(f, s.locs, libm, v, acc) is Ok,
    ensures
        runs(start, float_spill(f, s.locs, libm, v, acc), e, out),
        holds(x, s.locs[v.0 as int].unwrap(), e),
        others_kept(s, v.0 as int, m, e),
        caller_kept(kind, frame, m, e),
{
    let im = f.inst(v.0 as int);
    let vs = operand_values(im, vals);
    let z = x->F64_0;
    lemma_reg(0);
    lemma_reg(1);
    lemma_reg(16);
    lemma_reg(29);
    lemma_reg(30);
    lemma_reg(31);
    assert forall|j: int| #![trigger im.args[j]] 0 <= j < reads(im.op) implies slot(
        vals,
        im.args[j],
    ) == Some(vs[j]) by {
        assert(slot(vals, im.args[j]) is Some);
    }
    let a = im.args[0];
    let b = im.args[1];
    let (made, q, source): (Code, Machine, Gpr) = match im.op {
        Op::ConstF64(bits) => {
            let i = A64::Literal { dst: reg(29), bits };
            let q = lemma_one(start, acc, i, m, out);
            lemma_put_unchanged(kind, true, m, reg(29), bits);
            (chain(acc, one(i)), q, reg(29))
        },
        Op::Neg | Op::Abs | Op::Sqrt => {
            let unary = match im.op {
                Op::Neg => FloatUnaryOp::Neg,
                Op::Abs => FloatUnaryOp::Abs,
                _ => FloatUnaryOp::Sqrt,
            };
            assert(slot(vals, a) == Some(vs[0]));
            let first = load(acc, s.locs, true, a, reg(29));
            let bits = lemma_loads(start, acc, f, kind, s, true, a, reg(29), vals, m, out);
            let p = put(true, m, reg(29), bits);
            let i = A64::Unary { unary, dst: reg(29), src: reg(29) };
            let q = lemma_one(start, first, i, p, out);
            lemma_put_unchanged(kind, true, m, reg(29), bits);
            lemma_put_unchanged(kind, true, p, reg(29), unary_value(unary, bits, out.fs));
            lemma_unchanged_trans(kind, m, p, q);
            (float_unary_spill(acc, s.locs, unary, a), q, reg(29))
        },
        Op::Fma => {
            let c = im.args[2];
            assert(slot(vals, a) == Some(vs[0]) && slot(vals, b) == Some(vs[1]) && slot(vals, c)
                == Some(vs[2]));
            let two = load(load(acc, s.locs, true, a, reg(29)), s.locs, true, b, reg(30));
            let (h, k) = lemma_two_loads(
                start,
                acc,
                f,
                kind,
                s,
                true,
                a,
                b,
                reg(29),
                reg(30),
                vals,
                args,
                m,
                out,
            );
            let p = put(true, put(true, m, reg(29), h), reg(30), k);
            lemma_all_kept(f, kind, s, vals, args, m, p);
            let l = lemma_loads(start, two, f, kind, s, true, c, reg(31), vals, p, out);
            let p3 = put(true, p, reg(31), l);
            lemma_put_unchanged(kind, true, p, reg(31), l);
            lemma_unchanged_trans(kind, m, p, p3);
            let three = load(two, s.locs, true, c, reg(31));
            let i = A64::FusedMulAdd {
                dst: reg(29),
                lhs: reg(29),
                rhs: reg(30),
                addend: reg(31),
            };
            let q = lemma_one(start, three, i, p3, out);
            lemma_put_unchanged(kind, true, p3, reg(29), z);
            lemma_unchanged_trans(kind, m, p3, q);
            (fma_spill(acc, s.locs, a, b, c), q, reg(29))
        },
        Op::Call(func) => {
            assert(slot(vals, a) == Some(vs[0]));
            let first = load(acc, s.locs, true, a, reg(29));
            let h = lemma_loads(start, acc, f, kind, s, true, a, reg(29), vals, m, out);
            let p = put(true, m, reg(29), h);
            lemma_put_unchanged(kind, true, m, reg(29), h);
            let to0 = A64::Unary { unary: FloatUnaryOp::Move, dst: reg(0), src: reg(29) };
            let p0 = lemma_one(start, first, to0, p, out);
            lemma_put_unchanged(kind, true, p, reg(0), h);
            lemma_unchanged_trans(kind, m, p, p0);
            let one_in = move_argument(first, 0, 29);
            let (both, p1): (Code, Machine) = if func == LibFunc::Pow {
                assert(slot(vals, b) == Some(vs[1]));
                lemma_all_kept(f, kind, s, vals, args, m, p0);
                let second = load(one_in, s.locs, true, b, reg(30));
                let k = lemma_loads(start, one_in, f, kind, s, true, b, reg(30), vals, p0, out);
                let pk = put(true, p0, reg(30), k);
                lemma_put_unchanged(kind, true, p0, reg(30), k);
                lemma_unchanged_trans(kind, m, p0, pk);
                let to1 = A64::Unary { unary: FloatUnaryOp::Move, dst: reg(1), src: reg(30) };
                let p1 = lemma_one(start, second, to1, pk, out);
                lemma_put_unchanged(kind, true, pk, reg(1), k);
                lemma_unchanged_trans(kind, m, pk, p1);
                (move_argument(second, 1, 30), p1)
            } else {
                (one_in, p0)
            };
            let address = libm.spec_get(func);
            lemma_constant_piece(start, both, reg(16), address, p1, out);
            let p2 = put(false, p1, reg(16), address);
            lemma_put_unchanged(kind, false, p1, reg(16), address);
            lemma_unchanged_trans(kind, m, p1, p2);
            lemma_cast(address);
            let known = chain(both, Ok(constant(reg(16), address)));
            let call = A64::CallRegister { target: reg(16) };
            let q = lemma_one(start, known, call, p2, out);
            assert(q == (out.call)(libm.spec_get(func), p2));
            assert(unchanged(kind, p2, q));
            lemma_unchanged_trans(kind, m, p2, q);
            assert(p2.d[0] == h);
            (call_spill(acc, s.locs, func, im.args, libm), q, reg(0))
        },
        op => {
            let pair = float_op(op).unwrap();
            assert(reads(op) == 2);
            assert(slot(vals, a) == Some(vs[0]) && slot(vals, b) == Some(vs[1]));
            let two = load(load(acc, s.locs, true, a, reg(29)), s.locs, true, b, reg(30));
            let (h, k) = lemma_two_loads(
                start,
                acc,
                f,
                kind,
                s,
                true,
                a,
                b,
                reg(29),
                reg(30),
                vals,
                args,
                m,
                out,
            );
            let p = put(true, put(true, m, reg(29), h), reg(30), k);
            let i = A64::Float { pair, dst: reg(29), lhs: reg(29), rhs: reg(30) };
            let q = lemma_one(start, two, i, p, out);
            lemma_put_unchanged(kind, true, p, reg(29), z);
            lemma_unchanged_trans(kind, m, p, q);
            (float_pair_spill(acc, s.locs, pair, a, b), q, reg(29))
        },
    };
    assert(s.locs[v.0 as int] matches Some(Location::Stack(_)));
    lemma_stores(
        start,
        made,
        f,
        kind,
        s,
        frame,
        true,
        false,
        v,
        source,
        x,
        m,
        q,
        out,
    )
}

/// Two integers, and an operation on them in X28.
proof fn lemma_int_pair(
    start: Start,
    acc: Code,
    f: Function,
    s: Layout,
    op: IntOp,
    a: Value,
    b: Value,
    vals: Frame,
    args: Seq<RtValue>,
    m: Machine,
    out: Outside,
) -> (r: (Machine, i64, i64))
    requires
        placed(f, Kind::Mixed, s),
        runs(start, acc, m, out),
        whole(m),
        stored(f, s.locs, vals, m),
        supplied(f, s.locs, args, m),
        load(load(acc, s.locs, false, a, reg(28)), s.locs, false, b, reg(29)) is Ok,
        slot(vals, a) is Some,
        slot(vals, b) is Some,
        !(f.inst(a.0 as int).op is Compare) || slot(vals, a).unwrap() is Bool,
        !(f.inst(b.0 as int).op is Compare) || slot(vals, b).unwrap() is Bool,
    ensures
        ({
            let two = load(load(acc, s.locs, false, a, reg(28)), s.locs, false, b, reg(29));
            let i = A64::Int { op, dst: reg(28), lhs: reg(28), rhs: reg(29) };
            &&& runs(start, chain(two, one(i)), r.0, out)
            &&& unchanged(Kind::Mixed, m, r.0)
            &&& r.0.x[28] == int_value(op, r.1, r.2)
        }),
        slot(vals, a).unwrap() matches RtValue::I64(z) ==> r.1 == z,
        slot(vals, b).unwrap() matches RtValue::I64(z) ==> r.2 == z,
{
    lemma_reg(28);
    lemma_reg(29);
    let two = load(load(acc, s.locs, false, a, reg(28)), s.locs, false, b, reg(29));
    let (h, k) = lemma_two_loads(
        start,
        acc,
        f,
        Kind::Mixed,
        s,
        false,
        a,
        b,
        reg(28),
        reg(29),
        vals,
        args,
        m,
        out,
    );
    let p = put(false, put(false, m, reg(28), h), reg(29), k);
    let i = A64::Int { op, dst: reg(28), lhs: reg(28), rhs: reg(29) };
    let q = lemma_one(start, two, i, p, out);
    let z = int_value(op, h as i64, k as i64);
    lemma_cast_back(z);
    lemma_put_unchanged(Kind::Mixed, false, p, reg(28), z as u64);
    lemma_unchanged_trans(Kind::Mixed, m, p, q);
    (q, h as i64, k as i64)
}

/// A value of a mixed function goes to its slot.
#[verifier::rlimit(100)]
#[verifier::spinoff_prover]
pub(crate) proof fn lemma_mixed_value(
    start: Start,
    acc: Code,
    f: Function,
    s: Layout,
    frame: int,
    v: Value,
    vals: Frame,
    args: Seq<RtValue>,
    m: Machine,
    out: Outside,
    x: RtValue,
) -> (e: Machine)
    requires
        computing(start, acc, f, Kind::Mixed, s, frame, v, vals, args, m, out, x),
        type_of(f, v) == Some(value_ty(x)),
        mixed_spill(f, s.locs, v, acc) is Ok,
    ensures
        runs(start, mixed_spill(f, s.locs, v, acc), e, out),
        holds(x, s.locs[v.0 as int].unwrap(), e),
        others_kept(s, v.0 as int, m, e),
        caller_kept(Kind::Mixed, frame, m, e),
{
    let kind = Kind::Mixed;
    let im = f.inst(v.0 as int);
    let vs = operand_values(im, vals);
    lemma_reg(28);
    lemma_reg(29);
    lemma_reg(30);
    lemma_reg(31);
    assert forall|j: int| #![trigger im.args[j]] 0 <= j < reads(im.op) implies slot(
        vals,
        im.args[j],
    ) == Some(vs[j]) by {
        assert(slot(vals, im.args[j]) is Some);
    }
    let a = im.args[0];
    let b = im.args[1];
    let two_ints = load(load(acc, s.locs, false, a, reg(28)), s.locs, false, b, reg(29));
    let (made, q, float): (Code, Machine, bool) = match im.op {
        Op::ConstF64(bits) => {
            let i = A64::Literal { dst: reg(29), bits };
            let q = lemma_one(start, acc, i, m, out);
            lemma_put_unchanged(kind, true, m, reg(29), bits);
            (chain(acc, one(i)), q, true)
        },
        Op::ConstI64(n) => {
            lemma_constant_piece(start, acc, reg(28), n as u64, m, out);
            lemma_cast_back(n);
            lemma_put_unchanged(kind, false, m, reg(28), n as u64);
            (chain(acc, Ok(constant(reg(28), n as u64))), put(false, m, reg(28), n as u64), false)
        },
        Op::ConstBool(bit) => {
            let n: u64 = if bit {
                1
            } else {
                0
            };
            lemma_constant_piece(start, acc, reg(28), n, m, out);
            lemma_put_unchanged(kind, false, m, reg(28), n);
            (chain(acc, Ok(constant(reg(28), n))), put(false, m, reg(28), n), false)
        },
        Op::Add | Op::Sub | Op::Mul | Op::Div => {
            assert(slot(vals, a) == Some(vs[0]) && slot(vals, b) == Some(vs[1]));
            if type_of(f, v) == Some(Ty::F64) {
                let pair = float_op(im.op).unwrap();
                let two = load(load(acc, s.locs, true, a, reg(29)), s.locs, true, b, reg(30));
                assert(load_two(f, acc, s.locs, true, a, b) == two);
                let (h, k) = lemma_two_loads(
                    start,
                    acc,
                    f,
                    kind,
                    s,
                    true,
                    a,
                    b,
                    reg(29),
                    reg(30),
                    vals,
                    args,
                    m,
                    out,
                );
                let p = put(true, put(true, m, reg(29), h), reg(30), k);
                let i = A64::Float { pair, dst: reg(29), lhs: reg(29), rhs: reg(30) };
                let q = lemma_one(start, two, i, p, out);
                lemma_put_unchanged(kind, true, p, reg(29), x->F64_0);
                lemma_unchanged_trans(kind, m, p, q);
                (chain(two, one(i)), q, true)
            } else {
                let op = int_op(im.op).unwrap();
                assert(load_two(f, acc, s.locs, false, a, b) == two_ints);
                let (q, h, k) = lemma_int_pair(start, acc, f, s, op, a, b, vals, args, m, out);
                let i = A64::Int { op, dst: reg(28), lhs: reg(28), rhs: reg(29) };
                (chain(two_ints, one(i)), q, false)
            }
        },
        Op::Rem => {
            assert(slot(vals, a) == Some(vs[0]) && slot(vals, b) == Some(vs[1]));
            assert(load_two(f, acc, s.locs, false, a, b) == two_ints);
            let (h, k) = lemma_two_loads(
                start,
                acc,
                f,
                kind,
                s,
                false,
                a,
                b,
                reg(28),
                reg(29),
                vals,
                args,
                m,
                out,
            );
            let p = put(false, put(false, m, reg(28), h), reg(29), k);
            let i = A64::Int { op: IntOp::Div, dst: reg(30), lhs: reg(28), rhs: reg(29) };
            let p2 = lemma_one(start, two_ints, i, p, out);
            let d = int_value(IntOp::Div, h as i64, k as i64);
            lemma_cast_back(d);
            lemma_put_unchanged(kind, false, p, reg(30), d as u64);
            lemma_unchanged_trans(kind, m, p, p2);
            let l = A64::MulSub { dst: reg(28), lhs: reg(30), rhs: reg(29), minuend: reg(28) };
            let q = lemma_one(start, chain(two_ints, one(i)), l, p2, out);
            lemma_rest(h as i64, k as i64);
            let z = q.x[28];
            lemma_cast_back(z);
            lemma_put_unchanged(kind, false, p2, reg(28), z as u64);
            assert(q == put(false, p2, reg(28), z as u64));
            lemma_unchanged_trans(kind, m, p2, q);
            (chain(chain(two_ints, one(i)), one(l)), q, false)
        },
        Op::Neg => {
            assert(slot(vals, a) == Some(vs[0]));
            let float = type_of(f, v) == Some(Ty::F64);
            let r = reg(scratch(float));
            let first = load(acc, s.locs, float, a, r);
            assert(load_typed(f, acc, s.locs, float, a, r) == first);
            let h = lemma_loads(start, acc, f, kind, s, float, a, r, vals, m, out);
            let p = put(float, m, r, h);
            lemma_put_unchanged(kind, float, m, r, h);
            let i = if float {
                A64::Unary { unary: FloatUnaryOp::Neg, dst: reg(29), src: reg(29) }
            } else {
                A64::Int { op: IntOp::Sub, dst: reg(28), lhs: reg(31), rhs: reg(28) }
            };
            let q = lemma_one(start, first, i, p, out);
            if float {
                lemma_put_unchanged(kind, true, p, r, x->F64_0);
            } else {
                let z = q.x[28];
                lemma_cast_back(z);
                lemma_put_unchanged(kind, false, p, r, z as u64);
                assert(q == put(false, p, r, z as u64));
            }
            lemma_unchanged_trans(kind, m, p, q);
            (chain(first, one(i)), q, float)
        },
        Op::And | Op::Or | Op::Xor | Op::Shl | Op::Shr | Op::Sar => {
            assert(slot(vals, a) == Some(vs[0]) && slot(vals, b) == Some(vs[1]));
            let op = int_op(im.op).unwrap();
            assert(load_two(f, acc, s.locs, false, a, b) == two_ints);
            let (q, h, k) = lemma_int_pair(start, acc, f, s, op, a, b, vals, args, m, out);
            let i = A64::Int { op, dst: reg(28), lhs: reg(28), rhs: reg(29) };
            (chain(two_ints, one(i)), q, false)
        },
        Op::Not => {
            assert(slot(vals, a) == Some(vs[0]));
            let first = load(acc, s.locs, false, a, reg(28));
            assert(load_typed(f, acc, s.locs, false, a, reg(28)) == first);
            let h = lemma_loads(start, acc, f, kind, s, false, a, reg(28), vals, m, out);
            let p = put(false, m, reg(28), h);
            lemma_put_unchanged(kind, false, m, reg(28), h);
            lemma_constant_piece(start, first, reg(29), u64::MAX, p, out);
            let p2 = put(false, p, reg(29), u64::MAX);
            lemma_put_unchanged(kind, false, p, reg(29), u64::MAX);
            lemma_unchanged_trans(kind, m, p, p2);
            let second = chain(first, Ok(constant(reg(29), u64::MAX)));
            let i = A64::Int { op: IntOp::Xor, dst: reg(28), lhs: reg(29), rhs: reg(28) };
            let q = lemma_one(start, second, i, p2, out);
            lemma_flip(h as i64);
            let z = q.x[28];
            lemma_cast_back(z);
            lemma_put_unchanged(kind, false, p2, reg(28), z as u64);
            assert(q == put(false, p2, reg(28), z as u64));
            lemma_unchanged_trans(kind, m, p2, q);
            (chain(second, one(i)), q, false)
        },
        Op::IToF => {
            assert(slot(vals, a) == Some(vs[0]));
            let first = load(acc, s.locs, false, a, reg(28));
            assert(load_typed(f, acc, s.locs, false, a, reg(28)) == first);
            let h = lemma_loads(start, acc, f, kind, s, false, a, reg(28), vals, m, out);
            let p = put(false, m, reg(28), h);
            lemma_put_unchanged(kind, false, m, reg(28), h);
            let i = A64::FromInt { dst: reg(29), src: reg(28) };
            let q = lemma_one(start, first, i, p, out);
            lemma_put_unchanged(kind, true, p, reg(29), x->F64_0);
            lemma_unchanged_trans(kind, m, p, q);
            (chain(first, one(i)), q, true)
        },
        _ => {
            // An integer from a double.
            assert(im.op is FToI);
            assert(slot(vals, a) == Some(vs[0]));
            let first = load(acc, s.locs, true, a, reg(29));
            assert(load_typed(f, acc, s.locs, true, a, reg(29)) == first);
            let h = lemma_loads(start, acc, f, kind, s, true, a, reg(29), vals, m, out);
            let p = put(true, m, reg(29), h);
            lemma_put_unchanged(kind, true, m, reg(29), h);
            let i = A64::ToInt { dst: reg(28), src: reg(29) };
            let q = lemma_one(start, first, i, p, out);
            let z = q.x[28];
            lemma_cast_back(z);
            lemma_put_unchanged(kind, false, p, reg(28), z as u64);
            assert(q == put(false, p, reg(28), z as u64));
            lemma_unchanged_trans(kind, m, p, q);
            (chain(first, one(i)), q, false)
        },
    };
    assert(s.locs[v.0 as int] matches Some(Location::Stack(_)));
    assert(mixed_spill(f, s.locs, v, acc) == mixed_store(made, s.locs, float, v));
    lemma_stores(
        start,
        made,
        f,
        kind,
        s,
        frame,
        float,
        true,
        v,
        reg(scratch(float)),
        x,
        m,
        q,
        out,
    )
}

} // verus!
