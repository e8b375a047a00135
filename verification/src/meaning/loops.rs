//! What the loop of a vectorized program does: it stores, row by row, what the
//! expression of the program is in that row.
use crate::array::{
    column_params, element_params, first_column, first_named, first_param, is_body, is_header,
    is_loop, is_scalar, load_inst, load_insts, loads_of, loop_checked, outcome, synthetic,
    ElementParam,
};
use crate::array::{
    ArrayError, ArrayFunction, ArrayInst, ArrayTerminator, ArrayTy, ArrayValue, TypedArray,
};
use crate::builder::{ir_of, Ir};
use crate::float::FloatSem;
use crate::interp::{lemma_result_unique, yields, RtValue};
use crate::ir::{Block, Function, Op, Terminator, Ty, Value};
use crate::lower::{lowerable, lowered_function, small_enough, TypedAst};
use crate::meaning::finished::{lemma_single_return, param_types};
use crate::meaning::lowered::typed_tree;
use crate::meaning::rows::{
    is_plain, lemma_not_plain, lemma_row_computes, loaded_at, plain_names, row_value, Columns,
};
use crate::meaning::{binds, param_env, param_names, params_distinct, scoped};
use crate::text::{digits, lemma_digits_read_back};
use vstd::prelude::*;

verus! {

// ---------------------------------------------------------------------------
// Running a loop

/// What a loop works on: the columns, by number and row, the scalars, by name,
/// and how many rows there are.
pub struct Inputs {
    pub columns: spec_fn(int, int) -> RtValue,
    pub scalars: spec_fn(Seq<char>) -> RtValue,
    pub length: int,
}

/// The induction value, the parameters that were loaded in this row, and the
/// stores so far: what was stored to, the row, and the value.
#[verifier::ext_equal]
pub struct LoopState {
    pub index: Option<(ArrayValue, int)>,
    pub filled: Map<int, RtValue>,
    pub stores: Seq<(Seq<char>, int, RtValue)>,
}

pub open spec fn loop_start() -> LoopState {
    LoopState { index: None, filled: Map::empty(), stores: Seq::empty() }
}

/// The arguments of the scalar function: what was loaded, and scalars.
pub open spec fn arguments(a: ArrayFunction, g: Inputs, filled: Map<int, RtValue>) -> Seq<RtValue> {
    Seq::new(
        a.params@.len(),
        |p: int|
            if filled.dom().contains(p) {
                filled[p]
            } else {
                (g.scalars)(a.params@[p].0@)
            },
    )
}

/// The function returns the value `v` wherever it returns.
pub open spec fn returns_only(f: Function, v: Value) -> bool {
    forall|b: int|
        #![trigger f.term(b)]
        0 <= b < f.blocks@.len() ==> (f.term(b) matches Some(Terminator::Return(w)) ==> w == v)
}

/// What the value `v` of the scalar function is, where it is what the function
/// returns.
pub open spec fn element_value(f: Function, v: Value, args: Seq<RtValue>, fs: FloatSem) -> Option<
    RtValue,
> {
    if returns_only(f, v) && exists|x: RtValue| yields(f, args, fs, x) {
        Some(choose|x: RtValue| yields(f, args, fs, x))
    } else {
        None
    }
}

/// One instruction. The induction value starts, or moves on.
pub open spec fn loop_step(
    a: ArrayFunction,
    g: Inputs,
    fs: FloatSem,
    inst: ArrayInst,
    s: LoopState,
) -> Option<LoopState> {
    match inst {
        ArrayInst::Induction { result, start, step } => Some(
            LoopState {
                index: Some(
                    (
                        result,
                        match s.index {
                            None => start as int,
                            Some((_, i)) => i + step,
                        },
                    ),
                ),
                filled: Map::empty(),
                ..s
            },
        ),
        ArrayInst::Load { result, column, index, offset } => match (
            s.index,
            a.element.inst(result.0 as int).op,
        ) {
            (Some((r, i)), Op::Param(p, _)) => if r == index {
                Some(
                    LoopState {
                        filled: s.filled.insert(
                            p as int,
                            (g.columns)(column as int, i + offset),
                        ),
                        ..s
                    },
                )
            } else {
                None
            },
            _ => None,
        },
        ArrayInst::Store { output, index, value } => match (
            s.index,
            element_value(a.element, value, arguments(a, g, s.filled), fs),
        ) {
            (Some((r, i)), Some(x)) => if r == index {
                Some(LoopState { stores: s.stores.push((output@, i, x)), ..s })
            } else {
                None
            },
            _ => None,
        },
    }
}

/// The first `k` instructions of a list.
pub open spec fn loop_steps(
    a: ArrayFunction,
    g: Inputs,
    fs: FloatSem,
    insts: Seq<ArrayInst>,
    k: nat,
    s: LoopState,
) -> Option<LoopState>
    decreases k,
{
    if k == 0 {
        Some(s)
    } else {
        match loop_steps(a, g, fs, insts, (k - 1) as nat, s) {
            Some(t) => loop_step(a, g, fs, insts[k - 1], t),
            None => None,
        }
    }
}

/// The stores that were made when the loop returns, if it does so within
/// `fuel` blocks.
pub open spec fn run_loop(
    a: ArrayFunction,
    g: Inputs,
    fs: FloatSem,
    b: Block,
    s: LoopState,
    fuel: nat,
) -> Option<Seq<(Seq<char>, int, RtValue)>>
    decreases fuel,
{
    if fuel == 0 || b.0 >= a.blocks@.len() {
        None
    } else {
        let block = a.blocks@[b.0 as int];
        match loop_steps(a, g, fs, block.insts@, block.insts@.len(), s) {
            None => None,
            Some(t) => match block.term {
                ArrayTerminator::Return => Some(t.stores),
                ArrayTerminator::Jump(c) => run_loop(a, g, fs, c, t, (fuel - 1) as nat),
                ArrayTerminator::LoopIfLess { index, bound, body, exit } => match t.index {
                    Some((r, i)) => if r != index {
                        None
                    } else if i < g.length {
                        run_loop(a, g, fs, body, t, (fuel - 1) as nat)
                    } else {
                        run_loop(a, g, fs, exit, t, (fuel - 1) as nat)
                    },
                    None => None,
                },
            },
        }
    }
}

// ---------------------------------------------------------------------------
// The parts of a loop

proof fn lemma_first_column(params: Seq<(String, ArrayTy)>, name: Seq<char>, i: nat)
    ensures
        first_column(params, name, i) matches Some(c) ==> c < params.len() && params[c as int].0@
            == name && params[c as int].1 == ArrayTy::ArrayF64,
    decreases params.len() - i,
{
    if i < params.len() {
        lemma_first_column(params, name, i + 1);
    }
}

proof fn lemma_first_named(params: Seq<ElementParam>, name: Seq<char>, i: nat)
    ensures
        first_named(params, name, i) matches Some(p) ==> p < params.len() && params[p as int].name
            == name,
    decreases params.len() - i,
{
    if i < params.len() {
        lemma_first_named(params, name, i + 1);
    }
}

proof fn lemma_first_param(f: Ir, param: nat, i: nat)
    ensures
        first_param(f.insts, param, i) matches Some(v) ==> v < f.insts.len() && (
        f.insts[v as int].op matches Op::Param(p, _) && p == param),
    decreases f.insts.len() - i,
{
    if i < f.insts.len() {
        lemma_first_param(f, param, i + 1);
    }
}

proof fn lemma_load_insts(
    params: Seq<(String, ArrayTy)>,
    elements: Seq<ElementParam>,
    loads: Seq<(Seq<char>, i32)>,
    f: Ir,
    k: nat,
    j: int,
)
    requires
        load_insts(params, elements, loads, f, k) is Ok,
        0 <= j < k,
    ensures
        load_insts(params, elements, loads, f, k)->Ok_0.len() == k,
        load_inst(params, elements, loads, f, j) == Ok::<ArrayInst, ArrayError>(
            load_insts(params, elements, loads, f, k)->Ok_0[j],
        ),
    decreases k,
{
    assert(load_insts(params, elements, loads, f, 0) == Ok::<Seq<ArrayInst>, ArrayError>(
        Seq::empty(),
    ));
    if k > 1 {
        if j < k - 1 {
            lemma_load_insts(params, elements, loads, f, (k - 1) as nat, j);
        } else {
            lemma_load_insts(params, elements, loads, f, (k - 1) as nat, 0);
        }
    }
}

/// The names that stand for uses of columns are told apart.
proof fn lemma_synthetic_differ(a: Seq<char>, b: Seq<char>, i: nat, j: nat)
    requires
        is_plain(a),
        is_plain(b),
        synthetic(a, i) == synthetic(b, j),
    ensures
        a == b,
        i == j,
{
    reveal_strlit("%array_load_");
    let mark = "%array_load_"@;
    let s = synthetic(a, i);
    let t = synthetic(b, j);
    assert(s[a.len() as int] == '%');
    assert(t[b.len() as int] == '%');
    if a.len() < b.len() {
        assert(t[a.len() as int] == b[a.len() as int]);
    }
    if b.len() < a.len() {
        assert(s[b.len() as int] == a[b.len() as int]);
    }
    assert(a =~= s.take(a.len() as int));
    assert(b =~= t.take(b.len() as int));
    assert(digits(i) =~= s.skip((a.len() + mark.len()) as int));
    assert(digits(j) =~= t.skip((b.len() + mark.len()) as int));
    lemma_digits_read_back(i);
    lemma_digits_read_back(j);
}

proof fn lemma_column_params(loads: Seq<(Seq<char>, i32)>, name: Seq<char>, column: u32, k: nat, p: int)
    requires
        0 <= p < column_params(loads, name, column, k).len(),
    ensures
        column_params(loads, name, column, k)[p].source is Some,
        !is_plain(column_params(loads, name, column, k)[p].name),
    decreases k,
{
    let before = column_params(loads, name, column, (k - 1) as nat);
    if p < before.len() {
        lemma_column_params(loads, name, column, (k - 1) as nat, p);
    } else {
        lemma_not_plain(name, (k - 1) as nat);
    }
}

/// There is a scalar of this name.
pub open spec fn has_scalar(params: Seq<(String, ArrayTy)>, n: nat, name: Seq<char>) -> bool {
    exists|i: int|
        #![trigger params[i]]
        0 <= i < n && params[i].0@ == name && params[i].1 != ArrayTy::ArrayF64
}

/// A parameter with a plain name is a scalar of the program.
proof fn lemma_plain_element(
    params: Seq<(String, ArrayTy)>,
    loads: Seq<(Seq<char>, i32)>,
    n: nat,
    p: int,
)
    requires
        n <= params.len(),
        0 <= p < element_params(params, loads, n).len(),
        is_plain(element_params(params, loads, n)[p].name),
    ensures
        has_scalar(params, n, element_params(params, loads, n)[p].name),
    decreases n,
{
    let before = element_params(params, loads, (n - 1) as nat);
    let name = params[n - 1].0@;
    if p < before.len() {
        lemma_plain_element(params, loads, (n - 1) as nat, p);
        let found = element_params(params, loads, n)[p].name;
        let i = choose|i: int|
            #![trigger params[i]]
            0 <= i < n - 1 && params[i].0@ == found && params[i].1 != ArrayTy::ArrayF64;
        assert(params[i].0@ == found);
    } else if params[n - 1].1 == ArrayTy::ArrayF64 {
        lemma_column_params(loads, name, (n - 1) as u32, loads.len(), p - before.len());
    } else {
        assert(params[n - 1].0@ == name);
    }
}

/// Every scalar of the program is a parameter.
proof fn lemma_scalar_element(
    params: Seq<(String, ArrayTy)>,
    loads: Seq<(Seq<char>, i32)>,
    n: nat,
    name: Seq<char>,
) -> (p: int)
    requires
        n <= params.len(),
        has_scalar(params, n, name),
    ensures
        0 <= p < element_params(params, loads, n).len(),
        element_params(params, loads, n)[p].name == name,
    decreases n,
{
    let i = choose|i: int|
        #![trigger params[i]]
        0 <= i < n && params[i].0@ == name && params[i].1 != ArrayTy::ArrayF64;
    let before = element_params(params, loads, (n - 1) as nat);
    if i == n - 1 {
        before.len() as int
    } else {
        assert(params[i].0@ == name);
        let p = lemma_scalar_element(params, loads, (n - 1) as nat, name);
        p
    }
}

/// The environment of the parameters: each name has its argument.
proof fn lemma_env(params: Seq<(String, Ty)>, args: Seq<RtValue>, k: nat, p: int)
    requires
        k <= params.len(),
        params_distinct(params, k),
        0 <= p < k,
    ensures
        param_env(params, args, k).dom().contains(params[p].0@),
        param_env(params, args, k)[params[p].0@] == args[p],
        param_names(params, k).contains(params[p].0@),
    decreases k,
{
    if p < k - 1 {
        lemma_env(params, args, (k - 1) as nat, p);
    }
}

proof fn lemma_env_dom(params: Seq<(String, Ty)>, args: Seq<RtValue>, k: nat, name: Seq<char>) -> (p: int)
    requires
        k <= params.len(),
        param_env(params, args, k).dom().contains(name),
    ensures
        0 <= p < k,
        params[p].0@ == name,
    decreases k,
{
    if params[k - 1].0@ == name {
        k - 1
    } else {
        lemma_env_dom(params, args, (k - 1) as nat, name)
    }
}

/// The scalars of the program, by name.
pub open spec fn scalar_env(typed: TypedArray, g: Inputs) -> Map<Seq<char>, RtValue> {
    Map::new(
        |name: Seq<char>| has_scalar(typed.params@, typed.params@.len(), name),
        |name: Seq<char>| (g.scalars)(name),
    )
}

/// The columns that the loop reads by number are those that the program names.
pub open spec fn same_columns(typed: TypedArray, g: Inputs, columns: Columns) -> bool {
    forall|i: int, row: int|
        #![trigger (g.columns)(i, row)]
        0 <= i < typed.params@.len() && typed.params@[i].1 == ArrayTy::ArrayF64 ==> (g.columns)(
            i,
            row,
        ) == columns(typed.params@[i].0@, row)
}

/// The program, its scalar part and its loop.
pub open spec fn is_vectorized(
    typed: TypedArray,
    loads: Seq<(Seq<char>, i32)>,
    ast: TypedAst,
    a: ArrayFunction,
) -> bool {
    &&& loads_of(typed.root, typed.index@) == Ok::<Seq<(Seq<char>, i32)>, ArrayError>(loads)
    &&& is_scalar(typed, loads, ast)
    &&& outcome(typed, loads, lowered_function(ast), Ok(a))
    &&& typed.params@.len() <= u32::MAX
    &&& plain_names(typed.root)
    &&& forall|i: int|
        #![trigger typed.params@[i]]
        0 <= i < typed.params@.len() ==> is_plain(typed.params@[i].0@)
    &&& lowerable(ast.root)
    &&& small_enough(ast)
    &&& params_distinct(ast.params@, ast.params@.len())
    &&& scoped(ast.root, param_names(ast.params@, ast.params@.len()))
    &&& binds(ast.root).disjoint(param_names(ast.params@, ast.params@.len()))
    &&& typed_tree(ast.root, param_types(ast.params@, ast.params@.len()))
}

/// What the `j`-th use of a column reads in a row, and the parameter it fills.
spec fn use_param(typed: TypedArray, loads: Seq<(Seq<char>, i32)>, j: int) -> int {
    let elements = element_params(typed.params@, loads, typed.params@.len());
    first_named(elements, synthetic(loads[j].0, j as nat), 0).unwrap() as int
}

proof fn lemma_use(
    typed: TypedArray,
    loads: Seq<(Seq<char>, i32)>,
    ast: TypedAst,
    a: ArrayFunction,
    insts: Seq<ArrayInst>,
    value: Value,
    j: int,
)
    requires
        is_vectorized(typed, loads, ast, a),
        is_loop(
            typed,
            element_params(typed.params@, loads, typed.params@.len()),
            lowered_function(ast),
            insts,
            value,
            a,
        ),
        load_insts(
            typed.params@,
            element_params(typed.params@, loads, typed.params@.len()),
            loads,
            lowered_function(ast),
            loads.len(),
        ) == Ok::<Seq<ArrayInst>, ArrayError>(insts),
        a.element.insts@.len() <= u32::MAX,
        0 <= j < loads.len(),
    ensures
        ({
            let p = use_param(typed, loads, j);
            &&& insts.len() == loads.len()
            &&& insts[j] matches ArrayInst::Load { result, column, index, offset }
            &&& index == ArrayValue(0)
            &&& offset == loads[j].1
            &&& a.element.inst(result.0 as int).op matches Op::Param(q, _)
            &&& q == p
            &&& 0 <= p < a.params@.len()
            &&& p < ast.params@.len()
            &&& ast.params@[p].0@ == synthetic(loads[j].0, j as nat)
            &&& a.params@[p].0@ == synthetic(loads[j].0, j as nat)
            &&& column < typed.params@.len()
            &&& typed.params@[column as int].0@ == loads[j].0
            &&& typed.params@[column as int].1 == ArrayTy::ArrayF64
        }),
{
    let elements = element_params(typed.params@, loads, typed.params@.len());
    let f = lowered_function(ast);
    lemma_load_insts(typed.params@, elements, loads, f, loads.len(), j);
    let name = synthetic(loads[j].0, j as nat);
    lemma_first_column(typed.params@, loads[j].0, 0);
    lemma_first_named(elements, name, 0);
    let p = first_named(elements, name, 0).unwrap();
    lemma_first_param(f, p, 0);
    let v = first_param(f.insts, p, 0).unwrap();
    assert(ir_of(a.element).insts[v as int] == a.element.inst(v as int));
    assert(a.params@[p as int].0@ == elements[p as int].name);
    assert(ast.params@[p as int].0@ == elements[p as int].name);
}

/// After the first `k` loads, their parameters hold what the columns hold, and
/// nothing else is filled.
spec fn filled_by(
    typed: TypedArray,
    loads: Seq<(Seq<char>, i32)>,
    columns: Columns,
    row: int,
    k: int,
    filled: Map<int, RtValue>,
) -> bool {
    &&& forall|j: int|
        #![trigger loads[j]]
        0 <= j < k ==> filled.dom().contains(use_param(typed, loads, j)) && filled[use_param(
            typed,
            loads,
            j,
        )] == columns(loads[j].0, row + loads[j].1)
    &&& forall|p: int|
        #![trigger filled.dom().contains(p)]
        filled.dom().contains(p) ==> exists|j: int|
            #![trigger loads[j]]
            0 <= j < k && use_param(typed, loads, j) == p
}

#[verifier::rlimit(40)]
proof fn lemma_loads_run(
    typed: TypedArray,
    loads: Seq<(Seq<char>, i32)>,
    ast: TypedAst,
    a: ArrayFunction,
    insts: Seq<ArrayInst>,
    value: Value,
    g: Inputs,
    columns: Columns,
    fs: FloatSem,
    s: LoopState,
    row: int,
    k: nat,
)
    requires
        is_vectorized(typed, loads, ast, a),
        is_loop(
            typed,
            element_params(typed.params@, loads, typed.params@.len()),
            lowered_function(ast),
            insts,
            value,
            a,
        ),
        load_insts(
            typed.params@,
            element_params(typed.params@, loads, typed.params@.len()),
            loads,
            lowered_function(ast),
            loads.len(),
        ) == Ok::<Seq<ArrayInst>, ArrayError>(insts),
        a.element.insts@.len() <= u32::MAX,
        same_columns(typed, g, columns),
        s.index == Some((ArrayValue(0), row)),
        s.filled == Map::<int, RtValue>::empty(),
        k <= loads.len(),
    ensures
        ({
            let t = loop_steps(a, g, fs, insts, k, s);
            &&& t is Some
            &&& t.unwrap().index == s.index
            &&& t.unwrap().stores == s.stores
            &&& filled_by(typed, loads, columns, row, k as int, t.unwrap().filled)
        }),
    decreases k,
{
    if k > 0 {
        let l = (k - 1) as nat;
        lemma_loads_run(typed, loads, ast, a, insts, value, g, columns, fs, s, row, l);
        lemma_use(typed, loads, ast, a, insts, value, l as int);
        let before = loop_steps(a, g, fs, insts, l, s).unwrap();
        let now = loop_steps(a, g, fs, insts, k, s).unwrap();
        let q = use_param(typed, loads, l as int);
        let c = insts[l as int]->column;
        assert((g.columns)(c as int, row + loads[l as int].1) == columns(
            loads[l as int].0,
            row + loads[l as int].1,
        ));
        assert forall|j: int| #![trigger loads[j]] 0 <= j < k implies now.filled.dom().contains(
            use_param(typed, loads, j),
        ) && now.filled[use_param(typed, loads, j)] == columns(loads[j].0, row + loads[j].1) by {
            if j < l {
                lemma_use(typed, loads, ast, a, insts, value, j);
                if use_param(typed, loads, j) == q {
                    let d = insts[j]->column;
                    assert(is_plain(typed.params@[c as int].0@));
                    assert(is_plain(typed.params@[d as int].0@));
                    lemma_synthetic_differ(loads[j].0, loads[l as int].0, j as nat, l);
                }
            }
        }
        assert forall|p: int| #![trigger now.filled.dom().contains(p)] now.filled.dom().contains(
            p,
        ) implies exists|j: int|
            #![trigger loads[j]]
            0 <= j < k && use_param(typed, loads, j) == p by {
            if p == q {
                assert(use_param(typed, loads, l as int) == p);
                assert(loads[l as int] == loads[l as int]);
            } else {
                assert(before.filled.dom().contains(p));
                let j = choose|j: int|
                    #![trigger loads[j]]
                    0 <= j < l && use_param(typed, loads, j) == p;
                assert(loads[j] == loads[j]);
            }
        }
    }
}

/// With the parameters of a row filled, the scalar function yields what the
/// expression is in the row.
#[verifier::rlimit(60)]
proof fn lemma_row_yields(
    typed: TypedArray,
    loads: Seq<(Seq<char>, i32)>,
    ast: TypedAst,
    a: ArrayFunction,
    insts: Seq<ArrayInst>,
    value: Value,
    g: Inputs,
    columns: Columns,
    fs: FloatSem,
    filled: Map<int, RtValue>,
    row: int,
    x: RtValue,
)
    requires
        is_vectorized(typed, loads, ast, a),
        is_loop(
            typed,
            element_params(typed.params@, loads, typed.params@.len()),
            lowered_function(ast),
            insts,
            value,
            a,
        ),
        load_insts(
            typed.params@,
            element_params(typed.params@, loads, typed.params@.len()),
            loads,
            lowered_function(ast),
            loads.len(),
        ) == Ok::<Seq<ArrayInst>, ArrayError>(insts),
        a.element.insts@.len() <= u32::MAX,
        filled_by(typed, loads, columns, row, loads.len() as int, filled),
        row_value(typed.root, typed.index@, columns, row, scalar_env(typed, g), fs) == Some(x),
    ensures
        yields(a.element, arguments(a, g, filled), fs, x),
{
    let elements = element_params(typed.params@, loads, typed.params@.len());
    let params = ast.params@;
    let n = params.len();
    let args = arguments(a, g, filled);
    let inner = param_env(params, args, n);
    let env = scalar_env(typed, g);
    assert(args.len() == n);
    assert forall|j: int| #![trigger loads[j]] 0 <= j < loads.len() implies loaded_at(
        inner,
        loads[j],
        (0 + j) as nat,
        columns,
        row,
    ) by {
        lemma_use(typed, loads, ast, a, insts, value, j);
        let p = use_param(typed, loads, j);
        lemma_env(params, args, n, p);
        assert(args[p] == filled[p]);
    }
    assert forall|name: Seq<char>|
        #![trigger env.dom().contains(name)]
        #![trigger inner.dom().contains(name)]
        is_plain(name) implies env.dom().contains(name) == inner.dom().contains(name) && (
    env.dom().contains(name) ==> env[name] == inner[name]) by {
        if inner.dom().contains(name) {
            let p = lemma_env_dom(params, args, n, name);
            assert(params[p].0@ == elements[p].name);
            lemma_plain_element(typed.params@, loads, typed.params@.len(), p);
        }
        if env.dom().contains(name) {
            let p = lemma_scalar_element(typed.params@, loads, typed.params@.len(), name);
            assert(params[p].0@ == elements[p].name);
            assert(a.params@[p].0@ == elements[p].name);
            lemma_env(params, args, n, p);
            if filled.dom().contains(p) {
                let j = choose|j: int|
                    #![trigger loads[j]]
                    0 <= j < loads.len() && use_param(typed, loads, j) == p;
                lemma_use(typed, loads, ast, a, insts, value, j);
                lemma_not_plain(loads[j].0, j as nat);
            }
        }
    }
    lemma_row_computes(typed, loads, ast, a.element, columns, row, env, args, fs, x);
}

/// What the rows from `from` on store.
pub open spec fn row_stores(
    output: Seq<char>,
    from: int,
    to: int,
    xs: spec_fn(int) -> RtValue,
) -> Seq<(Seq<char>, int, RtValue)> {
    Seq::new(
        if from < to {
            (to - from) as nat
        } else {
            0
        },
        |k: int| (output, from + k, xs(from + k)),
    )
}

/// The body of the loop stores one row.
#[verifier::rlimit(60)]
proof fn lemma_row_stored(
    typed: TypedArray,
    loads: Seq<(Seq<char>, i32)>,
    ast: TypedAst,
    a: ArrayFunction,
    insts: Seq<ArrayInst>,
    value: Value,
    g: Inputs,
    columns: Columns,
    fs: FloatSem,
    t: LoopState,
    row: int,
    x: RtValue,
) -> (w: LoopState)
    requires
        is_vectorized(typed, loads, ast, a),
        is_loop(
            typed,
            element_params(typed.params@, loads, typed.params@.len()),
            lowered_function(ast),
            insts,
            value,
            a,
        ),
        load_insts(
            typed.params@,
            element_params(typed.params@, loads, typed.params@.len()),
            loads,
            lowered_function(ast),
            loads.len(),
        ) == Ok::<Seq<ArrayInst>, ArrayError>(insts),
        a.element.insts@.len() <= u32::MAX,
        returns_only(a.element, value),
        same_columns(typed, g, columns),
        0 <= row < g.length,
        t.index == Some((ArrayValue(0), row)),
        t.filled == Map::<int, RtValue>::empty(),
        row_value(typed.root, typed.index@, columns, row, scalar_env(typed, g), fs) == Some(x),
    ensures
        loop_steps(a, g, fs, a.blocks@[1].insts@, a.blocks@[1].insts@.len(), t) == Some(w),
        w.index == t.index,
        w.stores == t.stores.push((typed.output@, row, x)),
{
    let body = a.blocks@[1];
    assert(is_body(body, insts, typed.output@, value));
    lemma_loads_run(
        typed,
        loads,
        ast,
        a,
        insts,
        value,
        g,
        columns,
        fs,
        t,
        row,
        loads.len(),
    );
    if loads.len() > 0 {
        lemma_use(typed, loads, ast, a, insts, value, 0);
    }
    assert(insts.len() == loads.len());
    let u = loop_steps(a, g, fs, insts, loads.len(), t).unwrap();
    lemma_same_steps(a, g, fs, body.insts@, insts, loads.len(), t);
    lemma_row_yields(
        typed,
        loads,
        ast,
        a,
        insts,
        value,
        g,
        columns,
        fs,
        u.filled,
        row,
        x,
    );
    let args = arguments(a, g, u.filled);
    let y = choose|x: RtValue| yields(a.element, args, fs, x);
    lemma_result_unique(a.element, args, fs, x, y);
    let last = body.insts@[loads.len() as int];
    assert(last == body.insts@.last());
    loop_step(a, g, fs, last, u).unwrap()
}

/// What the loop is around its body.
proof fn lemma_loop_frame(
    typed: TypedArray,
    elements: Seq<ElementParam>,
    f: Ir,
    insts: Seq<ArrayInst>,
    value: Value,
    a: ArrayFunction,
    g: Inputs,
    fs: FloatSem,
    s: LoopState,
    row: int,
) -> (t: LoopState)
    requires
        is_loop(typed, elements, f, insts, value, a),
        s.index is None ==> row == 0,
        s.index matches Some((_, i)) ==> i + 1 == row,
    ensures
        t.index == Some((ArrayValue(0), row)),
        t.filled == Map::<int, RtValue>::empty(),
        t.stores == s.stores,
        row < g.length ==> forall|fuel: nat|
            fuel > 0 ==> #[trigger] run_loop(a, g, fs, Block(0), s, fuel) == run_loop(
                a,
                g,
                fs,
                Block(1),
                t,
                (fuel - 1) as nat,
            ),
        row < g.length ==> forall|fuel: nat, w: LoopState|
            #![trigger run_loop(a, g, fs, Block(1), t, fuel), run_loop(a, g, fs, Block(0), w, (fuel - 1) as nat)]
            fuel > 0 && loop_steps(
                a,
                g,
                fs,
                a.blocks@[1].insts@,
                a.blocks@[1].insts@.len(),
                t,
            ) == Some(w) ==> run_loop(a, g, fs, Block(1), t, fuel) == run_loop(
                a,
                g,
                fs,
                Block(0),
                w,
                (fuel - 1) as nat,
            ),
        row >= g.length ==> run_loop(a, g, fs, Block(0), s, 2) == Some(s.stores),
{
    let header = a.blocks@[0];
    assert(is_header(header));
    assert(is_body(a.blocks@[1], insts, typed.output@, value));
    assert(header.insts@.len() == 1);
    let first = header.insts@[0];
    assert(loop_steps(a, g, fs, header.insts@, 0, s) == Some(s));
    let t = loop_step(a, g, fs, first, s).unwrap();
    assert(loop_steps(a, g, fs, header.insts@, 1, s) == Some(t));
    if row >= g.length {
        let end = a.blocks@[2];
        assert(loop_steps(a, g, fs, end.insts@, 0, t) == Some(t));
        assert(run_loop(a, g, fs, Block(2), t, 1) == Some(t.stores));
    }
    t
}

/// From the header on, with the induction value about to be `row`.
#[verifier::rlimit(60)]
proof fn lemma_loop_from(
    typed: TypedArray,
    loads: Seq<(Seq<char>, i32)>,
    ast: TypedAst,
    a: ArrayFunction,
    insts: Seq<ArrayInst>,
    value: Value,
    g: Inputs,
    columns: Columns,
    fs: FloatSem,
    xs: spec_fn(int) -> RtValue,
    s: LoopState,
    row: int,
) -> (fuel: nat)
    requires
        is_vectorized(typed, loads, ast, a),
        is_loop(
            typed,
            element_params(typed.params@, loads, typed.params@.len()),
            lowered_function(ast),
            insts,
            value,
            a,
        ),
        load_insts(
            typed.params@,
            element_params(typed.params@, loads, typed.params@.len()),
            loads,
            lowered_function(ast),
            loads.len(),
        ) == Ok::<Seq<ArrayInst>, ArrayError>(insts),
        a.element.insts@.len() <= u32::MAX,
        returns_only(a.element, value),
        same_columns(typed, g, columns),
        0 <= row <= g.length,
        s.index is None ==> row == 0,
        s.index matches Some((_, i)) ==> i + 1 == row,
        forall|r: int|
            0 <= r < g.length ==> #[trigger] row_value(
                typed.root,
                typed.index@,
                columns,
                r,
                scalar_env(typed, g),
                fs,
            ) == Some(xs(r)),
    ensures
        run_loop(a, g, fs, Block(0), s, fuel) == Some(
            s.stores + row_stores(typed.output@, row, g.length, xs),
        ),
    decreases g.length - row,
{
    let elements = element_params(typed.params@, loads, typed.params@.len());
    let f = lowered_function(ast);
    let t = lemma_loop_frame(typed, elements, f, insts, value, a, g, fs, s, row);
    if row < g.length {
        assert(row_value(typed.root, typed.index@, columns, row, scalar_env(typed, g), fs) == Some(
            xs(row),
        ));
        let w = lemma_row_stored(
            typed,
            loads,
            ast,
            a,
            insts,
            value,
            g,
            columns,
            fs,
            t,
            row,
            xs(row),
        );
        let rest = lemma_loop_from(
            typed,
            loads,
            ast,
            a,
            insts,
            value,
            g,
            columns,
            fs,
            xs,
            w,
            row + 1,
        );
        let more = row_stores(typed.output@, row + 1, g.length, xs);
        assert(w.stores + more =~= s.stores + row_stores(typed.output@, row, g.length, xs));
        let one = rest + 1;
        assert((one - 1) as nat == rest);
        assert(run_loop(a, g, fs, Block(1), t, one) == run_loop(a, g, fs, Block(0), w, rest));
        let two = rest + 2;
        assert((two - 1) as nat == one);
        assert(run_loop(a, g, fs, Block(0), s, two) == run_loop(a, g, fs, Block(1), t, one));
        two
    } else {
        assert(s.stores + row_stores(typed.output@, row, g.length, xs) =~= s.stores);
        2
    }
}

proof fn lemma_same_steps(
    a: ArrayFunction,
    g: Inputs,
    fs: FloatSem,
    long: Seq<ArrayInst>,
    short: Seq<ArrayInst>,
    k: nat,
    s: LoopState,
)
    requires
        long.len() > 0,
        long.drop_last() == short,
        k <= short.len(),
    ensures
        loop_steps(a, g, fs, long, k, s) == loop_steps(a, g, fs, short, k, s),
    decreases k,
{
    if k > 0 {
        lemma_same_steps(a, g, fs, long, short, (k - 1) as nat, s);
        assert(long.drop_last()[k - 1] == long[k - 1]);
    }
}

/// The loop of a program, run on its inputs, stores in every row below the
/// length, once and in order, what the expression of the program is in that
/// row, and stores nothing else.
pub proof fn lemma_loop_stores_every_row(
    typed: TypedArray,
    loads: Seq<(Seq<char>, i32)>,
    ast: TypedAst,
    a: ArrayFunction,
    g: Inputs,
    columns: Columns,
    fs: FloatSem,
    xs: spec_fn(int) -> RtValue,
) -> (fuel: nat)
    requires
        is_vectorized(typed, loads, ast, a),
        same_columns(typed, g, columns),
        0 <= g.length,
        forall|row: int|
            0 <= row < g.length ==> #[trigger] row_value(
                typed.root,
                typed.index@,
                columns,
                row,
                scalar_env(typed, g),
                fs,
            ) == Some(xs(row)),
    ensures
        run_loop(a, g, fs, a.entry, loop_start(), fuel) == Some(
            Seq::new(g.length as nat, |row: int| (typed.output@, row, xs(row))),
        ),
{
    let elements = element_params(typed.params@, loads, typed.params@.len());
    let f = lowered_function(ast);
    let (insts, value) = crate::array::body_of(typed.params@, elements, loads, f)->Ok_0;
    let b = choose|b: ArrayFunction|
        #![trigger loop_checked(b, Ok(a))]
        is_loop(typed, elements, f, insts, value, b) && loop_checked(b, Ok(a));
    assert(b == a);
    let v = lemma_single_return(ast, a.element);
    assert(v == value);
    let fuel = lemma_loop_from(
        typed,
        loads,
        ast,
        a,
        insts,
        value,
        g,
        columns,
        fs,
        xs,
        loop_start(),
        0,
    );
    assert(Seq::<(Seq<char>, int, RtValue)>::empty() + row_stores(typed.output@, 0, g.length, xs)
        =~= Seq::new(g.length as nat, |row: int| (typed.output@, row, xs(row))));
    fuel
}

} // verus!
