//! The optimizer: passes over the IR, and what they keep.
use crate::float::{is_float_unit, sem_of, FloatOp, FloatSem};
use crate::ir::{Function, InstModel};
use crate::opt::keep::healthy;
use crate::opt::simulate::{lemma_refines_refl, lemma_refines_trans, refines};
use crate::verify::{valid, verify, VerifyError};
use vstd::prelude::*;

pub mod dce;
pub mod edit;
pub mod effect;
pub mod fold;
pub mod gvn;
pub mod intcode;
pub mod keep;
pub mod magic;
pub mod pow2;
pub mod reassoc;
pub mod rewrite;
pub mod simplify;
pub mod simulate;
pub mod strength;
pub mod table;

verus! {

/// Block and value numbers reach the whole tables.
pub open spec fn sized(f: Function) -> bool {
    f.blocks@.len() <= u32::MAX && f.insts@.len() <= u32::MAX
}

/// A well-formed function whose tables the numbers reach.
pub open spec fn fit(f: Function) -> bool {
    valid(f) && sized(f)
}

/// The instructions of a function, dead ones too.
pub open spec fn models(f: Function) -> Seq<InstModel> {
    Seq::new(f.insts@.len(), |i: int| f.inst(i))
}

/// Exclusive or is only taken of integers.
pub open spec fn xor_on_integers(f: Function) -> bool {
    forall|i: int|
        #![trigger f.inst(i)]
        0 <= i < f.insts@.len() && f.inst(i).op is Xor ==> f.types@[i] != crate::ir::Ty::Bool
}

/// What the front end makes, and every pass of the library keeps.
pub open spec fn tame(f: Function) -> bool {
    healthy(f) && xor_on_integers(f)
}

/// `g` is as good as `f`.
pub open spec fn keeps(f: Function, g: Function, fs: FloatSem) -> bool {
    tame(f) ==> tame(g) && refines(f, g, fs)
}

/// The functions have the same instructions in the same places.
pub open spec fn same_code(f: Function, g: Function) -> bool {
    &&& models(g) == models(f)
    &&& g.types@ == f.types@
    &&& g.spans@ == f.spans@
    &&& g.entry == f.entry
    &&& g.params == f.params
    &&& g.blocks@.len() == f.blocks@.len()
    &&& forall|b: int|
        #![trigger g.blocks@[b]]
        #![trigger f.blocks@[b]]
        0 <= b < f.blocks@.len() ==> {
            &&& g.listed(b) == f.listed(b)
            &&& g.term(b) == f.term(b)
            &&& g.preds(b) == f.preds(b)
        }
}

/// One optimization transform. `run` tells whether it changed the IR; the
/// driver uses this to detect a fixed point.
pub trait Pass {
    /// The pass can run.
    open spec fn ready(&self) -> bool {
        true
    }

    /// The pass promises to keep what a function computes when floating-point
    /// operations compute `fs`.
    open spec fn keeps_meaning(&self, fs: FloatSem) -> bool {
        false
    }

    /// What the pass is called.
    open spec fn title(&self) -> Seq<char> {
        Seq::empty()
    }

    /// What a run makes of a function, and what it reports.
    open spec fn does(&self, before: Function, after: Function, changed: bool) -> bool {
        true
    }

    fn name(&self) -> (r: &'static str)
        ensures
            r@ == self.title(),
    ;

    fn run(&mut self, f: &mut Function) -> (changed: bool)
        requires
            old(self).ready(),
            fit(*old(f)),
        ensures
            final(self).ready(),
            final(self).title() == old(self).title(),
            old(self).does(*old(f), *final(f), changed),
            forall|before: Function, after: Function, c: bool| #[trigger]
                final(self).does(before, after, c) == old(self).does(before, after, c),
            sized(*final(f)),
            forall|fs: FloatSem|
                #![trigger final(self).keeps_meaning(fs)]
                #![trigger old(self).keeps_meaning(fs)]
                final(self).keeps_meaning(fs) == old(self).keeps_meaning(fs) && (old(
                    self,
                ).keeps_meaning(fs) ==> keeps(*old(f), *final(f), fs) && (!changed ==> same_code(
                    *old(f),
                    *final(f),
                ))),
    ;
}

pub proof fn lemma_keeps_refl(f: Function, fs: FloatSem)
    ensures
        keeps(f, f, fs),
{
    lemma_refines_refl(f, fs);
}

pub proof fn lemma_keeps_trans(f: Function, g: Function, h: Function, fs: FloatSem)
    requires
        keeps(f, g, fs),
        keeps(g, h, fs),
    ensures
        keeps(f, h, fs),
{
    if tame(f) {
        lemma_refines_trans(f, g, h, fs);
    }
}

/// `g` is as good as `f`, however floating-point operations compute.
#[verifier::opaque]
pub open spec fn keeps_always(f: Function, g: Function) -> bool {
    tame(f) ==> tame(g) && forall|fs: FloatSem| #[trigger] refines(f, g, fs)
}

pub proof fn lemma_always_refl(f: Function)
    ensures
        keeps_always(f, f),
{
    reveal(keeps_always);
    assert forall|fs: FloatSem| #[trigger] refines(f, f, fs) by {
        lemma_refines_refl(f, fs);
    }
}

pub proof fn lemma_always_wild(f: Function, g: Function)
    requires
        !tame(f),
    ensures
        keeps_always(f, g),
{
    reveal(keeps_always);
}

pub proof fn lemma_always_tame(f: Function, g: Function)
    requires
        keeps_always(f, g),
        tame(f),
    ensures
        tame(g),
{
    reveal(keeps_always);
}

pub proof fn lemma_always_trans(f: Function, g: Function, h: Function)
    requires
        keeps_always(f, g),
        keeps_always(g, h),
    ensures
        keeps_always(f, h),
{
    reveal(keeps_always);
    if tame(f) {
        assert forall|fs: FloatSem| #[trigger] refines(f, h, fs) by {
            assert(refines(f, g, fs));
            assert(refines(g, h, fs));
            lemma_refines_trans(f, g, h, fs);
        }
    }
}

/// A pass left a function that is not well-formed.
#[derive(Clone, Copy, Debug, PartialEq, Eq)]
pub struct PassFailure {
    pub pass: &'static str,
    pub round: usize,
    pub error: VerifyError,
}

/// One run of one pass.
pub struct Step {
    pub before: Function,
    pub after: Function,
    pub changed: bool,
}

/// The steps lead from `f` to `g`.
pub open spec fn leads(steps: Seq<Step>, f: Function, g: Function) -> bool {
    &&& steps.len() == 0 ==> g == f
    &&& steps.len() > 0 ==> steps[0].before == f && steps[steps.len() - 1].after == g
    &&& forall|i: int| 0 <= i < steps.len() - 1 ==> #[trigger] joins(steps, i)
}

pub open spec fn joins(steps: Seq<Step>, i: int) -> bool {
    steps[i].after == steps[i + 1].before
}

/// Round `r`, of `n` passes, changed something.
pub open spec fn round_changed(steps: Seq<Step>, n: int, r: int) -> bool {
    exists|i: int| 0 <= i < n && #[trigger] step_changed(steps, r * n, i)
}

pub open spec fn step_changed(steps: Seq<Step>, base: int, i: int) -> bool {
    steps[base + i].changed
}

/// All rounds before round `r` changed something.
pub open spec fn rounds_busy(steps: Seq<Step>, n: int, r: int) -> bool {
    forall|q: int| 0 <= q < r ==> #[trigger] round_changed(steps, n, q)
}

/// The passes ran in order, `rounds` times in all. Every round but the last
/// changed something, and the last one did not unless it was the tenth.
pub open spec fn is_fixed_point(steps: Seq<Step>, n: int, rounds: int) -> bool {
    &&& 1 <= rounds <= 10
    &&& steps.len() == rounds * n
    &&& rounds_busy(steps, n, rounds - 1)
    &&& rounds == 10 || !round_changed(steps, n, rounds - 1)
    &&& all_valid(steps, steps.len() as int)
}

/// The first `k` steps left well-formed functions.
pub open spec fn all_valid(steps: Seq<Step>, k: int) -> bool {
    forall|i: int| 0 <= i < k ==> valid(#[trigger] steps[i].after)
}

/// The last step, run by `pass`, left a function with the defect that is
/// reported, and the steps before did not.
pub open spec fn is_failure(
    steps: Seq<Step>,
    n: int,
    e: PassFailure,
    titles: Seq<Seq<char>>,
) -> bool {
    let k = steps.len() - 1;
    &&& steps.len() > 0
    &&& n > 0
    &&& e.round == k / n
    &&& e.round < 10
    &&& rounds_busy(steps, n, e.round as int)
    &&& all_valid(steps, k)
    &&& crate::verify::defect(steps[k].after, e.error)
    &&& e.pass@ == titles[k % n]
}

/// Every step is what the pass whose turn it was does.
pub open spec fn all_done<P: Pass>(passes: Seq<P>, steps: Seq<Step>) -> bool {
    forall|k: int| 0 <= k < steps.len() ==> #[trigger] done(passes, steps, k)
}

/// Step `k` is what the pass whose turn it was does.
pub open spec fn done<P: Pass>(passes: Seq<P>, steps: Seq<Step>, k: int) -> bool {
    passes[k % passes.len() as int].does(steps[k].before, steps[k].after, steps[k].changed)
}

/// The names of the passes.
pub open spec fn titles<P: Pass>(passes: Seq<P>) -> Seq<Seq<char>> {
    passes.map_values(|p: P| p.title())
}

pub open spec fn all_ready<P: Pass>(passes: Seq<P>) -> bool {
    forall|i: int| #![trigger passes[i]] 0 <= i < passes.len() ==> passes[i].ready()
}

/// All passes promise to keep what a function computes under `fs`.
pub open spec fn all_keep<P: Pass>(passes: Seq<P>, fs: FloatSem) -> bool {
    forall|i: int| #![trigger passes[i]] 0 <= i < passes.len() ==> passes[i].keeps_meaning(fs)
}

/// The passes promise the same after they ran.
spec fn same_promises<P: Pass>(before: Seq<P>, after: Seq<P>) -> bool {
    &&& after.len() == before.len()
    &&& forall|fs: FloatSem, i: int|
        #![trigger after[i].keeps_meaning(fs)]
        #![trigger before[i].keeps_meaning(fs)]
        0 <= i < before.len() ==> after[i].keeps_meaning(fs) == before[i].keeps_meaning(fs)
}

/// The passes do the same after they ran.
spec fn same_work<P: Pass>(before: Seq<P>, after: Seq<P>) -> bool {
    &&& after.len() == before.len()
    &&& forall|i: int, f: Function, g: Function, changed: bool|
        0 <= i < before.len() ==> #[trigger] after[i].does(f, g, changed) == before[i].does(
            f,
            g,
            changed,
        )
}

/// Runs pass `i` and checks what it left.
fn run_one<P: Pass>(f: &mut Function, passes: &mut Vec<P>, i: usize) -> (r: (
    bool,
    Result<(), VerifyError>,
))
    requires
        fit(*old(f)),
        i < old(passes)@.len(),
        all_ready(old(passes)@),
    ensures
        all_ready(final(passes)@),
        titles(final(passes)@) == titles(old(passes)@),
        same_promises(old(passes)@, final(passes)@),
        same_work(old(passes)@, final(passes)@),
        old(passes)@[i as int].does(*old(f), *final(f), r.0),
        forall|fs: FloatSem|
            old(passes)@[i as int].keeps_meaning(fs) ==> #[trigger] keeps(*old(f), *final(f), fs),
        sized(*final(f)),
        r.1 is Ok <==> valid(*final(f)),
        r.1 matches Err(e) ==> crate::verify::defect(*final(f), e),
{
    let ghost before = passes@;
    let changed: bool = passes[i].run(f);
    proof {
        let after = passes@;
        assert(after =~= before.update(i as int, after[i as int]));
        assert forall|j: int| #![trigger after[j]] 0 <= j < after.len() implies after[j].ready() by {
            if j != i {
                assert(after[j] == before[j]);
            }
        }
        assert(titles(after) =~= titles(before)) by {
            assert forall|j: int| 0 <= j < after.len() implies titles(after)[j]
                == titles(before)[j] by {
                if j != i {
                    assert(after[j] == before[j]);
                }
            }
        }
        assert forall|fs: FloatSem, j: int|
            #![trigger after[j].keeps_meaning(fs)]
            #![trigger before[j].keeps_meaning(fs)]
            0 <= j < before.len() implies after[j].keeps_meaning(fs) == before[j].keeps_meaning(
            fs,
        ) by {
            if j != i {
                assert(after[j] == before[j]);
            }
        }
        assert forall|j: int, g: Function, h: Function, c: bool|
            0 <= j < before.len() implies #[trigger] after[j].does(g, h, c) == before[j].does(
            g,
            h,
            c,
        ) by {
            if j != i {
                assert(after[j] == before[j]);
            }
        }
    }
    (changed, verify(f))
}

/// Runs the passes in order, again and again until none of them reports a
/// change, ten times at most. The function is checked after every single
/// pass, so that a defect is reported with the pass that caused it.
pub fn run_passes<P: Pass>(f: &mut Function, passes: &mut Vec<P>) -> (r: Result<(), PassFailure>)
    requires
        fit(*old(f)),
        all_ready(old(passes)@),
    ensures
        final(passes)@.len() == old(passes)@.len(),
        forall|fs: FloatSem| #[trigger]
            all_keep(old(passes)@, fs) ==> keeps(*old(f), *final(f), fs),
        match r {
            Ok(_) => fit(*final(f)) && exists|steps: Seq<Step>, rounds: int|
                #[trigger] leads(steps, *old(f), *final(f)) && #[trigger] is_fixed_point(
                    steps,
                    old(passes)@.len() as int,
                    rounds,
                ) && all_done(old(passes)@, steps),
            Err(e) => !valid(*final(f)) && exists|steps: Seq<Step>|
                #[trigger] leads(steps, *old(f), *final(f)) && is_failure(
                    steps,
                    old(passes)@.len() as int,
                    e,
                    titles(old(passes)@),
                ) && all_done(old(passes)@, steps),
        },
{
    let ghost start = *f;
    let ghost passes0 = passes@;
    let n: usize = passes.len();
    let ghost mut steps: Seq<Step> = Seq::empty();
    let mut round: usize = 0;
    let mut more: bool = true;
    proof {
        assert forall|fs: FloatSem| #[trigger] keeps(start, *f, fs) by {
            lemma_keeps_refl(start, fs);
        }
    }
    while more && round < 10
        invariant
            start == *old(f),
            passes0 == old(passes)@,
            n == passes0.len(),
            fit(*f),
            all_ready(passes@),
            titles(passes@) == titles(passes0),
            same_promises(passes0, passes@),
            same_work(passes0, passes@),
            all_done(passes0, steps),
            forall|fs: FloatSem| #[trigger] all_keep(passes0, fs) ==> keeps(start, *f, fs),
            leads(steps, start, *f),
            steps.len() == round * n,
            0 <= round <= 10,
            round == 0 ==> more,
            more ==> rounds_busy(steps, n as int, round as int),
            !more ==> rounds_busy(steps, n as int, round - 1) && !round_changed(
                steps,
                n as int,
                round - 1,
            ),
            all_valid(steps, steps.len() as int),
        decreases 10 - round,
    {
        let ghost base = steps;
        let mut changed: bool = false;
        let mut i: usize = 0;
        while i < n
            invariant
                start == *old(f),
                passes0 == old(passes)@,
                n == passes0.len(),
                fit(*f),
                all_ready(passes@),
                titles(passes@) == titles(passes0),
                same_promises(passes0, passes@),
                same_work(passes0, passes@),
                all_done(passes0, steps),
                forall|fs: FloatSem| #[trigger] all_keep(passes0, fs) ==> keeps(start, *f, fs),
                leads(steps, start, *f),
                0 <= round < 10,
                i <= n,
                base.len() == round * n,
                steps.len() == round * n + i,
                steps.take(base.len() as int) == base,
                rounds_busy(base, n as int, round as int),
                changed <==> exists|j: int|
                    0 <= j < i && #[trigger] step_changed(steps, round * n, j),
                all_valid(steps, steps.len() as int),
            decreases n - i,
        {
            let ghost before = *f;
            let ghost passes1 = passes@;
            let ghost steps0 = steps;
            let (pass_changed, checked): (bool, Result<(), VerifyError>) = run_one(f, passes, i);
            proof {
                assert forall|fs: FloatSem| #[trigger] all_keep(passes0, fs) implies keeps(
                    start,
                    *f,
                    fs,
                ) by {
                    assert(passes0[i as int].keeps_meaning(fs));
                    assert(passes1[i as int].keeps_meaning(fs));
                    assert(keeps(before, *f, fs));
                    lemma_keeps_trans(start, before, *f, fs);
                }
                let step = Step { before, after: *f, changed: pass_changed };
                steps = steps.push(step);
                lemma_leads_more(steps0, step, start);
                assert(steps.take(base.len() as int) =~= base);
                lemma_busy_prefix(base, steps, n as int, round as int);
                assert forall|k: int| 0 <= k < steps0.len() implies valid(
                    #[trigger] steps[k].after,
                ) by {
                    assert(steps[k] == steps0[k]);
                }
                assert forall|k: int| 0 <= k < steps.len() implies #[trigger] done(
                    passes0,
                    steps,
                    k,
                ) by {
                    if k < steps0.len() {
                        assert(done(passes0, steps0, k));
                        assert(steps[k] == steps0[k]);
                    } else {
                        vstd::arithmetic::div_mod::lemma_fundamental_div_mod_converse(
                            k,
                            n as int,
                            round as int,
                            i as int,
                        );
                        assert(passes1[i as int].does(before, *f, pass_changed));
                    }
                }
            }
            match checked {
                Err(error) => {
                    let pass: &'static str = passes[i].name();
                    proof {
                        let k = steps.len() - 1;
                        assert(k == round * n + i);
                        assert(k / (n as int) == round && k % (n as int) == i) by {
                            vstd::arithmetic::div_mod::lemma_fundamental_div_mod_converse(
                                k,
                                n as int,
                                round as int,
                                i as int,
                            );
                        }
                        assert(titles(passes@)[i as int] == passes@[i as int].title());
                        let e = PassFailure { pass, round, error };
                        assert(is_failure(steps, n as int, e, titles(passes0)));
                    }
                    return Err(PassFailure { pass, round, error });
                },
                Ok(_) => {},
            }
            proof {
                let was = changed;
                assert forall|j: int| 0 <= j < i implies #[trigger] step_changed(steps, round * n, j)
                    == step_changed(steps0, round * n, j) by {
                    assert(steps[round * n + j] == steps0[round * n + j]);
                }
                if was {
                    let j = choose|j: int|
                        0 <= j < i && #[trigger] step_changed(steps0, round * n, j);
                    assert(step_changed(steps, round * n, j));
                }
                if pass_changed {
                    assert(step_changed(steps, round * n, i as int));
                }
            }
            if pass_changed {
                changed = true;
            }
            i += 1;
        }
        proof {
            lemma_busy_prefix(base, steps, n as int, round as int);
            assert((round + 1) * n == round * n + n) by (nonlinear_arith);
            assert(changed == round_changed(steps, n as int, round as int));
        }
        more = changed;
        round += 1;
        proof {
            if changed {
                assert forall|q: int| 0 <= q < round implies #[trigger] round_changed(
                    steps,
                    n as int,
                    q,
                ) by {}
            }
        }
    }
    proof {
        assert(is_fixed_point(steps, n as int, round as int)) by {
            if more {
                assert(round == 10);
                assert(rounds_busy(steps, n as int, 9));
            }
        }
    }
    Ok(())
}

proof fn lemma_leads_more(steps: Seq<Step>, step: Step, f: Function)
    requires
        leads(steps, f, step.before),
    ensures
        leads(steps.push(step), f, step.after),
{
    let more = steps.push(step);
    assert forall|i: int| 0 <= i < more.len() - 1 implies #[trigger] joins(more, i) by {
        if i < steps.len() - 1 {
            assert(joins(steps, i));
            assert(more[i] == steps[i] && more[i + 1] == steps[i + 1]);
        } else {
            assert(more[i] == steps[i]);
        }
    }
}

/// What the first rounds did does not change.
proof fn lemma_busy_prefix(base: Seq<Step>, steps: Seq<Step>, n: int, r: int)
    requires
        n >= 0,
        0 <= r,
        base.len() == r * n,
        base.len() <= steps.len(),
        steps.take(base.len() as int) == base,
        rounds_busy(base, n, r),
    ensures
        rounds_busy(steps, n, r),
{
    assert forall|q: int| 0 <= q < r implies #[trigger] round_changed(steps, n, q) by {
        assert(round_changed(base, n, q));
        let i = choose|i: int| 0 <= i < n && #[trigger] step_changed(base, q * n, i);
        assert(0 <= q * n + i < r * n) by (nonlinear_arith)
            requires
                0 <= q < r,
                0 <= i < n,
        ;
        assert(base[q * n + i] == steps[q * n + i]);
        assert(step_changed(steps, q * n, i));
    }
}

/// A pass of the standard pipeline.
pub enum StandardPass<F: Fn(FloatOp, u64, u64, u64) -> u64> {
    Fold(fold::ConstFold<F>),
    Simplify(simplify::AlgebraicSimplify),
    Strength(strength::StrengthReduceShifts),
    Gvn(gvn::Gvn),
    Reassociate(reassoc::Reassociate),
    Dce(dce::Dce),
}

impl<F: Fn(FloatOp, u64, u64, u64) -> u64> Pass for StandardPass<F> {
    open spec fn ready(&self) -> bool {
        match self {
            StandardPass::Fold(p) => p.ready(),
            _ => true,
        }
    }

    open spec fn keeps_meaning(&self, fs: FloatSem) -> bool {
        match self {
            StandardPass::Fold(p) => p.keeps_meaning(fs),
            _ => true,
        }
    }

    open spec fn title(&self) -> Seq<char> {
        match self {
            StandardPass::Fold(p) => p.title(),
            StandardPass::Simplify(p) => p.title(),
            StandardPass::Strength(p) => p.title(),
            StandardPass::Gvn(p) => p.title(),
            StandardPass::Reassociate(p) => p.title(),
            StandardPass::Dce(p) => p.title(),
        }
    }

    open spec fn does(&self, before: Function, after: Function, changed: bool) -> bool {
        match self {
            StandardPass::Fold(p) => p.does(before, after, changed),
            StandardPass::Simplify(p) => p.does(before, after, changed),
            StandardPass::Strength(p) => p.does(before, after, changed),
            StandardPass::Gvn(p) => p.does(before, after, changed),
            StandardPass::Reassociate(p) => p.does(before, after, changed),
            StandardPass::Dce(p) => p.does(before, after, changed),
        }
    }

    fn name(&self) -> (r: &'static str) {
        match self {
            StandardPass::Fold(p) => p.name(),
            StandardPass::Simplify(p) => p.name(),
            StandardPass::Strength(p) => p.name(),
            StandardPass::Gvn(p) => p.name(),
            StandardPass::Reassociate(p) => p.name(),
            StandardPass::Dce(p) => p.name(),
        }
    }

    fn run(&mut self, f: &mut Function) -> (changed: bool)
        ensures
            *final(self) == *old(self),
            match *old(self) {
                StandardPass::Fold(p) => p.does(*old(f), *final(f), changed),
                StandardPass::Simplify(p) => p.does(*old(f), *final(f), changed),
                StandardPass::Strength(p) => p.does(*old(f), *final(f), changed),
                StandardPass::Gvn(p) => p.does(*old(f), *final(f), changed),
                StandardPass::Reassociate(p) => p.does(*old(f), *final(f), changed),
                StandardPass::Dce(p) => p.does(*old(f), *final(f), changed),
            },
    {
        let ghost before = *f;
        let changed: bool = match self {
            StandardPass::Fold(p) => p.run(f),
            StandardPass::Simplify(p) => p.run(f),
            StandardPass::Strength(p) => p.run(f),
            StandardPass::Gvn(p) => p.run(f),
            StandardPass::Reassociate(p) => p.run(f),
            StandardPass::Dce(p) => p.run(f),
        };
        proof {
            let now = *self;
            let was = *old(self);
            assert forall|fs: FloatSem|
                #![trigger now.keeps_meaning(fs)]
                #![trigger was.keeps_meaning(fs)]
                now.keeps_meaning(fs) == was.keeps_meaning(fs) && (was.keeps_meaning(fs) ==> keeps(
                    before,
                    *f,
                    fs,
                ) && (!changed ==> same_code(before, *f))) by {
                match was {
                    StandardPass::Fold(p) => assert(p.keeps_meaning(fs) ==> keeps(before, *f, fs)),
                    StandardPass::Simplify(p) => assert(p.keeps_meaning(fs)),
                    StandardPass::Strength(p) => assert(p.keeps_meaning(fs)),
                    StandardPass::Gvn(p) => assert(p.keeps_meaning(fs)),
                    StandardPass::Reassociate(p) => assert(p.keeps_meaning(fs)),
                    StandardPass::Dce(p) => assert(p.keeps_meaning(fs)),
                }
            }
        }
        changed
    }
}

/// The optimization pipeline: fold constants, simplify, reduce strength,
/// number values, reassociate, and drop dead code, until nothing changes.
/// `unit` computes floating-point operations on constants.
///
/// Of a function as the front end makes it, the result is well-formed and
/// returns what the function returned.
pub fn optimize<F: Fn(FloatOp, u64, u64, u64) -> u64>(f: &mut Function, unit: F) -> (r: Result<
    (),
    PassFailure,
>)
    requires
        fit(*old(f)),
        is_float_unit(unit),
    ensures
        keeps(*old(f), *final(f), sem_of(unit)),
        tame(*old(f)) ==> r is Ok,
        match r {
            Ok(_) => fit(*final(f)) && exists|steps: Seq<Step>, rounds: int|
                #[trigger] leads(steps, *old(f), *final(f)) && #[trigger] is_fixed_point(
                    steps,
                    6,
                    rounds,
                ) && all_done(pipeline(unit), steps),
            Err(e) => !valid(*final(f)) && exists|steps: Seq<Step>|
                #[trigger] leads(steps, *old(f), *final(f)) && is_failure(
                    steps,
                    6,
                    e,
                    pipeline_titles(),
                ) && all_done(pipeline(unit), steps),
        },
{
    let mut passes: Vec<StandardPass<F>> = Vec::new();
    passes.push(StandardPass::Fold(fold::ConstFold { unit }));
    passes.push(StandardPass::Simplify(simplify::AlgebraicSimplify));
    passes.push(StandardPass::Strength(strength::StrengthReduceShifts));
    passes.push(StandardPass::Gvn(gvn::Gvn));
    passes.push(StandardPass::Reassociate(reassoc::Reassociate));
    passes.push(StandardPass::Dce(dce::Dce));
    assert(passes@ =~= pipeline(unit));
    assert(titles(passes@) =~= pipeline_titles());
    assert(all_keep(passes@, sem_of(unit)));
    run_passes(f, &mut passes)
}

/// The passes of the pipeline, in order.
pub open spec fn pipeline<F: Fn(FloatOp, u64, u64, u64) -> u64>(unit: F) -> Seq<StandardPass<F>> {
    seq![
        StandardPass::Fold(fold::ConstFold { unit }),
        StandardPass::Simplify(simplify::AlgebraicSimplify),
        StandardPass::Strength(strength::StrengthReduceShifts),
        StandardPass::Gvn(gvn::Gvn),
        StandardPass::Reassociate(reassoc::Reassociate),
        StandardPass::Dce(dce::Dce),
    ]
}

/// The names of the passes of the pipeline, in order.
pub open spec fn pipeline_titles() -> Seq<Seq<char>> {
    seq![
        "const-fold"@,
        "algebraic-simplify"@,
        "strength-reduce-shifts"@,
        "gvn"@,
        "reassoc"@,
        "dce"@,
    ]
}

} // verus!
