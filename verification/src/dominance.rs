//! Control-flow order and dominance.
//!
//! A block dominates another if every path from the entry to the second runs
//! through the first. The dominator tree holds, for each reachable block, its
//! closest strict dominator.
use crate::collections::IndexMap;
use crate::ir::{Block, Function, Terminator};
use vstd::prelude::*;

verus! {

/// Control can pass from block `a` directly to block `b`.
pub open spec fn edge(f: Function, a: int, b: int) -> bool {
    &&& 0 <= a < f.blocks@.len()
    &&& match f.term(a) {
        Some(Terminator::Jump(t)) => t.0 == b,
        Some(Terminator::Branch { then_, else_, .. }) => then_.0 == b || else_.0 == b,
        _ => false,
    }
}

/// The entry and all branch targets are blocks of the function.
pub open spec fn cfg_ok(f: Function) -> bool {
    &&& f.entry.0 < f.blocks@.len()
    &&& f.blocks@.len() <= u32::MAX
    &&& forall|a: int, b: int| #[trigger] edge(f, a, b) ==> 0 <= b < f.blocks@.len()
}

/// `p` is a walk along edges that starts at the entry.
pub open spec fn is_path(f: Function, p: Seq<int>) -> bool {
    &&& p.len() > 0
    &&& p[0] == f.entry.0
    &&& forall|i: int| #![trigger p[i]] 0 < i < p.len() ==> edge(f, p[i - 1], p[i])
}

pub open spec fn path_to(f: Function, p: Seq<int>, b: int) -> bool {
    is_path(f, p) && p.last() == b
}

pub open spec fn reachable(f: Function, b: int) -> bool {
    exists|p: Seq<int>| path_to(f, p, b)
}

/// Every path to `b` runs through `a`.
pub open spec fn on_every_path(f: Function, a: int, b: int) -> bool {
    forall|p: Seq<int>| #[trigger] path_to(f, p, b) ==> p.contains(a)
}

/// `a` dominates the reachable block `b`, or is `b` itself.
pub open spec fn dom(f: Function, a: int, b: int) -> bool {
    a == b || (reachable(f, b) && on_every_path(f, a, b))
}

/// `a` dominates `b` and is another block.
pub open spec fn sdom(f: Function, a: int, b: int) -> bool {
    a != b && dom(f, a, b)
}

/// `d` is the closest strict dominator of `b`.
pub open spec fn is_idom(f: Function, d: int, b: int) -> bool {
    &&& sdom(f, d, b)
    &&& forall|e: int| #[trigger] sdom(f, e, b) ==> dom(f, e, d)
}

/// `idom` is the dominator tree of `f`: the entry stands for itself, an
/// unreachable block has no entry, and any other block has its closest strict
/// dominator.
pub open spec fn is_dominator_tree(f: Function, idom: Seq<Option<Block>>) -> bool {
    &&& idom.len() == f.blocks@.len()
    &&& forall|b: int|
        #![trigger idom[b]]
        0 <= b < idom.len() ==> match idom[b] {
            None => !reachable(f, b),
            Some(d) => reachable(f, b) && if b == f.entry.0 {
                d == f.entry
            } else {
                is_idom(f, d.0 as int, b)
            },
        }
}

// ---------------------------------------------------------------------------
// Paths

/// A prefix of a path is a path.
pub proof fn lemma_prefix(f: Function, p: Seq<int>, n: int)
    requires
        is_path(f, p),
        0 < n <= p.len(),
    ensures
        is_path(f, p.take(n)),
        p.take(n).last() == p[n - 1],
{
    let q = p.take(n);
    assert forall|i: int| #![trigger q[i]] 0 < i < q.len() implies edge(f, q[i - 1], q[i]) by {
        assert(q[i] == p[i]);
        assert(q[i - 1] == p[i - 1]);
    }
}

/// A path can be prolonged by an edge.
pub proof fn lemma_extend(f: Function, p: Seq<int>, b: int)
    requires
        is_path(f, p),
        edge(f, p.last(), b),
    ensures
        path_to(f, p.push(b), b),
{
    let q = p.push(b);
    assert forall|i: int| #![trigger q[i]] 0 < i < q.len() implies edge(f, q[i - 1], q[i]) by {
        if i < p.len() {
            assert(q[i] == p[i]);
        }
        assert(q[i - 1] == p[i - 1]);
    }
}

pub proof fn lemma_entry_reachable(f: Function)
    ensures
        path_to(f, seq![f.entry.0 as int], f.entry.0 as int),
        reachable(f, f.entry.0 as int),
{
    assert(path_to(f, seq![f.entry.0 as int], f.entry.0 as int));
}

/// Blocks on a path are blocks of the function.
pub proof fn lemma_path_range(f: Function, p: Seq<int>, i: int)
    requires
        cfg_ok(f),
        is_path(f, p),
        0 <= i < p.len(),
    ensures
        0 <= p[i] < f.blocks@.len(),
{
    if i > 0 {
        assert(edge(f, p[i - 1], p[i]));
    }
}

pub proof fn lemma_reachable_edge(f: Function, a: int, b: int)
    requires
        reachable(f, a),
        edge(f, a, b),
    ensures
        reachable(f, b),
{
    let p = choose|p: Seq<int>| path_to(f, p, a);
    lemma_extend(f, p, b);
}

/// A block that dominates a reachable block is itself reachable.
pub proof fn lemma_dom_reachable(f: Function, a: int, b: int)
    requires
        reachable(f, b),
        dom(f, a, b),
    ensures
        reachable(f, a),
{
    if a != b {
        let p = choose|p: Seq<int>| path_to(f, p, b);
        let i = choose|i: int| 0 <= i < p.len() && p[i] == a;
        lemma_prefix(f, p, i + 1);
        assert(path_to(f, p.take(i + 1), a));
    }
}

/// Dominance is transitive.
pub proof fn lemma_dom_trans(f: Function, a: int, b: int, c: int)
    requires
        dom(f, a, b),
        dom(f, b, c),
    ensures
        dom(f, a, c),
{
    if a != b && b != c && a != c {
        assert forall|p: Seq<int>| #[trigger] path_to(f, p, c) implies p.contains(a) by {
            let i = choose|i: int| 0 <= i < p.len() && p[i] == b;
            lemma_prefix(f, p, i + 1);
            let q = p.take(i + 1);
            assert(path_to(f, q, b));
            let j = choose|j: int| 0 <= j < q.len() && q[j] == a;
            assert(p[j] == a);
        }
    }
}

proof fn lemma_antisym_path(f: Function, a: int, b: int, p: Seq<int>)
    requires
        on_every_path(f, a, b),
        on_every_path(f, b, a),
        path_to(f, p, a),
    ensures
        a == b,
    decreases p.len(),
{
    if a != b {
        let i = choose|i: int| 0 <= i < p.len() && p[i] == b;
        lemma_prefix(f, p, i + 1);
        let q = p.take(i + 1);
        assert(path_to(f, q, b));
        let j = choose|j: int| 0 <= j < q.len() && q[j] == a;
        lemma_prefix(f, q, j + 1);
        assert(path_to(f, q.take(j + 1), a));
        assert(i + 1 < p.len());
        lemma_antisym_path(f, a, b, q.take(j + 1));
    }
}

/// Two blocks that dominate each other are one.
pub proof fn lemma_dom_antisym(f: Function, a: int, b: int)
    requires
        dom(f, a, b),
        dom(f, b, a),
    ensures
        a == b,
{
    if a != b {
        let p = choose|p: Seq<int>| path_to(f, p, a);
        lemma_antisym_path(f, a, b, p);
    }
}

/// A strict dominator of a block dominates each reachable predecessor.
pub proof fn lemma_sdom_pred(f: Function, a: int, b: int, c: int)
    requires
        sdom(f, a, c),
        edge(f, b, c),
        reachable(f, b),
    ensures
        dom(f, a, b),
{
    assert forall|p: Seq<int>| #[trigger] path_to(f, p, b) implies p.contains(a) by {
        lemma_extend(f, p, c);
        let q = p.push(c);
        let i = choose|i: int| 0 <= i < q.len() && q[i] == a;
        assert(i < p.len());
        assert(p[i] == a);
    }
}

/// The entry dominates every reachable block.
pub proof fn lemma_entry_dom(f: Function, b: int)
    requires
        reachable(f, b),
    ensures
        dom(f, f.entry.0 as int, b),
{
    assert forall|p: Seq<int>| #[trigger] path_to(f, p, b) implies p.contains(
        f.entry.0 as int,
    ) by {
        assert(p[0] == f.entry.0);
    }
}

/// Only the entry dominates the entry.
pub proof fn lemma_dom_of_entry(f: Function, a: int)
    requires
        dom(f, a, f.entry.0 as int),
    ensures
        a == f.entry.0,
{
    let p = seq![f.entry.0 as int];
    assert(path_to(f, p, f.entry.0 as int));
    if a != f.entry.0 {
        assert(p.contains(a));
        let i = choose|i: int| 0 <= i < p.len() && p[i] == a;
        assert(i == 0);
    }
}

/// The last place on a path where `a` or `b` stands.
spec fn last_of(p: Seq<int>, a: int, b: int) -> int
    decreases p.len(),
{
    if p.len() == 0 {
        -1
    } else if p.last() == a || p.last() == b {
        p.len() - 1
    } else {
        last_of(p.drop_last(), a, b)
    }
}

proof fn lemma_last_of(p: Seq<int>, a: int, b: int)
    ensures
        -1 <= last_of(p, a, b) < p.len(),
        last_of(p, a, b) >= 0 ==> p[last_of(p, a, b)] == a || p[last_of(p, a, b)] == b,
        forall|i: int| last_of(p, a, b) < i < p.len() ==> p[i] != a && p[i] != b,
    decreases p.len(),
{
    if p.len() > 0 && p.last() != a && p.last() != b {
        lemma_last_of(p.drop_last(), a, b);
        assert forall|i: int| last_of(p, a, b) < i < p.len() implies p[i] != a && p[i] != b by {
            if i < p.len() - 1 {
                assert(p.drop_last()[i] == p[i]);
            }
        }
    }
}

/// A path to `p[k]` followed by the rest of `p` is a path.
proof fn lemma_splice(f: Function, p: Seq<int>, k: int, q: Seq<int>)
    requires
        is_path(f, p),
        0 <= k < p.len(),
        path_to(f, q, p[k]),
    ensures
        path_to(f, q + p.skip(k + 1), p.last()),
{
    let r = q + p.skip(k + 1);
    assert forall|i: int| #![trigger r[i]] 0 < i < r.len() implies edge(f, r[i - 1], r[i]) by {
        if i < q.len() {
            assert(r[i] == q[i]);
            assert(r[i - 1] == q[i - 1]);
        } else {
            let m = i - q.len() + k + 1;
            assert(r[i] == p[m]);
            if i > q.len() {
                assert(r[i - 1] == p[m - 1]);
            } else {
                assert(r[i - 1] == q.last());
            }
        }
    }
    if p.skip(k + 1).len() == 0 {
        assert(r =~= q);
    } else {
        assert(r.last() == p.last());
    }
}

proof fn lemma_chain_half(f: Function, d: int, e: int, b: int, p: Seq<int>, k: int)
    requires
        d != e,
        sdom(f, d, b),
        path_to(f, p, b),
        0 <= k < p.len(),
        p[k] == e,
        forall|i: int| k < i < p.len() ==> p[i] != d,
    ensures
        dom(f, d, e),
{
    lemma_prefix(f, p, k + 1);
    assert(path_to(f, p.take(k + 1), e));
    assert forall|q: Seq<int>| #[trigger] path_to(f, q, e) implies q.contains(d) by {
        lemma_splice(f, p, k, q);
        let r = q + p.skip(k + 1);
        assert(r.contains(d));
        let i = choose|i: int| 0 <= i < r.len() && r[i] == d;
        if i >= q.len() {
            assert(r[i] == p[i - q.len() + k + 1]);
        }
        assert(q[i] == d);
    }
}

/// Of two strict dominators of one block, one dominates the other.
pub proof fn lemma_dom_chain(f: Function, d: int, e: int, b: int)
    requires
        sdom(f, d, b),
        sdom(f, e, b),
    ensures
        dom(f, d, e) || dom(f, e, d),
{
    if d != e {
        let p = choose|p: Seq<int>| path_to(f, p, b);
        lemma_last_of(p, d, e);
        let k = last_of(p, d, e);
        assert(p.contains(d));
        if p[k] == e {
            lemma_chain_half(f, d, e, b, p, k);
        } else {
            lemma_chain_half(f, e, d, b, p, k);
        }
    }
}

/// The dominators of a block, as a set.
pub open spec fn dominators(f: Function, b: int) -> Set<int> {
    Set::new(|a: int| 0 <= a < f.blocks@.len() && dom(f, a, b))
}

/// A strict dominator has fewer dominators.
pub proof fn lemma_fewer_dominators(f: Function, a: int, b: int)
    requires
        cfg_ok(f),
        sdom(f, a, b),
        0 <= b < f.blocks@.len(),
    ensures
        dominators(f, a).len() < dominators(f, b).len(),
{
    let n = f.blocks@.len() as int;
    let all = vstd::set_lib::set_int_range(0, n);
    vstd::set_lib::lemma_int_range(0, n);
    assert(dominators(f, b).subset_of(all));
    assert(dominators(f, a).subset_of(all));
    vstd::set_lib::lemma_len_subset(dominators(f, b), all);
    let rest = dominators(f, b).remove(b);
    assert(dominators(f, a).subset_of(rest)) by {
        assert forall|c: int| dominators(f, a).contains(c) implies rest.contains(c) by {
            lemma_dom_trans(f, c, a, b);
            if c == b {
                lemma_dom_antisym(f, a, b);
            }
        }
    }
    assert(dominators(f, b).contains(b));
    vstd::set_lib::lemma_len_subset(dominators(f, a), rest);
}

// ---------------------------------------------------------------------------
// Depth-first order

/// The blocks that a depth-first walk has entered and those it has left.
#[verifier::ext_equal]
pub struct Walk {
    pub entered: Seq<bool>,
    pub left: Seq<Block>,
}

/// The walk after block `b` has been offered to it: a block entered before is
/// passed over; any other is entered, its targets are walked in order, and
/// then it is left. `depth` bounds the nesting.
pub open spec fn walk_from(f: Function, b: int, w: Walk, depth: nat) -> Walk
    decreases depth,
{
    if depth == 0 || b < 0 || b >= w.entered.len() || w.entered[b] {
        w
    } else {
        let w1 = Walk { entered: w.entered.update(b, true), left: w.left };
        let d1 = (depth - 1) as nat;
        let w2 = match f.term(b) {
            Some(Terminator::Jump(t)) => walk_from(f, t.0 as int, w1, d1),
            Some(Terminator::Branch { then_, else_, .. }) => walk_from(
                f,
                else_.0 as int,
                walk_from(f, then_.0 as int, w1, d1),
                d1,
            ),
            _ => w1,
        };
        Walk { entered: w2.entered, left: w2.left.push(Block(b as u32)) }
    }
}

/// How many flags are not set.
pub open spec fn unset(s: Seq<bool>) -> nat
    decreases s.len(),
{
    if s.len() == 0 {
        0
    } else {
        unset(s.drop_last()) + if s.last() {
            0nat
        } else {
            1nat
        }
    }
}

pub proof fn lemma_unset_update(s: Seq<bool>, i: int)
    requires
        0 <= i < s.len(),
        !s[i],
    ensures
        unset(s.update(i, true)) + 1 == unset(s),
    decreases s.len(),
{
    let t = s.update(i, true);
    if i == s.len() - 1 {
        assert(t.drop_last() =~= s.drop_last());
    } else {
        assert(t.drop_last() =~= s.drop_last().update(i, true));
        lemma_unset_update(s.drop_last(), i);
    }
}

pub proof fn lemma_unset_bound(s: Seq<bool>)
    ensures
        unset(s) <= s.len(),
    decreases s.len(),
{
    if s.len() > 0 {
        lemma_unset_bound(s.drop_last());
    }
}

/// The walk that starts at the entry.
pub open spec fn entry_walk(f: Function) -> Walk {
    walk_from(
        f,
        f.entry.0 as int,
        Walk { entered: Seq::new(f.blocks@.len(), |i: int| false), left: Seq::empty() },
        f.blocks@.len(),
    )
}

fn visit(f: &Function, b: Block, visited: &mut Vec<bool>, post: &mut Vec<Block>, Ghost(depth): Ghost<nat>)
    requires
        cfg_ok(*f),
        b.0 < f.blocks@.len(),
        old(visited)@.len() == f.blocks@.len(),
        unset(old(visited)@) <= depth,
    ensures
        final(visited)@.len() == f.blocks@.len(),
        (Walk { entered: final(visited)@, left: final(post)@ }) == walk_from(
            *f,
            b.0 as int,
            Walk { entered: old(visited)@, left: old(post)@ },
            depth,
        ),
        unset(final(visited)@) <= unset(old(visited)@),
    decreases unset(old(visited)@),
{
    let i: usize = b.0 as usize;
    if visited[i] {
        return ;
    }
    proof {
        lemma_unset_update(visited@, i as int);
    }
    visited.set(i, true);
    let ghost inner = (depth - 1) as nat;
    match f.blocks[i].term {
        Some(Terminator::Jump(t)) => {
            assert(edge(*f, i as int, t.0 as int));
            visit(f, t, visited, post, Ghost(inner));
        },
        Some(Terminator::Branch { then_, else_, .. }) => {
            assert(edge(*f, i as int, then_.0 as int));
            assert(edge(*f, i as int, else_.0 as int));
            visit(f, then_, visited, post, Ghost(inner));
            visit(f, else_, visited, post, Ghost(inner));
        },
        _ => {},
    }
    post.push(b);
}

/// The blocks in reverse postorder of a depth-first walk from the entry.
pub fn reverse_postorder(f: &Function) -> (r: Vec<Block>)
    requires
        cfg_ok(*f),
    ensures
        r@ == entry_walk(*f).left.reverse(),
{
    let mut visited: Vec<bool> = Vec::new();
    let mut i: usize = 0;
    while i < f.blocks.len()
        invariant
            i <= f.blocks@.len(),
            visited@ == Seq::new(i as nat, |j: int| false),
        decreases f.blocks@.len() - i,
    {
        visited.push(false);
        i += 1;
    }
    let mut post: Vec<Block> = Vec::new();
    proof {
        lemma_unset_bound(visited@);
    }
    let ghost depth = f.blocks@.len();
    visit(f, f.entry, &mut visited, &mut post, Ghost(depth));
    let mut order: Vec<Block> = Vec::new();
    let mut k: usize = post.len();
    while k > 0
        invariant
            k <= post@.len(),
            order@ == post@.reverse().take(post@.len() - k),
        decreases k,
    {
        k -= 1;
        order.push(post[k]);
    }
    assert(order@ =~= post@.reverse());
    order
}

// ---------------------------------------------------------------------------
// What the walk reaches

/// At place `i` stands block `top`, or one that a later one leads to.
pub open spec fn parented_at(f: Function, left: Seq<Block>, i: int, top: int) -> bool {
    left[i].0 == top || exists|j: int|
        #![trigger left[j]]
        i < j < left.len() && edge(f, left[j].0 as int, left[i].0 as int)
}

/// From place `from` on, every block but `top` stands before one that leads to
/// it.
pub open spec fn parented(f: Function, left: Seq<Block>, from: int, top: int) -> bool {
    forall|i: int| from <= i < left.len() ==> #[trigger] parented_at(f, left, i, top)
}

/// What a walk adds: blocks that were not entered before, each once, and with
/// them all that they lead to.
pub open spec fn walked(f: Function, w: Walk, v: Walk, top: int) -> bool {
    &&& v.entered.len() == w.entered.len()
    &&& w.left.len() <= v.left.len()
    &&& v.left.take(w.left.len() as int) == w.left
    &&& v.entered[top]
    &&& forall|c: int| #![trigger v.entered[c]] 0 <= c < w.entered.len() && w.entered[c]
        ==> v.entered[c]
    &&& forall|c: int, d: int| #[trigger]
        edge(f, c, d) && v.entered[c] && !w.entered[c] ==> v.entered[d]
    &&& forall|c: int|
        #![trigger v.entered[c]]
        0 <= c < v.entered.len() && v.entered[c] && !w.entered[c] ==> exists|i: int|
            #![trigger v.left[i]]
            w.left.len() <= i < v.left.len() && v.left[i].0 == c
    &&& forall|i: int|
        #![trigger v.left[i]]
        w.left.len() <= i < v.left.len() ==> v.left[i].0 < v.entered.len()
            && v.entered[v.left[i].0 as int] && !w.entered[v.left[i].0 as int]
    &&& forall|i: int, j: int|
        #![trigger v.left[i], v.left[j]]
        w.left.len() <= i < j < v.left.len() ==> v.left[i] != v.left[j]
    &&& parented(f, v.left, w.left.len() as int, top)
    &&& unset(v.entered) <= unset(w.entered)
}

/// Two walks, one after the other, inside block `b`.
#[verifier::rlimit(60)]
proof fn lemma_walked_on(f: Function, b: int, w: Walk, one: Walk, two: Walk, s: int, t: int)
    requires
        cfg_ok(f),
        0 <= b < f.blocks@.len(),
        w.entered.len() == f.blocks@.len(),
        !w.entered[b],
        ({
            let inside = Walk { entered: w.entered.update(b, true), left: w.left };
            walked(f, inside, one, s)
        }),
        walked(f, one, two, t),
        edge(f, b, s),
        edge(f, b, t),
        forall|c: int| #[trigger] edge(f, b, c) ==> c == s || c == t,
    ensures
        walked(f, w, Walk { entered: two.entered, left: two.left.push(Block(b as u32)) }, b),
{
    let inside = Walk { entered: w.entered.update(b, true), left: w.left };
    let v = Walk { entered: two.entered, left: two.left.push(Block(b as u32)) };
    let n = w.left.len() as int;
    lemma_unset_update(w.entered, b);
    assert(inside.entered[b]);
    assert(one.entered[b]);
    assert(two.entered[b]);
    assert(v.left.take(n) =~= w.left) by {
        assert forall|i: int| 0 <= i < n implies v.left[i] == w.left[i] by {
            assert(one.left.take(n)[i] == w.left[i]);
            assert(two.left.take(one.left.len() as int)[i] == one.left[i]);
        }
    }
    assert forall|i: int| 0 <= i < one.left.len() implies two.left[i] == one.left[i] by {
        assert(two.left.take(one.left.len() as int)[i] == one.left[i]);
    }
    assert forall|c: int|
        #![trigger v.entered[c]]
        0 <= c < w.entered.len() && w.entered[c] implies v.entered[c] by {
        assert(inside.entered[c]);
        assert(one.entered[c]);
    }
    assert forall|c: int, d: int| #[trigger]
        edge(f, c, d) && v.entered[c] && !w.entered[c] implies v.entered[d] by {
        if c == b {
            assert(one.entered[s]);
        } else {
            assert(!inside.entered[c]);
            if one.entered[c] {
                assert(one.entered[d]);
            }
        }
    }
    assert forall|c: int|
        #![trigger v.entered[c]]
        0 <= c < v.entered.len() && v.entered[c] && !w.entered[c] implies exists|i: int|
        #![trigger v.left[i]]
        n <= i < v.left.len() && v.left[i].0 == c by {
        if c == b {
            assert(v.left[two.left.len() as int].0 == c);
        } else {
            assert(!inside.entered[c]);
            if one.entered[c] {
                let i = choose|i: int|
                    #![trigger one.left[i]]
                    n <= i < one.left.len() && one.left[i].0 == c;
                assert(v.left[i].0 == c);
            } else {
                assert(two.entered[c]);
                let i = choose|i: int|
                    #![trigger two.left[i]]
                    one.left.len() <= i < two.left.len() && two.left[i].0 == c;
                assert(v.left[i].0 == c);
            }
        }
    }
    assert forall|i: int|
        #![trigger v.left[i]]
        n <= i < v.left.len() implies v.left[i].0 < v.entered.len()
        && v.entered[v.left[i].0 as int] && !w.entered[v.left[i].0 as int] && (i
        < two.left.len() ==> v.left[i].0 != b) by {
        if i < one.left.len() {
            assert(v.left[i] == one.left[i]);
            assert(one.entered[one.left[i].0 as int]);
            assert(!inside.entered[one.left[i].0 as int]);
        } else if i < two.left.len() {
            assert(v.left[i] == two.left[i]);
            assert(!one.entered[two.left[i].0 as int]);
            let c = two.left[i].0 as int;
            if w.entered[c] {
                assert(inside.entered[c]);
            }
        }
    }
    assert forall|i: int, j: int|
        #![trigger v.left[i], v.left[j]]
        n <= i < j < v.left.len() implies v.left[i] != v.left[j] by {
        if j == two.left.len() {
            assert(v.left[i].0 != b);
        } else if j < one.left.len() {
            assert(v.left[i] == one.left[i] && v.left[j] == one.left[j]);
        } else if i >= one.left.len() {
            assert(v.left[i] == two.left[i] && v.left[j] == two.left[j]);
        } else {
            assert(v.left[i] == one.left[i] && v.left[j] == two.left[j]);
            assert(one.entered[one.left[i].0 as int]);
            assert(!one.entered[two.left[j].0 as int]);
        }
    }
    assert forall|i: int| n <= i < v.left.len() implies #[trigger] parented_at(
        f,
        v.left,
        i,
        b,
    ) by {
        let last = two.left.len() as int;
        assert(v.left[last].0 == b);
        if i < one.left.len() {
            assert(v.left[i] == one.left[i]);
            assert(parented_at(f, one.left, i, s));
            if one.left[i].0 == s {
                assert(edge(f, v.left[last].0 as int, v.left[i].0 as int));
            } else {
                let j = choose|j: int|
                    #![trigger one.left[j]]
                    i < j < one.left.len() && edge(f, one.left[j].0 as int, one.left[i].0 as int);
                assert(v.left[j] == one.left[j]);
            }
        } else if i < last {
            assert(v.left[i] == two.left[i]);
            assert(parented_at(f, two.left, i, t));
            if two.left[i].0 == t {
                assert(edge(f, v.left[last].0 as int, v.left[i].0 as int));
            } else {
                let j = choose|j: int|
                    #![trigger two.left[j]]
                    i < j < two.left.len() && edge(f, two.left[j].0 as int, two.left[i].0 as int);
                assert(v.left[j] == two.left[j]);
            }
        }
    }
}

/// A walk that enters nothing.
proof fn lemma_walked_nothing(f: Function, w: Walk, t: int)
    requires
        w.entered[t],
    ensures
        walked(f, w, w, t),
{
    assert(w.left.take(w.left.len() as int) =~= w.left);
}

/// What a walk with enough depth adds.
#[verifier::rlimit(40)]
proof fn lemma_walked(f: Function, b: int, w: Walk, depth: nat)
    requires
        cfg_ok(f),
        0 <= b < f.blocks@.len(),
        w.entered.len() == f.blocks@.len(),
        unset(w.entered) <= depth,
    ensures
        walked(f, w, walk_from(f, b, w, depth), b),
    decreases depth,
{
    if w.entered[b] {
        lemma_walked_nothing(f, w, b);
    } else {
        lemma_unset_update(w.entered, b);
        let inside = Walk { entered: w.entered.update(b, true), left: w.left };
        let less = (depth - 1) as nat;
        match f.term(b) {
            Some(Terminator::Jump(t)) => {
                let c = t.0 as int;
                assert(edge(f, b, c));
                lemma_walked(f, c, inside, less);
                let one = walk_from(f, c, inside, less);
                lemma_walked_nothing(f, one, c);
                lemma_walked_on(f, b, w, one, one, c, c);
            },
            Some(Terminator::Branch { then_, else_, .. }) => {
                let c = then_.0 as int;
                let d = else_.0 as int;
                assert(edge(f, b, c) && edge(f, b, d));
                lemma_walked(f, c, inside, less);
                let one = walk_from(f, c, inside, less);
                lemma_walked(f, d, one, less);
                let two = walk_from(f, d, one, less);
                lemma_walked_on(f, b, w, one, two, c, d);
            },
            _ => {
                let v = walk_from(f, b, w, depth);
                assert(v.left == w.left.push(Block(b as u32)));
                assert(v.left.take(w.left.len() as int) =~= w.left);
                assert(v.left[w.left.len() as int].0 == b);
            },
        }
    }
}

/// Before place `i` of the order stands a block that leads to the one there.
pub open spec fn is_led(f: Function, order: Seq<Block>, i: int) -> bool {
    exists|j: int|
        #![trigger order[j]]
        0 <= j < i && edge(f, order[j].0 as int, order[i].0 as int)
}

pub open spec fn led_to(f: Function, order: Seq<Block>) -> bool {
    forall|i: int| 0 < i < order.len() ==> #[trigger] is_led(f, order, i)
}

proof fn lemma_led(f: Function, order: Seq<Block>, i: int) -> (j: int)
    requires
        led_to(f, order),
        0 < i < order.len(),
    ensures
        0 <= j < i,
        edge(f, order[j].0 as int, order[i].0 as int),
{
    assert(is_led(f, order, i));
    choose|j: int|
        #![trigger order[j]]
        0 <= j < i && edge(f, order[j].0 as int, order[i].0 as int)
}

/// The order lists the reachable blocks, each once; the entry comes first, and
/// every other block behind one that leads to it.
#[verifier::opaque]
pub open spec fn is_order(f: Function, order: Seq<Block>) -> bool {
    &&& order.len() > 0
    &&& order[0] == f.entry
    &&& forall|i: int|
        #![trigger order[i]]
        0 <= i < order.len() ==> order[i].0 < f.blocks@.len() && reachable(f, order[i].0 as int)
    &&& forall|b: int| #[trigger] reachable(f, b) ==> 0 <= b <= u32::MAX && order.contains(
        Block(b as u32),
    )
    &&& forall|i: int, j: int|
        #![trigger order[i], order[j]]
        0 <= i < j < order.len() ==> order[i] != order[j]
    &&& led_to(f, order)
}

/// Closed under edges, a set that holds the entry holds all that is reachable.
proof fn lemma_closed_marks(f: Function, marks: Seq<bool>, p: Seq<int>)
    requires
        cfg_ok(f),
        marks.len() == f.blocks@.len(),
        marks[f.entry.0 as int],
        forall|a: int, b: int| #[trigger] edge(f, a, b) && marks[a] ==> marks[b],
        is_path(f, p),
    ensures
        marks[p.last()],
        0 <= p.last() < marks.len(),
    decreases p.len(),
{
    lemma_path_range(f, p, p.len() - 1);
    if p.len() > 1 {
        lemma_prefix(f, p, p.len() - 1);
        lemma_closed_marks(f, marks, p.take(p.len() - 1));
        assert(edge(f, p[p.len() - 2], p[p.len() - 1]));
    }
}

proof fn lemma_left_reachable(f: Function, left: Seq<Block>, i: int)
    requires
        parented(f, left, 0, f.entry.0 as int),
        0 <= i < left.len(),
    ensures
        reachable(f, left[i].0 as int),
    decreases left.len() - i,
{
    lemma_entry_reachable(f);
    assert(parented_at(f, left, i, f.entry.0 as int));
    if left[i].0 != f.entry.0 {
        let j = choose|j: int|
            #![trigger left[j]]
            i < j < left.len() && edge(f, left[j].0 as int, left[i].0 as int);
        lemma_left_reachable(f, left, j);
        lemma_reachable_edge(f, left[j].0 as int, left[i].0 as int);
    }
}

/// Reverse postorder is such an order.
#[verifier::rlimit(40)]
pub proof fn lemma_order(f: Function)
    requires
        cfg_ok(f),
    ensures
        is_order(f, entry_walk(f).left.reverse()),
{
    let none = Walk { entered: Seq::new(f.blocks@.len(), |i: int| false), left: Seq::empty() };
    let v = entry_walk(f);
    let left = v.left;
    let order = left.reverse();
    let n = left.len() as int;
    lemma_unset_bound(none.entered);
    lemma_walked(f, f.entry.0 as int, none, f.blocks@.len());
    assert forall|i: int| 0 <= i < n implies #[trigger] order[i] == left[n - 1 - i] by {}
    // The entry is left last.
    let e = choose|i: int| #![trigger left[i]] 0 <= i < n && left[i].0 == f.entry.0;
    assert(v.entered[f.entry.0 as int]);
    assert(left[e].0 == f.entry.0 && 0 <= e < n);
    lemma_last_is_top(f, left, f.entry.0 as int);
    assert(order[0] == left[n - 1]);
    assert forall|i: int| #![trigger order[i]] 0 <= i < order.len() implies order[i].0
        < f.blocks@.len() && reachable(f, order[i].0 as int) by {
        assert(v.entered[left[n - 1 - i].0 as int]);
        lemma_left_reachable(f, left, n - 1 - i);
    }
    assert forall|b: int| #[trigger] reachable(f, b) implies 0 <= b <= u32::MAX && order.contains(
        Block(b as u32),
    ) by {
        let p = choose|p: Seq<int>| path_to(f, p, b);
        assert forall|c: int, d: int| #[trigger] edge(f, c, d) && v.entered[c] implies v.entered[d] by {
            assert(!none.entered[c]);
        }
        lemma_closed_marks(f, v.entered, p);
        assert(v.entered[b] && !none.entered[b]);
        let i = choose|i: int| #![trigger left[i]] 0 <= i < n && left[i].0 == b;
        assert(order[n - 1 - i] == left[i]);
        assert(left[i] == Block(b as u32));
    }
    assert forall|i: int, j: int|
        #![trigger order[i], order[j]]
        0 <= i < j < order.len() implies order[i] != order[j] by {
        assert(left[n - 1 - j] != left[n - 1 - i]);
    }
    lemma_led_back(f, left);
    reveal(is_order);
}

proof fn lemma_led_back(f: Function, left: Seq<Block>)
    requires
        parented(f, left, 0, f.entry.0 as int),
        left.len() > 0,
        left.last() == f.entry,
        forall|i: int, j: int|
            #![trigger left[i], left[j]]
            0 <= i < j < left.len() ==> left[i] != left[j],
    ensures
        led_to(f, left.reverse()),
{
    let order = left.reverse();
    let n = left.len() as int;
    assert forall|i: int| 0 < i < order.len() implies #[trigger] is_led(f, order, i) by {
        let x = n - 1 - i;
        assert(left[x] != left[n - 1]);
        assert(left[x].0 != f.entry.0);
        assert(parented_at(f, left, x, f.entry.0 as int));
        let y = choose|y: int|
            #![trigger left[y]]
            x < y < left.len() && edge(f, left[y].0 as int, left[x].0 as int);
        assert(order[n - 1 - y] == left[y]);
        assert(order[i] == left[x]);
    }
}

proof fn lemma_last_is_top(f: Function, left: Seq<Block>, top: int)
    requires
        left.len() > 0,
        parented(f, left, 0, top),
    ensures
        left.last().0 == top,
{
    let last = left.len() - 1;
    assert(parented_at(f, left, last, top));
    assert(left[last] == left.last());
}

// ---------------------------------------------------------------------------
// Dominators

/// The lists of predecessors are those that the terminators give.
pub open spec fn preds_match(f: Function) -> bool {
    forall|b: int, p: Block|
        #![trigger f.preds(b).contains(p)]
        #![trigger edge(f, p.0 as int, b)]
        0 <= b < f.blocks@.len() ==> (f.preds(b).contains(p) <==> edge(f, p.0 as int, b))
}

/// The place of a block in the order.
pub open spec fn place(order: Seq<Block>, b: int) -> int {
    order.index_of(Block(b as u32))
}

proof fn lemma_order_facts(f: Function, order: Seq<Block>)
    requires
        is_order(f, order),
    ensures
        order.len() > 0,
        order[0] == f.entry,
        led_to(f, order),
        forall|i: int, j: int|
            #![trigger order[i], order[j]]
            0 <= i < j < order.len() ==> order[i] != order[j],
        forall|i: int|
            #![trigger order[i]]
            0 <= i < order.len() ==> order[i].0 < f.blocks@.len(),
{
    reveal(is_order);
}

proof fn lemma_place(f: Function, order: Seq<Block>, b: int)
    requires
        is_order(f, order),
        reachable(f, b),
    ensures
        0 <= place(order, b) < order.len(),
        order[place(order, b)].0 == b,
{
    reveal(is_order);
    assert(order.contains(Block(b as u32)));
}

proof fn lemma_place_of(f: Function, order: Seq<Block>, i: int)
    requires
        is_order(f, order),
        0 <= i < order.len(),
    ensures
        order[i].0 < f.blocks@.len(),
        place(order, order[i].0 as int) == i,
        reachable(f, order[i].0 as int),
{
    assert(reachable(f, order[i].0 as int) && order[i].0 < f.blocks@.len()) by {
        reveal(is_order);
    }
    lemma_order_facts(f, order);
    lemma_place(f, order, order[i].0 as int);
    let j = place(order, order[i].0 as int);
    assert(order[j] == order[i]);
    if j < i {
        assert(order[j] != order[i]);
    }
    if i < j {
        assert(order[i] != order[j]);
    }
}

/// A path along which the places rise.
proof fn lemma_rising(f: Function, order: Seq<Block>, i: int) -> (p: Seq<int>)
    requires
        is_order(f, order),
        0 <= i < order.len(),
    ensures
        path_to(f, p, order[i].0 as int),
        forall|k: int|
            #![trigger p[k]]
            0 <= k < p.len() - 1 ==> reachable(f, p[k]) && place(order, p[k]) < i,
    decreases i,
{
    lemma_order_facts(f, order);
    if i == 0 {
        lemma_entry_reachable(f);
        seq![f.entry.0 as int]
    } else {
        let j = lemma_led(f, order, i);
        let q = lemma_rising(f, order, j);
        lemma_extend(f, q, order[i].0 as int);
        lemma_place_of(f, order, j);
        let p = q.push(order[i].0 as int);
        assert forall|k: int| #![trigger p[k]] 0 <= k < p.len() - 1 implies reachable(f, p[k])
            && place(order, p[k]) < i by {
            assert(p[k] == q[k]);
            if k == q.len() - 1 {
                assert(q[k] == order[j].0);
            }
        }
        p
    }
}

/// Dominators come first.
proof fn lemma_dominator_first(f: Function, order: Seq<Block>, a: int, b: int)
    requires
        is_order(f, order),
        reachable(f, b),
        dom(f, a, b),
    ensures
        reachable(f, a),
        place(order, a) <= place(order, b),
        a != b ==> place(order, a) < place(order, b),
{
    if a != b {
        let i = place(order, b);
        lemma_place(f, order, b);
        let p = lemma_rising(f, order, i);
        assert(p.contains(a));
        let k = choose|k: int| 0 <= k < p.len() && p[k] == a;
        assert(k < p.len() - 1);
    }
}

/// The parent of a block has one too; it comes before the block, unless that is
/// the entry, and what strictly dominates the block dominates it.
pub open spec fn parent_ok(
    f: Function,
    order: Seq<Block>,
    idom: Seq<Option<Block>>,
    b: int,
) -> bool {
    let d = idom[b].unwrap().0 as int;
    &&& reachable(f, b)
    &&& 0 <= d < idom.len()
    &&& idom[d] is Some
    &&& b != f.entry.0 ==> place(order, d) < place(order, b) && forall|a: int| #[trigger]
        sdom(f, a, b) ==> dom(f, a, d)
}

/// A tree under construction, with the entry as its own parent.
pub open spec fn is_sketch(f: Function, order: Seq<Block>, idom: Seq<Option<Block>>) -> bool {
    &&& idom.len() == f.blocks@.len()
    &&& idom[f.entry.0 as int] == Some(f.entry)
    &&& forall|b: int|
        0 <= b < idom.len() && idom[b] is Some ==> #[trigger] parent_ok(f, order, idom, b)
}

proof fn lemma_parent(f: Function, order: Seq<Block>, idom: Seq<Option<Block>>, b: int)
    requires
        is_sketch(f, order, idom),
        0 <= b < idom.len(),
        idom[b] is Some,
    ensures
        idom.len() == f.blocks@.len(),
        reachable(f, b),
        idom[b].unwrap().0 < idom.len(),
        idom[idom[b].unwrap().0 as int] is Some,
        reachable(f, idom[b].unwrap().0 as int),
        b != f.entry.0 ==> place(order, idom[b].unwrap().0 as int) < place(order, b),
        b != f.entry.0 ==> forall|a: int| #[trigger]
            sdom(f, a, b) ==> dom(f, a, idom[b].unwrap().0 as int),
{
    let d = idom[b].unwrap().0 as int;
    assert(parent_ok(f, order, idom, b));
    assert(parent_ok(f, order, idom, d));
}

proof fn lemma_above_trans(idom: Seq<Option<Block>>, a: Block, b: Block, c: Block, steps: nat)
    requires
        above(idom, a, b),
        up_from(idom, b, c, steps),
    ensures
        above(idom, a, c),
    decreases steps,
{
    if b != c {
        let next = idom[c.0 as int].unwrap();
        lemma_above_trans(idom, a, b, next, (steps - 1) as nat);
        lemma_above_next(idom, a, next, c);
    }
}

/// What lies above the parent lies above the block.
proof fn lemma_above_next(idom: Seq<Option<Block>>, a: Block, next: Block, b: Block)
    requires
        b.0 < idom.len(),
        idom[b.0 as int] == Some(next),
        next != b,
        above(idom, a, next),
    ensures
        above(idom, a, b),
{
    let n = choose|n: nat| up_from(idom, a, next, n);
    assert(up_from(idom, a, b, n + 1));
}

/// What lies above a block comes before it.
proof fn lemma_above_first(
    f: Function,
    order: Seq<Block>,
    idom: Seq<Option<Block>>,
    a: Block,
    b: Block,
    steps: nat,
)
    requires
        is_sketch(f, order, idom),
        b.0 < idom.len(),
        idom[b.0 as int] is Some,
        up_from(idom, a, b, steps),
    ensures
        a.0 < idom.len(),
        idom[a.0 as int] is Some,
        place(order, a.0 as int) <= place(order, b.0 as int),
        a != b ==> place(order, a.0 as int) < place(order, b.0 as int),
    decreases steps,
{
    if a != b {
        let next = idom[b.0 as int].unwrap();
        lemma_parent(f, order, idom, b.0 as int);
        lemma_above_first(f, order, idom, a, next, (steps - 1) as nat);
    }
}

/// The numbers of the blocks in the order.
pub open spec fn is_numbers(order: Seq<Block>, numbers: Map<u32, u32>) -> bool {
    forall|i: int|
        #![trigger order[i]]
        0 <= i < order.len() ==> numbers.contains_key(order[i].0) && numbers[order[i].0] == i
}

fn number_order(order: &Vec<Block>) -> (r: IndexMap)
    requires
        order@.len() <= u32::MAX,
        forall|i: int, j: int|
            #![trigger order@[i], order@[j]]
            0 <= i < j < order@.len() ==> order@[i] != order@[j],
    ensures
        is_numbers(order@, r@),
{
    let mut r: IndexMap = IndexMap::new();
    let mut i: usize = 0;
    while i < order.len()
        invariant
            i <= order@.len() <= u32::MAX,
            forall|x: int, y: int|
                #![trigger order@[x], order@[y]]
                0 <= x < y < order@.len() ==> order@[x] != order@[y],
            forall|j: int|
                #![trigger order@[j]]
                0 <= j < i ==> r@.contains_key(order@[j].0) && r@[order@[j].0] == j,
        decreases order@.len() - i,
    {
        let ghost before = r@;
        r.insert(order[i].0, i as u32);
        assert forall|j: int| #![trigger order@[j]] 0 <= j < i + 1 implies r@.contains_key(
            order@[j].0,
        ) && r@[order@[j].0] == j by {
            if j < i {
                assert(order@[j] != order@[i as int]);
                assert(order@[j].0 != order@[i as int].0);
            }
        }
        i += 1;
    }
    r
}

fn number_of(numbers: &IndexMap, b: Block, Ghost(f): Ghost<Function>, Ghost(order): Ghost<Seq<Block>>) -> (n: u32)
    requires
        is_order(f, order),
        is_numbers(order, numbers@),
        reachable(f, b.0 as int),
    ensures
        n == place(order, b.0 as int),
{
    proof {
        lemma_place(f, order, b.0 as int);
        assert(order[place(order, b.0 as int)] == b);
    }
    match numbers.get(b.0) {
        Some(n) => n,
        None => 0,
    }
}

/// What dominates both blocks.
pub open spec fn dominates_both(f: Function, x: int, a: Block, b: Block) -> bool {
    dom(f, x, a.0 as int) && dom(f, x, b.0 as int)
}

/// Where the ways up from two blocks meet: the one that comes later in the
/// order goes up until both are at the same block.
fn intersect(
    f: &Function,
    order: &Vec<Block>,
    idom: &Vec<Option<Block>>,
    numbers: &IndexMap,
    first: Block,
    second: Block,
) -> (r: Block)
    requires
        is_order(*f, order@),
        is_numbers(order@, numbers@),
        is_sketch(*f, order@, idom@),
        first.0 < idom@.len(),
        second.0 < idom@.len(),
        idom@[first.0 as int] is Some,
        idom@[second.0 as int] is Some,
    ensures
        r.0 < idom@.len(),
        idom@[r.0 as int] is Some,
        above(idom@, r, first),
        above(idom@, r, second),
        forall|x: int| #[trigger] dominates_both(*f, x, first, second) ==> dom(*f, x, r.0 as int),
{
    let mut a: Block = first;
    let mut b: Block = second;
    proof {
        assert(up_from(idom@, first, first, 0));
        assert(up_from(idom@, second, second, 0));
    }
    while a != b
        invariant
            is_order(*f, order@),
            is_numbers(order@, numbers@),
            is_sketch(*f, order@, idom@),
            a.0 < idom@.len(),
            b.0 < idom@.len(),
            idom@[a.0 as int] is Some,
            idom@[b.0 as int] is Some,
            above(idom@, a, first),
            above(idom@, b, second),
            forall|x: int| #[trigger]
                dominates_both(*f, x, first, second) ==> dominates_both(*f, x, a, b),
        decreases place(order@, a.0 as int) + place(order@, b.0 as int),
    {
        proof {
            lemma_parent(*f, order@, idom@, a.0 as int);
            lemma_parent(*f, order@, idom@, b.0 as int);
        }
        let x: u32 = number_of(numbers, a, Ghost(*f), Ghost(order@));
        let y: u32 = number_of(numbers, b, Ghost(*f), Ghost(order@));
        proof {
            lemma_place(*f, order@, a.0 as int);
            lemma_place(*f, order@, b.0 as int);
        }
        if x > y {
            let next: Block = idom[a.0 as usize].unwrap();
            proof {
                lemma_step_up(*f, order@, idom@, a, b, first);
                lemma_place(*f, order@, next.0 as int);
            }
            a = next;
        } else {
            let next: Block = idom[b.0 as usize].unwrap();
            proof {
                assert(x != y) by {
                    if x == y {
                        assert(order@[x as int] == a && order@[y as int] == b);
                    }
                }
                lemma_step_up(*f, order@, idom@, b, a, second);
                lemma_place(*f, order@, next.0 as int);
            }
            b = next;
        }
    }
    a
}

/// The later of two blocks goes up: what dominates both still does.
proof fn lemma_step_up(
    f: Function,
    order: Seq<Block>,
    idom: Seq<Option<Block>>,
    a: Block,
    b: Block,
    from: Block,
)
    requires
        is_order(f, order),
        is_sketch(f, order, idom),
        a.0 < idom.len(),
        b.0 < idom.len(),
        idom[a.0 as int] is Some,
        idom[b.0 as int] is Some,
        above(idom, a, from),
        place(order, a.0 as int) > place(order, b.0 as int),
    ensures
        a != f.entry,
        above(idom, idom[a.0 as int].unwrap(), from),
        place(order, idom[a.0 as int].unwrap().0 as int) < place(order, a.0 as int),
        forall|x: int| #[trigger] dominates_both(f, x, a, b) ==> dominates_both(
            f,
            x,
            idom[a.0 as int].unwrap(),
            b,
        ),
        forall|x: int| #[trigger] dominates_both(f, x, b, a) ==> dominates_both(
            f,
            x,
            b,
            idom[a.0 as int].unwrap(),
        ),
{
    let next = idom[a.0 as int].unwrap();
    lemma_parent(f, order, idom, a.0 as int);
    lemma_parent(f, order, idom, b.0 as int);
    lemma_order_facts(f, order);
    lemma_place_of(f, order, 0);
    lemma_place(f, order, b.0 as int);
    assert(a != f.entry);
    assert(next != a);
    assert(up_from(idom, next, next, 0));
    assert(above(idom, next, next));
    lemma_above_next(idom, next, next, a);
    let n = choose|n: nat| up_from(idom, a, from, n);
    lemma_above_trans(idom, next, a, from, n);
    assert forall|x: int| dom(f, x, a.0 as int) && dom(f, x, b.0 as int) implies dom(
        f,
        x,
        next.0 as int,
    ) by {
        lemma_dominator_first(f, order, x, b.0 as int);
        assert(x != a.0);
        assert(sdom(f, x, a.0 as int));
    }
    assert forall|x: int| #[trigger] dominates_both(f, x, a, b) implies dominates_both(
        f,
        x,
        next,
        b,
    ) by {}
    assert forall|x: int| #[trigger] dominates_both(f, x, b, a) implies dominates_both(
        f,
        x,
        b,
        next,
    ) by {}
}

/// Where the ways up from the first `n` predecessors that have a parent meet.
pub open spec fn meets(
    f: Function,
    idom: Seq<Option<Block>>,
    b: int,
    n: int,
    c: Block,
) -> bool {
    &&& c.0 < idom.len()
    &&& idom[c.0 as int] is Some
    &&& forall|k: int|
        #![trigger f.preds(b)[k]]
        0 <= k < n && idom[f.preds(b)[k].0 as int] is Some ==> above(idom, c, f.preds(b)[k])
}

/// The closest block above all the predecessors that have a parent.
fn meet(
    f: &Function,
    order: &Vec<Block>,
    idom: &Vec<Option<Block>>,
    numbers: &IndexMap,
    b: Block,
) -> (r: Option<Block>)
    requires
        cfg_ok(*f),
        preds_match(*f),
        is_order(*f, order@),
        is_numbers(order@, numbers@),
        is_sketch(*f, order@, idom@),
        b.0 < idom@.len(),
    ensures
        match r {
            Some(c) => {
                &&& meets(*f, idom@, b.0 as int, f.preds(b.0 as int).len() as int, c)
                &&& forall|x: int| #[trigger] sdom(*f, x, b.0 as int) ==> dom(*f, x, c.0 as int)
            },
            None => forall|k: int|
                #![trigger f.preds(b.0 as int)[k]]
                0 <= k < f.preds(b.0 as int).len() ==> idom@[f.preds(b.0 as int)[k].0 as int] is None,
        },
{
    let ghost at = b.0 as int;
    let mut r: Option<Block> = None;
    let mut k: usize = 0;
    while k < f.blocks[b.0 as usize].preds.len()
        invariant
            cfg_ok(*f),
            preds_match(*f),
            is_order(*f, order@),
            is_numbers(order@, numbers@),
            is_sketch(*f, order@, idom@),
            b.0 < idom@.len(),
            at == b.0,
            k <= f.preds(at).len(),
            match r {
                Some(c) => {
                    &&& meets(*f, idom@, at, k as int, c)
                    &&& forall|x: int| #[trigger] sdom(*f, x, at) ==> dom(*f, x, c.0 as int)
                },
                None => forall|j: int|
                    #![trigger f.preds(at)[j]]
                    0 <= j < k ==> idom@[f.preds(at)[j].0 as int] is None,
            },
        decreases f.preds(at).len() - k,
    {
        let p: Block = f.blocks[b.0 as usize].preds.get(k);
        assert(p == f.preds(at)[k as int]);
        assert(f.preds(at).contains(p));
        assert(edge(*f, p.0 as int, at));
        if idom[p.0 as usize].is_some() {
            proof {
                lemma_parent(*f, order@, idom@, p.0 as int);
                assert forall|x: int| #[trigger] sdom(*f, x, at) implies dom(*f, x, p.0 as int) by {
                    lemma_sdom_pred(*f, x, p.0 as int, at);
                }
            }
            let ghost before = r;
            r = Some(
                match r {
                    None => p,
                    Some(c) => intersect(f, order, idom, numbers, c, p),
                },
            );
            proof {
                let now = r.unwrap();
                assert(up_from(idom@, p, p, 0));
                assert(above(idom@, p, p));
                assert forall|x: int| #[trigger] sdom(*f, x, at) implies dom(
                    *f,
                    x,
                    now.0 as int,
                ) by {
                    if before is Some {
                        assert(dominates_both(*f, x, before.unwrap(), p));
                    }
                }
                assert forall|j: int|
                    #![trigger f.preds(at)[j]]
                    0 <= j < k + 1 && idom@[f.preds(at)[j].0 as int] is Some implies above(
                    idom@,
                    now,
                    f.preds(at)[j],
                ) by {
                    if j < k {
                        let c = before.unwrap();
                        let n = choose|n: nat| up_from(idom@, c, f.preds(at)[j], n);
                        lemma_above_trans(idom@, now, c, f.preds(at)[j], n);
                    }
                }
            }
        }
        k += 1;
    }
    r
}

/// How much there is still to move: the places of the parents, where a block
/// without one counts as the last.
pub open spec fn weight(order: Seq<Block>, idom: Seq<Option<Block>>, n: nat) -> nat
    decreases n,
{
    if n == 0 {
        0
    } else {
        weight(order, idom, (n - 1) as nat) + match idom[n - 1] {
            None => order.len(),
            Some(d) => if 0 <= place(order, d.0 as int) < order.len() {
                place(order, d.0 as int) as nat
            } else {
                0
            },
        }
    }
}

proof fn lemma_weight_falls(
    order: Seq<Block>,
    idom: Seq<Option<Block>>,
    b: int,
    d: Block,
    n: nat,
)
    requires
        n <= idom.len(),
        0 <= b < idom.len(),
        0 <= place(order, d.0 as int) < order.len(),
        match idom[b] {
            None => true,
            Some(e) => place(order, d.0 as int) < place(order, e.0 as int) < order.len(),
        },
    ensures
        b < n ==> weight(order, idom.update(b, Some(d)), n) < weight(order, idom, n),
        b >= n ==> weight(order, idom.update(b, Some(d)), n) == weight(order, idom, n),
    decreases n,
{
    if n > 0 {
        lemma_weight_falls(order, idom, b, d, (n - 1) as nat);
    }
}

/// A parent moves up.
proof fn lemma_moved(
    f: Function,
    order: Seq<Block>,
    idom: Seq<Option<Block>>,
    b: int,
    c: Block,
)
    requires
        cfg_ok(f),
        is_sketch(f, order, idom),
        0 <= b < idom.len(),
        reachable(f, b),
        b != f.entry.0,
        c.0 < idom.len(),
        idom[c.0 as int] is Some,
        place(order, c.0 as int) < place(order, b),
        forall|a: int| #[trigger] sdom(f, a, b) ==> dom(f, a, c.0 as int),
    ensures
        is_sketch(f, order, idom.update(b, Some(c))),
{
    let next = idom.update(b, Some(c));
    assert forall|x: int| 0 <= x < next.len() && next[x] is Some implies #[trigger] parent_ok(
        f,
        order,
        next,
        x,
    ) by {
        if x != b {
            assert(idom[x] is Some);
            lemma_parent(f, order, idom, x);
        }
    }
}

/// The parent of a block stays: the ways up from its predecessors do not meet
/// before it.
pub open spec fn is_stable(f: Function, order: Seq<Block>, idom: Seq<Option<Block>>, b: int) -> bool {
    exists|c: Block| #[trigger]
        meets(f, idom, b, f.preds(b).len() as int, c) && idom[b] is Some && place(
            order,
            idom[b].unwrap().0 as int,
        ) <= place(order, c.0 as int)
}

/// One pass over the order.
#[verifier::rlimit(60)]
fn improve(
    f: &Function,
    order: &Vec<Block>,
    numbers: &IndexMap,
    idom: &mut Vec<Option<Block>>,
) -> (changed: bool)
    requires
        cfg_ok(*f),
        preds_match(*f),
        is_order(*f, order@),
        is_numbers(order@, numbers@),
        is_sketch(*f, order@, old(idom)@),
    ensures
        is_sketch(*f, order@, final(idom)@),
        changed ==> weight(order@, final(idom)@, f.blocks@.len()) < weight(
            order@,
            old(idom)@,
            f.blocks@.len(),
        ),
        !changed ==> {
            &&& final(idom)@ == old(idom)@
            &&& forall|i: int|
                #![trigger order@[i]]
                0 <= i < order@.len() ==> final(idom)@[order@[i].0 as int] is Some
            &&& forall|i: int|
                #![trigger order@[i]]
                0 < i < order@.len() ==> is_stable(*f, order@, final(idom)@, order@[i].0 as int)
        },
{
    let mut changed: bool = false;
    let mut i: usize = 1;
    proof {
        lemma_order_facts(*f, order@);
    }
    while i < order.len()
        invariant
            cfg_ok(*f),
            preds_match(*f),
            is_order(*f, order@),
            is_numbers(order@, numbers@),
            is_sketch(*f, order@, idom@),
            1 <= i <= order@.len(),
            forall|j: int|
                #![trigger order@[j]]
                0 <= j < i ==> idom@[order@[j].0 as int] is Some,
            changed ==> weight(order@, idom@, f.blocks@.len()) < weight(
                order@,
                old(idom)@,
                f.blocks@.len(),
            ),
            !changed ==> idom@ == old(idom)@ && forall|j: int|
                #![trigger order@[j]]
                0 < j < i ==> is_stable(*f, order@, idom@, order@[j].0 as int),
        decreases order@.len() - i,
    {
        let b: Block = order[i];
        let ghost at = b.0 as int;
        let ghost start = idom@;
        assert(order@[i as int] == b);
        proof {
            lemma_order_facts(*f, order@);
            lemma_place_of(*f, order@, i as int);
            lemma_place_of(*f, order@, 0);
        }
        let found: Option<Block> = meet(f, order, idom, numbers, b);
        // A block that leads here has had its turn.
        proof {
            let j = lemma_led(*f, order@, i as int);
            assert(edge(*f, order@[j].0 as int, at));
            assert(f.preds(at).contains(order@[j]));
            let k = f.preds(at).index_of(order@[j]);
            assert(f.preds(at)[k] == order@[j]);
            assert(found is Some);
            let c = found.unwrap();
            assert(above(idom@, c, order@[j]));
            let n = choose|n: nat| up_from(idom@, c, order@[j], n);
            lemma_above_first(*f, order@, idom@, c, order@[j], n);
            lemma_place_of(*f, order@, j);
            lemma_parent(*f, order@, idom@, c.0 as int);
            if start[at] is Some {
                lemma_parent(*f, order@, idom@, at);
            }
            lemma_place(*f, order@, c.0 as int);
            assert(place(order@, c.0 as int) < i);
        }
        let c: Block = found.unwrap();
        let better: bool = match idom[b.0 as usize] {
            None => true,
            Some(d) => number_of(numbers, c, Ghost(*f), Ghost(order@)) < number_of(
                numbers,
                d,
                Ghost(*f),
                Ghost(order@),
            ),
        };
        if better {
            proof {
                if start[at] is Some {
                    lemma_parent(*f, order@, start, at);
                    lemma_place(*f, order@, start[at].unwrap().0 as int);
                }
                lemma_weight_falls(order@, start, at, c, f.blocks@.len());
            }
            idom.set(b.0 as usize, Some(c));
            changed = true;
            proof {
                lemma_moved(*f, order@, start, at, c);
                assert forall|y: int|
                    #![trigger order@[y]]
                    0 <= y < i + 1 implies idom@[order@[y].0 as int] is Some by {
                    if y < i {
                        assert(start[order@[y].0 as int] is Some);
                    }
                }
            }
        } else {
            assert(meets(*f, idom@, at, f.preds(at).len() as int, c));
            assert(is_stable(*f, order@, idom@, at));
        }
        i += 1;
    }
    changed
}

// ---------------------------------------------------------------------------
// When nothing moves any more

/// Every reachable block has a parent, and all of them stay.
pub open spec fn is_settled(f: Function, order: Seq<Block>, idom: Seq<Option<Block>>) -> bool {
    &&& cfg_ok(f)
    &&& preds_match(f)
    &&& is_order(f, order)
    &&& is_sketch(f, order, idom)
    &&& forall|b: int| #[trigger] reachable(f, b) ==> 0 <= b < idom.len() && idom[b] is Some
    &&& forall|b: int| #[trigger]
        reachable(f, b) && b != f.entry.0 ==> is_stable(f, order, idom, b)
}

/// Every path to a block runs through its parent. Else, of the blocks with a path
/// around their parent, take one whose parent comes last, and of those the one
/// with the shortest path: the ways up from its predecessors would meet below
/// its parent.
proof fn lemma_no_detour(
    f: Function,
    order: Seq<Block>,
    idom: Seq<Option<Block>>,
    b: int,
    p: Seq<int>,
)
    requires
        is_settled(f, order, idom),
        reachable(f, b),
        b != f.entry.0,
        path_to(f, p, b),
    ensures
        p.contains(idom[b].unwrap().0 as int),
    decreases 2 * (order.len() - place(order, idom[b].unwrap().0 as int)), p.len(), 2int,
{
    let m = idom[b].unwrap();
    assert(is_stable(f, order, idom, b));
    let c = choose|c: Block| #[trigger]
        meets(f, idom, b, f.preds(b).len() as int, c) && idom[b] is Some && place(
            order,
            m.0 as int,
        ) <= place(order, c.0 as int);
    if c == m {
        lemma_met_at_parent(f, order, idom, b, p);
    } else {
        lemma_met_at_parent_only(f, order, idom, b, c, p);
    }
}

/// The ways up from the predecessors meet at the parent.
#[verifier::rlimit(40)]
proof fn lemma_met_at_parent(
    f: Function,
    order: Seq<Block>,
    idom: Seq<Option<Block>>,
    b: int,
    p: Seq<int>,
)
    requires
        is_settled(f, order, idom),
        reachable(f, b),
        b != f.entry.0,
        meets(f, idom, b, f.preds(b).len() as int, idom[b].unwrap()),
        path_to(f, p, b),
    ensures
        p.contains(idom[b].unwrap().0 as int),
    decreases 2 * (order.len() - place(order, idom[b].unwrap().0 as int)), p.len(), 1int,
{
    let m = idom[b].unwrap();
    lemma_parent(f, order, idom, b);
    assert(p.len() > 1);
    let last = p.len() - 1;
    let q = p.take(last);
    lemma_prefix(f, p, last);
    let before = p[last - 1];
    assert(edge(f, before, b));
    assert(path_to(f, q, before));
    assert(reachable(f, before));
    lemma_path_range(f, p, last - 1);
    lemma_pred_below(f, idom, b, m, before);
    lemma_climb(f, order, idom, m, q, before, before);
    let k = choose|k: int| 0 <= k < q.len() && q[k] == m.0;
    assert(p[k] == m.0);
}

/// The ways up from the predecessors do not meet behind the parent.
#[verifier::rlimit(40)]
proof fn lemma_met_at_parent_only(
    f: Function,
    order: Seq<Block>,
    idom: Seq<Option<Block>>,
    b: int,
    c: Block,
    p: Seq<int>,
)
    requires
        is_settled(f, order, idom),
        reachable(f, b),
        b != f.entry.0,
        meets(f, idom, b, f.preds(b).len() as int, c),
        place(order, idom[b].unwrap().0 as int) <= place(order, c.0 as int),
        path_to(f, p, b),
    ensures
        c == idom[b].unwrap(),
    decreases 2 * (order.len() - place(order, idom[b].unwrap().0 as int)), p.len(), 1int,
{
    let m = idom[b].unwrap();
    lemma_parent(f, order, idom, b);
    lemma_parent(f, order, idom, c.0 as int);
    lemma_place(f, order, m.0 as int);
    lemma_place(f, order, c.0 as int);
    if place(order, c.0 as int) == place(order, m.0 as int) {
        assert(c == m);
    } else if c.0 == b {
        // Up to where it comes to the block for the first time, the path would
        // hold the block twice.
        let k = lemma_first_visit(p, b);
        lemma_prefix(f, p, k + 1);
        let y = lemma_meeting(f, order, idom, b, c, p.take(k + 1));
        assert(p.take(k + 1)[y] == p[y]);
    } else {
        assert forall|r: Seq<int>| #[trigger] path_to(f, r, b) implies r.contains(c.0 as int) by {
            let y = lemma_meeting(f, order, idom, b, c, r);
        }
        assert(on_every_path(f, c.0 as int, b));
        assert(sdom(f, c.0 as int, b));
        assert(dom(f, c.0 as int, m.0 as int));
        lemma_dominator_first(f, order, c.0 as int, m.0 as int);
    }
}

/// Every path comes through where the ways up from the predecessors meet,
/// before its end.
#[verifier::rlimit(40)]
proof fn lemma_meeting(
    f: Function,
    order: Seq<Block>,
    idom: Seq<Option<Block>>,
    b: int,
    c: Block,
    r: Seq<int>,
) -> (k: int)
    requires
        is_settled(f, order, idom),
        reachable(f, b),
        b != f.entry.0,
        meets(f, idom, b, f.preds(b).len() as int, c),
        path_to(f, r, b),
    ensures
        0 <= k < r.len() - 1,
        r[k] == c.0,
    decreases 2 * (order.len() - place(order, c.0 as int)) + 1, 1int, 0int,
{
    let end = r.len() - 1;
    assert(r.len() > 1);
    lemma_prefix(f, r, end);
    let x = r[end - 1];
    assert(edge(f, x, b));
    lemma_path_range(f, r, end - 1);
    let q = r.take(end);
    assert(path_to(f, q, x));
    assert(reachable(f, x));
    lemma_pred_below(f, idom, b, c, x);
    lemma_parent(f, order, idom, c.0 as int);
    lemma_rise(f, order, idom, c, x);
    assert(q.contains(c.0 as int)) by {
        if c.0 == x {
            assert(q[end - 1] == x);
        }
    }
    choose|k: int| 0 <= k < q.len() && q[k] == c.0
}

/// Where a path comes to a block for the first time.
proof fn lemma_first_visit(p: Seq<int>, b: int) -> (k: int)
    requires
        p.len() > 0,
        p.last() == b,
        p[0] != b,
    ensures
        0 < k < p.len(),
        p[k] == b,
        forall|i: int| 0 <= i < k ==> p[i] != b,
    decreases p.len(),
{
    let less = p.drop_last();
    if less.contains(b) {
        let i = less.index_of(b);
        let q = p.take(i + 1);
        assert(q.last() == b);
        let k = lemma_first_visit(q, b);
        assert forall|j: int| 0 <= j < k implies p[j] != b by {
            assert(q[j] == p[j]);
        }
        k
    } else {
        assert forall|i: int| 0 <= i < p.len() - 1 implies p[i] != b by {
            assert(less[i] == p[i]);
        }
        p.len() - 1
    }
}

/// A meeting point lies above each predecessor.
proof fn lemma_pred_below(f: Function, idom: Seq<Option<Block>>, b: int, c: Block, p: int)
    requires
        preds_match(f),
        0 <= b < f.blocks@.len(),
        f.blocks@.len() <= u32::MAX,
        meets(f, idom, b, f.preds(b).len() as int, c),
        edge(f, p, b),
        idom[p] is Some,
    ensures
        above(idom, c, Block(p as u32)),
{
    let x = Block(p as u32);
    assert(x.0 == p);
    assert(edge(f, x.0 as int, b));
    assert(f.preds(b).contains(x));
    let k = f.preds(b).index_of(x);
    assert(f.preds(b)[k] == x);
}

/// A block above another one, if both lie behind a place from which on parents
/// dominate.
#[verifier::rlimit(40)]
proof fn lemma_rise(f: Function, order: Seq<Block>, idom: Seq<Option<Block>>, c: Block, x: int)
    requires
        is_settled(f, order, idom),
        reachable(f, x),
        reachable(f, c.0 as int),
        above(idom, c, Block(x as u32)),
    ensures
        dom(f, c.0 as int, x),
    decreases 2 * (order.len() - place(order, c.0 as int)) + 1, 0int, place(order, x),
{
    lemma_place(f, order, c.0 as int);
    lemma_place(f, order, x);
    if c.0 != x {
        let b = Block(x as u32);
        assert(b.0 == x);
        let n = choose|n: nat| up_from(idom, c, b, n);
        let next = idom[x].unwrap();
        lemma_parent(f, order, idom, x);
        assert(next != b);
        assert(up_from(idom, c, next, (n - 1) as nat));
        lemma_above_first(f, order, idom, c, next, (n - 1) as nat);
        assert(x != f.entry.0);
        assert(idom[next.0 as int] is Some);
        lemma_place(f, order, next.0 as int);
        assert(above(idom, c, Block(next.0 as int as u32)));
        lemma_rise(f, order, idom, c, next.0 as int);
        assert(on_every_path(f, next.0 as int, x)) by {
            assert forall|p: Seq<int>| #[trigger] path_to(f, p, x) implies p.contains(
                next.0 as int,
            ) by {
                if !p.contains(next.0 as int) {
                    lemma_no_detour(f, order, idom, x, p);
                }
            }
        }
        lemma_dom_trans(f, c.0 as int, next.0 as int, x);
    }
}

/// A path runs through every block above one that dominates its end.
#[verifier::rlimit(40)]
proof fn lemma_climb(
    f: Function,
    order: Seq<Block>,
    idom: Seq<Option<Block>>,
    m: Block,
    q: Seq<int>,
    end: int,
    z: int,
)
    requires
        is_settled(f, order, idom),
        path_to(f, q, end),
        reachable(f, m.0 as int),
        reachable(f, end),
        reachable(f, z),
        dom(f, z, end),
        above(idom, m, Block(z as u32)),
    ensures
        q.contains(m.0 as int),
    decreases
            2 * (order.len() - place(order, m.0 as int)),
            q.len(),
            3 + place(order, z),
{
    if !q.contains(m.0 as int) {
        lemma_place(f, order, m.0 as int);
        lemma_place(f, order, z);
        assert(q.contains(z)) by {
            if z == end {
                assert(q[q.len() - 1] == z);
            }
        }
        let k = choose|k: int| 0 <= k < q.len() && q[k] == z;
        let b = Block(z as u32);
        assert(b.0 == z);
        assert(z != m.0);
        let n = choose|n: nat| up_from(idom, m, b, n);
        let next = idom[z].unwrap();
        lemma_parent(f, order, idom, z);
        assert(next != b);
        assert(up_from(idom, m, next, (n - 1) as nat));
        assert(idom[next.0 as int] is Some);
        lemma_place(f, order, next.0 as int);
        lemma_above_first(f, order, idom, m, next, (n - 1) as nat);
        assert(z != f.entry.0);
        if next == m {
            let part = q.take(k + 1);
            lemma_prefix(f, q, k + 1);
            assert(!part.contains(m.0 as int)) by {
                if part.contains(m.0 as int) {
                    let i = choose|i: int| 0 <= i < part.len() && part[i] == m.0;
                    assert(q[i] == m.0);
                }
            }
            assert(path_to(f, part, z));
            lemma_no_detour(f, order, idom, z, part);
        } else {
            assert(on_every_path(f, next.0 as int, z)) by {
                assert forall|p: Seq<int>| #[trigger] path_to(f, p, z) implies p.contains(
                    next.0 as int,
                ) by {
                    if !p.contains(next.0 as int) {
                        lemma_no_detour(f, order, idom, z, p);
                    }
                }
            }
            lemma_dom_trans(f, next.0 as int, z, end);
            assert(above(idom, m, Block(next.0 as int as u32)));
            lemma_climb(f, order, idom, m, q, end, next.0 as int);
        }
    }
}

/// When nothing moves any more, the parents are the closest dominators.
proof fn lemma_settled_tree(f: Function, order: Seq<Block>, idom: Seq<Option<Block>>)
    requires
        is_settled(f, order, idom),
    ensures
        is_dominator_tree(f, idom),
{
    assert forall|b: int| #![trigger idom[b]] 0 <= b < idom.len() implies match idom[b] {
        None => !reachable(f, b),
        Some(d) => reachable(f, b) && if b == f.entry.0 {
            d == f.entry
        } else {
            is_idom(f, d.0 as int, b)
        },
    } by {
        if idom[b] is Some {
            lemma_parent(f, order, idom, b);
        }
        if idom[b] is Some && b != f.entry.0 {
            let d = idom[b].unwrap().0 as int;
            lemma_parent(f, order, idom, b);
            assert(on_every_path(f, d, b)) by {
                assert forall|p: Seq<int>| #[trigger] path_to(f, p, b) implies p.contains(d) by {
                    if !p.contains(d) {
                        lemma_no_detour(f, order, idom, b, p);
                    }
                }
            }
            assert(d != b);
            assert(sdom(f, d, b));
        }
    }
}

/// The dominator tree, by the iteration of Cooper, Harvey and Kennedy: in
/// reverse postorder, the parent of a block moves to where the ways up from
/// its predecessors meet, until nothing moves. The entry is listed as its own
/// dominator, and a block that cannot be reached has none.
pub fn compute_dominators(f: &Function) -> (r: Vec<Option<Block>>)
    requires
        cfg_ok(*f),
        preds_match(*f),
    ensures
        is_dominator_tree(*f, r@),
{
    let order: Vec<Block> = reverse_postorder(f);
    proof {
        lemma_order(*f);
        lemma_order_facts(*f, order@);
        lemma_order_len(*f, order@);
        lemma_entry_reachable(*f);
    }
    let numbers: IndexMap = number_order(&order);
    let mut idom: Vec<Option<Block>> = Vec::new();
    let mut i: usize = 0;
    while i < f.blocks.len()
        invariant
            i <= f.blocks@.len(),
            idom@ == Seq::new(i as nat, |j: int| None::<Block>),
        decreases f.blocks@.len() - i,
    {
        idom.push(None);
        i += 1;
    }
    idom.set(f.entry.0 as usize, Some(f.entry));
    let mut changed: bool = true;
    while changed
        invariant
            cfg_ok(*f),
            preds_match(*f),
            is_order(*f, order@),
            is_numbers(order@, numbers@),
            is_sketch(*f, order@, idom@),
            !changed ==> {
                &&& forall|i: int|
                    #![trigger order@[i]]
                    0 <= i < order@.len() ==> idom@[order@[i].0 as int] is Some
                &&& forall|i: int|
                    #![trigger order@[i]]
                    0 < i < order@.len() ==> is_stable(*f, order@, idom@, order@[i].0 as int)
            },
        decreases
                weight(order@, idom@, f.blocks@.len()),
                if changed {
                    1nat
                } else {
                    0nat
                },
    {
        changed = improve(f, &order, &numbers, &mut idom);
    }
    proof {
        assert forall|b: int| #[trigger] reachable(*f, b) implies 0 <= b < idom@.len()
            && idom@[b] is Some && (b != f.entry.0 ==> is_stable(*f, order@, idom@, b)) by {
            lemma_place(*f, order@, b);
            let k = place(order@, b);
            assert(order@[k].0 == b);
        }
        lemma_settled_tree(*f, order@, idom@);
    }
    idom
}

/// There are no more reachable blocks than blocks.
proof fn lemma_order_len(f: Function, order: Seq<Block>)
    requires
        is_order(f, order),
        f.blocks@.len() <= u32::MAX,
    ensures
        order.len() <= f.blocks@.len(),
{
    lemma_order_facts(f, order);
    let all = vstd::set_lib::set_int_range(0, f.blocks@.len() as int);
    vstd::set_lib::lemma_int_range(0, f.blocks@.len() as int);
    let numbers = order.map_values(|b: Block| b.0 as int);
    assert(numbers.no_duplicates()) by {
        assert forall|i: int, j: int|
            0 <= i < numbers.len() && 0 <= j < numbers.len() && i != j implies numbers[i]
            != numbers[j] by {
            if i < j {
                assert(order[i] != order[j]);
            } else {
                assert(order[j] != order[i]);
            }
        }
    }
    numbers.unique_seq_to_set();
    assert(numbers.to_set().subset_of(all)) by {
        assert forall|x: int| numbers.to_set().contains(x) implies all.contains(x) by {
            let i = choose|i: int| 0 <= i < numbers.len() && numbers[i] == x;
            assert(order[i].0 == x);
        }
    }
    vstd::set_lib::lemma_len_subset(numbers.to_set(), all);
}

/// `a` lies on the way up the tree from `b`, at most `steps` steps away.
pub open spec fn up_from(idom: Seq<Option<Block>>, a: Block, b: Block, steps: nat) -> bool
    decreases steps,
{
    a == b || (steps > 0 && b.0 < idom.len() && match idom[b.0 as int] {
        Some(next) => next != b && up_from(idom, a, next, (steps - 1) as nat),
        None => false,
    })
}

/// `a` lies on the way up the tree from `b`.
pub open spec fn above(idom: Seq<Option<Block>>, a: Block, b: Block) -> bool {
    exists|steps: nat| up_from(idom, a, b, steps)
}

/// Climbing the tree comes to an end: some rank falls with every step.
pub open spec fn climbs_down(idom: Seq<Option<Block>>, rank: spec_fn(Block) -> nat) -> bool {
    forall|b: Block|
        b.0 < idom.len() ==> match #[trigger] idom[b.0 as int] {
            Some(next) => next == b || rank(next) < rank(b),
            None => true,
        }
}

pub proof fn lemma_tree_climbs(f: Function, idom: Seq<Option<Block>>)
    requires
        cfg_ok(f),
        is_dominator_tree(f, idom),
    ensures
        exists|rank: spec_fn(Block) -> nat| climbs_down(idom, rank),
{
    let rank = |b: Block| dominators(f, b.0 as int).len();
    assert forall|b: Block| b.0 < idom.len() implies match #[trigger] idom[b.0 as int] {
        Some(next) => next == b || rank(next) < rank(b),
        None => true,
    } by {
        if let Some(next) = idom[b.0 as int] {
            if next != b {
                lemma_fewer_dominators(f, next.0 as int, b.0 as int);
            }
        }
    }
    assert(climbs_down(idom, rank));
}

/// Whether `a` lies on the way up the tree from `b`.
pub fn dominates(idom: &[Option<Block>], a: Block, b: Block) -> (r: bool)
    requires
        exists|rank: spec_fn(Block) -> nat| climbs_down(idom@, rank),
    ensures
        r == above(idom@, a, b),
{
    let ghost rank = choose|rank: spec_fn(Block) -> nat| climbs_down(idom@, rank);
    let mut cur: Block = b;
    while a != cur
        invariant
            climbs_down(idom@, rank),
            above(idom@, a, b) == above(idom@, a, cur),
        ensures
            a == cur,
            above(idom@, a, b) == above(idom@, a, cur),
        decreases rank(cur),
    {
        if cur.0 as usize >= idom.len() {
            assert(!above(idom@, a, cur));
            return false;
        }
        match idom[cur.0 as usize] {
            Some(next) => {
                if next == cur {
                    assert(!above(idom@, a, cur));
                    return false;
                }
                proof {
                    if above(idom@, a, cur) {
                        let n = choose|n: nat| up_from(idom@, a, cur, n);
                        assert(up_from(idom@, a, next, (n - 1) as nat));
                    }
                    if above(idom@, a, next) {
                        let n = choose|n: nat| up_from(idom@, a, next, n);
                        assert(up_from(idom@, a, cur, n + 1));
                    }
                }
                cur = next;
            },
            None => {
                assert(!above(idom@, a, cur));
                return false;
            },
        }
    }
    assert(up_from(idom@, a, cur, 0));
    true
}

/// A dominator of a reachable block is a block of the function.
proof fn lemma_dom_range(f: Function, a: int, b: int)
    requires
        cfg_ok(f),
        sdom(f, a, b),
    ensures
        0 <= a < f.blocks@.len(),
{
    let p = choose|p: Seq<int>| path_to(f, p, b);
    let i = choose|i: int| 0 <= i < p.len() && p[i] == a;
    lemma_path_range(f, p, i);
}

proof fn lemma_up_is_dom(f: Function, idom: Seq<Option<Block>>, a: Block, b: Block, steps: nat)
    requires
        cfg_ok(f),
        is_dominator_tree(f, idom),
        b.0 < f.blocks@.len(),
        up_from(idom, a, b, steps),
    ensures
        dom(f, a.0 as int, b.0 as int),
    decreases steps,
{
    if a != b {
        let next = idom[b.0 as int].unwrap();
        assert(is_idom(f, next.0 as int, b.0 as int));
        lemma_dom_range(f, next.0 as int, b.0 as int);
        lemma_up_is_dom(f, idom, a, next, (steps - 1) as nat);
        lemma_dom_trans(f, a.0 as int, next.0 as int, b.0 as int);
    }
}

proof fn lemma_dom_is_up(f: Function, idom: Seq<Option<Block>>, a: Block, b: Block)
    requires
        cfg_ok(f),
        is_dominator_tree(f, idom),
        b.0 < f.blocks@.len(),
        dom(f, a.0 as int, b.0 as int),
    ensures
        above(idom, a, b),
    decreases dominators(f, b.0 as int).len(),
{
    if a == b {
        assert(up_from(idom, a, b, 0));
    } else {
        assert(idom[b.0 as int] is Some);
        if b.0 == f.entry.0 {
            lemma_dom_of_entry(f, a.0 as int);
        } else {
            let next = idom[b.0 as int].unwrap();
            assert(sdom(f, a.0 as int, b.0 as int));
            lemma_fewer_dominators(f, next.0 as int, b.0 as int);
            let p = choose|p: Seq<int>| path_to(f, p, b.0 as int);
            let i = choose|i: int| 0 <= i < p.len() && p[i] == next.0;
            lemma_path_range(f, p, i);
            lemma_dom_is_up(f, idom, a, next);
            let n = choose|n: nat| up_from(idom, a, next, n);
            assert(next != b);
            assert(up_from(idom, a, b, n + 1));
        }
    }
}

/// In a dominator tree, to lie on the way up is to dominate.
pub proof fn lemma_tree_decides(f: Function, idom: Seq<Option<Block>>, a: Block, b: Block)
    requires
        cfg_ok(f),
        is_dominator_tree(f, idom),
        b.0 < f.blocks@.len(),
    ensures
        above(idom, a, b) == dom(f, a.0 as int, b.0 as int),
{
    if above(idom, a, b) {
        let n = choose|n: nat| up_from(idom, a, b, n);
        lemma_up_is_dom(f, idom, a, b, n);
    }
    if dom(f, a.0 as int, b.0 as int) {
        lemma_dom_is_up(f, idom, a, b);
    }
}

/// A block has one dominator tree.
pub proof fn lemma_tree_unique(f: Function, s: Seq<Option<Block>>, t: Seq<Option<Block>>)
    requires
        is_dominator_tree(f, s),
        is_dominator_tree(f, t),
    ensures
        s == t,
{
    assert forall|b: int| 0 <= b < s.len() implies s[b] == t[b] by {
        assert(s[b] is Some == t[b] is Some);
        if s[b] is Some && b != f.entry.0 {
            let d = s[b].unwrap();
            let e = t[b].unwrap();
            assert(sdom(f, d.0 as int, b));
            assert(sdom(f, e.0 as int, b));
            lemma_dom_antisym(f, d.0 as int, e.0 as int);
        }
    }
    assert(s =~= t);
}

} // verus!
