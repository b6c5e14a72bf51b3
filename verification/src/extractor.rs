//! The exhaustive extraction search: one branch per candidate node at each
//! frontier position, a cycle guard on every tentative choice, and a running
//! best result replaced only by a strictly cheaper finished branch.

use vstd::prelude::*;
use crate::cost::{
    is_scalar, lemma_op_cost_bound, lemma_sum_cost_push, op_cost, op_cost_spec, step_bound,
    sum_cost, CostModel,
};
use crate::deps::{
    deps_wf, entry_wf, lemma_distinct_bounded, lemma_distinct_bounded_excluding,
    lemma_push_no_dup, lemma_strict_subset_len, record_choice, seq_subset,
};
use crate::graph::{node_in_bound, EGraph, Node};

verus! {

broadcast use vstd::seq_lib::group_seq_properties;

/// The explicit failure: no acyclic, fully vectorized expression exists.
#[derive(Clone, Copy, PartialEq, Eq, Structural, Debug)]
pub enum ExtractError {
    NoExtractableExpression,
}

/// A finished extraction: `nodes[i]`'s children are positions `< i`, and
/// `classes[i]` is the equivalence class that `nodes[i]` realizes.
#[derive(Debug)]
pub struct BestResult {
    pub cost: u64,
    pub nodes: Vec<Node>,
    pub classes: Vec<usize>,
}

/// `out` is `cand` with each child class rewritten to a position whose entry in
/// `classes` is that child class.
pub open spec fn is_remap_of(out: Node, cand: Node, classes: Seq<usize>) -> bool {
    &&& out.op == cand.op
    &&& out.children@.len() == cand.children@.len()
    &&& forall|k: int|
        #![trigger out.children@[k]]
        0 <= k < out.children@.len() ==> (out.children@[k] as int) < classes.len()
            && classes[out.children@[k] as int] == cand.children@[k]
}

/// Entry `i` is one of the graph's own candidates for class `classes[i]`,
/// with children remapped through `classes`.
pub open spec fn selected_from(g: EGraph, classes: Seq<usize>, nodes: Seq<Node>, i: int) -> bool {
    exists|j: int|
        0 <= j < g.classes@[classes[i] as int].nodes@.len() && is_remap_of(
            nodes[i],
            g.classes@[classes[i] as int].nodes@[j],
            classes,
        )
}

/// What `find_best` promises of a returned expression: one candidate per chosen
/// class, classes distinct and rooted at `root`, every child reference strictly
/// before its parent, no scalar operation anywhere, and a cost that equals the
/// recomputed sum of the nodes' operation costs.
pub open spec fn valid_expression(g: EGraph, w: CostModel, root: usize, b: BestResult) -> bool {
    &&& b.nodes@.len() == b.classes@.len()
    &&& b.nodes@.len() >= 1
    &&& b.classes@.no_duplicates()
    &&& b.classes@.contains(root)
    &&& b.classes@[b.classes@.len() - 1] == root
    &&& forall|i: int| 0 <= i < b.classes@.len() ==> (b.classes@[i] as int) < g.classes@.len()
    &&& forall|i: int|
        0 <= i < b.nodes@.len() ==> #[trigger] selected_from(g, b.classes@, b.nodes@, i)
    &&& forall|i: int, k: int|
        0 <= i < b.nodes@.len() && 0 <= k < b.nodes@[i].children@.len() ==> (b.nodes@[i].children@[k]
            as int) < i
    &&& forall|i: int| 0 <= i < b.nodes@.len() ==> !is_scalar(b.nodes@[i].op)
    &&& b.cost as int == sum_cost(b.nodes@, w)
}

/// The class holds a candidate that is selectable on its own: not scalar and
/// without children.
pub open spec fn has_leaf_candidate(g: EGraph, class_id: usize) -> bool {
    exists|j: int|
        0 <= j < g.classes@[class_id as int].nodes@.len() && !is_scalar(
            #[trigger] g.classes@[class_id as int].nodes@[j].op,
        ) && g.classes@[class_id as int].nodes@[j].children@.len() == 0
}

/// The running best result is either still absent or a valid expression.
pub open spec fn best_inv(g: EGraph, w: CostModel, root: usize, b: Option<BestResult>) -> bool {
    match b {
        None => true,
        Some(bb) => valid_expression(g, w, root, bb),
    }
}

/// Once a result exists it never disappears and its cost never rises.
pub open spec fn best_cost_dec(old_b: Option<BestResult>, new_b: Option<BestResult>) -> bool {
    match old_b {
        None => true,
        Some(ob) => match new_b {
            None => false,
            Some(nb) => nb.cost <= ob.cost,
        },
    }
}

/// One branch's search state: the frontier lists distinct classes of the graph
/// starting at the root; positions `< deps.len()` are resolved, each with a
/// non-scalar remapped candidate whose children sit in its dependency entry;
/// the accumulated cost is the sum so far and stays below the overflow bound.
pub open spec fn state_wf(
    g: EGraph,
    w: CostModel,
    root: usize,
    frontier: Seq<usize>,
    deps: Seq<Vec<usize>>,
    chosen: Seq<Node>,
    cost: u64,
) -> bool {
    &&& g.wf()
    &&& w.wf()
    &&& frontier.no_duplicates()
    &&& frontier.len() >= 1
    &&& frontier[0] == root
    &&& forall|i: int| 0 <= i < frontier.len() ==> (frontier[i] as int) < g.classes@.len()
    &&& deps_wf(deps, frontier.len() as int)
    &&& chosen.len() == deps.len()
    &&& forall|p: int| 0 <= p < chosen.len() ==> #[trigger] selected_from(g, frontier, chosen, p)
    &&& forall|p: int| 0 <= p < chosen.len() ==> !is_scalar(chosen[p].op)
    &&& forall|p: int, k: int|
        0 <= p < chosen.len() && 0 <= k < chosen[p].children@.len() ==> deps[p]@.contains(
            chosen[p].children@[k],
        )
    &&& cost as int == sum_cost(chosen, w)
    &&& cost as int <= deps.len() * step_bound(w)
    &&& (g.classes@.len() as int) * step_bound(w) <= u64::MAX as int
    &&& deps.len() == 0 ==> frontier.len() == 1
    &&& deps.len() >= 1 ==> forall|q: usize|
        1 <= (q as int) < frontier.len() ==> deps[0]@.contains(q)
}

/// An element-for-element copy of a position vector.
fn clone_usizes(v: &Vec<usize>) -> (r: Vec<usize>)
    ensures
        r@ == v@,
{
    let mut r: Vec<usize> = Vec::new();
    let mut i: usize = 0;
    while i < v.len()
        invariant
            i <= v@.len(),
            r@ == v@.take(i as int),
        decreases v@.len() - i,
    {
        r.push(v[i]);
        proof {
            assert(v@.take(i + 1 as int) =~= v@.take(i as int).push(v@[i as int]));
        }
        i = i + 1;
    }
    proof {
        assert(v@.take(v@.len() as int) =~= v@);
    }
    r
}

/// An entry-for-entry copy of a branch's dependency map.
fn clone_dep_map(v: &Vec<Vec<usize>>) -> (r: Vec<Vec<usize>>)
    ensures
        r@.len() == v@.len(),
        forall|i: int| 0 <= i < v@.len() ==> r@[i]@ == v@[i]@,
{
    let mut r: Vec<Vec<usize>> = Vec::new();
    let mut i: usize = 0;
    while i < v.len()
        invariant
            i <= v@.len(),
            r@.len() == i,
            forall|k: int| 0 <= k < i ==> r@[k]@ == v@[k]@,
        decreases v@.len() - i,
    {
        let e = clone_usizes(&v[i]);
        r.push(e);
        i = i + 1;
    }
    r
}

/// A field-for-field copy of the chosen-node sequence.
fn clone_nodes(v: &Vec<Node>) -> (r: Vec<Node>)
    ensures
        r@.len() == v@.len(),
        forall|i: int|
            0 <= i < v@.len() ==> r@[i].op == v@[i].op && r@[i].children@ == v@[i].children@,
{
    let mut r: Vec<Node> = Vec::new();
    let mut i: usize = 0;
    while i < v.len()
        invariant
            i <= v@.len(),
            r@.len() == i,
            forall|k: int| 0 <= k < i ==> r@[k].op == v@[k].op && r@[k].children@ == v@[k].children@,
        decreases v@.len() - i,
    {
        let children = clone_usizes(&v[i].children);
        r.push(Node { op: v[i].op, children });
        i = i + 1;
    }
    r
}

/// The first frontier position already holding `id`, if any.
fn position_of(fr: &Vec<usize>, id: usize) -> (r: Option<usize>)
    ensures
        match r {
            Some(q) => (q as int) < fr@.len() && fr@[q as int] == id,
            None => !fr@.contains(id),
        },
{
    let mut i: usize = 0;
    while i < fr.len()
        invariant
            i <= fr@.len(),
            forall|j: int| 0 <= j < i ==> fr@[j] != id,
        decreases fr@.len() - i,
    {
        if fr[i] == id {
            return Some(i);
        }
        i = i + 1;
    }
    None
}

/// Sums of equal-length node sequences with equal operations are equal.
proof fn lemma_sum_cost_congruence(a: Seq<Node>, b: Seq<Node>, w: CostModel)
    requires
        a.len() == b.len(),
        forall|i: int| 0 <= i < a.len() ==> a[i].op == b[i].op,
    ensures
        sum_cost(a, w) == sum_cost(b, w),
    decreases a.len(),
{
    if a.len() > 0 {
        lemma_sum_cost_congruence(a.drop_last(), b.drop_last(), w);
    }
}

spec fn count_true(s: Seq<bool>) -> int
    decreases s.len(),
{
    if s.len() == 0 {
        0
    } else {
        count_true(s.drop_last()) + if s.last() {
            1int
        } else {
            0int
        }
    }
}

proof fn lemma_count_true_update(s: Seq<bool>, p: int)
    requires
        0 <= p < s.len(),
        !s[p],
    ensures
        count_true(s.update(p, true)) == count_true(s) + 1,
    decreases s.len(),
{
    if p == s.len() - 1 {
        assert(s.update(p, true).drop_last() =~= s.drop_last());
    } else {
        assert(s.update(p, true).drop_last() =~= s.drop_last().update(p, true));
        lemma_count_true_update(s.drop_last(), p);
    }
}

proof fn lemma_count_true_all(s: Seq<bool>)
    requires
        forall|i: int| 0 <= i < s.len() ==> s[i],
    ensures
        count_true(s) == s.len(),
    decreases s.len(),
{
    if s.len() > 0 {
        lemma_count_true_all(s.drop_last());
    }
}

/// The cost of the nodes already emitted, summed in position order.
spec fn sum_emitted(e: Seq<bool>, c: Seq<Node>, w: CostModel) -> int
    decreases e.len(),
{
    if e.len() == 0 || e.len() != c.len() {
        0
    } else {
        sum_emitted(e.drop_last(), c.drop_last(), w) + if e.last() {
            op_cost_spec(c.last().op, w)
        } else {
            0int
        }
    }
}

proof fn lemma_sum_emitted_update(e: Seq<bool>, c: Seq<Node>, w: CostModel, p: int)
    requires
        e.len() == c.len(),
        0 <= p < e.len(),
        !e[p],
    ensures
        sum_emitted(e.update(p, true), c, w) == sum_emitted(e, c, w) + op_cost_spec(c[p].op, w),
    decreases e.len(),
{
    if p == e.len() - 1 {
        assert(e.update(p, true).drop_last() =~= e.drop_last());
    } else {
        assert(e.update(p, true).drop_last() =~= e.drop_last().update(p, true));
        lemma_sum_emitted_update(e.drop_last(), c.drop_last(), w, p);
    }
}

proof fn lemma_sum_emitted_none(e: Seq<bool>, c: Seq<Node>, w: CostModel)
    requires
        e.len() == c.len(),
        forall|i: int| 0 <= i < e.len() ==> !e[i],
    ensures
        sum_emitted(e, c, w) == 0,
    decreases e.len(),
{
    if e.len() > 0 {
        lemma_sum_emitted_none(e.drop_last(), c.drop_last(), w);
    }
}

proof fn lemma_count_true_none(s: Seq<bool>)
    requires
        forall|i: int| 0 <= i < s.len() ==> !s[i],
    ensures
        count_true(s) == 0,
    decreases s.len(),
{
    if s.len() > 0 {
        lemma_count_true_none(s.drop_last());
    }
}

proof fn lemma_sum_emitted_all(e: Seq<bool>, c: Seq<Node>, w: CostModel)
    requires
        e.len() == c.len(),
        forall|i: int| 0 <= i < e.len() ==> e[i],
    ensures
        sum_emitted(e, c, w) == sum_cost(c, w),
    decreases e.len(),
{
    if e.len() > 0 {
        lemma_sum_emitted_all(e.drop_last(), c.drop_last(), w);
    }
}

/// Position `p`, once emitted, sits at output index `outpos[p]` with its class
/// recorded there, its operation kept, and every child already emitted earlier.
spec fn emit_ok(
    p: int,
    emitted: Seq<bool>,
    outpos: Seq<usize>,
    out_nodes: Seq<Node>,
    out_classes: Seq<usize>,
    frontier: Seq<usize>,
    chosen: Seq<Node>,
) -> bool {
    emitted[p] ==> {
        let i = outpos[p] as int;
        &&& i < out_nodes.len()
        &&& out_classes[i] == frontier[p]
        &&& out_nodes[i].op == chosen[p].op
        &&& out_nodes[i].children@.len() == chosen[p].children@.len()
        &&& forall|k: int|
            #![trigger chosen[p].children@[k]]
            0 <= k < chosen[p].children@.len() ==> {
                let q = chosen[p].children@[k] as int;
                &&& 0 <= q < emitted.len()
                &&& emitted[q]
                &&& (outpos[q] as int) < i
                &&& out_nodes[i].children@[k] == outpos[q]
            }
    }
}

/// Rebuilds a finished branch into bottom-up addressing. Positions are emitted
/// in rounds of growing dependency-set size; a child's set is strictly inside
/// its parent's, so every child lands at a strictly earlier output index.
fn rebuild(
    g: &EGraph,
    w: &CostModel,
    frontier: &Vec<usize>,
    deps: &Vec<Vec<usize>>,
    chosen: &Vec<Node>,
    cost: u64,
    root: Ghost<usize>,
) -> (r: (Vec<Node>, Vec<usize>))
    requires
        state_wf(*g, *w, root@, frontier@, deps@, chosen@, cost),
        deps@.len() == frontier@.len(),
    ensures
        valid_expression(*g, *w, root@, (BestResult { cost, nodes: r.0, classes: r.1 })),
{
    let n = frontier.len();
    let mut emitted: Vec<bool> = Vec::new();
    let mut outpos: Vec<usize> = Vec::new();
    let mut i: usize = 0;
    while i < n
        invariant
            i <= n,
            emitted@.len() == i,
            outpos@.len() == i,
            forall|j: int| 0 <= j < i ==> !emitted@[j],
        decreases n - i,
    {
        emitted.push(false);
        outpos.push(0);
        i = i + 1;
    }
    let mut out_nodes: Vec<Node> = Vec::new();
    let mut out_classes: Vec<usize> = Vec::new();
    let ghost mut owner: Seq<int> = Seq::empty();
    proof {
        lemma_count_true_none(emitted@);
        lemma_sum_emitted_none(emitted@, chosen@, *w);
        // the root's entry holds every other position, so it is strictly largest
        assert forall|p: int| 1 <= p < n implies #[trigger] deps@[p]@.len()
            < deps@[0]@.len() by {
            assert(deps@[0]@.contains(p as usize));
            assert(seq_subset(deps@[p]@, deps@[0]@));
            assert(entry_wf(deps@[p]@, p as usize, n as int));
            assert(entry_wf(deps@[0]@, 0, n as int));
            lemma_strict_subset_len(deps@[p]@, deps@[0]@, p as usize);
        }
    }

    let mut s: usize = 0;
    while s < n
        invariant
            s <= n,
            state_wf(*g, *w, root@, frontier@, deps@, chosen@, cost),
            deps@.len() == n,
            frontier@.len() == n,
            chosen@.len() == n,
            emitted@.len() == n,
            outpos@.len() == n,
            out_nodes@.len() == out_classes@.len(),
            forall|p: int| 1 <= p < n ==> #[trigger] deps@[p]@.len() < deps@[0]@.len(),
            emitted@[0] ==> (outpos@[0] as int) == n - 1,
            forall|p: int| 0 <= p < n ==> (emitted@[p] <==> deps@[p]@.len() < s),
            forall|p: int|
                0 <= p < n ==> #[trigger] emit_ok(
                    p,
                    emitted@,
                    outpos@,
                    out_nodes@,
                    out_classes@,
                    frontier@,
                    chosen@,
                ),
            owner.len() == out_nodes@.len(),
            forall|i2: int|
                0 <= i2 < owner.len() ==> 0 <= #[trigger] owner[i2] < n && emitted@[owner[i2]]
                    && (outpos@[owner[i2]] as int) == i2,
            out_nodes@.len() == count_true(emitted@),
            sum_cost(out_nodes@, *w) == sum_emitted(emitted@, chosen@, *w),
        decreases n - s,
    {
        let mut p: usize = 0;
        while p < n
            invariant
                p <= n,
                s < n,
                state_wf(*g, *w, root@, frontier@, deps@, chosen@, cost),
                deps@.len() == n,
                frontier@.len() == n,
                chosen@.len() == n,
                emitted@.len() == n,
                outpos@.len() == n,
                out_nodes@.len() == out_classes@.len(),
                forall|p2: int| 1 <= p2 < n ==> #[trigger] deps@[p2]@.len()
                    < deps@[0]@.len(),
                emitted@[0] ==> (outpos@[0] as int) == n - 1,
                forall|p2: int|
                    0 <= p2 < n ==> (emitted@[p2] <==> (deps@[p2]@.len() < s || (deps@[p2]@.len()
                        == s && p2 < p))),
                forall|p2: int|
                    0 <= p2 < n ==> #[trigger] emit_ok(
                        p2,
                        emitted@,
                        outpos@,
                        out_nodes@,
                        out_classes@,
                        frontier@,
                        chosen@,
                    ),
                owner.len() == out_nodes@.len(),
                forall|i2: int|
                    0 <= i2 < owner.len() ==> 0 <= #[trigger] owner[i2] < n && emitted@[owner[i2]]
                        && (outpos@[owner[i2]] as int) == i2,
                out_nodes@.len() == count_true(emitted@),
                sum_cost(out_nodes@, *w) == sum_emitted(emitted@, chosen@, *w),
            decreases n - p,
        {
            if deps[p].len() == s {
                // every child of this position was emitted in an earlier round
                proof {
                    assert(entry_wf(deps@[p as int]@, p, n as int));
                    assert forall|k: int|
                        #![trigger chosen@[p as int].children@[k]]
                        0 <= k < chosen@[p as int].children@.len() implies {
                        let q = chosen@[p as int].children@[k] as int;
                        &&& 0 <= q < n
                        &&& emitted@[q]
                        &&& (outpos@[q] as int) < out_nodes@.len()
                    } by {
                        let q = chosen@[p as int].children@[k];
                        assert(deps@[p as int]@.contains(q));
                        assert((q as int) < n);
                        assert(entry_wf(deps@[q as int]@, q, n as int));
                        assert(seq_subset(deps@[q as int]@, deps@[p as int]@));
                        lemma_strict_subset_len(deps@[q as int]@, deps@[p as int]@, q);
                        assert(emitted@[q as int]);
                        assert(emit_ok(
                            q as int,
                            emitted@,
                            outpos@,
                            out_nodes@,
                            out_classes@,
                            frontier@,
                            chosen@,
                        ));
                    }
                }
                let i_new = out_nodes.len();
                let node_children = &chosen[p].children;
                let mut cpos: Vec<usize> = Vec::new();
                let mut k: usize = 0;
                while k < node_children.len()
                    invariant
                        k <= node_children@.len(),
                        node_children@ == chosen@[p as int].children@,
                        (p as int) < chosen@.len(),
                        outpos@.len() == n,
                        emitted@.len() == n,
                        cpos@.len() == k,
                        forall|k2: int|
                            #![trigger node_children@[k2]]
                            0 <= k2 < node_children@.len() ==> {
                            let q = node_children@[k2] as int;
                            &&& 0 <= q < n
                            &&& emitted@[q]
                            &&& (outpos@[q] as int) < i_new as int
                        },
                        forall|k2: int|
                            0 <= k2 < k ==> cpos@[k2] == outpos@[node_children@[k2] as int],
                    decreases node_children@.len() - k,
                {
                    let q = node_children[k];
                    cpos.push(outpos[q]);
                    k = k + 1;
                }
                let op = chosen[p].op;
                let class_id = frontier[p];
                let ghost cposv = cpos@;
                let ghost emitted0 = emitted@;
                let ghost outpos0 = outpos@;
                let ghost out_nodes0 = out_nodes@;
                let ghost out_classes0 = out_classes@;
                proof {
                    assert(!emitted0[p as int]);
                }
                out_classes.push(class_id);
                out_nodes.push(Node { op, children: cpos });
                outpos.set(p, i_new);
                emitted.set(p, true);
                proof {
                    lemma_count_true_update(emitted0, p as int);
                    lemma_sum_emitted_update(emitted0, chosen@, *w, p as int);
                    if p == 0 {
                        // all other positions have strictly smaller entries and
                        // are already emitted, so the root lands at the top
                        assert forall|p2: int| 0 <= p2 < n && p2 != 0 implies emitted0[p2] by {
                            assert(deps@[p2]@.len() < s);
                        }
                        lemma_count_true_all(emitted0.update(0, true));
                        assert(count_true(emitted0) == n - 1);
                        assert((outpos@[0] as int) == n - 1);
                    } else {
                        assert(!emitted0[0]);
                        assert(outpos@[0] == outpos0[0]);
                    }
                    lemma_sum_cost_push(out_nodes0, out_nodes@.last(), *w);
                    // every already-emitted position is untouched; the new one fits
                    assert forall|p2: int| 0 <= p2 < n implies #[trigger] emit_ok(
                        p2,
                        emitted@,
                        outpos@,
                        out_nodes@,
                        out_classes@,
                        frontier@,
                        chosen@,
                    ) by {
                        if p2 == p as int {
                            assert(outpos@[p2] as int == i_new as int);
                            assert(out_nodes@[i_new as int].children@ == cposv);
                            assert forall|k: int|
                                #![trigger chosen@[p2].children@[k]]
                                0 <= k < chosen@[p2].children@.len() implies {
                                    let q = chosen@[p2].children@[k] as int;
                                    &&& 0 <= q < emitted@.len()
                                    &&& emitted@[q]
                                    &&& (outpos@[q] as int) < i_new as int
                                    &&& out_nodes@[i_new as int].children@[k] == outpos@[q]
                                } by {
                                let q = chosen@[p2].children@[k] as int;
                                // a position never depends on itself, so q is not p
                                assert(emitted0[q]);
                                assert(q != p2);
                                assert(outpos@[q] == outpos0[q]);
                                assert(cposv[k] == outpos0[q]);
                            }
                        } else if emitted0[p2] {
                            assert(emit_ok(
                                p2,
                                emitted0,
                                outpos0,
                                out_nodes0,
                                out_classes0,
                                frontier@,
                                chosen@,
                            ));
                            assert(outpos@[p2] == outpos0[p2]);
                            assert((outpos0[p2] as int) < out_nodes0.len());
                            assert(out_nodes@[outpos0[p2] as int] == out_nodes0[outpos0[p2] as int]);
                            assert(out_classes@[outpos0[p2] as int] == out_classes0[outpos0[p2] as int]);
                        }
                    }
                    owner = owner.push(p as int);
                    assert forall|i2: int|
                        0 <= i2 < owner.len() implies 0 <= #[trigger] owner[i2] < n
                        && emitted@[owner[i2]] && (outpos@[owner[i2]] as int) == i2 by {
                        if i2 < out_nodes0.len() {
                            assert(owner[i2] != p as int);
                        }
                    }
                }
            }
            p = p + 1;
        }
        s = s + 1;
    }

    proof {
        // after the last round nothing is left: a dependency set over `n`
        // positions that avoids its own position has fewer than `n` members
        assert forall|p: int| 0 <= p < n implies emitted@[p] by {
            assert(entry_wf(deps@[p]@, p as usize, n as int));
            lemma_distinct_bounded_excluding(deps@[p]@, n as int, p as usize);
        }
        lemma_count_true_all(emitted@);
        lemma_sum_emitted_all(emitted@, chosen@, *w);
        assert(out_nodes@.len() == n);

        // distinct classes: output indices come from distinct frontier positions
        assert forall|i1: int, i2: int|
            0 <= i1 < out_classes@.len() && 0 <= i2 < out_classes@.len() && i1 != i2 implies
            out_classes@[i1] != out_classes@[i2] by {
            let p1 = owner[i1];
            let p2 = owner[i2];
            assert(emit_ok(p1, emitted@, outpos@, out_nodes@, out_classes@, frontier@, chosen@));
            assert(emit_ok(p2, emitted@, outpos@, out_nodes@, out_classes@, frontier@, chosen@));
            assert(out_classes@[i1] == frontier@[p1]);
            assert(out_classes@[i2] == frontier@[p2]);
            assert(p1 != p2);
        }
        // the root class is in the output, at the top
        assert(emit_ok(0, emitted@, outpos@, out_nodes@, out_classes@, frontier@, chosen@));
        assert(out_classes@[outpos@[0] as int] == root@);
        assert(out_classes@.contains(root@));
        assert((outpos@[0] as int) == n - 1);
        assert(out_classes@[out_classes@.len() - 1] == root@);
        // each output node is a remapped candidate of its recorded class
        assert forall|i2: int| 0 <= i2 < out_nodes@.len() implies #[trigger] selected_from(
            *g,
            out_classes@,
            out_nodes@,
            i2,
        ) && (out_classes@[i2] as int) < g.classes@.len() && !is_scalar(out_nodes@[i2].op)
            && forall|k: int|
            0 <= k < out_nodes@[i2].children@.len() ==> (out_nodes@[i2].children@[k] as int)
                < i2 by {
            let p2 = owner[i2];
            assert(emit_ok(p2, emitted@, outpos@, out_nodes@, out_classes@, frontier@, chosen@));
            assert(selected_from(*g, frontier@, chosen@, p2));
            let j = choose|j: int|
                0 <= j < g.classes@[frontier@[p2] as int].nodes@.len() && is_remap_of(
                    chosen@[p2],
                    g.classes@[frontier@[p2] as int].nodes@[j],
                    frontier@,
                );
            let cand = g.classes@[frontier@[p2] as int].nodes@[j];
            assert forall|k: int|
                #![trigger out_nodes@[i2].children@[k]]
                0 <= k < out_nodes@[i2].children@.len() implies {
                &&& (out_nodes@[i2].children@[k] as int) < i2
                &&& (out_nodes@[i2].children@[k] as int) < out_classes@.len()
                &&& out_classes@[out_nodes@[i2].children@[k] as int] == cand.children@[k]
            } by {
                let q = chosen@[p2].children@[k] as int;
                assert(emitted@[q]);
                assert(out_nodes@[i2].children@[k] == outpos@[q]);
                assert(emit_ok(q, emitted@, outpos@, out_nodes@, out_classes@, frontier@, chosen@));
                assert(out_classes@[outpos@[q] as int] == frontier@[q]);
                assert(frontier@[q] == cand.children@[k]);
            }
            assert(is_remap_of(out_nodes@[i2], cand, out_classes@));
            assert(out_classes@[i2] == frontier@[p2]);
        }
        assert forall|i2: int| 0 <= i2 < out_classes@.len() implies (out_classes@[i2] as int)
            < g.classes@.len() by {
            let p2 = owner[i2];
            assert(emit_ok(p2, emitted@, outpos@, out_nodes@, out_classes@, frontier@, chosen@));
            assert(out_classes@[i2] == frontier@[p2]);
        }
        assert forall|i2: int| 0 <= i2 < out_nodes@.len() implies !is_scalar(
            out_nodes@[i2].op,
        ) by {
            let p2 = owner[i2];
            assert(emit_ok(p2, emitted@, outpos@, out_nodes@, out_classes@, frontier@, chosen@));
            assert(out_nodes@[i2].op == chosen@[p2].op);
        }
        assert forall|i2: int, k: int|
            0 <= i2 < out_nodes@.len() && 0 <= k < out_nodes@[i2].children@.len() implies (
        out_nodes@[i2].children@[k] as int) < i2 by {
            let p2 = owner[i2];
            assert(emit_ok(p2, emitted@, outpos@, out_nodes@, out_classes@, frontier@, chosen@));
            let q = chosen@[p2].children@[k] as int;
            assert(out_nodes@[i2].children@[k] == outpos@[q]);
            assert((outpos@[q] as int) < outpos@[p2] as int);
        }
    }
    (out_nodes, out_classes)
}

/// Widening the frontier bound preserves a well-formed dependency map.
proof fn lemma_deps_wf_widen(deps: Seq<Vec<usize>>, flen: int, flen2: int)
    requires
        deps_wf(deps, flen),
        flen <= flen2,
    ensures
        deps_wf(deps, flen2),
{
    assert forall|p: usize| (p as int) < deps.len() implies #[trigger] entry_wf(
        deps[p as int]@,
        p,
        flen2,
    ) by {
        assert(entry_wf(deps[p as int]@, p, flen));
    }
}

/// An entry-for-entry copy carries well-formedness over.
proof fn lemma_deps_wf_transfer(a: Seq<Vec<usize>>, b: Seq<Vec<usize>>, flen: int)
    requires
        a.len() == b.len(),
        forall|i: int| 0 <= i < a.len() ==> a[i]@ == b[i]@,
        deps_wf(a, flen),
    ensures
        deps_wf(b, flen),
{
    assert forall|p: usize| (p as int) < b.len() implies #[trigger] entry_wf(
        b[p as int]@,
        p,
        flen,
    ) by {
        assert(entry_wf(a[p as int]@, p, flen));
        assert(a[p as int]@ == b[p as int]@);
    }
    assert forall|p: int, q: usize|
        0 <= p < b.len() && (q as int) < b.len() && #[trigger] b[p]@.contains(q) implies seq_subset(
        b[q as int]@,
        b[p]@,
    ) by {
        assert(a[p]@.contains(q));
        assert(seq_subset(a[q as int]@, a[p]@));
        assert(a[q as int]@ == b[q as int]@);
    }
}

/// The result aggregator: compares a finished branch against the best so far
/// and keeps the strictly cheaper of the two.
fn record_best(
    g: &EGraph,
    w: &CostModel,
    frontier: &Vec<usize>,
    deps: &Vec<Vec<usize>>,
    chosen: &Vec<Node>,
    cost: u64,
    best: &mut Option<BestResult>,
    root: Ghost<usize>,
)
    requires
        state_wf(*g, *w, root@, frontier@, deps@, chosen@, cost),
        deps@.len() == frontier@.len(),
        best_inv(*g, *w, root@, *old(best)),
    ensures
        best_inv(*g, *w, root@, *final(best)),
        best_cost_dec(*old(best), *final(best)),
        *final(best) is Some,
{
    let take_it = match &*best {
        None => true,
        Some(b) => cost < b.cost,
    };
    if take_it {
        let (nodes, classes) = rebuild(g, w, frontier, deps, chosen, cost, root);
        *best = Some(BestResult { cost, nodes, classes });
    }
}

/// Resolves the class at frontier position `deps.len()`: every viable (non-
/// scalar) candidate is explored as an independent branch on private copies of
/// the state; a finished branch is offered to the running best. Exploration
/// order is deterministic, and only a strictly cheaper branch replaces the
/// best, so the first minimal-cost branch found is the one kept.
fn search_position(
    g: &EGraph,
    w: &CostModel,
    frontier: &Vec<usize>,
    deps: &Vec<Vec<usize>>,
    chosen: &Vec<Node>,
    cost: u64,
    best: &mut Option<BestResult>,
    root: Ghost<usize>,
)
    requires
        state_wf(*g, *w, root@, frontier@, deps@, chosen@, cost),
        best_inv(*g, *w, root@, *old(best)),
    ensures
        best_inv(*g, *w, root@, *final(best)),
        best_cost_dec(*old(best), *final(best)),
        deps@.len() == frontier@.len() ==> *final(best) is Some,
        (deps@.len() + 1 == frontier@.len() && has_leaf_candidate(
            *g,
            frontier@[deps@.len() as int],
        )) ==> *final(best) is Some,
        (forall|c: usize| (c as int) < g.classes@.len() ==> #[trigger] has_leaf_candidate(
            *g,
            c,
        )) ==> *final(best) is Some,
    decreases g.classes@.len() - deps@.len(),
{
    let pos = deps.len();
    if pos == frontier.len() {
        record_best(g, w, frontier, deps, chosen, cost, best, root);
        return;
    }
    let class_id = frontier[pos];
    let num = g.classes[class_id].nodes.len();
    let mut j: usize = 0;
    while j < num
        invariant
            state_wf(*g, *w, root@, frontier@, deps@, chosen@, cost),
            pos == deps@.len(),
            (pos as int) < frontier@.len(),
            class_id == frontier@[pos as int],
            (class_id as int) < g.classes@.len(),
            num == g.classes@[class_id as int].nodes@.len(),
            j <= num,
            best_inv(*g, *w, root@, *best),
            best_cost_dec(*old(best), *best),
            ((pos as int) + 1 == frontier@.len() && exists|jj: int|
                0 <= jj < j && !is_scalar(
                    #[trigger] g.classes@[class_id as int].nodes@[jj].op,
                ) && g.classes@[class_id as int].nodes@[jj].children@.len() == 0) ==> *best
                is Some,
            ((forall|c: usize| (c as int) < g.classes@.len() ==> #[trigger] has_leaf_candidate(
                *g,
                c,
            )) && exists|jj: int|
                0 <= jj < j && !is_scalar(
                    #[trigger] g.classes@[class_id as int].nodes@[jj].op,
                ) && g.classes@[class_id as int].nodes@[jj].children@.len() == 0) ==> *best
                is Some,
        decreases num - j,
    {
        let cand = &g.classes[class_id].nodes[j];
        match op_cost(cand.op, w) {
            None => {
                proof {
                    // a skipped candidate is scalar, so it is no leaf witness
                    assert(is_scalar(g.classes@[class_id as int].nodes@[j as int].op));
                }
            },
            Some(c) => {
                proof {
                    assert(node_in_bound(
                        g.classes@[class_id as int].nodes@[j as int],
                        g.classes@.len() as int,
                    ));
                    lemma_op_cost_bound(cand.op, *w);
                    lemma_distinct_bounded(frontier@, g.classes@.len() as int);
                    vstd::arithmetic::mul::lemma_mul_inequality(
                        deps@.len() as int + 1,
                        g.classes@.len() as int,
                        step_bound(*w),
                    );
                    vstd::arithmetic::mul::lemma_mul_is_distributive_add_other_way(
                        step_bound(*w),
                        deps@.len() as int,
                        1,
                    );
                }
                let new_cost = cost + c;
                let mut frontier2 = clone_usizes(frontier);
                let mut deps2 = clone_dep_map(deps);
                let chosen2 = clone_nodes(chosen);
                proof {
                    lemma_deps_wf_transfer(deps@, deps2@, frontier@.len() as int);
                    lemma_sum_cost_congruence(chosen@, chosen2@, *w);
                }
                let ghost f0 = frontier@;
                let ghost mut origin: Seq<int> = Seq::empty();
                let mut cpos: Vec<usize> = Vec::new();
                let mut k: usize = 0;
                while k < cand.children.len()
                    invariant
                        k <= cand.children@.len(),
                        node_in_bound(*cand, g.classes@.len() as int),
                        frontier2@.len() >= f0.len(),
                        frontier2@.len() <= f0.len() + k,
                        f0.len() >= 1,
                        frontier2@.take(f0.len() as int) == f0,
                        frontier2@.no_duplicates(),
                        forall|i: int|
                            0 <= i < frontier2@.len() ==> (frontier2@[i] as int)
                                < g.classes@.len(),
                        cpos@.len() == k,
                        forall|k2: int|
                            #![trigger cpos@[k2]]
                            0 <= k2 < k ==> (cpos@[k2] as int) < frontier2@.len()
                                && frontier2@[cpos@[k2] as int] == cand.children@[k2],
                        origin.len() == frontier2@.len() - f0.len(),
                        forall|m: int|
                            0 <= m < origin.len() ==> 0 <= #[trigger] origin[m] < k && (cpos@[origin[m]]
                                as int) == f0.len() + m,
                    decreases cand.children@.len() - k,
                {
                    let child = cand.children[k];
                    let ghost cpos0 = cpos@;
                    let ghost frontier20 = frontier2@;
                    match position_of(&frontier2, child) {
                        Some(q) => {
                            cpos.push(q);
                            proof {
                                assert(cpos@ == cpos0.push(q));
                                assert(frontier2@[q as int] == child);
                            }
                        },
                        None => {
                            proof {
                                lemma_push_no_dup(frontier2@, child);
                            }
                            let q = frontier2.len();
                            frontier2.push(child);
                            cpos.push(q);
                            proof {
                                origin = origin.push(k as int);
                                assert(frontier2@.take(f0.len() as int) =~= f0);
                                assert(cpos@ == cpos0.push(q));
                                assert(frontier2@ == frontier20.push(child));
                                assert(frontier2@[q as int] == child);
                            }
                        },
                    }
                    proof {
                        assert forall|k2: int| 0 <= k2 < k + 1 implies (cpos@[k2] as int)
                            < frontier2@.len() && frontier2@[cpos@[k2] as int]
                            == cand.children@[k2] by {
                            if k2 < k {
                                assert(cpos@[k2] == cpos0[k2]);
                                assert((cpos0[k2] as int) < frontier20.len());
                                assert(frontier20[cpos0[k2] as int] == cand.children@[k2]);
                                assert(frontier2@[cpos0[k2] as int] == frontier20[cpos0[k2] as int]);
                            } else {
                                assert(cpos@[k2] == cpos@[k as int]);
                                assert(cand.children@[k2] == child);
                            }
                        }
                    }
                    k = k + 1;
                }
                proof {
                    lemma_deps_wf_widen(deps2@, f0.len() as int, frontier2@.len() as int);
                }
                let ghost deps2_before = deps2@;
                let ok = record_choice(&mut deps2, &cpos, Ghost(frontier2@.len() as int));
                if ok {
                    let ghost cposv = cpos@;
                    let mut chosen3 = chosen2;
                    chosen3.push(Node { op: cand.op, children: cpos });
                    proof {
                        assert(sum_cost(chosen3@, *w) == sum_cost(chosen2@, *w) + op_cost_spec(
                            cand.op,
                            *w,
                        )) by {
                            lemma_sum_cost_push(chosen2@, chosen3@.last(), *w);
                            assert(chosen2@.push(chosen3@.last()) =~= chosen3@);
                        }
                        // the prefix of the grown frontier is the old one
                        assert forall|i: int| 0 <= i < f0.len() implies frontier2@[i] == f0[i] by {
                            assert(frontier2@.take(f0.len() as int)[i] == frontier2@[i]);
                        }
                        assert(frontier2@[0] == root@);
                        // each earlier choice is still a remapped candidate
                        assert forall|p: int| 0 <= p < chosen3@.len() implies #[trigger] selected_from(
                            *g,
                            frontier2@,
                            chosen3@,
                            p,
                        ) by {
                            if p < chosen2@.len() {
                                assert(selected_from(*g, f0, chosen@, p));
                                let j2 = choose|j2: int|
                                    0 <= j2 < g.classes@[f0[p] as int].nodes@.len() && is_remap_of(
                                        chosen@[p],
                                        g.classes@[f0[p] as int].nodes@[j2],
                                        f0,
                                    );
                                let cand2 = g.classes@[f0[p] as int].nodes@[j2];
                                assert(chosen3@[p].op == chosen@[p].op);
                                assert(chosen3@[p].children@ == chosen@[p].children@);
                                assert forall|k2: int|
                                    0 <= k2 < chosen3@[p].children@.len() implies (chosen3@[p].children@[k2]
                                    as int) < frontier2@.len()
                                    && frontier2@[chosen3@[p].children@[k2] as int]
                                    == cand2.children@[k2] by {
                                    assert(chosen3@[p].children@[k2] == chosen@[p].children@[k2]);
                                    assert((chosen@[p].children@[k2] as int) < f0.len());
                                    assert(f0[chosen@[p].children@[k2] as int]
                                        == cand2.children@[k2]);
                                    assert(frontier2@[chosen@[p].children@[k2] as int]
                                        == f0[chosen@[p].children@[k2] as int]);
                                }
                                assert(is_remap_of(chosen3@[p], cand2, frontier2@));
                                assert(frontier2@[p] == f0[p]);
                                assert(is_remap_of(
                                    chosen3@[p],
                                    g.classes@[frontier2@[p] as int].nodes@[j2],
                                    frontier2@,
                                ));
                            } else {
                                assert(p == pos as int);
                                assert(frontier2@[p] == class_id);
                                assert(chosen3@[p].op == cand.op);
                                assert(chosen3@[p].children@ == cposv);
                                assert(cposv.len() == cand.children@.len());
                                assert forall|k2: int| 0 <= k2 < cposv.len() implies (cposv[k2]
                                    as int) < frontier2@.len() && frontier2@[cposv[k2] as int]
                                    == cand.children@[k2] by {
                                    assert(cposv[k2] == cpos@[k2]);
                                }
                                assert(is_remap_of(
                                    chosen3@[p],
                                    g.classes@[frontier2@[p] as int].nodes@[j as int],
                                    frontier2@,
                                ));
                            }
                        }
                        // each choice's children are recorded as its dependencies
                        assert forall|p: int, k2: int|
                            0 <= p < chosen3@.len() && 0 <= k2 < chosen3@[p].children@.len() implies
                            deps2@[p]@.contains(chosen3@[p].children@[k2]) by {
                            if p < chosen2@.len() {
                                assert(deps@[p]@.contains(chosen@[p].children@[k2]));
                                assert(deps2_before[p]@ == deps@[p]@);
                                assert(seq_subset(deps2_before[p]@, deps2@[p]@));
                            } else {
                                assert(deps2@[pos as int]@.contains(cposv[k2]));
                            }
                        }
                        assert forall|p: int| 0 <= p < chosen3@.len() implies !is_scalar(
                            chosen3@[p].op,
                        ) by {
                            if p < chosen2@.len() {
                                assert(chosen3@[p].op == chosen@[p].op);
                            }
                        }
                        lemma_distinct_bounded(frontier2@, g.classes@.len() as int);
                        // the root's entry dominates: every later position is in it
                        assert forall|q: usize| 1 <= (q as int) < frontier2@.len() implies
                            deps2@[0]@.contains(q) by {
                            if (q as int) < f0.len() {
                                assert(deps@.len() >= 1);
                                assert(deps@[0]@.contains(q));
                                assert(deps2_before[0]@ == deps@[0]@);
                                assert(seq_subset(deps2_before[0]@, deps2@[0]@));
                            } else {
                                let m = (q as int) - f0.len();
                                assert(0 <= origin[m] < cposv.len());
                                assert((cposv[origin[m]] as int) == q as int);
                                if pos == 0 {
                                    assert(deps2@[0]@.contains(cposv[origin[m]]));
                                } else {
                                    assert(deps@[0]@.contains(pos as usize));
                                    assert(deps2_before[0]@.contains(
                                        deps2_before.len() as usize,
                                    ));
                                    assert(deps2@[0]@.contains(cposv[origin[m]]));
                                }
                            }
                        }
                        assert(state_wf(
                            *g,
                            *w,
                            root@,
                            frontier2@,
                            deps2@,
                            chosen3@,
                            new_cost,
                        ));
                    }
                    let ghost best_before = *best;
                    search_position(g, w, &frontier2, &deps2, &chosen3, new_cost, best, root);
                    proof {
                        assert(best_cost_dec(best_before, *best));
                        assert(best_cost_dec(*old(best), *best));
                        // a childless candidate at the last pending position
                        // finishes the branch, so a result now exists
                        if g.classes@[class_id as int].nodes@[j as int].children@.len() == 0
                            && (forall|c: usize| (c as int) < g.classes@.len()
                            ==> #[trigger] has_leaf_candidate(*g, c)) {
                            assert(*best is Some);
                        }
                        if (pos as int) + 1 == frontier@.len()
                            && g.classes@[class_id as int].nodes@[j as int].children@.len()
                            == 0 {
                            assert(frontier2@.len() == f0.len());
                            assert forall|i: int| 0 <= i < f0.len() implies frontier2@[i]
                                == f0[i] by {
                                assert(frontier2@.take(f0.len() as int)[i] == frontier2@[i]);
                            }
                            assert(frontier2@ =~= f0);
                            assert(frontier2@ == frontier@);
                            assert(deps2@.len() == frontier2@.len());
                            assert(*best is Some);
                        }
                    }
                } else {
                    proof {
                        // rejection needs at least one child, so this candidate
                        // is no leaf witness either
                        assert(cpos@.len() == cand.children@.len());
                        assert(g.classes@[class_id as int].nodes@[j as int].children@.len() != 0);
                    }
                }
            },
        }
        j = j + 1;
    }
    proof {
        // with a viable leaf everywhere, this class offered one, so some branch
        // above finished and recorded a result
        if forall|c: usize| (c as int) < g.classes@.len() ==> #[trigger] has_leaf_candidate(
            *g,
            c,
        ) {
            assert(has_leaf_candidate(*g, class_id));
        }
    }
}

/// Extracts the single cheapest acyclic, fully vectorized expression for the
/// class `root`, or fails explicitly when no such expression exists.
///
/// The search is exhaustive and deterministic: candidates are explored in a
/// fixed order and a finished branch replaces the running best only when
/// strictly cheaper, so rerunning on an unchanged graph returns the identical
/// result, and among several minimum-cost expressions the first one in
/// exploration order is kept.
pub fn find_best(egraph: &EGraph, root: usize, weights: &CostModel) -> (r: Result<
    BestResult,
    ExtractError,
>)
    requires
        egraph.wf(),
        weights.wf(),
        (root as int) < egraph.classes@.len(),
        (egraph.classes@.len() as int) * step_bound(*weights) <= u64::MAX as int,
    ensures
        match r {
            Ok(b) => valid_expression(*egraph, *weights, root, b),
            Err(e) => e == ExtractError::NoExtractableExpression,
        },
        has_leaf_candidate(*egraph, root) ==> r is Ok,
        (forall|c: usize| (c as int) < egraph.classes@.len() ==> #[trigger] has_leaf_candidate(
            *egraph,
            c,
        )) ==> r is Ok,
        (forall|j: int|
            0 <= j < egraph.classes@[root as int].nodes@.len() ==> is_scalar(
                #[trigger] egraph.classes@[root as int].nodes@[j].op,
            )) ==> r is Err,
{
    let mut frontier: Vec<usize> = Vec::new();
    frontier.push(root);
    let deps: Vec<Vec<usize>> = Vec::new();
    let chosen: Vec<Node> = Vec::new();
    let mut best: Option<BestResult> = None;
    proof {
        assert(state_wf(*egraph, *weights, root, frontier@, deps@, chosen@, 0));
    }
    search_position(egraph, weights, &frontier, &deps, &chosen, 0, &mut best, Ghost(root));
    match best {
        Some(b) => {
            proof {
                // any result realizes the root by one of its own non-scalar
                // candidates, so the root class offered a non-scalar one
                let i = b.classes@.len() - 1;
                assert(selected_from(*egraph, b.classes@, b.nodes@, i));
                let j = choose|j: int|
                    0 <= j < egraph.classes@[root as int].nodes@.len() && is_remap_of(
                        b.nodes@[i],
                        egraph.classes@[root as int].nodes@[j],
                        b.classes@,
                    );
                assert(!is_scalar(b.nodes@[i].op));
                assert(!is_scalar(egraph.classes@[root as int].nodes@[j].op));
            }
            Ok(b)
        },
        None => Err(ExtractError::NoExtractableExpression),
    }
}

/// Every viable (non-scalar) candidate of `a` carries `b` among its children.
pub open spec fn every_viable_needs(g: EGraph, a: usize, b: usize) -> bool {
    forall|j: int|
        0 <= j < g.classes@[a as int].nodes@.len() && !is_scalar(
            #[trigger] g.classes@[a as int].nodes@[j].op,
        ) ==> exists|k: int|
            0 <= k < g.classes@[a as int].nodes@[j].children@.len()
                && g.classes@[a as int].nodes@[j].children@[k] == b
}

/// In a valid expression, any position realizing class `a` (where every viable
/// candidate of `a` needs class `b`) has an earlier position realizing `b`.
proof fn lemma_needed_class_precedes(
    g: EGraph,
    w: CostModel,
    root: usize,
    b: BestResult,
    a: usize,
    nb: usize,
    i: int,
)
    requires
        valid_expression(g, w, root, b),
        every_viable_needs(g, a, nb),
        0 <= i < b.classes@.len(),
        b.classes@[i] == a,
    ensures
        exists|i2: int| 0 <= i2 < i && #[trigger] b.classes@[i2] == nb,
{
    assert(selected_from(g, b.classes@, b.nodes@, i));
    let j = choose|j: int|
        0 <= j < g.classes@[a as int].nodes@.len() && is_remap_of(
            b.nodes@[i],
            g.classes@[a as int].nodes@[j],
            b.classes@,
        );
    let cand = g.classes@[a as int].nodes@[j];
    assert(!is_scalar(b.nodes@[i].op));
    assert(!is_scalar(cand.op));
    let k = choose|k: int| 0 <= k < cand.children@.len() && cand.children@[k] == nb;
    assert(b.nodes@[i].children@[k] == b.nodes@[i].children@[k]);
    let i2 = b.nodes@[i].children@[k] as int;
    assert(b.classes@[i2] == nb);
    assert(0 <= i2 < i);
}

/// A mutual dependency between two classes (every viable candidate of `root`
/// needs `other`, and every viable candidate of `other` needs `root`) admits
/// no valid expression, so an outcome meeting `find_best`'s contract can only
/// be the explicit failure.
pub proof fn lemma_mutual_dependency_is_rejected(
    g: EGraph,
    w: CostModel,
    root: usize,
    other: usize,
    r: Result<BestResult, ExtractError>,
)
    requires
        every_viable_needs(g, root, other),
        every_viable_needs(g, other, root),
        match r {
            Ok(b) => valid_expression(g, w, root, b),
            Err(e) => e == ExtractError::NoExtractableExpression,
        },
    ensures
        r is Err,
{
    if let Ok(b) = r {
        assert(b.classes@.contains(root));
        let i0 = choose|i0: int| 0 <= i0 < b.classes@.len() && b.classes@[i0] == root;
        lemma_needed_class_precedes(g, w, root, b, root, other, i0);
        let i1 = choose|i1: int| 0 <= i1 < i0 && #[trigger] b.classes@[i1] == other;
        lemma_needed_class_precedes(g, w, root, b, other, root, i1);
        let i2 = choose|i2: int| 0 <= i2 < i1 && #[trigger] b.classes@[i2] == root;
        // two positions realizing the root class must coincide, which they cannot
        assert(b.classes@[i2] == b.classes@[i0]);
        assert(i2 == i0);
        assert(false);
    }
}

} // verus!
