//! The target graph and the recipe compiler.
use vstd::prelude::*;

use crate::target::Target;

verus! {

/// `v` is a direct predecessor (an input) of `u`.
pub open spec fn edge(preds: Seq<Seq<usize>>, u: usize, v: usize) -> bool {
    u < preds.len() && preds[u as int].contains(v)
}

/// A walk along predecessor edges: each element is an input of the one
/// before it.
pub open spec fn is_chain(preds: Seq<Seq<usize>>, c: Seq<usize>) -> bool {
    &&& c.len() >= 1
    &&& forall|i: int| 0 <= i < c.len() - 1 ==> #[trigger] edge(preds, c[i], c[i + 1])
}

/// `v` is `u` or one of its transitive predecessors.
pub open spec fn depends_on(preds: Seq<Seq<usize>>, u: usize, v: usize) -> bool {
    exists|c: Seq<usize>| is_chain(preds, c) && c[0] == u && c.last() == v
}

/// `v` belongs to the transitive predecessor closure of the requests,
/// the requests included.
pub open spec fn in_closure(preds: Seq<Seq<usize>>, reqs: Seq<usize>, v: usize) -> bool {
    exists|i: int| 0 <= i < reqs.len() && depends_on(preds, #[trigger] reqs[i], v)
}

/// A directed cycle: a chain whose last element has the first as an input.
pub open spec fn is_cycle(preds: Seq<Seq<usize>>, c: Seq<usize>) -> bool {
    is_chain(preds, c) && edge(preds, c.last(), c[0])
}

/// Some cycle passes through the closure of the requests.
pub open spec fn closure_has_cycle(preds: Seq<Seq<usize>>, reqs: Seq<usize>) -> bool {
    exists|c: Seq<usize>| is_cycle(preds, c) && in_closure(preds, reqs, c[0])
}

/// Every input of an element of `order` comes earlier in it.
pub open spec fn is_topological(preds: Seq<Seq<usize>>, order: Seq<usize>) -> bool {
    forall|i: int, p: usize|
        0 <= i < order.len() && #[trigger] edge(preds, order[i], p) ==> exists|j: int|
            0 <= j < i && #[trigger] order[j] == p
}

/// How many entries of `m` are zero.
pub open spec fn count_zero(m: Seq<u8>) -> nat
    decreases m.len(),
{
    if m.len() == 0 {
        0
    } else {
        count_zero(m.drop_last()) + if m.last() == 0 {
            1nat
        } else {
            0nat
        }
    }
}

proof fn lemma_count_zero_mono(a: Seq<u8>, b: Seq<u8>)
    requires
        a.len() == b.len(),
        forall|i: int| 0 <= i < a.len() && a[i] != 0 ==> b[i] != 0,
    ensures
        count_zero(b) <= count_zero(a),
        (exists|n: int| 0 <= n < a.len() && a[n] == 0 && b[n] != 0) ==> count_zero(b) < count_zero(
            a,
        ),
    decreases a.len(),
{
    if a.len() > 0 {
        let a2 = a.drop_last();
        let b2 = b.drop_last();
        assert forall|i: int| 0 <= i < a2.len() && a2[i] != 0 implies b2[i] != 0 by {
            assert(a2[i] == a[i] && b2[i] == b[i]);
        }
        lemma_count_zero_mono(a2, b2);
        if exists|n: int| 0 <= n < a.len() && a[n] == 0 && b[n] != 0 {
            let n = choose|n: int| 0 <= n < a.len() && a[n] == 0 && b[n] != 0;
            if n < a.len() - 1 {
                assert(a2[n] == 0 && b2[n] != 0);
            }
        }
    }
}

proof fn lemma_extend_dependency(preds: Seq<Seq<usize>>, u: usize, v: usize, w: usize)
    requires
        depends_on(preds, u, v),
        edge(preds, v, w),
    ensures
        depends_on(preds, u, w),
{
    let c = choose|c: Seq<usize>| is_chain(preds, c) && c[0] == u && c.last() == v;
    let c2 = c.push(w);
    assert forall|i: int| 0 <= i < c2.len() - 1 implies #[trigger] edge(preds, c2[i], c2[i + 1]) by {
        if i < c.len() - 1 {
            assert(c2[i] == c[i] && c2[i + 1] == c[i + 1]);
        }
    }
    assert(is_chain(preds, c2) && c2[0] == u && c2.last() == w);
}

proof fn lemma_closure_step(preds: Seq<Seq<usize>>, reqs: Seq<usize>, v: usize, w: usize)
    requires
        in_closure(preds, reqs, v),
        edge(preds, v, w),
    ensures
        in_closure(preds, reqs, w),
{
    let i = choose|i: int| 0 <= i < reqs.len() && depends_on(preds, #[trigger] reqs[i], v);
    lemma_extend_dependency(preds, reqs[i], v, w);
}

proof fn lemma_request_in_closure(preds: Seq<Seq<usize>>, reqs: Seq<usize>, i: int)
    requires
        0 <= i < reqs.len(),
    ensures
        in_closure(preds, reqs, reqs[i]),
{
    let c = seq![reqs[i]];
    assert(is_chain(preds, c) && c[0] == reqs[i] && c.last() == reqs[i]);
    assert(depends_on(preds, reqs[i], reqs[i]));
}

/// The state of the depth-first walk: 0 unvisited, 1 on the stack, 2 done.
pub open spec fn dfs_inv(
    preds: Seq<Seq<usize>>,
    reqs: Seq<usize>,
    marks: Seq<u8>,
    stack: Seq<usize>,
    order: Seq<usize>,
) -> bool {
    &&& marks.len() == preds.len()
    &&& forall|v: int| 0 <= v < marks.len() ==> #[trigger] marks[v] <= 2
    &&& forall|v: usize| v < marks.len() ==> (marks[v as int] == 1 <==> #[trigger] stack.contains(v))
    &&& forall|v: usize| v < marks.len() ==> (marks[v as int] == 2 <==> #[trigger] order.contains(v))
    &&& forall|k: int| 0 <= k < stack.len() ==> #[trigger] stack[k] < marks.len()
    &&& forall|k: int| 0 <= k < order.len() ==> #[trigger] order[k] < marks.len()
    &&& order.no_duplicates()
    &&& is_topological(preds, order)
    &&& stack.len() > 0 ==> is_chain(preds, stack)
    &&& forall|k: int| 0 <= k < stack.len() ==> in_closure(preds, reqs, #[trigger] stack[k])
    &&& forall|k: int| 0 <= k < order.len() ==> in_closure(preds, reqs, #[trigger] order[k])
}

/// Every node reachable from a request lies in `order` when `order` holds
/// the requests and is closed under inputs.
proof fn lemma_chain_in_order(preds: Seq<Seq<usize>>, order: Seq<usize>, c: Seq<usize>, i: int)
    requires
        is_topological(preds, order),
        is_chain(preds, c),
        order.contains(c[0]),
        0 <= i < c.len(),
    ensures
        order.contains(c[i]),
    decreases i,
{
    if i > 0 {
        lemma_chain_in_order(preds, order, c, i - 1);
        let x = choose|x: int| 0 <= x < order.len() && order[x] == c[i - 1];
        let k = i - 1;
        assert(edge(preds, c[k], c[k + 1]));
        assert(k + 1 == i);
        assert(edge(preds, order[x], c[i]));
        let j = choose|j: int| 0 <= j < x && #[trigger] order[j] == c[i];
    }
}

proof fn lemma_order_covers_closure(preds: Seq<Seq<usize>>, reqs: Seq<usize>, order: Seq<usize>)
    requires
        is_topological(preds, order),
        forall|k: int| 0 <= k < reqs.len() ==> order.contains(#[trigger] reqs[k]),
    ensures
        forall|v: usize| in_closure(preds, reqs, v) ==> #[trigger] order.contains(v),
{
    assert forall|v: usize| in_closure(preds, reqs, v) implies #[trigger] order.contains(v) by {
        let i = choose|i: int| 0 <= i < reqs.len() && depends_on(preds, #[trigger] reqs[i], v);
        let c = choose|c: Seq<usize>| is_chain(preds, c) && c[0] == reqs[i] && c.last() == v;
        lemma_chain_in_order(preds, order, c, c.len() - 1);
    }
}

proof fn lemma_cycle_descends(preds: Seq<Seq<usize>>, order: Seq<usize>, c: Seq<usize>, x0: int, i: int)
    requires
        is_topological(preds, order),
        is_chain(preds, c),
        0 <= x0 < order.len(),
        order[x0] == c[0],
        0 <= i < c.len(),
    ensures
        exists|x: int| 0 <= x <= x0 - i && order[x] == c[i],
    decreases i,
{
    if i > 0 {
        lemma_cycle_descends(preds, order, c, x0, i - 1);
        let x = choose|x: int| 0 <= x <= x0 - (i - 1) && order[x] == c[i - 1];
        let k = i - 1;
        assert(edge(preds, c[k], c[k + 1]));
        assert(k + 1 == i);
        assert(edge(preds, order[x], c[i]));
        let j = choose|j: int| 0 <= j < x && #[trigger] order[j] == c[i];
        assert(0 <= j <= x0 - i && order[j] == c[i]);
    }
}

/// A topological order that holds the whole closure leaves no room for a
/// cycle in it.
pub proof fn lemma_topological_closure_is_acyclic(
    preds: Seq<Seq<usize>>,
    reqs: Seq<usize>,
    order: Seq<usize>,
)
    requires
        is_topological(preds, order),
        order.no_duplicates(),
        forall|v: usize| in_closure(preds, reqs, v) ==> #[trigger] order.contains(v),
    ensures
        !closure_has_cycle(preds, reqs),
{
    if closure_has_cycle(preds, reqs) {
        let c = choose|c: Seq<usize>| is_cycle(preds, c) && in_closure(preds, reqs, c[0]);
        assert(order.contains(c[0]));
        let x0 = choose|x: int| 0 <= x < order.len() && order[x] == c[0];
        lemma_cycle_descends(preds, order, c, x0, c.len() - 1);
        let x = choose|x: int| 0 <= x <= x0 - (c.len() - 1) && order[x] == c[c.len() - 1];
        assert(edge(preds, order[x], c[0]));
        let j = choose|j: int| 0 <= j < x && #[trigger] order[j] == c[0];
        assert(order[j] == order[x0]);
    }
}

proof fn lemma_chain_suffix(preds: Seq<Seq<usize>>, c: Seq<usize>, k: int)
    requires
        is_chain(preds, c),
        0 <= k < c.len(),
    ensures
        is_chain(preds, c.subrange(k, c.len() as int)),
{
    let s = c.subrange(k, c.len() as int);
    assert forall|i: int| 0 <= i < s.len() - 1 implies #[trigger] edge(preds, s[i], s[i + 1]) by {
        assert(s[i] == c[k + i] && s[i + 1] == c[(k + i) + 1]);
    }
}

proof fn lemma_chain_prefix(preds: Seq<Seq<usize>>, c: Seq<usize>, k: int)
    requires
        is_chain(preds, c),
        1 <= k <= c.len(),
    ensures
        is_chain(preds, c.subrange(0, k)),
{
    let s = c.subrange(0, k);
    assert forall|i: int| 0 <= i < s.len() - 1 implies #[trigger] edge(preds, s[i], s[i + 1]) by {
        assert(s[i] == c[i] && s[i + 1] == c[i + 1]);
    }
}

/// The elements of `v` from the first occurrence of `x` on.
fn suffix_from(v: &Vec<usize>, x: usize) -> (r: Vec<usize>)
    requires
        v@.contains(x),
    ensures
        r@.len() >= 1,
        r@[0] == x,
        exists|k: int| 0 <= k < v@.len() && r@ == v@.subrange(k, v@.len() as int),
{
    let mut k: usize = 0;
    while k < v.len() && v[k] != x
        invariant
            k <= v.len(),
            v@.contains(x),
            forall|i: int| 0 <= i < k ==> v@[i] != x,
        decreases v.len() - k,
    {
        k = k + 1;
    }
    if k == v.len() {
        proof {
            let i = choose|i: int| 0 <= i < v@.len() && v@[i] == x;
        }
    }
    let mut r: Vec<usize> = Vec::new();
    let mut i: usize = k;
    while i < v.len()
        invariant
            k <= i <= v.len(),
            k < v.len(),
            v@[k as int] == x,
            r@ == v@.subrange(k as int, i as int),
        decreases v.len() - i,
    {
        r.push(v[i]);
        proof {
            assert(r@ =~= v@.subrange(k as int, i + 1));
        }
        i = i + 1;
    }
    r
}

/// How many entries of `s` are false.
pub open spec fn count_false(s: Seq<bool>) -> nat
    decreases s.len(),
{
    if s.len() == 0 {
        0
    } else {
        count_false(s.drop_last()) + if s.last() {
            0nat
        } else {
            1nat
        }
    }
}

proof fn lemma_count_false_set(s: Seq<bool>, i: int)
    requires
        0 <= i < s.len(),
        !s[i],
    ensures
        count_false(s.update(i, true)) + 1 == count_false(s),
    decreases s.len(),
{
    let t = s.update(i, true);
    if i < s.len() - 1 {
        assert(t.drop_last() =~= s.drop_last().update(i, true));
        lemma_count_false_set(s.drop_last(), i);
    } else {
        assert(t.drop_last() =~= s.drop_last());
    }
}

/// Every input of an element of `s` is in `s`.
pub open spec fn is_closed(preds: Seq<Seq<usize>>, s: Seq<usize>) -> bool {
    forall|i: int, p: usize| 0 <= i < s.len() && #[trigger] edge(preds, s[i], p) ==> s.contains(p)
}

proof fn lemma_chain_in_closed(preds: Seq<Seq<usize>>, s: Seq<usize>, c: Seq<usize>, i: int)
    requires
        is_closed(preds, s),
        is_chain(preds, c),
        s.contains(c[0]),
        0 <= i < c.len(),
    ensures
        s.contains(c[i]),
    decreases i,
{
    if i > 0 {
        lemma_chain_in_closed(preds, s, c, i - 1);
        let x = choose|x: int| 0 <= x < s.len() && s[x] == c[i - 1];
        let k = i - 1;
        assert(edge(preds, c[k], c[k + 1]));
        assert(edge(preds, s[x], c[i]));
    }
}

proof fn lemma_closed_covers_closure(preds: Seq<Seq<usize>>, reqs: Seq<usize>, s: Seq<usize>)
    requires
        is_closed(preds, s),
        forall|k: int| 0 <= k < reqs.len() ==> s.contains(#[trigger] reqs[k]),
    ensures
        forall|v: usize| in_closure(preds, reqs, v) ==> #[trigger] s.contains(v),
{
    assert forall|v: usize| in_closure(preds, reqs, v) implies #[trigger] s.contains(v) by {
        let i = choose|i: int| 0 <= i < reqs.len() && depends_on(preds, #[trigger] reqs[i], v);
        let c = choose|c: Seq<usize>| is_chain(preds, c) && c[0] == reqs[i] && c.last() == v;
        lemma_chain_in_closed(preds, s, c, c.len() - 1);
    }
}

/// The nodes `k` steps of inputs away from the requests: the requests
/// themselves, then their inputs, then those inputs' inputs, and so on.
pub open spec fn layer(preds: Seq<Seq<usize>>, outs: Seq<usize>, k: nat) -> Set<usize>
    decreases k,
{
    if k == 0 {
        outs.to_set()
    } else {
        Set::new(|p: usize| exists|v: usize| layer(preds, outs, (k - 1) as nat).contains(v) && edge(preds, v, p))
    }
}

/// Every input names a node.
pub open spec fn edges_in_range(preds: Seq<Seq<usize>>) -> bool {
    forall|u: usize, p: usize| #[trigger] edge(preds, u, p) ==> p < preds.len()
}

/// The state of the closure search: `seen` marks what `result` holds,
/// everything found lies in the closure, and every found node whose inputs
/// have all been looked at (it is not in `work`, nor `open`) has its inputs
/// found.
pub open spec fn deps_inv(
    preds: Seq<Seq<usize>>,
    reqs: Seq<usize>,
    seen: Seq<bool>,
    result: Seq<usize>,
    work: Seq<usize>,
    open: Option<usize>,
) -> bool {
    &&& seen.len() == preds.len()
    &&& forall|v: usize| v < seen.len() ==> (seen[v as int] <==> #[trigger] result.contains(v))
    &&& forall|k: int| 0 <= k < result.len() ==> #[trigger] result[k] < seen.len()
    &&& result.no_duplicates()
    &&& forall|k: int| 0 <= k < work.len() ==> result.contains(#[trigger] work[k])
    &&& forall|k: int| 0 <= k < result.len() ==> in_closure(preds, reqs, #[trigger] result[k])
    &&& forall|i: int, p: usize|
        0 <= i < result.len() && #[trigger] edge(preds, result[i], p) && !work.contains(result[i])
            && open != Some(result[i]) ==> seen[p as int]
}

proof fn lemma_discover(
    preds: Seq<Seq<usize>>,
    reqs: Seq<usize>,
    seen: Seq<bool>,
    result: Seq<usize>,
    work: Seq<usize>,
    open: Option<usize>,
    x: usize,
)
    requires
        deps_inv(preds, reqs, seen, result, work, open),
        edges_in_range(preds),
        x < seen.len(),
        !seen[x as int],
        in_closure(preds, reqs, x),
    ensures
        deps_inv(preds, reqs, seen.update(x as int, true), result.push(x), work.push(x), open),
{
    let s2 = seen.update(x as int, true);
    let r2 = result.push(x);
    let w2 = work.push(x);
    lemma_push_contains(result, x);
    lemma_push_contains(work, x);
    assert(!result.contains(x));
    assert forall|k: int| 0 <= k < w2.len() implies r2.contains(#[trigger] w2[k]) by {
        if k < work.len() {
            assert(w2[k] == work[k]);
        }
    }
    assert forall|k: int| 0 <= k < r2.len() implies in_closure(preds, reqs, #[trigger] r2[k]) by {
        if k < result.len() {
            assert(r2[k] == result[k]);
        }
    }
    assert forall|k: int| 0 <= k < r2.len() implies #[trigger] r2[k] < s2.len() by {
        if k < result.len() {
            assert(r2[k] == result[k]);
        }
    }
    assert forall|i: int, p: usize|
        0 <= i < r2.len() && #[trigger] edge(preds, r2[i], p) && !w2.contains(r2[i]) && open != Some(
            r2[i],
        ) implies s2[p as int] by {
        if i < result.len() {
            assert(r2[i] == result[i]);
            assert(seen[p as int]);
        }
    }
}

/// Why a recipe could not be compiled.
#[derive(Debug, PartialEq, Eq, Clone)]
pub enum CompileError {
    /// A requested identifier names no node.
    UnknownTarget(usize),
    /// These nodes form a cycle: each has the next as an input, and the last
    /// has the first.
    Cycle(Vec<usize>),
}

/// The compiled plan for one run.
#[derive(Debug, Clone)]
pub struct Recipe {
    /// The requested nodes, each once.
    pub outputs: Vec<usize>,
    /// The nodes of the closure that have no inputs in the graph.
    pub inputs: Vec<usize>,
    /// Every node to evaluate, each once, inputs before the nodes that use
    /// them.
    pub order: Vec<usize>,
}

/// What a compiled recipe holds for the requests `reqs`.
pub open spec fn recipe_spec(preds: Seq<Seq<usize>>, reqs: Seq<usize>, rec: Recipe) -> bool {
    &&& rec.order@.no_duplicates()
    &&& forall|k: int| 0 <= k < rec.order@.len() ==> #[trigger] rec.order@[k] < preds.len()
    &&& forall|v: usize| #[trigger] rec.order@.contains(v) <==> in_closure(preds, reqs, v)
    &&& is_topological(preds, rec.order@)
    &&& rec.inputs@.no_duplicates()
    &&& forall|v: usize| #[trigger] rec.inputs@.contains(v) <==> (in_closure(preds, reqs, v)
        && preds[v as int].len() == 0)
    &&& rec.outputs@.no_duplicates()
    &&& forall|v: usize| #[trigger] rec.outputs@.contains(v) <==> reqs.contains(v)
}

/// Targets keyed by dense identifiers, each with its list of inputs.
#[derive(Debug)]
pub struct Graph {
    pub targets: Vec<Target>,
    pub preds: Vec<Vec<usize>>,
}

pub proof fn lemma_push_contains(s: Seq<usize>, y: usize)
    ensures
        forall|x: usize| #[trigger] s.push(y).contains(x) <==> (s.contains(x) || x == y),
{
    assert forall|x: usize| #[trigger] s.push(y).contains(x) <==> (s.contains(x) || x == y) by {
        if s.contains(x) {
            let i = choose|i: int| 0 <= i < s.len() && s[i] == x;
            assert(s.push(y)[i] == x);
        }
        if x == y {
            assert(s.push(y)[s.len() as int] == x);
        }
        if s.push(y).contains(x) {
            let i = choose|i: int| 0 <= i < s.len() + 1 && s.push(y)[i] == x;
            if i < s.len() {
                assert(s[i] == x);
            }
        }
    }
}

fn vec_contains(v: &Vec<usize>, x: usize) -> (r: bool)
    ensures
        r == v@.contains(x),
{
    let mut i: usize = 0;
    while i < v.len()
        invariant
            i <= v.len(),
            forall|k: int| 0 <= k < i ==> v@[k] != x,
        decreases v.len() - i,
    {
        if v[i] == x {
            return true;
        }
        i = i + 1;
    }
    false
}

/// The elements of `v`, each once, in order of first appearance.
pub fn dedup(v: &Vec<usize>) -> (r: Vec<usize>)
    ensures
        r@.no_duplicates(),
        forall|x: usize| r@.contains(x) <==> v@.contains(x),
{
    let mut r: Vec<usize> = Vec::new();
    let mut i: usize = 0;
    while i < v.len()
        invariant
            i <= v.len(),
            r@.no_duplicates(),
            forall|x: usize| r@.contains(x) <==> v@.take(i as int).contains(x),
        decreases v.len() - i,
    {
        let x = v[i];
        let mut present = false;
        let mut j: usize = 0;
        while j < r.len()
            invariant
                j <= r.len(),
                present <==> r@.take(j as int).contains(x),
            decreases r.len() - j,
        {
            proof {
                assert(r@.take(j + 1) =~= r@.take(j as int).push(r@[j as int]));
                lemma_push_contains(r@.take(j as int), r@[j as int]);
            }
            if r[j] == x {
                present = true;
            }
            j = j + 1;
        }
        proof {
            assert(r@.take(j as int) =~= r@);
            assert(v@.take(i + 1) =~= v@.take(i as int).push(x));
            lemma_push_contains(v@.take(i as int), x);
            lemma_push_contains(r@, x);
        }
        if !present {
            r.push(x);
        }
        i = i + 1;
    }
    proof {
        assert(v@.take(i as int) =~= v@);
    }
    r
}

impl Graph {
    /// The input lists, as sequences.
    pub open spec fn pv(&self) -> Seq<Seq<usize>> {
        self.preds@.map_values(|v: Vec<usize>| v@)
    }

    pub open spec fn wf(&self) -> bool {
        &&& self.preds@.len() == self.targets@.len()
        &&& forall|u: int, k: int|
            0 <= u < self.preds@.len() && 0 <= k < self.preds@[u]@.len() ==> (
            #[trigger] self.preds@[u]@[k]) < self.targets@.len()
        &&& forall|u: int| 0 <= u < self.preds@.len() ==> (#[trigger] self.preds@[u]@).no_duplicates()
        &&& forall|u: int, w: int|
            0 <= u < self.targets@.len() && 0 <= w < self.targets@.len() && u != w ==> (
            #[trigger] self.targets@[u]).path@ != (#[trigger] self.targets@[w]).path@
        &&& forall|u: int| 0 <= u < self.targets@.len() ==> (#[trigger] self.targets@[u]).wf()
    }

    pub proof fn lemma_edges_in_range(&self)
        requires
            self.wf(),
        ensures
            edges_in_range(self.pv()),
            self.pv().len() == self.targets@.len(),
    {
        assert forall|u: usize, p: usize| #[trigger] edge(self.pv(), u, p) implies p
            < self.pv().len() by {
            let k = choose|k: int| 0 <= k < self.pv()[u as int].len() && self.pv()[u as int][k] == p;
            assert(self.preds@[u as int]@[k] == p);
        }
    }

    /// An empty graph.
    pub fn new() -> (r: Graph)
        ensures
            r.wf(),
            r.targets@.len() == 0,
    {
        Graph { targets: Vec::new(), preds: Vec::new() }
    }

    /// The number of nodes.
    pub fn len(&self) -> (r: usize)
        ensures
            r == self.targets@.len(),
    {
        self.targets.len()
    }

    /// The node with identifier `i`, if there is one.
    pub fn get(&self, i: usize) -> (r: Option<&Target>)
        ensures
            i < self.targets@.len() ==> r == Some(&self.targets@[i as int]),
            i >= self.targets@.len() ==> r is None,
    {
        if i < self.targets.len() {
            Some(&self.targets[i])
        } else {
            None
        }
    }

    /// The inputs of node `i`, if there is such a node.
    pub fn inputs_of(&self, i: usize) -> (r: Option<&Vec<usize>>)
        ensures
            i < self.preds@.len() ==> r == Some(&self.preds@[i as int]),
            i >= self.preds@.len() ==> r is None,
    {
        if i < self.preds.len() {
            Some(&self.preds[i])
        } else {
            None
        }
    }

    /// The identifier of the node whose path is `path`.
    pub fn get_index(&self, path: &str) -> (r: Option<usize>)
        ensures
            r matches Some(i) ==> i < self.targets@.len() && self.targets@[i as int].path@
                == path@,
            r is None ==> forall|i: int|
                0 <= i < self.targets@.len() ==> self.targets@[i].path@ != path@,
    {
        let p = String::from_str(path);
        let mut i: usize = 0;
        while i < self.targets.len()
            invariant
                i <= self.targets@.len(),
                p@ == path@,
                forall|j: int| 0 <= j < i ==> self.targets@[j].path@ != path@,
            decreases self.targets.len() - i,
        {
            if self.targets[i].path == p {
                return Some(i);
            }
            i = i + 1;
        }
        None
    }

    /// Appends a target whose inputs are `inputs` (each at most once) and
    /// returns its identifier. The inputs must name nodes already present.
    pub fn add(&mut self, target: Target, inputs: &Vec<usize>) -> (r: usize)
        requires
            old(self).wf(),
            target.wf(),
            forall|k: int| 0 <= k < inputs@.len() ==> #[trigger] inputs@[k] < old(self).targets@.len(),
            forall|u: int|
                0 <= u < old(self).targets@.len() ==> (#[trigger] old(self).targets@[u]).path@
                    != target.path@,
        ensures
            final(self).wf(),
            r == old(self).targets@.len(),
            final(self).targets@ == old(self).targets@.push(target),
            final(self).preds@.len() == old(self).preds@.len() + 1,
            forall|u: int| 0 <= u < old(self).preds@.len() ==> #[trigger] final(self).preds@[u]
                == old(self).preds@[u],
            forall|v: usize| final(self).preds@[r as int]@.contains(v) <==> inputs@.contains(v),
    {
        let r = self.targets.len();
        let d = dedup(inputs);
        self.targets.push(target);
        self.preds.push(d);
        proof {
            assert(self.preds@[r as int]@ == d@);
            assert forall|u: int, k: int|
                0 <= u < self.preds@.len() && 0 <= k < self.preds@[u]@.len() implies (
                #[trigger] self.preds@[u]@[k]) < self.targets@.len() by {
                if u == r {
                    assert(inputs@.contains(d@[k]));
                } else {
                    assert(self.preds@[u] == old(self).preds@[u]);
                }
            }
            assert forall|u: int| 0 <= u < self.preds@.len() implies (
            #[trigger] self.preds@[u]@).no_duplicates() by {
                if u != r {
                    assert(self.preds@[u] == old(self).preds@[u]);
                }
            }
        }
        r
    }

    /// Replaces the inputs of node `u` by `inputs` (each at most once).
    /// The inputs must name nodes of the graph; they may come later than `u`.
    pub fn set_inputs(&mut self, u: usize, inputs: &Vec<usize>)
        requires
            old(self).wf(),
            u < old(self).targets@.len(),
            forall|k: int| 0 <= k < inputs@.len() ==> #[trigger] inputs@[k] < old(self).targets@.len(),
        ensures
            final(self).wf(),
            final(self).targets@ == old(self).targets@,
            final(self).preds@.len() == old(self).preds@.len(),
            forall|w: int| 0 <= w < old(self).preds@.len() && w != u ==> #[trigger] final(self).preds@[w]
                == old(self).preds@[w],
            forall|v: usize| final(self).preds@[u as int]@.contains(v) <==> inputs@.contains(v),
    {
        let d = dedup(inputs);
        self.preds.set(u, d);
        proof {
            assert forall|w: int, k: int|
                0 <= w < self.preds@.len() && 0 <= k < self.preds@[w]@.len() implies (
                #[trigger] self.preds@[w]@[k]) < self.targets@.len() by {
                if w == u {
                    assert(inputs@.contains(d@[k]));
                } else {
                    assert(self.preds@[w] == old(self).preds@[w]);
                }
            }
            assert forall|w: int| 0 <= w < self.preds@.len() implies (
            #[trigger] self.preds@[w]@).no_duplicates() by {
                if w != u {
                    assert(self.preds@[w] == old(self).preds@[w]);
                }
            }
        }
    }

    /// Depth-first walk from `n` over inputs: on success `n` and everything
    /// it depends on are done and appended to `order` after their inputs; on
    /// a back edge, the cycle found.
    fn visit(
        &self,
        n: usize,
        marks: &mut Vec<u8>,
        stack: &mut Vec<usize>,
        order: &mut Vec<usize>,
        Ghost(reqs): Ghost<Seq<usize>>,
    ) -> (r: Result<(), Vec<usize>>)
        requires
            self.wf(),
            n < self.targets@.len(),
            dfs_inv(self.pv(), reqs, old(marks)@, old(stack)@, old(order)@),
            old(marks)@[n as int] == 0,
            in_closure(self.pv(), reqs, n),
            old(stack)@.len() > 0 ==> edge(self.pv(), old(stack)@.last(), n),
        ensures
            r is Ok ==> {
                &&& dfs_inv(self.pv(), reqs, final(marks)@, final(stack)@, final(order)@)
                &&& final(stack)@ == old(stack)@
                &&& final(marks)@[n as int] == 2
                &&& forall|v: int|
                    0 <= v < old(marks)@.len() && old(marks)@[v] != 0
                        ==> #[trigger] final(marks)@[v] == old(marks)@[v]
            },
            r matches Err(c) ==> is_cycle(self.pv(), c@) && in_closure(self.pv(), reqs, c@[0]),
        decreases count_zero(old(marks)@),
    {
        let ghost pv = self.pv();
        let ghost m0 = marks@;
        let ghost s0 = stack@;
        marks.set(n, 1);
        stack.push(n);
        proof {
            lemma_push_contains(s0, n);
            lemma_count_zero_mono(m0, marks@);
            assert(stack@.last() == n);
            assert forall|i: int| 0 <= i < stack@.len() - 1 implies #[trigger] edge(
                pv,
                stack@[i],
                stack@[i + 1],
            ) by {
                if i < s0.len() - 1 {
                    assert(stack@[i] == s0[i] && stack@[i + 1] == s0[i + 1]);
                } else {
                    assert(stack@[i] == s0.last() && stack@[i + 1] == n);
                }
            }
            assert forall|k: int| 0 <= k < stack@.len() implies in_closure(
                pv,
                reqs,
                #[trigger] stack@[k],
            ) by {
                if k < s0.len() {
                    assert(stack@[k] == s0[k]);
                }
            }
            assert forall|v: usize| v < marks@.len() implies (marks@[v as int] == 1
                <==> #[trigger] stack@.contains(v)) by {
                if v != n {
                    assert(marks@[v as int] == m0[v as int]);
                }
            }
            assert forall|v: usize| v < marks@.len() implies (marks@[v as int] == 2
                <==> #[trigger] order@.contains(v)) by {
                if v != n {
                    assert(marks@[v as int] == m0[v as int]);
                }
            }
            assert(dfs_inv(pv, reqs, marks@, stack@, order@));
        }
        let ghost m1 = marks@;
        let ins = &self.preds[n];
        assert(ins@ == pv[n as int]);
        let mut j: usize = 0;
        while j < ins.len()
            invariant
                self.wf(),
                pv == self.pv(),
                n < self.targets@.len(),
                ins@ == pv[n as int],
                dfs_inv(pv, reqs, marks@, stack@, order@),
                stack@ == s0.push(n),
                marks@[n as int] == 1,
                marks@.len() == m1.len(),
                m1.len() == m0.len(),
                m0 == old(marks)@,
                s0 == old(stack)@,
                forall|v: int| 0 <= v < m1.len() && m1[v] != 0 ==> #[trigger] marks@[v] == m1[v],
                forall|v: int| 0 <= v < m0.len() && m0[v] != 0 ==> #[trigger] m1[v] == m0[v],
                forall|k: int| 0 <= k < j ==> marks@[#[trigger] ins@[k] as int] == 2,
                count_zero(m1) < count_zero(m0),
                in_closure(pv, reqs, n),
                j <= ins.len(),
            decreases ins.len() - j,
        {
            let p = ins[j];
            proof {
                assert(pv[n as int].contains(p));
                assert(edge(pv, n, p));
                assert(p < self.targets@.len());
            }
            if marks[p] == 1 {
                let c = suffix_from(stack, p);
                proof {
                    let k = choose|k: int|
                        0 <= k < stack@.len() && c@ == stack@.subrange(k, stack@.len() as int);
                    lemma_chain_suffix(pv, stack@, k);
                    assert(c@.last() == n);
                    assert(stack@.contains(p));
                    let x = choose|x: int| 0 <= x < stack@.len() && stack@[x] == p;
                    assert(in_closure(pv, reqs, stack@[x]));
                }
                return Err(c);
            } else if marks[p] == 0 {
                proof {
                    lemma_count_zero_mono(m1, marks@);
                    lemma_closure_step(pv, reqs, n, p);
                }
                let ghost mb = marks@;
                match self.visit(p, marks, stack, order, Ghost(reqs)) {
                    Err(c) => {
                        return Err(c);
                    },
                    Ok(()) => {},
                }
                proof {
                    assert forall|k: int| 0 <= k < j + 1 implies marks@[#[trigger] ins@[k] as int]
                        == 2 by {
                        if k < j {
                            assert(mb[ins@[k] as int] == 2);
                        }
                    }
                    assert forall|v: int| 0 <= v < m1.len() && m1[v] != 0 implies #[trigger] marks@[v]
                        == m1[v] by {
                        assert(mb[v] == m1[v]);
                    }
                }
            }
            j = j + 1;
        }
        let ghost m2 = marks@;
        let ghost o2 = order@;
        stack.pop();
        marks.set(n, 2);
        order.push(n);
        proof {
            assert(stack@ =~= s0);
            lemma_push_contains(o2, n);
            assert(!o2.contains(n));
            assert forall|v: usize| v < marks@.len() implies (marks@[v as int] == 1
                <==> #[trigger] stack@.contains(v)) by {
                lemma_push_contains(s0, n);
                if v != n {
                    assert(marks@[v as int] == m2[v as int]);
                    assert(s0.push(n).contains(v) == s0.contains(v));
                } else {
                    assert(!s0.contains(n));
                }
            }
            assert forall|v: usize| v < marks@.len() implies (marks@[v as int] == 2
                <==> #[trigger] order@.contains(v)) by {
                if v != n {
                    assert(marks@[v as int] == m2[v as int]);
                }
            }
            assert forall|i: int, p: usize|
                0 <= i < order@.len() && #[trigger] edge(pv, order@[i], p) implies exists|j: int|
                0 <= j < i && #[trigger] order@[j] == p by {
                if i < o2.len() {
                    assert(order@[i] == o2[i]);
                    let j = choose|j: int| 0 <= j < i && #[trigger] o2[j] == p;
                    assert(order@[j] == p);
                } else {
                    assert(order@[i] == n);
                    let k = choose|k: int| 0 <= k < ins@.len() && ins@[k] == p;
                    assert(marks@[ins@[k] as int] == 2);
                    assert(m2[p as int] == 2);
                    assert(o2.contains(p));
                    let j = choose|j: int| 0 <= j < o2.len() && o2[j] == p;
                    assert(order@[j] == p);
                }
            }
            assert forall|k: int| 0 <= k < order@.len() implies in_closure(
                pv,
                reqs,
                #[trigger] order@[k],
            ) by {
                if k < o2.len() {
                    assert(order@[k] == o2[k]);
                }
            }
            assert forall|k: int| 0 <= k < stack@.len() implies in_closure(
                pv,
                reqs,
                #[trigger] stack@[k],
            ) by {
                assert(stack@[k] == s0.push(n)[k]);
            }
            assert forall|v: int| 0 <= v < m0.len() && m0[v] != 0 implies #[trigger] marks@[v]
                == m0[v] by {
                assert(v != n);
            }
            if s0.len() > 0 {
                lemma_chain_prefix(pv, s0.push(n), s0.len() as int);
                assert(s0.push(n).subrange(0, s0.len() as int) =~= s0);
            }
        }
        Ok(())
    }

    /// Compiles the plan that builds `reqs`: their closure in an order that
    /// puts inputs first, the closure's nodes without inputs, and the
    /// requested nodes. Fails on a request that names no node, or on a cycle
    /// through the closure, which it reports.
    pub fn compile(&self, reqs: &Vec<usize>) -> (r: Result<Recipe, CompileError>)
        requires
            self.wf(),
        ensures
            (r matches Err(CompileError::UnknownTarget(i))) <==> exists|k: int|
                0 <= k < reqs@.len() && #[trigger] reqs@[k] >= self.targets@.len(),
            r matches Err(CompileError::UnknownTarget(i)) ==> reqs@.contains(i) && i
                >= self.targets@.len(),
            r is Ok <==> (forall|k: int| 0 <= k < reqs@.len() ==> #[trigger] reqs@[k] < self.targets@.len())
                && !closure_has_cycle(self.pv(), reqs@),
            r matches Err(CompileError::Cycle(c)) ==> is_cycle(self.pv(), c@) && in_closure(
                self.pv(),
                reqs@,
                c@[0],
            ),
            r matches Ok(rec) ==> recipe_spec(self.pv(), reqs@, rec),
    {
        let ghost pv = self.pv();
        let n = self.targets.len();
        let mut i: usize = 0;
        while i < reqs.len()
            invariant
                i <= reqs.len(),
                n == self.targets@.len(),
                forall|k: int| 0 <= k < i ==> #[trigger] reqs@[k] < n,
            decreases reqs.len() - i,
        {
            if reqs[i] >= n {
                return Err(CompileError::UnknownTarget(reqs[i]));
            }
            i = i + 1;
        }
        let mut marks: Vec<u8> = Vec::new();
        let mut v: usize = 0;
        while v < n
            invariant
                v <= n,
                marks@.len() == v,
                forall|k: int| 0 <= k < v ==> marks@[k] == 0,
            decreases n - v,
        {
            marks.push(0);
            v = v + 1;
        }
        let mut stack: Vec<usize> = Vec::new();
        let mut order: Vec<usize> = Vec::new();
        proof {
            assert(self.preds@.len() == n);
            assert(pv.len() == n);
            assert forall|i: int, p: usize|
                0 <= i < order@.len() && #[trigger] edge(pv, order@[i], p) implies exists|j: int|
                0 <= j < i && #[trigger] order@[j] == p by {}
        }
        let mut i: usize = 0;
        while i < reqs.len()
            invariant
                self.wf(),
                pv == self.pv(),
                n == self.targets@.len(),
                i <= reqs.len(),
                forall|k: int| 0 <= k < reqs@.len() ==> #[trigger] reqs@[k] < n,
                dfs_inv(pv, reqs@, marks@, stack@, order@),
                stack@.len() == 0,
                forall|k: int| 0 <= k < i ==> order@.contains(#[trigger] reqs@[k]),
            decreases reqs.len() - i,
        {
            let x = reqs[i];
            let ghost o0 = order@;
            if marks[x] == 0 {
                proof {
                    lemma_request_in_closure(pv, reqs@, i as int);
                }
                match self.visit(x, &mut marks, &mut stack, &mut order, Ghost(reqs@)) {
                    Err(c) => {
                        proof {
                            assert(closure_has_cycle(pv, reqs@));
                        }
                        return Err(CompileError::Cycle(c));
                    },
                    Ok(()) => {},
                }
                proof {
                    assert forall|k: int| 0 <= k < i + 1 implies order@.contains(
                        #[trigger] reqs@[k],
                    ) by {
                        if k < i {
                            assert(o0.contains(reqs@[k]));
                        }
                    }
                }
            } else {
                proof {
                    assert(!stack@.contains(x));
                    assert(marks@[x as int] == 2);
                }
            }
            i = i + 1;
        }
        proof {
            lemma_order_covers_closure(pv, reqs@, order@);
            lemma_topological_closure_is_acyclic(pv, reqs@, order@);
        }
        let mut inputs: Vec<usize> = Vec::new();
        let mut k: usize = 0;
        while k < order.len()
            invariant
                self.wf(),
                pv == self.pv(),
                k <= order.len(),
                dfs_inv(pv, reqs@, marks@, stack@, order@),
                inputs@.no_duplicates(),
                forall|v: usize| #[trigger] inputs@.contains(v) <==> (order@.take(k as int).contains(v)
                    && pv[v as int].len() == 0),
            decreases order.len() - k,
        {
            let v = order[k];
            proof {
                assert(order@.take(k + 1) =~= order@.take(k as int).push(v));
                lemma_push_contains(order@.take(k as int), v);
                lemma_push_contains(inputs@, v);
                if inputs@.contains(v) {
                    let j = choose|j: int| 0 <= j < k && order@.take(k as int)[j] == v;
                    assert(order@[j] == order@[k as int]);
                }
            }
            if self.preds[v].len() == 0 {
                inputs.push(v);
            }
            k = k + 1;
        }
        proof {
            assert(order@.take(k as int) =~= order@);
        }
        let outputs = dedup(reqs);
        Ok(Recipe { outputs, inputs, order })
    }

    /// Every node that the nodes of `outputs` depend on, transitively, with
    /// those nodes themselves; each once.
    pub fn get_all_deps(&self, outputs: &Vec<usize>) -> (r: Vec<usize>)
        requires
            self.wf(),
            forall|k: int| 0 <= k < outputs@.len() ==> #[trigger] outputs@[k] < self.targets@.len(),
        ensures
            r@.no_duplicates(),
            forall|v: usize| #[trigger] r@.contains(v) <==> in_closure(self.pv(), outputs@, v),
    {
        let ghost pv = self.pv();
        let n = self.targets.len();
        let mut seen: Vec<bool> = Vec::new();
        let mut v: usize = 0;
        while v < n
            invariant
                v <= n,
                seen@.len() == v,
                forall|k: int| 0 <= k < v ==> !seen@[k],
            decreases n - v,
        {
            seen.push(false);
            v = v + 1;
        }
        let mut result: Vec<usize> = Vec::new();
        let mut work: Vec<usize> = Vec::new();
        proof {
            self.lemma_edges_in_range();
        }
        let mut i: usize = 0;
        while i < outputs.len()
            invariant
                self.wf(),
                pv == self.pv(),
                n == self.targets@.len(),
                pv.len() == n,
                i <= outputs.len(),
                forall|k: int| 0 <= k < outputs@.len() ==> #[trigger] outputs@[k] < n,
                deps_inv(pv, outputs@, seen@, result@, work@, None),
                forall|k: int| 0 <= k < i ==> result@.contains(#[trigger] outputs@[k]),
            decreases outputs.len() - i,
        {
            let x = outputs[i];
            let ghost r0 = result@;
            proof {
                lemma_request_in_closure(pv, outputs@, i as int);
            }
            if !seen[x] {
                proof {
                    lemma_discover(pv, outputs@, seen@, result@, work@, None, x);
                }
                seen.set(x, true);
                result.push(x);
                work.push(x);
            }
            proof {
                lemma_push_contains(r0, x);
                assert forall|k: int| 0 <= k < i + 1 implies result@.contains(#[trigger] outputs@[k]) by {
                    if k < i {
                        assert(r0.contains(outputs@[k]));
                    }
                }
            }
            i = i + 1;
        }
        while work.len() > 0
            invariant
                self.wf(),
                pv == self.pv(),
                n == self.targets@.len(),
                pv.len() == n,
                deps_inv(pv, outputs@, seen@, result@, work@, None),
                forall|k: int| 0 <= k < outputs@.len() ==> result@.contains(#[trigger] outputs@[k]),
            decreases count_false(seen@), work@.len(),
        {
            let ghost cf0 = count_false(seen@);
            let ghost w0 = work@;
            let u = work.pop().unwrap();
            proof {
                assert(w0 =~= work@.push(u));
                lemma_push_contains(work@, u);
                assert(result@.contains(u));
                assert(deps_inv(pv, outputs@, seen@, result@, work@, Some(u)));
            }
            let ghost wk0 = work@;
            let ins = &self.preds[u];
            let mut j: usize = 0;
            while j < ins.len()
                invariant
                    self.wf(),
                    pv == self.pv(),
                    n == self.targets@.len(),
                    pv.len() == n,
                    u < n,
                    ins@ == pv[u as int],
                    j <= ins.len(),
                    result@.contains(u),
                    deps_inv(pv, outputs@, seen@, result@, work@, Some(u)),
                    forall|k: int| 0 <= k < j ==> seen@[#[trigger] ins@[k] as int],
                    forall|k: int| 0 <= k < outputs@.len() ==> result@.contains(#[trigger] outputs@[k]),
                    count_false(seen@) + (work@.len() - wk0.len()) == cf0,
                    work@.len() >= wk0.len(),
                    wk0.len() + 1 == w0.len(),
                decreases ins.len() - j,
            {
                let p = ins[j];
                proof {
                    assert(pv[u as int].contains(p));
                    assert(edge(pv, u, p));
                }
                if !seen[p] {
                    let ghost r1 = result@;
                    let ghost s1 = seen@;
                    proof {
                        lemma_closure_step(pv, outputs@, u, p);
                        lemma_discover(pv, outputs@, seen@, result@, work@, Some(u), p);
                        lemma_count_false_set(seen@, p as int);
                        lemma_push_contains(r1, p);
                    }
                    seen.set(p, true);
                    result.push(p);
                    work.push(p);
                    proof {
                        assert forall|k: int| 0 <= k < j + 1 implies seen@[#[trigger] ins@[k] as int] by {
                            if k < j {
                                assert(s1[ins@[k] as int]);
                            }
                        }
                    }
                }
                j = j + 1;
            }
            proof {
                assert forall|p: usize| #[trigger] edge(pv, u, p) implies seen@[p as int] by {
                    let k = choose|k: int| 0 <= k < ins@.len() && ins@[k] == p;
                }
                assert(deps_inv(pv, outputs@, seen@, result@, work@, None));
            }
        }
        proof {
            assert forall|i: int, p: usize|
                0 <= i < result@.len() && #[trigger] edge(pv, result@[i], p) implies result@.contains(
                p,
            ) by {
                assert(!work@.contains(result@[i]));
            }
            lemma_closed_covers_closure(pv, outputs@, result@);
        }
        result
    }

    /// The inputs of the nodes of `cur`, each once.
    fn next_layer(&self, cur: &Vec<usize>) -> (r: Vec<usize>)
        requires
            self.wf(),
            forall|k: int| 0 <= k < cur@.len() ==> #[trigger] cur@[k] < self.targets@.len(),
        ensures
            r@.no_duplicates(),
            forall|p: usize| #[trigger] r@.contains(p) <==> exists|v: usize| cur@.contains(v) && edge(self.pv(), v, p),
    {
        let ghost pv = self.pv();
        let mut r: Vec<usize> = Vec::new();
        let mut i: usize = 0;
        while i < cur.len()
            invariant
                self.wf(),
                pv == self.pv(),
                i <= cur.len(),
                forall|k: int| 0 <= k < cur@.len() ==> #[trigger] cur@[k] < self.targets@.len(),
                r@.no_duplicates(),
                forall|p: usize| #[trigger] r@.contains(p) <==> exists|k: int| 0 <= k < i && edge(pv, cur@[k], p),
            decreases cur.len() - i,
        {
            let u = cur[i];
            let ins = &self.preds[u];
            assert(ins@ == pv[u as int]);
            let mut j: usize = 0;
            while j < ins.len()
                invariant
                    self.wf(),
                    pv == self.pv(),
                    i < cur.len(),
                    u == cur@[i as int],
                    u < self.targets@.len(),
                    ins@ == pv[u as int],
                    j <= ins.len(),
                    r@.no_duplicates(),
                    forall|p: usize| #[trigger] r@.contains(p) <==> ((exists|k: int| 0 <= k < i && edge(pv, cur@[k], p)) || ins@.take(j as int).contains(p)),
                decreases ins.len() - j,
            {
                let p = ins[j];
                proof {
                    assert(ins@.take(j + 1) =~= ins@.take(j as int).push(p));
                    lemma_push_contains(ins@.take(j as int), p);
                    lemma_push_contains(r@, p);
                }
                if !vec_contains(&r, p) {
                    r.push(p);
                }
                j = j + 1;
            }
            proof {
                assert(ins@.take(j as int) =~= ins@);
                assert forall|p: usize| #[trigger] r@.contains(p) <==> exists|k: int| 0 <= k < i + 1 && edge(pv, cur@[k], p) by {
                    if r@.contains(p) && !(exists|k: int| 0 <= k < i && edge(pv, cur@[k], p)) {
                        assert(edge(pv, cur@[i as int], p));
                    }
                    if exists|k: int| 0 <= k < i + 1 && edge(pv, cur@[k], p) {
                        let k = choose|k: int| 0 <= k < i + 1 && edge(pv, cur@[k], p);
                        if k == i {
                            assert(ins@.contains(p));
                        }
                    }
                }
            }
            i = i + 1;
        }
        proof {
            assert forall|p: usize| #[trigger] r@.contains(p) <==> exists|v: usize| cur@.contains(v) && edge(pv, v, p) by {
                if r@.contains(p) {
                    let k = choose|k: int| 0 <= k < cur@.len() && edge(pv, cur@[k], p);
                    assert(cur@.contains(cur@[k]));
                }
                if exists|v: usize| cur@.contains(v) && edge(pv, v, p) {
                    let v = choose|v: usize| cur@.contains(v) && edge(pv, v, p);
                    let k = choose|k: int| 0 <= k < cur@.len() && cur@[k] == v;
                    assert(edge(pv, cur@[k], p));
                }
            }
        }
        r
    }

    /// The layers of the plan that builds `outputs`: first the outputs, then
    /// their inputs, then those inputs' inputs, until a layer is empty. A
    /// node may appear in several layers. Fails as `compile` does.
    pub fn get_subgraph(&self, outputs: &Vec<usize>) -> (r: Result<Vec<Vec<usize>>, CompileError>)
        requires
            self.wf(),
        ensures
            r is Ok <==> (forall|k: int| 0 <= k < outputs@.len() ==> #[trigger] outputs@[k] < self.targets@.len())
                && !closure_has_cycle(self.pv(), outputs@),
            (r matches Err(CompileError::UnknownTarget(i))) <==> exists|k: int|
                0 <= k < outputs@.len() && #[trigger] outputs@[k] >= self.targets@.len(),
            r matches Err(CompileError::Cycle(c)) ==> is_cycle(self.pv(), c@) && in_closure(
                self.pv(),
                outputs@,
                c@[0],
            ),
            r matches Ok(ls) ==> {
                &&& forall|k: int| 0 <= k < ls@.len() ==> (#[trigger] ls@[k])@.no_duplicates()
                    && ls@[k]@.len() > 0 && ls@[k]@.to_set() == layer(self.pv(), outputs@, k as nat)
                &&& layer(self.pv(), outputs@, ls@.len()) == Set::<usize>::empty()
            },
    {
        let ghost pv = self.pv();
        let rec = match self.compile(outputs) {
            Ok(rec) => rec,
            Err(e) => {
                return Err(e);
            },
        };
        let order = rec.order;
        proof {
            self.lemma_edges_in_range();
        }
        let ghost mut m: int = order@.len() as int;
        let mut layers: Vec<Vec<usize>> = Vec::new();
        let mut cur = dedup(outputs);
        proof {
            assert(cur@.to_set() =~= layer(pv, outputs@, 0));
            assert forall|x: usize| #[trigger] cur@.contains(x) implies exists|j: int| 0 <= j < m && order@[j] == x by {
                let k = choose|k: int| 0 <= k < outputs@.len() && outputs@[k] == x;
                lemma_request_in_closure(pv, outputs@, k);
                assert(order@.contains(x));
            }
        }
        while cur.len() > 0
            invariant
                self.wf(),
                pv == self.pv(),
                is_topological(pv, order@),
                pv.len() == self.targets@.len(),
                0 <= m <= order@.len(),
                forall|k: int| 0 <= k < order@.len() ==> #[trigger] order@[k] < self.targets@.len(),
                cur@.no_duplicates(),
                cur@.to_set() == layer(pv, outputs@, layers@.len()),
                forall|x: usize| #[trigger] cur@.contains(x) ==> exists|j: int| 0 <= j < m && order@[j] == x,
                forall|k: int| 0 <= k < layers@.len() ==> (#[trigger] layers@[k])@.no_duplicates()
                    && layers@[k]@.len() > 0 && layers@[k]@.to_set() == layer(pv, outputs@, k as nat),
            decreases m,
        {
            proof {
                assert(cur@.contains(cur@[0]));
                assert forall|k: int| 0 <= k < cur@.len() implies #[trigger] cur@[k] < self.targets@.len() by {
                    assert(cur@.contains(cur@[k]));
                    let j = choose|j: int| 0 <= j < m && order@[j] == cur@[k];
                }
            }
            let next = self.next_layer(&cur);
            proof {
                assert(next@.to_set() =~= layer(pv, outputs@, (layers@.len() + 1) as nat));
                assert forall|x: usize| #[trigger] next@.contains(x) implies exists|j: int| 0 <= j < m - 1 && order@[j] == x by {
                    let v = choose|v: usize| cur@.contains(v) && edge(pv, v, x);
                    let jv = choose|j: int| 0 <= j < m && order@[j] == v;
                    assert(edge(pv, order@[jv], x));
                    let j = choose|j: int| 0 <= j < jv && #[trigger] order@[j] == x;
                }
            }
            let ghost old_layers = layers@;
            layers.push(cur);
            proof {
                m = m - 1;
                assert forall|k: int| 0 <= k < layers@.len() implies (#[trigger] layers@[k])@.no_duplicates()
                    && layers@[k]@.len() > 0 && layers@[k]@.to_set() == layer(pv, outputs@, k as nat) by {
                    if k < old_layers.len() {
                        assert(layers@[k] == old_layers[k]);
                    }
                }
            }
            cur = next;
        }
        proof {
            assert(cur@.to_set() =~= Set::<usize>::empty());
        }
        Ok(layers)
    }

    /// Sets the cached fingerprint of gated command `k` of node `i`.
    pub fn set_cached(&mut self, i: usize, k: usize, fp: u64)
        requires
            old(self).wf(),
            i < old(self).targets@.len(),
            k < old(self).targets@[i as int].cmds@.len(),
        ensures
            final(self).wf(),
            final(self).preds == old(self).preds,
            final(self).targets@.len() == old(self).targets@.len(),
            forall|j: int| 0 <= j < old(self).targets@.len() && j != i ==> #[trigger] final(self).targets@[j] == old(self).targets@[j],
            ({
                let t0 = old(self).targets@[i as int];
                let t1 = final(self).targets@[i as int];
                &&& t1.path == t0.path
                &&& t1.always_cmds == t0.always_cmds
                &&& t1.cmds@.len() == t0.cmds@.len()
                &&& forall|q: int| 0 <= q < t0.cmds@.len() && q != k ==> #[trigger] t1.cmds@[q] == t0.cmds@[q]
                &&& t1.cmds@[k as int].program == t0.cmds@[k as int].program
                &&& t1.cmds@[k as int].args == t0.cmds@[k as int].args
                &&& t1.cmds@[k as int].fingerprint == t0.cmds@[k as int].fingerprint
                &&& t1.cmds@[k as int].cached_fingerprint == Some(fp)
            }),
    {
        let mut t = self.targets.remove(i);
        let ghost t0 = t;
        t.set_cached(k, fp);
        self.targets.insert(i, t);
        proof {
            assert forall|q: int| 0 <= q < t.cmds@.len() implies (#[trigger] t.cmds@[q]).wf() by {
                if q != k {
                    assert(t.cmds@[q] == t0.cmds@[q]);
                }
                assert(t0.cmds@[q] == old(self).targets@[i as int].cmds@[q]);
            }
            assert forall|j: int| 0 <= j < self.targets@.len() && j != i implies #[trigger] self.targets@[j] == old(self).targets@[j] by {}
            assert(self.targets@[i as int] == t);
            assert forall|u: int, w: int|
                0 <= u < self.targets@.len() && 0 <= w < self.targets@.len() && u != w implies (
                #[trigger] self.targets@[u]).path@ != (#[trigger] self.targets@[w]).path@ by {
                assert(self.targets@[u].path == old(self).targets@[u].path);
                assert(self.targets@[w].path == old(self).targets@[w].path);
            }
            assert forall|u: int| 0 <= u < self.targets@.len() implies (#[trigger] self.targets@[u]).wf() by {
                if u != i {
                    assert(self.targets@[u] == old(self).targets@[u]);
                }
            }
        }
    }
}

} // verus!
