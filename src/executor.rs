//! The dispatcher of a run: which targets may start, given which have
//! finished. Workers evaluate targets; the dispatcher hears back from them
//! and hands out the targets whose inputs have all finished, carrying those
//! inputs' freshness values.
use vstd::prelude::*;

use crate::graph::{depends_on, edge, is_chain, is_topological, lemma_push_contains, Graph, Recipe};
use crate::target::Timestamp;

verus! {

/// Where a node stands in a run.
#[derive(Debug, Clone, Copy, PartialEq, Eq, Structural)]
pub enum NodeState {
    /// Not started: some input has not finished, or the node is not part
    /// of the run.
    Waiting,
    /// Handed to a worker.
    Running,
    /// Finished, with a freshness value.
    Done,
    /// Its evaluation failed.
    Failed,
    /// Will not run, because something it depends on failed.
    Cancelled,
}

/// A job for a worker: a target and the freshness values of its inputs.
#[derive(Debug)]
pub struct ExecNode {
    pub id: usize,
    pub inputs: Vec<Timestamp>,
}

impl ExecNode {
    pub fn new(id: usize, inputs: Vec<Timestamp>) -> (r: ExecNode)
        ensures
            r.id == id,
            r.inputs@ == inputs@,
    {
        ExecNode { id, inputs }
    }
}

/// What a worker reports about a job.
#[derive(Debug, Clone, Copy, PartialEq, Eq)]
pub enum WorkerStatus {
    /// The target finished with this freshness value.
    Complete(usize, Timestamp),
    /// The target failed.
    Fail(usize),
}

/// The node a report is about.
pub open spec fn status_id(s: WorkerStatus) -> usize {
    match s {
        WorkerStatus::Complete(n, _) => n,
        WorkerStatus::Fail(n) => n,
    }
}

/// How many of the nodes `ps` have not finished.
pub open spec fn count_not_done(ps: Seq<usize>, st: Seq<NodeState>) -> nat
    decreases ps.len(),
{
    if ps.len() == 0 {
        0
    } else {
        count_not_done(ps.drop_last(), st) + if st[ps.last() as int] == NodeState::Done {
            0nat
        } else {
            1nat
        }
    }
}

/// The values in `vals` are exactly the freshness values of the finished
/// nodes among `ps`.
pub open spec fn delivered(vals: Seq<Timestamp>, ps: Seq<usize>, st: Seq<NodeState>, fresh: Seq<
    Timestamp,
>) -> bool {
    delivered_but(vals, ps, st, fresh, None)
}

/// `x` is the freshness value of a finished node among `ps` other than
/// `skip`.
pub open spec fn from_done(
    x: Timestamp,
    ps: Seq<usize>,
    st: Seq<NodeState>,
    fresh: Seq<Timestamp>,
    skip: Option<usize>,
) -> bool {
    exists|p: usize| ps.contains(p) && st[p as int] == NodeState::Done && skip != Some(p) && x == fresh[p as int]
}

/// As `delivered`, leaving out the node `skip`, whose value is still on
/// its way.
pub open spec fn delivered_but(
    vals: Seq<Timestamp>,
    ps: Seq<usize>,
    st: Seq<NodeState>,
    fresh: Seq<Timestamp>,
    skip: Option<usize>,
) -> bool {
    &&& forall|k: int| 0 <= k < vals.len() ==> from_done(#[trigger] vals[k], ps, st, fresh, skip)
    &&& forall|p: usize|
        #[trigger] ps.contains(p) && st[p as int] == NodeState::Done && skip != Some(p)
            ==> vals.contains(fresh[p as int])
}

/// The state of a run.
pub struct Dispatcher {
    /// The inputs of each node.
    pub preds: Vec<Vec<usize>>,
    /// The nodes of the run that have each node as an input.
    pub succs: Vec<Vec<usize>>,
    /// Whether each node is part of the run.
    pub planned: Vec<bool>,
    pub state: Vec<NodeState>,
    /// For a waiting node: how many of its inputs have not finished.
    pub remaining: Vec<usize>,
    /// For a waiting node: the freshness values its finished inputs gave.
    pub pending: Vec<Vec<Timestamp>>,
    /// For a finished node: the freshness value it gave.
    pub freshness: Vec<Timestamp>,
}

impl Dispatcher {
    pub open spec fn pv(&self) -> Seq<Seq<usize>> {
        self.preds@.map_values(|v: Vec<usize>| v@)
    }

    pub open spec fn st(&self) -> Seq<NodeState> {
        self.state@
    }

    /// A node is under way or finished.
    pub open spec fn started(&self, u: int) -> bool {
        self.state@[u] == NodeState::Running || self.state@[u] == NodeState::Done
    }

    pub open spec fn wf(&self) -> bool {
        self.wf_owing(Seq::empty(), 0) && self.no_stall()
    }

    /// A waiting node of the run has an input that has not finished: a
    /// node is handed out as soon as its last input finishes.
    pub open spec fn no_stall(&self) -> bool {
        forall|u: int|
            0 <= u < self.state@.len() && self.planned@[u] && #[trigger] self.state@[u]
                == NodeState::Waiting ==> self.remaining@[u] > 0
    }

    /// The invariant of a run, while the nodes of `owed` have yet to hear
    /// that `src` finished.
    pub open spec fn wf_owing(&self, owed: Seq<usize>, src: usize) -> bool {
        let n = self.preds@.len();
        &&& self.succs@.len() == n
        &&& self.planned@.len() == n
        &&& self.state@.len() == n
        &&& self.remaining@.len() == n
        &&& self.pending@.len() == n
        &&& self.freshness@.len() == n
        &&& forall|u: int, k: int|
            0 <= u < n && 0 <= k < self.preds@[u]@.len() ==> #[trigger] self.preds@[u]@[k] < n
        &&& forall|u: int| 0 <= u < n ==> (#[trigger] self.preds@[u]@).no_duplicates()
        &&& forall|u: int, s: usize|
            0 <= u < n ==> (#[trigger] self.succs@[u]@.contains(s) <==> (s < n
                && self.planned@[s as int] && self.preds@[s as int]@.contains(u as usize)))
        &&& forall|u: int| 0 <= u < n ==> (#[trigger] self.succs@[u]@).no_duplicates()
        &&& forall|u: int, k: int|
            0 <= u < n && 0 <= k < self.preds@[u]@.len() && self.planned@[u] ==> self.planned@[
                #[trigger] self.preds@[u]@[k] as int]
        &&& forall|u: int| 0 <= u < n && !self.planned@[u] ==> #[trigger] self.state@[u] == NodeState::Waiting
        &&& forall|u: int|
            0 <= u < n && self.planned@[u] && #[trigger] self.state@[u] == NodeState::Waiting
                ==> self.remaining@[u] == count_not_done(self.preds@[u]@, self.state@) + if owed.contains(
                u as usize,
            ) {
                1nat
            } else {
                0nat
            } && delivered_but(
                self.pending@[u]@,
                self.preds@[u]@,
                self.state@,
                self.freshness@,
                if owed.contains(u as usize) {
                    Some(src)
                } else {
                    None
                },
            )
        &&& forall|u: int, k: int|
            0 <= u < n && self.started(u) && 0 <= k < self.preds@[u]@.len() ==> self.state@[
                #[trigger] self.preds@[u]@[k] as int] == NodeState::Done
    }
}

proof fn lemma_count_frame(ps: Seq<usize>, a: Seq<NodeState>, b: Seq<NodeState>)
    requires
        forall|k: int| 0 <= k < ps.len() ==> (a[#[trigger] ps[k] as int] == NodeState::Done) == (b[ps[k] as int]
            == NodeState::Done),
    ensures
        count_not_done(ps, a) == count_not_done(ps, b),
    decreases ps.len(),
{
    if ps.len() > 0 {
        let q = ps.drop_last();
        assert forall|k: int| 0 <= k < q.len() implies (a[#[trigger] q[k] as int] == NodeState::Done) == (b[q[k] as int]
            == NodeState::Done) by {
            assert(q[k] == ps[k]);
        }
        lemma_count_frame(q, a, b);
        assert(ps.last() == ps[ps.len() - 1]);
    }
}

proof fn lemma_count_none_done(ps: Seq<usize>, st: Seq<NodeState>)
    requires
        forall|k: int| 0 <= k < ps.len() ==> st[#[trigger] ps[k] as int] != NodeState::Done,
    ensures
        count_not_done(ps, st) == ps.len(),
    decreases ps.len(),
{
    if ps.len() > 0 {
        let q = ps.drop_last();
        assert forall|k: int| 0 <= k < q.len() implies st[#[trigger] q[k] as int] != NodeState::Done by {
            assert(q[k] == ps[k]);
        }
        lemma_count_none_done(q, st);
        assert(ps.last() == ps[ps.len() - 1]);
    }
}

proof fn lemma_count_zero_all_done(ps: Seq<usize>, st: Seq<NodeState>)
    requires
        count_not_done(ps, st) == 0,
    ensures
        forall|k: int| 0 <= k < ps.len() ==> st[#[trigger] ps[k] as int] == NodeState::Done,
    decreases ps.len(),
{
    if ps.len() > 0 {
        let q = ps.drop_last();
        lemma_count_zero_all_done(q, st);
        assert forall|k: int| 0 <= k < ps.len() implies st[#[trigger] ps[k] as int] == NodeState::Done by {
            if k < ps.len() - 1 {
                assert(q[k] == ps[k]);
            }
        }
    }
}

proof fn lemma_count_done_step(ps: Seq<usize>, st: Seq<NodeState>, p: usize)
    requires
        ps.no_duplicates(),
        ps.contains(p),
        p < st.len(),
        forall|k: int| 0 <= k < ps.len() ==> #[trigger] ps[k] < st.len(),
        st[p as int] != NodeState::Done,
    ensures
        count_not_done(ps, st.update(p as int, NodeState::Done)) + 1 == count_not_done(ps, st),
    decreases ps.len(),
{
    let st2 = st.update(p as int, NodeState::Done);
    let q = ps.drop_last();
    assert(ps.last() == ps[ps.len() - 1]);
    if ps.last() == p {
        assert forall|k: int| 0 <= k < q.len() implies (st[#[trigger] q[k] as int] == NodeState::Done) == (st2[q[k] as int]
            == NodeState::Done) by {
            assert(q[k] == ps[k]);
            assert(ps[k] != ps[ps.len() - 1]);
        }
        lemma_count_frame(q, st, st2);
    } else {
        let i = choose|i: int| 0 <= i < ps.len() && ps[i] == p;
        assert(q[i] == p);
        assert forall|k: int| 0 <= k < q.len() implies #[trigger] q[k] < st.len() by {
            assert(q[k] == ps[k]);
        }
        assert(q.no_duplicates()) by {
            assert forall|a: int, b: int| 0 <= a < q.len() && 0 <= b < q.len() && a != b implies q[a] != q[b] by {
                assert(q[a] == ps[a] && q[b] == ps[b]);
            }
        }
        lemma_count_done_step(q, st, p);
    }
}

proof fn lemma_push_contains_u64(s: Seq<u64>, y: u64)
    ensures
        forall|x: u64| #[trigger] s.push(y).contains(x) <==> (s.contains(x) || x == y),
{
    assert forall|x: u64| #[trigger] s.push(y).contains(x) <==> (s.contains(x) || x == y) by {
        if s.contains(x) {
            let i = choose|i: int| 0 <= i < s.len() && s[i] == x;
            assert(s.push(y)[i] == x);
        }
        if x == y {
            assert(s.push(y)[s.len() as int] == x);
        }
        if s.push(y).contains(x) {
            let i = choose|i: int| 0 <= i < s.len() + 1 && s.push(y)[i] == x;
            if i < s.len() {
                assert(s[i] == x);
            }
        }
    }
}

fn copy_vec(v: &Vec<usize>) -> (r: Vec<usize>)
    ensures
        r@ == v@,
{
    let mut r: Vec<usize> = Vec::new();
    let mut i: usize = 0;
    while i < v.len()
        invariant
            i <= v.len(),
            r@ == v@.take(i as int),
        decreases v.len() - i,
    {
        r.push(v[i]);
        proof {
            assert(r@ =~= v@.take(i + 1));
        }
        i = i + 1;
    }
    proof {
        assert(v@.take(i as int) =~= v@);
    }
    r
}

impl Dispatcher {
    /// Starts a run of `recipe`: every node of its order is part of the run,
    /// and those without inputs are handed out at once, with no freshness
    /// values (their newest input is the epoch).
    pub fn new(graph: &Graph, recipe: &Recipe) -> (r: (Dispatcher, Vec<ExecNode>))
        requires
            graph.wf(),
            is_topological(graph.pv(), recipe.order@),
            forall|k: int| 0 <= k < recipe.order@.len() ==> #[trigger] recipe.order@[k] < graph.targets@.len(),
        ensures
            r.0.wf(),
            r.0.pv() == graph.pv(),
            forall|u: int| 0 <= u < graph.targets@.len() ==> (#[trigger] r.0.planned@[u] <==> recipe.order@.contains(u as usize)),
            forall|u: int| 0 <= u < graph.targets@.len() ==> (#[trigger] r.0.state@[u] == NodeState::Running <==> (r.0.planned@[u] && graph.pv()[u].len() == 0)),
            forall|u: int| 0 <= u < graph.targets@.len() ==> (#[trigger] r.0.state@[u] == NodeState::Waiting || r.0.state@[u] == NodeState::Running),
            forall|k: int| 0 <= k < r.1@.len() ==> r.0.state@[(#[trigger] r.1@[k]).id as int] == NodeState::Running && r.1@[k].inputs@.len() == 0,
            forall|u: usize| u < graph.targets@.len() && r.0.state@[u as int] == NodeState::Running ==> exists|k: int| 0 <= k < r.1@.len() && (#[trigger] r.1@[k]).id == u,
    {
        let n = graph.preds.len();
        let ghost gp = graph.pv();
        proof {
            graph.lemma_edges_in_range();
        }
        let mut preds: Vec<Vec<usize>> = Vec::new();
        let mut planned: Vec<bool> = Vec::new();
        let mut succs: Vec<Vec<usize>> = Vec::new();
        let mut state: Vec<NodeState> = Vec::new();
        let mut remaining: Vec<usize> = Vec::new();
        let mut pending: Vec<Vec<Timestamp>> = Vec::new();
        let mut freshness: Vec<Timestamp> = Vec::new();
        let mut u: usize = 0;
        while u < n
            invariant
                n == graph.preds@.len(),
                gp == graph.pv(),
                graph.wf(),
                u <= n,
                preds@.len() == u,
                planned@.len() == u,
                succs@.len() == u,
                state@.len() == u,
                remaining@.len() == u,
                pending@.len() == u,
                freshness@.len() == u,
                forall|x: int| 0 <= x < u ==> (#[trigger] preds@[x])@ == gp[x],
                forall|x: int| 0 <= x < u ==> !(#[trigger] planned@[x]),
                forall|x: int| 0 <= x < u ==> (#[trigger] succs@[x])@.len() == 0,
                forall|x: int| 0 <= x < u ==> #[trigger] state@[x] == NodeState::Waiting,
                forall|x: int| 0 <= x < u ==> #[trigger] remaining@[x] == gp[x].len(),
                forall|x: int| 0 <= x < u ==> (#[trigger] pending@[x])@.len() == 0,
            decreases n - u,
        {
            preds.push(copy_vec(&graph.preds[u]));
            planned.push(false);
            succs.push(Vec::new());
            state.push(NodeState::Waiting);
            remaining.push(graph.preds[u].len());
            pending.push(Vec::new());
            freshness.push(0);
            u = u + 1;
        }
        let mut i: usize = 0;
        while i < recipe.order.len()
            invariant
                planned@.len() == n,
                n == graph.targets@.len(),
                i <= recipe.order@.len(),
                forall|k: int| 0 <= k < recipe.order@.len() ==> #[trigger] recipe.order@[k] < n,
                forall|x: int| 0 <= x < n ==> (#[trigger] planned@[x] <==> recipe.order@.take(i as int).contains(x as usize)),
            decreases recipe.order.len() - i,
        {
            let x = recipe.order[i];
            proof {
                assert(recipe.order@.take(i + 1) =~= recipe.order@.take(i as int).push(x));
                lemma_push_contains(recipe.order@.take(i as int), x);
            }
            planned.set(x, true);
            i = i + 1;
        }
        proof {
            assert(recipe.order@.take(i as int) =~= recipe.order@);
        }
        let mut u: usize = 0;
        while u < n
            invariant
                n == graph.preds@.len(),
                n == graph.targets@.len(),
                gp == graph.pv(),
                graph.wf(),
                u <= n,
                preds@.len() == n,
                planned@.len() == n,
                succs@.len() == n,
                forall|x: int| 0 <= x < n ==> (#[trigger] preds@[x])@ == gp[x],
                forall|v: int, s: usize|
                    0 <= v < n ==> (#[trigger] succs@[v]@.contains(s) <==> (s < u && planned@[s as int]
                        && gp[s as int].contains(v as usize))),
                forall|v: int| 0 <= v < n ==> (#[trigger] succs@[v]@).no_duplicates(),
            decreases n - u,
        {
            if planned[u] {
                let ps = &graph.preds[u];
                assert(ps@ == gp[u as int]);
                let mut k: usize = 0;
                while k < ps.len()
                    invariant
                        n == graph.preds@.len(),
                        n == graph.targets@.len(),
                        gp == graph.pv(),
                        graph.wf(),
                        u < n,
                        planned@[u as int],
                        ps@ == gp[u as int],
                        k <= ps@.len(),
                        succs@.len() == n,
                        forall|v: int, s: usize|
                            0 <= v < n ==> (#[trigger] succs@[v]@.contains(s) <==> ((s < u && planned@[s as int]
                                && gp[s as int].contains(v as usize)) || (s == u && ps@.take(k as int).contains(v as usize)))),
                        forall|v: int| 0 <= v < n ==> (#[trigger] succs@[v]@).no_duplicates(),
                    decreases ps.len() - k,
                {
                    let p = ps[k];
                    proof {
                        assert(graph.preds@[u as int]@[k as int] < n);
                        assert(ps@.take(k + 1) =~= ps@.take(k as int).push(p));
                        lemma_push_contains(ps@.take(k as int), p);
                        lemma_push_contains(succs@[p as int]@, u);
                        assert(!ps@.take(k as int).contains(p)) by {
                            if ps@.take(k as int).contains(p) {
                                let j = choose|j: int| 0 <= j < k && ps@.take(k as int)[j] == p;
                                assert(ps@[j] == ps@[k as int]);
                            }
                        }
                        assert(!succs@[p as int]@.contains(u));
                    }
                    let ghost before = succs@;
                    succs[p].push(u);
                    proof {
                        assert forall|v: int, s: usize|
                            0 <= v < n implies (#[trigger] succs@[v]@.contains(s) <==> ((s < u && planned@[s as int]
                                && gp[s as int].contains(v as usize)) || (s == u && ps@.take(k + 1).contains(v as usize)))) by {
                            if v != p {
                                assert(succs@[v] == before[v]);
                            }
                        }
                        assert forall|v: int| 0 <= v < n implies (#[trigger] succs@[v]@).no_duplicates() by {
                            if v != p {
                                assert(succs@[v] == before[v]);
                            }
                        }
                    }
                    k = k + 1;
                }
                proof {
                    assert(ps@.take(k as int) =~= ps@);
                }
            }
            u = u + 1;
        }
        let mut d = Dispatcher { preds, succs, planned, state, remaining, pending, freshness };
        proof {
            assert(d.pv() =~= gp);
            assert forall|x: int| 0 <= x < n && d.planned@[x] && #[trigger] d.state@[x] == NodeState::Waiting
                implies d.remaining@[x] == count_not_done(d.preds@[x]@, d.state@)
                && delivered(d.pending@[x]@, d.preds@[x]@, d.state@, d.freshness@) by {
                lemma_count_none_done(d.preds@[x]@, d.state@);
            }
            assert forall|x: int, k: int|
                0 <= x < n && 0 <= k < d.preds@[x]@.len() && d.planned@[x] implies d.planned@[
                    #[trigger] d.preds@[x]@[k] as int] by {
                let i = choose|i: int| 0 <= i < recipe.order@.len() && recipe.order@[i] == x as usize;
                let p = d.preds@[x]@[k];
                assert(gp[x].contains(p));
                assert(edge(gp, recipe.order@[i], p));
                let j = choose|j: int| 0 <= j < i && #[trigger] recipe.order@[j] == p;
            }
            assert forall|x: int, k: int|
                0 <= x < n && 0 <= k < d.preds@[x]@.len() implies #[trigger] d.preds@[x]@[k] < n by {
                assert(gp[x] == graph.preds@[x]@);
                assert(graph.preds@[x]@[k] < n);
            }
        }
        let mut jobs: Vec<ExecNode> = Vec::new();
        let mut u: usize = 0;
        while u < n
            invariant
                d.wf_owing(Seq::empty(), 0),
                forall|x: int| 0 <= x < u && d.planned@[x] && #[trigger] d.state@[x] == NodeState::Waiting ==> d.remaining@[x] > 0,
                d.pv() == gp,
                gp == graph.pv(),
                n == d.preds@.len(),
                n == graph.targets@.len(),
                u <= n,
                forall|x: int| 0 <= x < n ==> (#[trigger] d.planned@[x] <==> recipe.order@.contains(x as usize)),
                forall|x: int| 0 <= x < n ==> (#[trigger] d.state@[x] == NodeState::Running <==> (x < u && d.planned@[x] && gp[x].len() == 0)),
                forall|x: int| 0 <= x < n ==> (#[trigger] d.state@[x] == NodeState::Waiting || d.state@[x] == NodeState::Running),
                forall|x: int| 0 <= x < n && d.state@[x] == NodeState::Waiting && d.planned@[x] ==> #[trigger] d.remaining@[x] == gp[x].len(),
                forall|k: int| 0 <= k < jobs@.len() ==> (#[trigger] jobs@[k]).id < n,
                forall|k: int| 0 <= k < jobs@.len() ==> d.state@[(#[trigger] jobs@[k]).id as int] == NodeState::Running && jobs@[k].inputs@.len() == 0,
                forall|x: usize| x < n && d.state@[x as int] == NodeState::Running ==> exists|k: int| 0 <= k < jobs@.len() && (#[trigger] jobs@[k]).id == x,
                forall|x: int| 0 <= x < n ==> (#[trigger] d.pending@[x])@.len() == 0,
            decreases n - u,
        {
            if d.planned[u] && d.remaining[u] == 0 {
                let ghost s0 = d.state@;
                let ghost j0 = jobs@;
                d.state.set(u, NodeState::Running);
                jobs.push(ExecNode::new(u, Vec::new()));
                proof {
                    assert forall|x: int| 0 <= x < n && d.planned@[x] && #[trigger] d.state@[x] == NodeState::Waiting
                        implies d.remaining@[x] == count_not_done(d.preds@[x]@, d.state@)
                        && delivered(d.pending@[x]@, d.preds@[x]@, d.state@, d.freshness@) by {
                        assert(s0[x] == NodeState::Waiting);
                        assert forall|k: int| 0 <= k < d.preds@[x]@.len() implies d.state@[#[trigger] d.preds@[x]@[k] as int] != NodeState::Done by {
                            assert(d.preds@[x]@[k] < n);
                        }
                        lemma_count_none_done(d.preds@[x]@, d.state@);

                    }
                    assert forall|x: usize| x < n && d.state@[x as int] == NodeState::Running implies exists|k: int| 0 <= k < jobs@.len() && (#[trigger] jobs@[k]).id == x by {
                        if x == u {
                            assert(jobs@[j0.len() as int].id == u);
                        } else {
                            let k = choose|k: int| 0 <= k < j0.len() && (#[trigger] j0[k]).id == x;
                            assert(jobs@[k] == j0[k]);
                        }
                    }
                    assert forall|k: int| 0 <= k < jobs@.len() implies (#[trigger] jobs@[k]).id < n by {
                        if k < j0.len() {
                            assert(jobs@[k] == j0[k]);
                        }
                    }
                    assert forall|k: int| 0 <= k < jobs@.len() implies d.state@[(#[trigger] jobs@[k]).id as int] == NodeState::Running && jobs@[k].inputs@.len() == 0 by {
                        if k < j0.len() {
                            assert(jobs@[k] == j0[k]);
                        } else {
                            assert(jobs@[k].id == u);
                            assert(jobs@[k].inputs@ == Seq::<Timestamp>::empty());
                        }
                    }
                }
            }
            u = u + 1;
        }
        (d, jobs)
    }
}

proof fn lemma_owed_step(s: Seq<usize>, j: int)
    requires
        s.no_duplicates(),
        0 <= j < s.len(),
    ensures
        forall|u: usize| #[trigger] s.subrange(j, s.len() as int).contains(u) <==> (s.subrange(j + 1, s.len() as int).contains(u) || u == s[j]),
        !s.subrange(j + 1, s.len() as int).contains(s[j]),
{
    let a = s.subrange(j, s.len() as int);
    let b = s.subrange(j + 1, s.len() as int);
    assert forall|u: usize| #[trigger] a.contains(u) <==> (b.contains(u) || u == s[j]) by {
        if a.contains(u) {
            let i = choose|i: int| 0 <= i < a.len() && a[i] == u;
            if i > 0 {
                assert(b[i - 1] == u);
            }
        }
        if b.contains(u) {
            let i = choose|i: int| 0 <= i < b.len() && b[i] == u;
            assert(a[i + 1] == u);
        }
        if u == s[j] {
            assert(a[0] == u);
        }
    }
    if b.contains(s[j]) {
        let i = choose|i: int| 0 <= i < b.len() && b[i] == s[j];
        assert(s[j + 1 + i] == s[j]);
    }
}

proof fn lemma_delivered_frame(
    vals: Seq<Timestamp>,
    ps: Seq<usize>,
    a: Seq<NodeState>,
    b: Seq<NodeState>,
    fa: Seq<Timestamp>,
    fb: Seq<Timestamp>,
    skip: Option<usize>,
)
    requires
        delivered_but(vals, ps, a, fa, skip),
        forall|p: usize| #[trigger] ps.contains(p) ==> (a[p as int] == NodeState::Done) == (b[p as int] == NodeState::Done),
        forall|p: usize| #[trigger] ps.contains(p) && a[p as int] == NodeState::Done ==> fa[p as int] == fb[p as int],
    ensures
        delivered_but(vals, ps, b, fb, skip),
{
    assert forall|k: int| 0 <= k < vals.len() implies from_done(#[trigger] vals[k], ps, b, fb, skip) by {
        assert(from_done(vals[k], ps, a, fa, skip));
        let p = choose|p: usize| ps.contains(p) && a[p as int] == NodeState::Done && skip != Some(p) && vals[k] == fa[p as int];
        assert(ps.contains(p) && b[p as int] == NodeState::Done && skip != Some(p) && vals[k] == fb[p as int]);
    }
    assert forall|p: usize| #[trigger] ps.contains(p) && b[p as int] == NodeState::Done && skip != Some(p)
        implies vals.contains(fb[p as int]) by {
        assert(a[p as int] == NodeState::Done);
        assert(vals.contains(fa[p as int]));
    }
}

proof fn lemma_count_frame_contains(ps: Seq<usize>, a: Seq<NodeState>, b: Seq<NodeState>)
    requires
        forall|p: usize| #[trigger] ps.contains(p) ==> (a[p as int] == NodeState::Done) == (b[p as int] == NodeState::Done),
    ensures
        count_not_done(ps, a) == count_not_done(ps, b),
{
    assert forall|k: int| 0 <= k < ps.len() implies (a[#[trigger] ps[k] as int] == NodeState::Done) == (b[ps[k] as int]
        == NodeState::Done) by {
        assert(ps.contains(ps[k]));
    }
    lemma_count_frame(ps, a, b);
}

impl Dispatcher {
    /// Takes in that node `n` finished with freshness `ts`: `n` is done, each
    /// waiting node that has it as an input hears `ts`, and those whose
    /// inputs have now all finished are handed out, with the freshness
    /// values of their inputs.
    pub fn on_complete(&mut self, n: usize, ts: Timestamp) -> (jobs: Vec<ExecNode>)
        requires
            old(self).wf(),
            n < old(self).preds@.len(),
            old(self).state@[n as int] == NodeState::Running,
        ensures
            final(self).wf(),
            final(self).preds == old(self).preds,
            final(self).planned == old(self).planned,
            final(self).state@[n as int] == NodeState::Done,
            final(self).freshness@[n as int] == ts,
            forall|u: int| 0 <= u < old(self).preds@.len() && u != n ==> (#[trigger] final(self).state@[u] == old(self).state@[u])
                || (old(self).state@[u] == NodeState::Waiting && final(self).state@[u] == NodeState::Running),
            forall|u: usize| u < old(self).preds@.len() && u != n && old(self).state@[u as int] == NodeState::Waiting
                && #[trigger] final(self).state@[u as int] == NodeState::Running ==> exists|k: int| 0 <= k < jobs@.len() && jobs@[k].id == u,
            forall|k: int| 0 <= k < jobs@.len() ==> {
                let u = (#[trigger] jobs@[k]).id;
                &&& u < old(self).preds@.len()
                &&& old(self).state@[u as int] == NodeState::Waiting
                &&& final(self).state@[u as int] == NodeState::Running
                &&& delivered(jobs@[k].inputs@, final(self).preds@[u as int]@, final(self).state@, final(self).freshness@)
            },
    {
        let ghost st0 = self.state@;
        let ghost len = self.preds@.len();
        let plen = self.preds.len();
        assert(plen == len);
        self.state.set(n, NodeState::Done);
        self.freshness.set(n, ts);
        let ghost sc = self.succs@[n as int]@;
        proof {
            assert(sc.subrange(0, sc.len() as int) =~= sc);
            assert forall|u: int| 0 <= u < len && self.planned@[u] && #[trigger] self.state@[u] == NodeState::Waiting
                implies self.remaining@[u] == count_not_done(self.preds@[u]@, self.state@) + if sc.contains(u as usize) {
                    1nat
                } else {
                    0nat
                } && delivered_but(self.pending@[u]@, self.preds@[u]@, self.state@, self.freshness@,
                    if sc.contains(u as usize) { Some(n) } else { None }) by {
                assert(old(self).state@[u] == NodeState::Waiting);
                assert(!Seq::<usize>::empty().contains(u as usize));
                let ps = self.preds@[u]@;
                assert(old(self).succs@[n as int]@.contains(u as usize) <==> (u < len && old(self).planned@[u]
                    && old(self).preds@[u]@.contains(n)));
                assert forall|k: int| 0 <= k < ps.len() implies #[trigger] ps[k] < st0.len() by {
                    assert(old(self).preds@[u]@[k] < len);
                }
                if sc.contains(u as usize) {
                    assert(ps.contains(n));
                    lemma_count_done_step(ps, st0, n);
                    assert(self.state@ == st0.update(n as int, NodeState::Done));
                    let vals = self.pending@[u]@;
                    assert forall|k: int| 0 <= k < vals.len() implies from_done(#[trigger] vals[k], ps, self.state@, self.freshness@, Some(n)) by {
                        assert(from_done(vals[k], ps, st0, old(self).freshness@, None));
                        let p = choose|p: usize| ps.contains(p) && st0[p as int] == NodeState::Done && None::<usize> != Some(p) && vals[k] == old(self).freshness@[p as int];
                        assert(p != n);
                        assert(ps.contains(p) && self.state@[p as int] == NodeState::Done && Some(n) != Some(p) && vals[k] == self.freshness@[p as int]);
                    }
                } else {
                    assert(!ps.contains(n));
                    lemma_count_frame_contains(ps, st0, self.state@);
                    lemma_delivered_frame(self.pending@[u]@, ps, st0, self.state@, old(self).freshness@, self.freshness@, None);
                }
            }
            assert forall|u: int, k: int|
                0 <= u < len && self.started(u) && 0 <= k < self.preds@[u]@.len() implies self.state@[
                    #[trigger] self.preds@[u]@[k] as int] == NodeState::Done by {
                assert(old(self).preds@[u]@[k] < len);
                if u != n {
                    assert(old(self).started(u));
                }
            }
            assert(self.wf_owing(sc.subrange(0, sc.len() as int), n));
        }
        let mut jobs: Vec<ExecNode> = Vec::new();
        let m = self.succs[n].len();
        let mut j: usize = 0;
        while j < m
            invariant
                len == self.preds@.len(),
                plen == len,
                st0.len() == len,
                old(self).freshness@.len() == len,
                n < len,
                m == sc.len(),
                j <= m,
                sc == self.succs@[n as int]@,
                sc.no_duplicates(),
                self.wf_owing(sc.subrange(j as int, sc.len() as int), n),
                self.no_stall(),
                self.preds == old(self).preds,
                self.planned == old(self).planned,
                self.succs == old(self).succs,
                self.state@[n as int] == NodeState::Done,
                self.freshness@[n as int] == ts,
                forall|u: int| 0 <= u < len && u != n ==> self.freshness@[u] == old(self).freshness@[u],
                forall|u: int| 0 <= u < len && u != n ==> (#[trigger] self.state@[u] == st0[u])
                    || (st0[u] == NodeState::Waiting && self.state@[u] == NodeState::Running),
                st0 == old(self).state@,
                forall|u: usize| u < len && u != n && st0[u as int] == NodeState::Waiting
                    && #[trigger] self.state@[u as int] == NodeState::Running ==> exists|k: int| 0 <= k < jobs@.len() && jobs@[k].id == u,
                forall|k: int| 0 <= k < jobs@.len() ==> {
                    let u = (#[trigger] jobs@[k]).id;
                    &&& u < len
                    &&& st0[u as int] == NodeState::Waiting
                    &&& self.state@[u as int] == NodeState::Running
                    &&& delivered(jobs@[k].inputs@, self.preds@[u as int]@, self.state@, self.freshness@)
                },
            decreases m - j,
        {
            let s = self.succs[n][j];
            proof {
                lemma_owed_step(sc, j as int);
                assert(sc[j as int] == s);
                assert(self.succs@[n as int]@.contains(s));
            }
            let ghost before = *self;
            let ghost jobs0 = jobs@;
            if self.state[s] == NodeState::Waiting {
                self.pending[s].push(ts);
                self.remaining[s] = self.remaining[s] - 1;
                proof {
                    let ps = self.preds@[s as int]@;
                    let vals = self.pending@[s as int]@;
                    assert(self.succs@[n as int]@.contains(s) <==> (s < len && self.planned@[s as int]
                        && self.preds@[s as int]@.contains(n as usize)));
                    assert(ps.contains(n));
                    assert(vals == before.pending@[s as int]@.push(ts));
                    assert forall|k: int| 0 <= k < vals.len() implies from_done(#[trigger] vals[k], ps, self.state@, self.freshness@, None) by {
                        if k < vals.len() - 1 {
                            assert(vals[k] == before.pending@[s as int]@[k]);
                            assert(from_done(before.pending@[s as int]@[k], ps, before.state@, before.freshness@, Some(n)));
                            let p = choose|p: usize| ps.contains(p) && before.state@[p as int] == NodeState::Done && Some(n) != Some(p) && before.pending@[s as int]@[k] == before.freshness@[p as int];
                            assert(ps.contains(p) && self.state@[p as int] == NodeState::Done && None::<usize> != Some(p) && vals[k] == self.freshness@[p as int]);
                        } else {
                            assert(vals[k] == self.freshness@[n as int]);
                            assert(ps.contains(n) && self.state@[n as int] == NodeState::Done && None::<usize> != Some(n) && vals[k] == self.freshness@[n as int]);
                        }
                    }
                    assert forall|p: usize| #[trigger] ps.contains(p) && self.state@[p as int] == NodeState::Done && None::<usize> != Some(p)
                        implies vals.contains(self.freshness@[p as int]) by {
                        lemma_push_contains_u64(before.pending@[s as int]@, ts);
                    }
                    assert(delivered_but(vals, ps, self.state@, self.freshness@, None));
                    assert(self.remaining@[s as int] == count_not_done(ps, self.state@));
                }
                if self.remaining[s] == 0 {
                    proof {
                        lemma_count_zero_all_done(self.preds@[s as int]@, self.state@);
                    }
                    let ghost st1 = self.state@;
                    self.state.set(s, NodeState::Running);
                    let mut inputs: Vec<Timestamp> = Vec::new();
                    std::mem::swap(&mut inputs, &mut self.pending[s]);
                    proof {
                        assert(inputs@ == before.pending@[s as int]@.push(ts));
                        lemma_delivered_frame(inputs@, self.preds@[s as int]@, st1, self.state@, self.freshness@, self.freshness@, None);
                    }
                    jobs.push(ExecNode::new(s, inputs));
                }
            }
            proof {
                let owed = sc.subrange(j + 1, sc.len() as int);
                assert forall|u: int| 0 <= u < len && self.planned@[u] && #[trigger] self.state@[u] == NodeState::Waiting
                    implies self.remaining@[u] == count_not_done(self.preds@[u]@, self.state@) + if owed.contains(u as usize) {
                        1nat
                    } else {
                        0nat
                    } && delivered_but(self.pending@[u]@, self.preds@[u]@, self.state@, self.freshness@,
                        if owed.contains(u as usize) { Some(n) } else { None }) by {
                    let ps = self.preds@[u]@;
                    assert(sc.subrange(j as int, sc.len() as int).contains(u as usize) <==> (owed.contains(u as usize) || u as usize == s));
                    if u != s {
                        assert(before.state@[u] == NodeState::Waiting);
                        assert(sc.subrange(j as int, sc.len() as int).contains(u as usize) == owed.contains(u as usize));
                        assert forall|p: usize| #[trigger] ps.contains(p) implies (before.state@[p as int] == NodeState::Done) == (self.state@[p as int] == NodeState::Done) by {
                            let k = choose|k: int| 0 <= k < ps.len() && ps[k] == p;
                            assert(before.preds@[u]@[k] < len);
                        }
                        lemma_count_frame_contains(ps, before.state@, self.state@);
                        lemma_delivered_frame(self.pending@[u]@, ps, before.state@, self.state@, self.freshness@, self.freshness@,
                            if owed.contains(u as usize) { Some(n) } else { None });
                    } else {
                        lemma_count_frame_contains(ps, before.state@, self.state@);
                    }
                }
                assert forall|u: int, k: int|
                    0 <= u < len && self.started(u) && 0 <= k < self.preds@[u]@.len() implies self.state@[
                        #[trigger] self.preds@[u]@[k] as int] == NodeState::Done by {
                    assert(before.preds@[u]@[k] < len);
                    if u != s {
                        assert(before.started(u));
                    }
                }
                assert forall|k: int| 0 <= k < jobs@.len() implies {
                    let u = (#[trigger] jobs@[k]).id;
                    &&& u < len
                    &&& st0[u as int] == NodeState::Waiting
                    &&& self.state@[u as int] == NodeState::Running
                    &&& delivered(jobs@[k].inputs@, self.preds@[u as int]@, self.state@, self.freshness@)
                } by {
                    if k < jobs0.len() {
                        assert(jobs@[k] == jobs0[k]);
                        let u = jobs0[k].id;
                        let ps = self.preds@[u as int]@;
                        assert forall|p: usize| #[trigger] ps.contains(p) implies (before.state@[p as int] == NodeState::Done) == (self.state@[p as int] == NodeState::Done) by {
                            let q = choose|q: int| 0 <= q < ps.len() && ps[q] == p;
                            assert(before.preds@[u as int]@[q] < len);
                        }
                        lemma_delivered_frame(jobs0[k].inputs@, ps, before.state@, self.state@, self.freshness@, self.freshness@, None);
                    }
                }
                assert forall|u: usize| u < len && u != n && st0[u as int] == NodeState::Waiting
                    && #[trigger] self.state@[u as int] == NodeState::Running implies exists|k: int| 0 <= k < jobs@.len() && jobs@[k].id == u by {
                    if u != s || before.state@[u as int] == NodeState::Running {
                        let k = choose|k: int| 0 <= k < jobs0.len() && jobs0[k].id == u;
                        assert(jobs@[k] == jobs0[k]);
                    } else {
                        assert(jobs@[jobs0.len() as int].id == u);
                    }
                }
            }
            j = j + 1;
        }
        proof {
            assert(sc.subrange(j as int, sc.len() as int) =~= Seq::<usize>::empty());
        }
        jobs
    }
}

/// How many nodes are waiting.
pub open spec fn count_waiting(st: Seq<NodeState>) -> nat
    decreases st.len(),
{
    if st.len() == 0 {
        0
    } else {
        count_waiting(st.drop_last()) + if st.last() == NodeState::Waiting {
            1nat
        } else {
            0nat
        }
    }
}

proof fn lemma_count_waiting_cancel(st: Seq<NodeState>, i: int)
    requires
        0 <= i < st.len(),
        st[i] == NodeState::Waiting,
    ensures
        count_waiting(st.update(i, NodeState::Cancelled)) + 1 == count_waiting(st),
    decreases st.len(),
{
    let t = st.update(i, NodeState::Cancelled);
    if i < st.len() - 1 {
        assert(t.drop_last() =~= st.drop_last().update(i, NodeState::Cancelled));
        lemma_count_waiting_cancel(st.drop_last(), i);
    } else {
        assert(t.drop_last() =~= st.drop_last());
    }
}

/// Along a chain that starts at a node under way or finished, every node
/// after the first has finished.
proof fn lemma_chain_done(d: Dispatcher, c: Seq<usize>, i: int)
    requires
        d.wf(),
        is_chain(d.pv(), c),
        c[0] < d.preds@.len(),
        d.started(c[0] as int),
        0 < i < c.len(),
    ensures
        d.state@[c[i] as int] == NodeState::Done,
    decreases i,
{
    let k = i - 1;
    assert(edge(d.pv(), c[k], c[k + 1]));
    if i > 1 {
        lemma_chain_done(d, c, i - 1);
    }
    let u = c[k];
    let ps = d.pv()[u as int];
    assert(ps == d.preds@[u as int]@);
    let q = choose|q: int| 0 <= q < ps.len() && ps[q] == c[i];
    assert(d.preds@[u as int]@[q] < d.preds@.len());
}

impl Dispatcher {
    /// Takes in that node `n` failed: it is marked failed, and every
    /// waiting node of the run downstream of it is cancelled.
    pub fn on_fail(&mut self, n: usize)
        requires
            old(self).wf(),
            n < old(self).preds@.len(),
            old(self).state@[n as int] == NodeState::Running,
        ensures
            final(self).wf(),
            final(self).preds == old(self).preds,
            final(self).planned == old(self).planned,
            final(self).freshness == old(self).freshness,
            final(self).state@[n as int] == NodeState::Failed,
            forall|u: int| 0 <= u < old(self).preds@.len() && u != n ==> (#[trigger] final(self).state@[u] == old(self).state@[u])
                || (old(self).state@[u] == NodeState::Waiting && final(self).state@[u] == NodeState::Cancelled),
            forall|s: usize| #[trigger] old(self).succs@[n as int]@.contains(s) && old(self).state@[s as int] == NodeState::Waiting
                ==> final(self).state@[s as int] == NodeState::Cancelled,
    {
        let ghost len = self.preds@.len();
        let plen = self.preds.len();
        let ghost st0 = self.state@;
        self.state.set(n, NodeState::Failed);
        proof {
            assert forall|u: int| 0 <= u < len && self.planned@[u] && #[trigger] self.state@[u] == NodeState::Waiting
                implies self.remaining@[u] == count_not_done(self.preds@[u]@, self.state@) + if Seq::<usize>::empty().contains(u as usize) {
                    1nat
                } else {
                    0nat
                } && delivered_but(self.pending@[u]@, self.preds@[u]@, self.state@, self.freshness@,
                    if Seq::<usize>::empty().contains(u as usize) { Some(0) } else { None }) by {
                assert(!Seq::<usize>::empty().contains(u as usize));
                let ps = self.preds@[u]@;
                lemma_count_frame_contains(ps, st0, self.state@);
                lemma_delivered_frame(self.pending@[u]@, ps, st0, self.state@, self.freshness@, self.freshness@, None);
            }
            assert forall|u: int, k: int|
                0 <= u < len && self.started(u) && 0 <= k < self.preds@[u]@.len() implies self.state@[
                    #[trigger] self.preds@[u]@[k] as int] == NodeState::Done by {
                assert(old(self).started(u));
            }
        }
        let mut work: Vec<usize> = Vec::new();
        work.push(n);
        proof {
            assert(work@[0] == n);
        }
        while work.len() > 0
            invariant
                self.wf(),
                len == self.preds@.len(),
                plen == len,
                st0 == old(self).state@,
                st0.len() == len,
                self.preds == old(self).preds,
                self.planned == old(self).planned,
                self.succs == old(self).succs,
                self.freshness == old(self).freshness,
                self.state@[n as int] == NodeState::Failed,
                n < len,
                forall|k: int| 0 <= k < work@.len() ==> #[trigger] work@[k] < len,
                forall|u: int| 0 <= u < len && u != n ==> (#[trigger] self.state@[u] == st0[u])
                    || (st0[u] == NodeState::Waiting && self.state@[u] == NodeState::Cancelled),
                work@.contains(n) || forall|s: usize| #[trigger] self.succs@[n as int]@.contains(s) ==> self.state@[s as int] != NodeState::Waiting,
            decreases count_waiting(self.state@), work@.len(),
        {
            let ghost cw0 = count_waiting(self.state@);
            let ghost w0 = work@;
            let x = work.pop().unwrap();
            proof {
                assert(w0 =~= work@.push(x));
                lemma_push_contains(work@, x);
            }
            let ghost wk0 = work@;
            let m = self.succs[x].len();
            let mut j: usize = 0;
            while j < m
                invariant
                    self.wf(),
                    len == self.preds@.len(),
                    plen == len,
                    st0 == old(self).state@,
                    st0.len() == len,
                    self.preds == old(self).preds,
                    self.planned == old(self).planned,
                    self.succs == old(self).succs,
                    self.freshness == old(self).freshness,
                    self.state@[n as int] == NodeState::Failed,
                    n < len,
                    x < len,
                    m == self.succs@[x as int]@.len(),
                    j <= m,
                    forall|k: int| 0 <= k < work@.len() ==> #[trigger] work@[k] < len,
                    forall|u: int| 0 <= u < len && u != n ==> (#[trigger] self.state@[u] == st0[u])
                        || (st0[u] == NodeState::Waiting && self.state@[u] == NodeState::Cancelled),
                    forall|q: int| 0 <= q < j ==> self.state@[#[trigger] self.succs@[x as int]@[q] as int] != NodeState::Waiting,
                    wk0.contains(n) || x == n || forall|s: usize| #[trigger] self.succs@[n as int]@.contains(s) ==> self.state@[s as int] != NodeState::Waiting,
                    count_waiting(self.state@) + (work@.len() - wk0.len()) == cw0,
                    work@.len() >= wk0.len(),
                    wk0.len() + 1 == w0.len(),
                    forall|k: int| 0 <= k < wk0.len() ==> work@[k] == wk0[k],
                decreases m - j,
            {
                let s = self.succs[x][j];
                let ghost sb = self.state@;
                proof {
                    assert(self.succs@[x as int]@.contains(s));
                }
                if self.state[s] == NodeState::Waiting {
                    let ghost before = *self;
                    proof {
                        lemma_count_waiting_cancel(self.state@, s as int);
                    }
                    self.state.set(s, NodeState::Cancelled);
                    work.push(s);
                    proof {
                        assert forall|u: int| 0 <= u < len && self.planned@[u] && #[trigger] self.state@[u] == NodeState::Waiting
                            implies self.remaining@[u] == count_not_done(self.preds@[u]@, self.state@) + if Seq::<usize>::empty().contains(u as usize) {
                                1nat
                            } else {
                                0nat
                            } && delivered_but(self.pending@[u]@, self.preds@[u]@, self.state@, self.freshness@,
                                if Seq::<usize>::empty().contains(u as usize) { Some(0) } else { None }) by {
                            assert(!Seq::<usize>::empty().contains(u as usize));
                            assert(before.state@[u] == NodeState::Waiting);
                            let ps = self.preds@[u]@;
                            lemma_count_frame_contains(ps, before.state@, self.state@);
                            lemma_delivered_frame(self.pending@[u]@, ps, before.state@, self.state@, self.freshness@, self.freshness@, None);
                        }
                        assert forall|u: int, k: int|
                            0 <= u < len && self.started(u) && 0 <= k < self.preds@[u]@.len() implies self.state@[
                                #[trigger] self.preds@[u]@[k] as int] == NodeState::Done by {
                            assert(before.started(u));
                            assert(before.preds@[u]@[k] < len);
                        }
                        assert forall|k: int| 0 <= k < wk0.len() implies work@[k] == wk0[k] by {}
                    }
                }
                proof {
                    assert forall|q: int| 0 <= q < j + 1 implies self.state@[#[trigger] self.succs@[x as int]@[q] as int] != NodeState::Waiting by {
                        let t = self.succs@[x as int]@[q];
                        assert(self.succs@[x as int]@.contains(t));
                        assert(t < len);
                        if q < j {
                            assert(sb[t as int] != NodeState::Waiting);
                        }
                    }
                }
                j = j + 1;
            }
            proof {
                assert forall|k: int| 0 <= k < work@.len() implies #[trigger] work@[k] < len by {}
                if x == n {
                    assert forall|s: usize| #[trigger] self.succs@[n as int]@.contains(s) implies self.state@[s as int] != NodeState::Waiting by {
                        let q = choose|q: int| 0 <= q < m && self.succs@[n as int]@[q] == s;
                    }
                } else if wk0.contains(n) {
                    let k = choose|k: int| 0 <= k < wk0.len() && wk0[k] == n;
                    assert(work@[k] == n);
                }
            }
        }
        proof {
            assert forall|s: usize| #[trigger] old(self).succs@[n as int]@.contains(s) && old(self).state@[s as int] == NodeState::Waiting
                implies self.state@[s as int] == NodeState::Cancelled by {
                assert(self.succs@[n as int]@.contains(s));
                assert(s < len);
            }
        }
    }

    /// Takes in a worker's report on a running node, and returns the jobs
    /// that can start now.
    pub fn on_status(&mut self, status: WorkerStatus) -> (jobs: Vec<ExecNode>)
        requires
            old(self).wf(),
            match status {
                WorkerStatus::Complete(n, _) => n < old(self).preds@.len() && old(self).state@[n as int] == NodeState::Running,
                WorkerStatus::Fail(n) => n < old(self).preds@.len() && old(self).state@[n as int] == NodeState::Running,
            },
        ensures
            final(self).wf(),
            final(self).preds == old(self).preds,
            final(self).planned == old(self).planned,
            forall|u: int| 0 <= u < old(self).preds@.len() && old(self).state@[u] == NodeState::Failed ==> #[trigger] final(self).state@[u] == NodeState::Failed,
            forall|k: int| 0 <= k < jobs@.len() ==> {
                let u = (#[trigger] jobs@[k]).id;
                &&& u < old(self).preds@.len()
                &&& old(self).state@[u as int] == NodeState::Waiting
                &&& final(self).state@[u as int] == NodeState::Running
                &&& delivered(jobs@[k].inputs@, final(self).preds@[u as int]@, final(self).state@, final(self).freshness@)
            },
            forall|u: usize| u < old(self).preds@.len() && old(self).state@[u as int] == NodeState::Waiting
                && #[trigger] final(self).state@[u as int] == NodeState::Running ==> exists|k: int| 0 <= k < jobs@.len() && jobs@[k].id == u,
            forall|u: int| 0 <= u < old(self).preds@.len() ==> (#[trigger] final(self).state@[u] == old(self).state@[u])
                || (old(self).state@[u] == NodeState::Waiting && (final(self).state@[u] == NodeState::Running
                || final(self).state@[u] == NodeState::Cancelled)) || (old(self).state@[u] == NodeState::Running
                && status_id(status) == u),
            status matches WorkerStatus::Complete(n, ts) ==> final(self).state@[n as int] == NodeState::Done && final(self).freshness@[n as int] == ts,
            status matches WorkerStatus::Fail(n) ==> final(self).state@[n as int] == NodeState::Failed && jobs@.len() == 0,
    {
        match status {
            WorkerStatus::Complete(n, ts) => self.on_complete(n, ts),
            WorkerStatus::Fail(n) => {
                self.on_fail(n);
                Vec::new()
            },
        }
    }

    /// No node is under way: the run is over.
    pub fn is_finished(&self) -> (r: bool)
        ensures
            r <==> forall|u: int| 0 <= u < self.state@.len() ==> self.state@[u] != NodeState::Running,
    {
        let mut i: usize = 0;
        while i < self.state.len()
            invariant
                i <= self.state@.len(),
                forall|u: int| 0 <= u < i ==> self.state@[u] != NodeState::Running,
            decreases self.state.len() - i,
        {
            if self.state[i] == NodeState::Running {
                return false;
            }
            i = i + 1;
        }
        true
    }

    /// Some node failed.
    pub fn has_failed(&self) -> (r: bool)
        ensures
            r <==> exists|u: int| 0 <= u < self.state@.len() && self.state@[u] == NodeState::Failed,
    {
        let mut i: usize = 0;
        while i < self.state.len()
            invariant
                i <= self.state@.len(),
                forall|u: int| 0 <= u < i ==> self.state@[u] != NodeState::Failed,
            decreases self.state.len() - i,
        {
            if self.state[i] == NodeState::Failed {
                return true;
            }
            i = i + 1;
        }
        false
    }
}

/// No node starts before every input it has, within the run, has finished;
/// indeed every node it depends on has finished.
pub proof fn lemma_order_soundness(d: Dispatcher, y: usize, x: usize)
    requires
        d.wf(),
        y < d.preds@.len(),
        d.started(y as int),
        depends_on(d.pv(), y, x),
        x != y,
    ensures
        d.state@[x as int] == NodeState::Done,
{
    let c = choose|c: Seq<usize>| is_chain(d.pv(), c) && c[0] == y && c.last() == x;
    lemma_chain_done(d, c, c.len() - 1);
}

/// Once a node has failed, nothing that depends on it is under way or
/// finished, so none of its commands runs.
pub proof fn lemma_failure_cascade(d: Dispatcher, x: usize, y: usize)
    requires
        d.wf(),
        y < d.preds@.len(),
        d.state@[x as int] == NodeState::Failed,
        depends_on(d.pv(), y, x),
    ensures
        !d.started(y as int),
{
    if d.started(y as int) && x != y {
        lemma_order_soundness(d, y, x);
    }
}

} // verus!
