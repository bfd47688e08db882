//! Targets, their fingerprinted commands, and the decision of which
//! commands must run again.
use vstd::prelude::*;

use std::collections::hash_map::DefaultHasher;
use std::hash::Hasher;
use vstd::std_specs::hash::DefaultHasherAdditionalSpecFns;

verus! {

/// A modification time in nanoseconds since the Unix epoch. `EPOCH` stands
/// for a file that does not exist or whose time is unavailable.
pub type Timestamp = u64;

pub const EPOCH: Timestamp = 0;

/// The views of a sequence of strings.
pub open spec fn strings_view(v: Seq<String>) -> Seq<Seq<char>> {
    v.map_values(|s: String| s@)
}

/// What hashing one string writes: its UTF-8 bytes, then the byte 0xff.
pub open spec fn word_writes(w: Seq<char>) -> Seq<Seq<u8>> {
    seq![vstd::utf8::encode_utf8(w), seq![0xffu8]]
}

/// What hashing a sequence of strings writes, one after the other.
pub open spec fn words_writes(ws: Seq<Seq<char>>) -> Seq<Seq<u8>>
    decreases ws.len(),
{
    if ws.len() == 0 {
        Seq::empty()
    } else {
        words_writes(ws.drop_last()) + word_writes(ws.last())
    }
}

/// The fingerprint of a command: the default hasher fed the program, then
/// each argument in order.
pub open spec fn fingerprint_of(program: Seq<char>, args: Seq<Seq<char>>) -> u64 {
    DefaultHasher::spec_finish(words_writes(seq![program] + args))
}

fn hash_word(h: &mut DefaultHasher, w: &String)
    ensures
        final(h)@ == old(h)@ + word_writes(w@),
{
    h.write(w.as_str().as_bytes());
    let end: [u8; 1] = [0xffu8];
    h.write(&end);
    proof {
        assert(end@ =~= seq![0xffu8]);
        assert(old(h)@.push(vstd::utf8::encode_utf8(w@)).push(seq![0xffu8]) =~= old(h)@
            + word_writes(w@));
    }
}

/// The fingerprint of `program` run with `args`.
pub fn fingerprint(program: &String, args: &Vec<String>) -> (r: u64)
    ensures
        r == fingerprint_of(program@, strings_view(args@)),
{
    let mut h = DefaultHasher::new();
    hash_word(&mut h, program);
    proof {
        assert(seq![program@].drop_last() =~= Seq::<Seq<char>>::empty());
        assert(words_writes(Seq::<Seq<char>>::empty()) == Seq::<Seq<u8>>::empty());
        assert(Seq::<Seq<u8>>::empty() + word_writes(program@) =~= word_writes(program@));
        assert(words_writes(seq![program@]) =~= word_writes(program@));
        assert(h@ =~= words_writes(seq![program@]));
        assert(seq![program@] + strings_view(args@.take(0)) =~= seq![program@]);
    }
    let mut i: usize = 0;
    while i < args.len()
        invariant
            i <= args.len(),
            h@ == words_writes(seq![program@] + strings_view(args@.take(i as int))),
        decreases args.len() - i,
    {
        let ghost ws = seq![program@] + strings_view(args@.take(i as int));
        hash_word(&mut h, &args[i]);
        proof {
            let ws2 = seq![program@] + strings_view(args@.take(i + 1));
            assert(ws2.drop_last() =~= ws);
            assert(ws2.last() == args@[i as int]@);
        }
        i = i + 1;
    }
    proof {
        assert(args@.take(i as int) =~= args@);
    }
    h.finish()
}

/// A program with its arguments, its fingerprint, and the fingerprint that
/// the cache recorded for it after its last successful run, if any.
#[derive(Debug)]
pub struct HashedCommand {
    pub program: String,
    pub args: Vec<String>,
    pub fingerprint: u64,
    pub cached_fingerprint: Option<u64>,
}

impl HashedCommand {
    /// The fingerprint belongs to the program and arguments.
    pub open spec fn wf(&self) -> bool {
        self.fingerprint == fingerprint_of(self.program@, strings_view(self.args@))
    }

    /// A command with no cached fingerprint.
    pub fn new(program: String, args: Vec<String>) -> (r: HashedCommand)
        ensures
            r.wf(),
            r.program@ == program@,
            r.args@ == args@,
            r.cached_fingerprint is None,
    {
        let fp = fingerprint(&program, &args);
        HashedCommand { program, args, fingerprint: fp, cached_fingerprint: None }
    }
}

/// One buildable artifact: a path, the commands that produce it, and the
/// commands that run on every build.
#[derive(Debug)]
pub struct Target {
    pub path: String,
    pub cmds: Vec<HashedCommand>,
    pub always_cmds: Vec<HashedCommand>,
}

/// The newest of some timestamps, or the epoch when there are none.
pub open spec fn newest_of(ts: Seq<Timestamp>) -> Timestamp
    decreases ts.len(),
{
    if ts.len() == 0 {
        EPOCH
    } else {
        let m = newest_of(ts.drop_last());
        if ts.last() > m {
            ts.last()
        } else {
            m
        }
    }
}

/// A gated command must run when an input is newer than the target, or when
/// its fingerprint differs from the cached one or none is cached.
pub open spec fn needs_run(c: HashedCommand, newest_input: Timestamp, own: Timestamp) -> bool {
    newest_input > own || c.cached_fingerprint != Some(c.fingerprint)
}

/// The indices of the gated commands that must run, in order.
pub open spec fn stale_indices(cmds: Seq<HashedCommand>, newest_input: Timestamp, own: Timestamp)
    -> Seq<usize>
    decreases cmds.len(),
{
    if cmds.len() == 0 {
        Seq::empty()
    } else {
        let rest = stale_indices(cmds.drop_last(), newest_input, own);
        if needs_run(cmds.last(), newest_input, own) {
            rest.push((cmds.len() - 1) as usize)
        } else {
            rest
        }
    }
}

/// One step of evaluating a target.
#[derive(Debug, PartialEq, Eq, Clone, Copy)]
pub enum EvalStep {
    /// Run the gated command at this index; on success, record it.
    RunGated(usize),
    /// Run the always-command at this index.
    RunAlways(usize),
}

/// The steps of evaluating a target, in order: its stale gated commands,
/// then every always-command.
pub open spec fn plan_spec(t: Target, newest_input: Timestamp, own: Timestamp) -> Seq<EvalStep> {
    stale_indices(t.cmds@, newest_input, own).map_values(|i: usize| EvalStep::RunGated(i))
        + Seq::new(t.always_cmds@.len(), |i: int| EvalStep::RunAlways(i as usize))
}

/// Every gated command carries the fingerprint of its last successful run.
pub open spec fn fully_cached(cmds: Seq<HashedCommand>) -> bool {
    forall|i: int| 0 <= i < cmds.len() ==> (#[trigger] cmds[i]).cached_fingerprint == Some(
        cmds[i].fingerprint,
    )
}

/// The newest of the dependencies' timestamps, or the epoch.
pub fn newest_input(deps: &Vec<Timestamp>) -> (r: Timestamp)
    ensures
        r == newest_of(deps@),
{
    let mut m: Timestamp = EPOCH;
    let mut i: usize = 0;
    while i < deps.len()
        invariant
            i <= deps.len(),
            m == newest_of(deps@.take(i as int)),
        decreases deps.len() - i,
    {
        proof {
            assert(deps@.take(i + 1).drop_last() =~= deps@.take(i as int));
        }
        if deps[i] > m {
            m = deps[i];
        }
        i = i + 1;
    }
    proof {
        assert(deps@.take(i as int) =~= deps@);
    }
    m
}

/// What a finished target hands to its dependents: the newer of its newest
/// input and its own timestamp after its commands ran.
pub fn freshness_after(newest_input: Timestamp, own_after: Timestamp) -> (r: Timestamp)
    ensures
        r == if newest_input > own_after {
            newest_input
        } else {
            own_after
        },
{
    if newest_input > own_after {
        newest_input
    } else {
        own_after
    }
}

impl Target {
    pub fn new(path: String, cmds: Vec<HashedCommand>, always_cmds: Vec<HashedCommand>) -> (r:
        Target)
        ensures
            r.path@ == path@,
            r.cmds@ == cmds@,
            r.always_cmds@ == always_cmds@,
    {
        Target { path, cmds, always_cmds }
    }

    pub open spec fn wf(&self) -> bool {
        forall|i: int| 0 <= i < self.cmds@.len() ==> (#[trigger] self.cmds@[i]).wf()
    }

    /// The indices of the gated commands that must run, given the newest
    /// input timestamp and the target's own.
    pub fn stale_commands(&self, newest_input: Timestamp, own: Timestamp) -> (r: Vec<usize>)
        ensures
            r@ == stale_indices(self.cmds@, newest_input, own),
    {
        let mut r: Vec<usize> = Vec::new();
        let mut i: usize = 0;
        while i < self.cmds.len()
            invariant
                i <= self.cmds.len(),
                r@ == stale_indices(self.cmds@.take(i as int), newest_input, own),
            decreases self.cmds.len() - i,
        {
            proof {
                assert(self.cmds@.take(i + 1).drop_last() =~= self.cmds@.take(i as int));
            }
            let c = &self.cmds[i];
            if newest_input > own || !matches!(c.cached_fingerprint, Some(f) if f == c.fingerprint) {
                r.push(i);
            }
            i = i + 1;
        }
        proof {
            assert(self.cmds@.take(i as int) =~= self.cmds@);
        }
        r
    }

    /// The steps that evaluate this target: its stale gated commands, then
    /// every always-command.
    pub fn plan(&self, newest_input: Timestamp, own: Timestamp) -> (r: Vec<EvalStep>)
        ensures
            r@ == plan_spec(*self, newest_input, own),
    {
        let stale = self.stale_commands(newest_input, own);
        let mut r: Vec<EvalStep> = Vec::new();
        let mut i: usize = 0;
        while i < stale.len()
            invariant
                i <= stale.len(),
                r@ == stale@.take(i as int).map_values(|k: usize| EvalStep::RunGated(k)),
            decreases stale.len() - i,
        {
            r.push(EvalStep::RunGated(stale[i]));
            proof {
                assert(stale@.take(i + 1).map_values(|k: usize| EvalStep::RunGated(k))
                    =~= stale@.take(i as int).map_values(|k: usize| EvalStep::RunGated(k)).push(
                    EvalStep::RunGated(stale@[i as int]),
                ));
            }
            i = i + 1;
        }
        let ghost gated = r@;
        let mut j: usize = 0;
        while j < self.always_cmds.len()
            invariant
                j <= self.always_cmds.len(),
                r@ == gated + Seq::new(j as nat, |k: int| EvalStep::RunAlways(k as usize)),
            decreases self.always_cmds.len() - j,
        {
            r.push(EvalStep::RunAlways(j));
            proof {
                assert(gated + Seq::new((j + 1) as nat, |k: int| EvalStep::RunAlways(k as usize))
                    =~= (gated + Seq::new(j as nat, |k: int| EvalStep::RunAlways(k as usize))).push(
                    EvalStep::RunAlways(j),
                ));
            }
            j = j + 1;
        }
        proof {
            assert(stale@.take(i as int) =~= stale@);
        }
        r
    }

    /// Sets the cached fingerprint of the gated command at `i` to `fp`.
    pub fn set_cached(&mut self, i: usize, fp: u64)
        requires
            i < old(self).cmds.len(),
        ensures
            final(self).path == old(self).path,
            final(self).always_cmds == old(self).always_cmds,
            final(self).cmds@.len() == old(self).cmds@.len(),
            forall|k: int|
                0 <= k < old(self).cmds@.len() && k != i ==> #[trigger] final(self).cmds@[k] == old(
                    self,
                ).cmds@[k],
            final(self).cmds@[i as int].program == old(self).cmds@[i as int].program,
            final(self).cmds@[i as int].args == old(self).cmds@[i as int].args,
            final(self).cmds@[i as int].fingerprint == old(self).cmds@[i as int].fingerprint,
            final(self).cmds@[i as int].cached_fingerprint == Some(fp),
    {
        let mut c = self.cmds.remove(i);
        c.cached_fingerprint = Some(fp);
        self.cmds.insert(i, c);
    }

    /// Records that the gated command at `i` succeeded: its cached
    /// fingerprint becomes its current one.
    pub fn record_success(&mut self, i: usize)
        requires
            i < old(self).cmds.len(),
        ensures
            final(self).path == old(self).path,
            final(self).always_cmds == old(self).always_cmds,
            final(self).cmds@.len() == old(self).cmds@.len(),
            forall|k: int|
                0 <= k < old(self).cmds@.len() && k != i ==> #[trigger] final(self).cmds@[k] == old(
                    self,
                ).cmds@[k],
            final(self).cmds@[i as int].program == old(self).cmds@[i as int].program,
            final(self).cmds@[i as int].args == old(self).cmds@[i as int].args,
            final(self).cmds@[i as int].fingerprint == old(self).cmds@[i as int].fingerprint,
            final(self).cmds@[i as int].cached_fingerprint == Some(
                old(self).cmds@[i as int].fingerprint,
            ),
    {
        let fp = self.cmds[i].fingerprint;
        self.set_cached(i, fp);
    }
}

/// A target whose timestamp is at least its newest input's and whose gated
/// commands all carry their current fingerprint in the cache has no gated
/// command to run.
pub proof fn lemma_fresh_target_runs_nothing(t: Target, newest_input: Timestamp, own: Timestamp)
    requires
        newest_input <= own,
        fully_cached(t.cmds@),
    ensures
        stale_indices(t.cmds@, newest_input, own).len() == 0,
        plan_spec(t, newest_input, own).len() == t.always_cmds@.len(),
{
    lemma_fresh_prefix_runs_nothing(t.cmds@, newest_input, own);
    assert(plan_spec(t, newest_input, own).len() == t.always_cmds@.len());
}

proof fn lemma_fresh_prefix_runs_nothing(
    cmds: Seq<HashedCommand>,
    newest_input: Timestamp,
    own: Timestamp,
)
    requires
        newest_input <= own,
        fully_cached(cmds),
    ensures
        stale_indices(cmds, newest_input, own).len() == 0,
    decreases cmds.len(),
{
    if cmds.len() > 0 {
        assert(cmds.last() == cmds[cmds.len() - 1]);
        lemma_fresh_prefix_runs_nothing(cmds.drop_last(), newest_input, own);
    }
}

proof fn lemma_stale_after_edit(
    t: Seq<HashedCommand>,
    e: Seq<HashedCommand>,
    k: int,
    newest_input: Timestamp,
    own: Timestamp,
    m: int,
)
    requires
        newest_input <= own,
        fully_cached(t),
        e.len() == t.len(),
        0 <= k < t.len(),
        0 <= m <= t.len(),
        forall|i: int| 0 <= i < t.len() && i != k ==> #[trigger] e[i] == t[i],
        e[k].cached_fingerprint == t[k].cached_fingerprint,
        e[k].fingerprint != t[k].fingerprint,
    ensures
        stale_indices(e.take(m), newest_input, own) == if m > k {
            seq![k as usize]
        } else {
            Seq::<usize>::empty()
        },
    decreases m,
{
    if m == 0 {
        assert(e.take(0) =~= Seq::<HashedCommand>::empty());
    } else {
        lemma_stale_after_edit(t, e, k, newest_input, own, m - 1);
        assert(e.take(m).drop_last() =~= e.take(m - 1));
        assert(e.take(m).last() == e[m - 1]);
        if m - 1 == k {
            assert(needs_run(e[k], newest_input, own));
            assert(Seq::<usize>::empty().push(k as usize) =~= seq![k as usize]);
        } else {
            assert(e[m - 1] == t[m - 1]);
            assert(!needs_run(e[m - 1], newest_input, own));
        }
    }
}

/// Editing one gated command of a fully cached target (its program, an
/// argument, or the order of its arguments), so that its fingerprint
/// changes, makes exactly that command run on the next build when no input
/// is newer than the target. The cache hands the edited command the
/// fingerprint its position had before; the other commands are as they
/// were.
pub proof fn lemma_edit_reruns_exactly(
    t: Target,
    e: Target,
    k: int,
    newest_input: Timestamp,
    own: Timestamp,
)
    requires
        t.wf(),
        e.wf(),
        fully_cached(t.cmds@),
        newest_input <= own,
        e.cmds@.len() == t.cmds@.len(),
        0 <= k < t.cmds@.len(),
        forall|i: int| 0 <= i < t.cmds@.len() && i != k ==> #[trigger] e.cmds@[i] == t.cmds@[i],
        e.cmds@[k].cached_fingerprint == t.cmds@[k].cached_fingerprint,
        fingerprint_of(e.cmds@[k].program@, strings_view(e.cmds@[k].args@)) != fingerprint_of(
            t.cmds@[k].program@,
            strings_view(t.cmds@[k].args@),
        ),
    ensures
        stale_indices(e.cmds@, newest_input, own) == seq![k as usize],
{
    assert(e.cmds@[k].wf() && t.cmds@[k].wf());
    lemma_stale_after_edit(t.cmds@, e.cmds@, k, newest_input, own, t.cmds@.len() as int);
    assert(e.cmds@.take(t.cmds@.len() as int) =~= e.cmds@);
}

} // verus!
