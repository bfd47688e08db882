//! The fingerprint cache: a binary file of records, one per target that has
//! gated commands, each holding the target's path and the fingerprints of
//! its commands. All integers are little-endian `u64`.
//!
//! `record := path_len | path bytes | n_cmds | fingerprint * n_cmds`
use vstd::prelude::*;
use vstd::utf8::encode_utf8;

use crate::graph::Graph;
use crate::target::{fully_cached, HashedCommand, Target};

verus! {

/// The eight little-endian bytes of `x`.
pub open spec fn le_bytes(x: u64) -> Seq<u8> {
    seq![
        x as u8,
        (x >> 8u64) as u8,
        (x >> 16u64) as u8,
        (x >> 24u64) as u8,
        (x >> 32u64) as u8,
        (x >> 40u64) as u8,
        (x >> 48u64) as u8,
        (x >> 56u64) as u8,
    ]
}

/// The integer whose little-endian bytes begin `s`.
pub open spec fn le_u64(s: Seq<u8>) -> u64 {
    (s[0] as u64) | ((s[1] as u64) << 8u64) | ((s[2] as u64) << 16u64) | ((s[3] as u64) << 24u64)
        | ((s[4] as u64) << 32u64) | ((s[5] as u64) << 40u64) | ((s[6] as u64) << 48u64) | ((
    s[7] as u64) << 56u64)
}

pub proof fn lemma_le_round_trip(x: u64)
    ensures
        le_u64(le_bytes(x)) == x,
{
    let b = le_bytes(x);
    let (b0, b1, b2, b3, b4, b5, b6, b7) = (b[0], b[1], b[2], b[3], b[4], b[5], b[6], b[7]);
    assert(b0 == x as u8 && b1 == (x >> 8u64) as u8 && b2 == (x >> 16u64) as u8 && b3 == (x
        >> 24u64) as u8 && b4 == (x >> 32u64) as u8 && b5 == (x >> 40u64) as u8 && b6 == (x
        >> 48u64) as u8 && b7 == (x >> 56u64) as u8);
    assert((b0 as u64) | ((b1 as u64) << 8u64) | ((b2 as u64) << 16u64) | ((b3 as u64) << 24u64)
        | ((b4 as u64) << 32u64) | ((b5 as u64) << 40u64) | ((b6 as u64) << 48u64) | ((b7 as u64)
        << 56u64) == x) by (bit_vector)
        requires
            b0 == x as u8,
            b1 == (x >> 8u64) as u8,
            b2 == (x >> 16u64) as u8,
            b3 == (x >> 24u64) as u8,
            b4 == (x >> 32u64) as u8,
            b5 == (x >> 40u64) as u8,
            b6 == (x >> 48u64) as u8,
            b7 == (x >> 56u64) as u8,
    ;
}

fn push_le(out: &mut Vec<u8>, x: u64)
    ensures
        final(out)@ == old(out)@ + le_bytes(x),
{
    out.push(x as u8);
    out.push((x >> 8u64) as u8);
    out.push((x >> 16u64) as u8);
    out.push((x >> 24u64) as u8);
    out.push((x >> 32u64) as u8);
    out.push((x >> 40u64) as u8);
    out.push((x >> 48u64) as u8);
    out.push((x >> 56u64) as u8);
    proof {
        assert(final(out)@ =~= old(out)@ + le_bytes(x));
    }
}

fn read_le(b: &Vec<u8>, o: usize) -> (r: u64)
    requires
        o + 8 <= b@.len(),
    ensures
        r == le_u64(b@.subrange(o as int, o + 8)),
{
    let ghost s = b@.subrange(o as int, o + 8);
    let n = b.len();
    assert(o + 8 <= n);
    let b0 = b[o] as u64;
    let b1 = b[o + 1] as u64;
    let b2 = b[o + 2] as u64;
    let b3 = b[o + 3] as u64;
    let b4 = b[o + 4] as u64;
    let b5 = b[o + 5] as u64;
    let b6 = b[o + 6] as u64;
    let b7 = b[o + 7] as u64;
    assert(b0 == s[0] as u64 && b1 == s[1] as u64 && b2 == s[2] as u64 && b3 == s[3] as u64 && b4
        == s[4] as u64 && b5 == s[5] as u64 && b6 == s[6] as u64 && b7 == s[7] as u64);
    b0 | (b1 << 8u64) | (b2 << 16u64) | (b3 << 24u64) | (b4 << 32u64) | (b5 << 40u64) | (b6
        << 48u64) | (b7 << 56u64)
}

/// The UTF-8 bytes of a path.
pub open spec fn path_bytes(p: Seq<char>) -> Seq<u8> {
    encode_utf8(p)
}

/// The current fingerprints of some commands, in order.
pub open spec fn fingerprints(cmds: Seq<HashedCommand>) -> Seq<u64> {
    cmds.map_values(|c: HashedCommand| c.fingerprint)
}

/// The bytes of some fingerprints, one after the other.
pub open spec fn fps_bytes(fps: Seq<u64>) -> Seq<u8>
    decreases fps.len(),
{
    if fps.len() == 0 {
        Seq::empty()
    } else {
        fps_bytes(fps.drop_last()) + le_bytes(fps.last())
    }
}

/// One record: path length, path, command count, fingerprints.
pub open spec fn record_bytes(path: Seq<u8>, fps: Seq<u64>) -> Seq<u8> {
    le_bytes(path.len() as u64) + path + le_bytes(fps.len() as u64) + fps_bytes(fps)
}

/// The cache file for some targets: one record per target with gated
/// commands, in order, holding their current fingerprints.
pub open spec fn cache_bytes(ts: Seq<Target>) -> Seq<u8>
    decreases ts.len(),
{
    if ts.len() == 0 {
        Seq::empty()
    } else {
        let t = ts.last();
        cache_bytes(ts.drop_last()) + if t.cmds@.len() > 0 {
            record_bytes(path_bytes(t.path@), fingerprints(t.cmds@))
        } else {
            Seq::empty()
        }
    }
}

fn push_bytes(out: &mut Vec<u8>, s: &[u8])
    ensures
        final(out)@ == old(out)@ + s@,
{
    let mut i: usize = 0;
    while i < s.len()
        invariant
            i <= s@.len(),
            out@ == old(out)@ + s@.take(i as int),
        decreases s.len() - i,
    {
        out.push(s[i]);
        proof {
            assert(s@.take(i + 1) =~= s@.take(i as int).push(s@[i as int]));
            assert(out@ =~= old(out)@ + s@.take(i + 1));
        }
        i = i + 1;
    }
    proof {
        assert(s@.take(i as int) =~= s@);
    }
}

fn push_record(out: &mut Vec<u8>, t: &Target)
    ensures
        final(out)@ == old(out)@ + record_bytes(path_bytes(t.path@), fingerprints(t.cmds@)),
{
    let p = t.path.as_str().as_bytes();
    push_le(out, p.len() as u64);
    push_bytes(out, p);
    push_le(out, t.cmds.len() as u64);
    let ghost head = out@;
    let mut k: usize = 0;
    while k < t.cmds.len()
        invariant
            k <= t.cmds@.len(),
            out@ == head + fps_bytes(fingerprints(t.cmds@).take(k as int)),
        decreases t.cmds.len() - k,
    {
        proof {
            assert(fingerprints(t.cmds@).take(k + 1).drop_last() =~= fingerprints(t.cmds@).take(
                k as int,
            ));
        }
        push_le(out, t.cmds[k].fingerprint);
        proof {
            assert(out@ =~= head + fps_bytes(fingerprints(t.cmds@).take(k + 1)));
        }
        k = k + 1;
    }
    proof {
        assert(fingerprints(t.cmds@).take(k as int) =~= fingerprints(t.cmds@));
        assert(out@ =~= old(out)@ + record_bytes(path_bytes(t.path@), fingerprints(t.cmds@)));
    }
}

/// The cache file for `graph`: a record for each target with gated
/// commands, in graph order, holding each command's current fingerprint.
pub fn write_hash_cache(graph: &Graph) -> (r: Vec<u8>)
    ensures
        r@ == cache_bytes(graph.targets@),
{
    let mut out: Vec<u8> = Vec::new();
    let mut i: usize = 0;
    while i < graph.targets.len()
        invariant
            i <= graph.targets@.len(),
            out@ == cache_bytes(graph.targets@.take(i as int)),
        decreases graph.targets.len() - i,
    {
        proof {
            assert(graph.targets@.take(i + 1).drop_last() =~= graph.targets@.take(i as int));
        }
        let t = &graph.targets[i];
        if t.cmds.len() > 0 {
            push_record(&mut out, t);
        }
        proof {
            assert(out@ =~= cache_bytes(graph.targets@.take(i + 1)));
        }
        i = i + 1;
    }
    proof {
        assert(graph.targets@.take(i as int) =~= graph.targets@);
    }
    out
}

/// A record read back: the path's bytes and the fingerprints.
pub struct Record {
    pub path: Seq<u8>,
    pub fps: Seq<u64>,
}

/// The fingerprints stored in `b` from offset 8 on, `n` of them.
pub open spec fn fps_at(b: Seq<u8>, n: int) -> Seq<u64> {
    Seq::new(n as nat, |k: int| le_u64(b.subrange(8 + 8 * k, 16 + 8 * k)))
}

/// The records of a cache file, or `None` when it is malformed: cut short,
/// or with a length that runs past its end.
pub open spec fn decode(b: Seq<u8>) -> Option<Seq<Record>>
    decreases b.len(),
{
    if b.len() == 0 {
        Some(Seq::empty())
    } else if b.len() < 8 {
        None
    } else {
        let l = le_u64(b.subrange(0, 8)) as int;
        if l > b.len() - 8 {
            None
        } else {
            let rest = b.subrange(8 + l, b.len() as int);
            if rest.len() < 8 {
                None
            } else {
                let n = le_u64(rest.subrange(0, 8)) as int;
                if n > (rest.len() - 8) / 8 {
                    None
                } else {
                    let rec = Record { path: b.subrange(8, 8 + l), fps: fps_at(rest, n) };
                    match decode(rest.subrange(8 + 8 * n, rest.len() as int)) {
                        Some(rs) => Some(seq![rec] + rs),
                        None => None,
                    }
                }
            }
        }
    }
}

/// A cache record with its path's bytes.
pub struct CacheRecord {
    pub path: Vec<u8>,
    pub fps: Vec<u64>,
}

impl View for CacheRecord {
    type V = Record;

    open spec fn view(&self) -> Record {
        Record { path: self.path@, fps: self.fps@ }
    }
}

pub open spec fn records_view(v: Seq<CacheRecord>) -> Seq<Record> {
    v.map_values(|r: CacheRecord| r@)
}

pub open spec fn prepend(acc: Seq<Record>, rest: Option<Seq<Record>>) -> Option<Seq<Record>> {
    match rest {
        Some(rs) => Some(acc + rs),
        None => None,
    }
}

/// Why a cache file could not be read.
#[derive(Debug, PartialEq, Eq, Clone, Copy)]
pub enum CacheError {
    /// The file is cut short, or a length runs past its end.
    Corrupt,
}

/// The records of a cache file, or `Corrupt` when it is malformed.
pub fn decode_records(b: &Vec<u8>) -> (r: Result<Vec<CacheRecord>, CacheError>)
    ensures
        match decode(b@) {
            Some(rs) => r matches Ok(v) && records_view(v@) == rs,
            None => r == Err::<Vec<CacheRecord>, CacheError>(CacheError::Corrupt),
        },
{
    let mut out: Vec<CacheRecord> = Vec::new();
    let mut off: usize = 0;
    let n = b.len();
    proof {
        assert(b@.subrange(0, n as int) =~= b@);
        assert(records_view(out@) + Seq::<Record>::empty() =~= Seq::<Record>::empty());
    }
    while off < n
        invariant
            n == b@.len(),
            off <= n,
            decode(b@) == prepend(records_view(out@), decode(b@.subrange(off as int, n as int))),
        decreases n - off,
    {
        let ghost s = b@.subrange(off as int, n as int);
        let ghost acc = records_view(out@);
        if n - off < 8 {
            return Err(CacheError::Corrupt);
        }
        let l = read_le(b, off);
        proof {
            assert(s.subrange(0, 8) =~= b@.subrange(off as int, off + 8));
        }
        if l > (n - off - 8) as u64 {
            return Err(CacheError::Corrupt);
        }
        let l = l as usize;
        let p0 = off + 8;
        let c0 = p0 + l;
        let ghost rest = s.subrange(8 + l, s.len() as int);
        proof {
            assert(rest =~= b@.subrange(c0 as int, n as int));
        }
        if n - c0 < 8 {
            return Err(CacheError::Corrupt);
        }
        let k = read_le(b, c0);
        proof {
            assert(rest.subrange(0, 8) =~= b@.subrange(c0 as int, c0 + 8));
        }
        if k > ((n - c0 - 8) / 8) as u64 {
            return Err(CacheError::Corrupt);
        }
        let k = k as usize;
        let mut path: Vec<u8> = Vec::new();
        let mut i: usize = p0;
        while i < c0
            invariant
                p0 <= i <= c0,
                c0 <= n,
                n == b@.len(),
                path@ == b@.subrange(p0 as int, i as int),
            decreases c0 - i,
        {
            path.push(b[i]);
            proof {
                assert(path@ =~= b@.subrange(p0 as int, i + 1));
            }
            i = i + 1;
        }
        let mut fps: Vec<u64> = Vec::new();
        let mut j: usize = 0;
        while j < k
            invariant
                j <= k,
                c0 + 8 + 8 * k <= n,
                n == b@.len(),
                rest == b@.subrange(c0 as int, n as int),
                fps@ == fps_at(rest, k as int).take(j as int),
            decreases k - j,
        {
            let o = c0 + 8 + 8 * j;
            let x = read_le(b, o);
            proof {
                assert(b@.subrange(o as int, o + 8) =~= rest.subrange(8 + 8 * j, 16 + 8 * j));
            }
            fps.push(x);
            proof {
                assert(fps@ =~= fps_at(rest, k as int).take(j + 1));
            }
            j = j + 1;
        }
        proof {
            assert(fps@ =~= fps_at(rest, k as int));
            assert(path@ =~= s.subrange(8, 8 + l));
        }
        let rec = CacheRecord { path, fps };
        out.push(rec);
        let next = c0 + 8 + 8 * k;
        proof {
            assert(rest.subrange(8 + 8 * k, rest.len() as int) =~= b@.subrange(next as int, n as int));
            assert(records_view(out@) =~= acc.push(rec@));
            let tail = decode(b@.subrange(next as int, n as int));
            if tail is Some {
                assert(acc + (seq![rec@] + tail->0) =~= acc.push(rec@) + tail->0);
            }
        }
        off = next;
    }
    proof {
        assert(b@.subrange(off as int, n as int) =~= Seq::<u8>::empty());
        assert(records_view(out@) + Seq::<Record>::empty() =~= records_view(out@));
    }
    Ok(out)
}

/// The cached fingerprints of a target's gated commands.
pub open spec fn cached_of(t: Target) -> Seq<Option<u64>> {
    t.cmds@.map_values(|c: HashedCommand| c.cached_fingerprint)
}

/// The cached fingerprints of every target, by node.
pub open spec fn cached_table(ts: Seq<Target>) -> Seq<Seq<Option<u64>>> {
    ts.map_values(|t: Target| cached_of(t))
}

/// The bytes of each target's path, by node.
pub open spec fn graph_paths(ts: Seq<Target>) -> Seq<Seq<u8>> {
    ts.map_values(|t: Target| path_bytes(t.path@))
}

/// A target's cached fingerprints after a record for it: the first
/// `min(fps.len(), row.len())` are replaced, the rest kept.
pub open spec fn fill(row: Seq<Option<u64>>, fps: Seq<u64>) -> Seq<Option<u64>> {
    Seq::new(row.len(), |k: int| if k < fps.len() { Some(fps[k]) } else { row[k] })
}

/// The table after one record: the targets whose path it names are filled.
pub open spec fn apply_record(tab: Seq<Seq<Option<u64>>>, paths: Seq<Seq<u8>>, r: Record) -> Seq<
    Seq<Option<u64>>,
> {
    Seq::new(tab.len(), |i: int| if paths[i] == r.path { fill(tab[i], r.fps) } else { tab[i] })
}

/// The table after some records, in order.
pub open spec fn apply_records(tab: Seq<Seq<Option<u64>>>, paths: Seq<Seq<u8>>, rs: Seq<Record>)
    -> Seq<Seq<Option<u64>>>
    decreases rs.len(),
{
    if rs.len() == 0 {
        tab
    } else {
        apply_record(apply_records(tab, paths, rs.drop_last()), paths, rs.last())
    }
}

/// Two target lists agree in everything but cached fingerprints.
pub open spec fn same_but_cache(a: Seq<Target>, b: Seq<Target>) -> bool {
    &&& a.len() == b.len()
    &&& forall|i: int| 0 <= i < a.len() ==> {
        &&& (#[trigger] a[i]).path == b[i].path
        &&& a[i].always_cmds == b[i].always_cmds
        &&& a[i].cmds@.len() == b[i].cmds@.len()
        &&& forall|k: int| 0 <= k < a[i].cmds@.len() ==> {
            &&& (#[trigger] a[i].cmds@[k]).program == b[i].cmds@[k].program
            &&& a[i].cmds@[k].args == b[i].cmds@[k].args
            &&& a[i].cmds@[k].fingerprint == b[i].cmds@[k].fingerprint
        }
    }
}

fn bytes_eq(a: &[u8], b: &Vec<u8>) -> (r: bool)
    ensures
        r == (a@ == b@),
{
    if a.len() != b.len() {
        return false;
    }
    let mut i: usize = 0;
    while i < a.len()
        invariant
            a@.len() == b@.len(),
            i <= a@.len(),
            forall|j: int| 0 <= j < i ==> a@[j] == b@[j],
        decreases a.len() - i,
    {
        if a[i] != b[i] {
            return false;
        }
        i = i + 1;
    }
    proof {
        assert(a@ =~= b@);
    }
    true
}

/// Fills node `i` from a record: its first gated commands take the record's
/// fingerprints, as many as both have.
fn fill_target(graph: &mut Graph, i: usize, fps: &Vec<u64>)
    requires
        old(graph).wf(),
        i < old(graph).targets@.len(),
    ensures
        final(graph).wf(),
        final(graph).preds == old(graph).preds,
        same_but_cache(old(graph).targets@, final(graph).targets@),
        cached_table(final(graph).targets@) == cached_table(old(graph).targets@).update(
            i as int,
            fill(cached_of(old(graph).targets@[i as int]), fps@),
        ),
{
    let ghost t0 = graph.targets@;
    let ghost row0 = cached_of(t0[i as int]);
    let n = graph.targets[i].cmds.len();
    let m = if fps.len() < n {
        fps.len()
    } else {
        n
    };
    let mut k: usize = 0;
    proof {
        assert(Seq::new(row0.len(), |q: int| if q < 0 { Some(fps@[q]) } else { row0[q] }) =~= row0);
        assert(cached_table(t0)[i as int] == row0);
        assert(cached_table(graph.targets@) =~= cached_table(t0).update(
            i as int,
            Seq::new(row0.len(), |q: int| if q < 0 { Some(fps@[q]) } else { row0[q] }),
        ));
    }
    while k < m
        invariant
            graph.wf(),
            graph.preds == old(graph).preds,
            t0 == old(graph).targets@,
            row0 == cached_of(t0[i as int]),
            i < t0.len(),
            n == t0[i as int].cmds@.len(),
            m <= n,
            m <= fps@.len(),
            k <= m,
            same_but_cache(t0, graph.targets@),
            cached_table(graph.targets@) == cached_table(t0).update(
                i as int,
                Seq::new(row0.len(), |q: int| if q < k { Some(fps@[q]) } else { row0[q] }),
            ),
        decreases m - k,
    {
        let ghost before = graph.targets@;
        graph.set_cached(i, k, fps[k]);
        proof {
            assert forall|x: int| 0 <= x < t0.len() implies {
                &&& (#[trigger] t0[x]).path == graph.targets@[x].path
                &&& t0[x].always_cmds == graph.targets@[x].always_cmds
                &&& t0[x].cmds@.len() == graph.targets@[x].cmds@.len()
                &&& forall|q: int| 0 <= q < t0[x].cmds@.len() ==> {
                    &&& (#[trigger] t0[x].cmds@[q]).program == graph.targets@[x].cmds@[q].program
                    &&& t0[x].cmds@[q].args == graph.targets@[x].cmds@[q].args
                    &&& t0[x].cmds@[q].fingerprint == graph.targets@[x].cmds@[q].fingerprint
                }
            } by {
                if x != i {
                    assert(graph.targets@[x] == before[x]);
                } else {
                    assert forall|q: int| 0 <= q < t0[x].cmds@.len() implies {
                        &&& (#[trigger] t0[x].cmds@[q]).program == graph.targets@[x].cmds@[q].program
                        &&& t0[x].cmds@[q].args == graph.targets@[x].cmds@[q].args
                        &&& t0[x].cmds@[q].fingerprint == graph.targets@[x].cmds@[q].fingerprint
                    } by {
                        assert(before[x].cmds@[q].program == t0[x].cmds@[q].program);
                    }
                }
            }
            let want = cached_table(t0).update(
                i as int,
                Seq::new(row0.len(), |q: int| if q < k + 1 { Some(fps@[q]) } else { row0[q] }),
            );
            assert forall|x: int| 0 <= x < t0.len() implies #[trigger] cached_table(graph.targets@)[x] =~= want[x] by {
                if x != i {
                    assert(graph.targets@[x] == before[x]);
                    assert(cached_table(before)[x] == cached_table(graph.targets@)[x]);
                } else {
                    assert(cached_table(before)[x] == cached_of(before[x]));
                    assert(cached_table(graph.targets@)[x] == cached_of(graph.targets@[x]));
                    assert forall|q: int| 0 <= q < want[x].len() implies #[trigger] cached_of(graph.targets@[x])[q] == want[x][q] by {
                        assert(cached_of(before[x])[q] == cached_table(before)[x][q]);
                        if q != k {
                            assert(graph.targets@[x].cmds@[q] == before[x].cmds@[q]);
                        }
                    }
                    assert(cached_of(graph.targets@[x]).len() == want[x].len());
                }
            }
            assert(cached_table(graph.targets@) =~= want);
        }
        k = k + 1;
    }
    proof {
        assert(Seq::new(row0.len(), |q: int| if q < k { Some(fps@[q]) } else { row0[q] }) =~= fill(
            row0,
            fps@,
        ));
    }
}

/// Reads a cache file into `graph`: each record fills the target whose path
/// it names, if any; records for other paths are passed over. A malformed
/// file leaves the graph as it was.
pub fn read_hash_cache(graph: &mut Graph, bytes: &Vec<u8>) -> (r: Result<(), CacheError>)
    requires
        old(graph).wf(),
    ensures
        final(graph).wf(),
        final(graph).preds == old(graph).preds,
        same_but_cache(old(graph).targets@, final(graph).targets@),
        match decode(bytes@) {
            None => r == Err::<(), CacheError>(CacheError::Corrupt) && final(graph).targets@ == old(
                graph,
            ).targets@,
            Some(rs) => r is Ok && cached_table(final(graph).targets@) == apply_records(
                cached_table(old(graph).targets@),
                graph_paths(old(graph).targets@),
                rs,
            ),
        },
{
    let recs = match decode_records(bytes) {
        Ok(v) => v,
        Err(e) => {
            return Err(e);
        },
    };
    let ghost t0 = graph.targets@;
    let ghost paths = graph_paths(t0);
    let ghost rs = records_view(recs@);
    proof {
        assert(rs.take(0) =~= Seq::<Record>::empty());
        assert forall|x: int| 0 <= x < t0.len() implies {
            &&& (#[trigger] t0[x]).path == t0[x].path
            &&& t0[x].always_cmds == t0[x].always_cmds
            &&& t0[x].cmds@.len() == t0[x].cmds@.len()
            &&& forall|q: int| 0 <= q < t0[x].cmds@.len() ==> {
                &&& (#[trigger] t0[x].cmds@[q]).program == t0[x].cmds@[q].program
                &&& t0[x].cmds@[q].args == t0[x].cmds@[q].args
                &&& t0[x].cmds@[q].fingerprint == t0[x].cmds@[q].fingerprint
            }
        } by {}
    }
    let mut ri: usize = 0;
    while ri < recs.len()
        invariant
            graph.wf(),
            graph.preds == old(graph).preds,
            t0 == old(graph).targets@,
            paths == graph_paths(t0),
            rs == records_view(recs@),
            ri <= recs@.len(),
            same_but_cache(t0, graph.targets@),
            cached_table(graph.targets@) == apply_records(cached_table(t0), paths, rs.take(ri as int)),
        decreases recs.len() - ri,
    {
        let rec = &recs[ri];
        let ghost tab = cached_table(graph.targets@);
        let ghost applied = apply_record(tab, paths, rec@);
        let mut i: usize = 0;
        proof {
            assert(tab =~= Seq::new(tab.len(), |x: int| if x < 0 { applied[x] } else { tab[x] }));
        }
        while i < graph.targets.len()
            invariant
                graph.wf(),
                graph.preds == old(graph).preds,
                t0 == old(graph).targets@,
                paths == graph_paths(t0),
                same_but_cache(t0, graph.targets@),
                tab.len() == t0.len(),
                applied == apply_record(tab, paths, rec@),
                i <= graph.targets@.len(),
                cached_table(graph.targets@) == Seq::new(tab.len(), |x: int| if x < i { applied[x] } else { tab[x] }),
            decreases graph.targets.len() - i,
        {
            let ghost before = graph.targets@;
            let hit = bytes_eq(graph.targets[i].path.as_str().as_bytes(), &rec.path);
            proof {
                assert(graph.targets@[i as int].path == t0[i as int].path);
                assert(paths[i as int] == path_bytes(t0[i as int].path@));
            }
            if hit {
                fill_target(graph, i, &rec.fps);
                proof {
                    assert forall|x: int| 0 <= x < t0.len() implies {
                        &&& (#[trigger] t0[x]).path == graph.targets@[x].path
                        &&& t0[x].always_cmds == graph.targets@[x].always_cmds
                        &&& t0[x].cmds@.len() == graph.targets@[x].cmds@.len()
                        &&& forall|q: int| 0 <= q < t0[x].cmds@.len() ==> {
                            &&& (#[trigger] t0[x].cmds@[q]).program == graph.targets@[x].cmds@[q].program
                            &&& t0[x].cmds@[q].args == graph.targets@[x].cmds@[q].args
                            &&& t0[x].cmds@[q].fingerprint == graph.targets@[x].cmds@[q].fingerprint
                        }
                    } by {
                        assert(before[x].path == graph.targets@[x].path);
                        assert forall|q: int| 0 <= q < t0[x].cmds@.len() implies {
                            &&& (#[trigger] t0[x].cmds@[q]).program == graph.targets@[x].cmds@[q].program
                            &&& t0[x].cmds@[q].args == graph.targets@[x].cmds@[q].args
                            &&& t0[x].cmds@[q].fingerprint == graph.targets@[x].cmds@[q].fingerprint
                        } by {
                            assert(before[x].cmds@[q].program == t0[x].cmds@[q].program);
                            assert(before[x].cmds@[q].program == graph.targets@[x].cmds@[q].program);
                        }
                    }
                    assert(cached_table(before)[i as int] == cached_of(before[i as int]));
                    assert(cached_of(before[i as int]) == tab[i as int]);
                    assert(cached_table(graph.targets@) =~= Seq::new(tab.len(), |x: int| if x < i + 1 { applied[x] } else { tab[x] }));
                }
            } else {
                proof {
                    assert(cached_table(graph.targets@) =~= Seq::new(tab.len(), |x: int| if x < i + 1 { applied[x] } else { tab[x] }));
                }
            }
            i = i + 1;
        }
        proof {
            assert(rs.take(ri + 1).drop_last() =~= rs.take(ri as int));
            assert(rs.take(ri + 1).last() == rec@);
            assert(cached_table(graph.targets@) =~= applied);
        }
        ri = ri + 1;
    }
    proof {
        assert(rs.take(ri as int) =~= rs);
    }
    Ok(())
}

/// The record that the cache holds for a target.
pub open spec fn record_for(t: Target) -> Record {
    Record { path: path_bytes(t.path@), fps: fingerprints(t.cmds@) }
}

/// The records of the cache file for `ts`: one per target with gated
/// commands, in order, with its path's bytes and current fingerprints.
pub open spec fn records_of(ts: Seq<Target>) -> Seq<Record>
    decreases ts.len(),
{
    if ts.len() == 0 {
        Seq::empty()
    } else {
        let t = ts.last();
        records_of(ts.drop_last()) + if t.cmds@.len() > 0 {
            seq![record_for(t)]
        } else {
            Seq::empty()
        }
    }
}

proof fn lemma_fps_bytes_len(f: Seq<u64>)
    ensures
        fps_bytes(f).len() == 8 * f.len(),
    decreases f.len(),
{
    if f.len() > 0 {
        lemma_fps_bytes_len(f.drop_last());
    }
}

proof fn lemma_fps_bytes_at(f: Seq<u64>, k: int)
    requires
        0 <= k < f.len(),
    ensures
        fps_bytes(f).subrange(8 * k, 8 * k + 8) == le_bytes(f[k]),
    decreases f.len(),
{
    let q = f.drop_last();
    lemma_fps_bytes_len(q);
    if k < f.len() - 1 {
        lemma_fps_bytes_at(q, k);
        assert(fps_bytes(f).subrange(8 * k, 8 * k + 8) =~= fps_bytes(q).subrange(8 * k, 8 * k + 8));
    } else {
        assert(fps_bytes(f).subrange(8 * k, 8 * k + 8) =~= le_bytes(f.last()));
    }
}

proof fn lemma_decode_record(p: Seq<u8>, f: Seq<u64>, rest: Seq<u8>)
    requires
        p.len() <= u64::MAX,
        f.len() <= u64::MAX,
    ensures
        decode(record_bytes(p, f) + rest) == prepend(seq![(Record { path: p, fps: f })], decode(rest)),
{
    let lp = p.len() as u64;
    let n = f.len() as u64;
    let ff = fps_bytes(f);
    lemma_fps_bytes_len(f);
    let b = record_bytes(p, f) + rest;
    assert(b =~= le_bytes(lp) + p + le_bytes(n) + ff + rest);
    assert(b.subrange(0, 8) =~= le_bytes(lp));
    lemma_le_round_trip(lp);
    let l = p.len() as int;
    let rest1 = b.subrange(8 + l, b.len() as int);
    assert(rest1 =~= le_bytes(n) + ff + rest);
    assert(rest1.subrange(0, 8) =~= le_bytes(n));
    lemma_le_round_trip(n);
    let nn = f.len() as int;
    assert(rest1.len() - 8 == 8 * nn + rest.len());
    assert((8 * nn + rest.len()) / 8 >= nn) by (nonlinear_arith)
        requires
            nn >= 0,
            rest.len() >= 0,
    ;
    assert(b.subrange(8, 8 + l) =~= p);
    assert forall|k: int| 0 <= k < nn implies #[trigger] fps_at(rest1, nn)[k] == f[k] by {
        lemma_fps_bytes_at(f, k);
        assert(rest1.subrange(8 + 8 * k, 16 + 8 * k) =~= ff.subrange(8 * k, 8 * k + 8));
        lemma_le_round_trip(f[k]);
    }
    assert(fps_at(rest1, nn) =~= f);
    assert(rest1.subrange(8 + 8 * nn, rest1.len() as int) =~= rest);
    let rec = Record { path: p, fps: f };
    match decode(rest) {
        Some(rs) => {
            assert(decode(b) == Some(seq![rec] + rs));
        },
        None => {},
    }
}

proof fn lemma_decode_cache(ts: Seq<Target>, rest: Seq<u8>)
    requires
        forall|i: int| 0 <= i < ts.len() ==> path_bytes((#[trigger] ts[i]).path@).len() <= u64::MAX
            && ts[i].cmds@.len() <= u64::MAX,
    ensures
        decode(cache_bytes(ts) + rest) == prepend(records_of(ts), decode(rest)),
    decreases ts.len(),
{
    if ts.len() == 0 {
        assert(cache_bytes(ts) + rest =~= rest);
        if let Some(rs) = decode(rest) {
            assert(Seq::<Record>::empty() + rs =~= rs);
        }
    } else {
        let q = ts.drop_last();
        let t = ts.last();
        assert(t == ts[ts.len() - 1]);
        let r = if t.cmds@.len() > 0 {
            record_bytes(path_bytes(t.path@), fingerprints(t.cmds@))
        } else {
            Seq::empty()
        };
        assert(cache_bytes(ts) + rest =~= cache_bytes(q) + (r + rest));
        assert forall|i: int| 0 <= i < q.len() implies path_bytes((#[trigger] q[i]).path@).len() <= u64::MAX
            && q[i].cmds@.len() <= u64::MAX by {
            assert(q[i] == ts[i]);
        }
        lemma_decode_cache(q, r + rest);
        if t.cmds@.len() > 0 {
            lemma_decode_record(path_bytes(t.path@), fingerprints(t.cmds@), rest);
            let rec = record_for(t);
            if let Some(rs) = decode(rest) {
                assert(records_of(q) + (seq![rec] + rs) =~= records_of(ts) + rs);
            }
        } else {
            assert(r + rest =~= rest);
            assert(records_of(ts) =~= records_of(q));
        }
    }
}

proof fn lemma_apply_own_records(g: Seq<Target>, h: Seq<Target>, m: int)
    requires
        same_but_cache(g, h),
        forall|u: int, w: int|
            0 <= u < g.len() && 0 <= w < g.len() && u != w ==> (#[trigger] g[u]).path@ != (#[trigger] g[w]).path@,
        0 <= m <= g.len(),
    ensures
        apply_records(cached_table(h), graph_paths(h), records_of(g.take(m))) == Seq::new(
            h.len(),
            |i: int|
                if i < m && g[i].cmds@.len() > 0 {
                    fill(cached_table(h)[i], fingerprints(g[i].cmds@))
                } else {
                    cached_table(h)[i]
                },
        ),
    decreases m,
{
    let tab = cached_table(h);
    let paths = graph_paths(h);
    if m == 0 {
        assert(g.take(0) =~= Seq::<Target>::empty());
        assert(tab =~= Seq::new(h.len(), |i: int| if i < 0 && g[i].cmds@.len() > 0 { fill(tab[i], fingerprints(g[i].cmds@)) } else { tab[i] }));
    } else {
        lemma_apply_own_records(g, h, m - 1);
        let prev = apply_records(tab, paths, records_of(g.take(m - 1)));
        assert(g.take(m).drop_last() =~= g.take(m - 1));
        assert(g.take(m).last() == g[m - 1]);
        let t = g[m - 1];
        let want = Seq::new(h.len(), |i: int| if i < m && g[i].cmds@.len() > 0 { fill(tab[i], fingerprints(g[i].cmds@)) } else { tab[i] });
        if t.cmds@.len() > 0 {
            let rec = record_for(t);
            assert(records_of(g.take(m)) == records_of(g.take(m - 1)) + seq![rec]);
            let rs = records_of(g.take(m));
            assert(rs.drop_last() =~= records_of(g.take(m - 1)));
            assert(rs.last() == rec);
            assert forall|i: int| 0 <= i < h.len() implies #[trigger] apply_record(prev, paths, rec)[i] == want[i] by {
                assert(paths[i] == path_bytes(h[i].path@));
                assert(h[i].path == g[i].path);
                if i != m - 1 {
                    if paths[i] == rec.path {
                        vstd::utf8::encode_utf8_decode_utf8(g[i].path@);
                        vstd::utf8::encode_utf8_decode_utf8(t.path@);
                        assert(g[i].path@ == t.path@);
                    }
                }
            }
            assert(apply_record(prev, paths, rec) =~= want);
        } else {
            assert(records_of(g.take(m)) =~= records_of(g.take(m - 1)));
            assert(prev =~= want);
        }
    }
}

/// Reading back the cache written for a graph whose gated commands all
/// carry their current fingerprints restores exactly those cached
/// fingerprints: into that graph, or into any graph that differs from it
/// only in cached fingerprints (the same configuration read again). The
/// file holds one record for each target with gated commands, and none for
/// the others.
pub proof fn lemma_cache_round_trip(g: Graph, h: Graph)
    requires
        g.wf(),
        same_but_cache(g.targets@, h.targets@),
        forall|i: int| 0 <= i < g.targets@.len() ==> fully_cached((#[trigger] g.targets@[i]).cmds@),
        forall|i: int| 0 <= i < g.targets@.len() ==> path_bytes((#[trigger] g.targets@[i]).path@).len()
            <= u64::MAX && g.targets@[i].cmds@.len() <= u64::MAX,
    ensures
        decode(cache_bytes(g.targets@)) == Some(records_of(g.targets@)),
        apply_records(cached_table(h.targets@), graph_paths(h.targets@), records_of(g.targets@))
            == cached_table(g.targets@),
        forall|r: Record| #[trigger] records_of(g.targets@).contains(r) ==> exists|i: int|
            0 <= i < g.targets@.len() && g.targets@[i].cmds@.len() > 0 && r == record_for(g.targets@[i]),
        forall|i: int| 0 <= i < g.targets@.len() && (#[trigger] g.targets@[i]).cmds@.len() > 0 ==> records_of(g.targets@).contains(
            record_for(g.targets@[i]),
        ),
{
    let ts = g.targets@;
    lemma_decode_cache(ts, Seq::empty());
    assert(cache_bytes(ts) + Seq::<u8>::empty() =~= cache_bytes(ts));
    assert(decode(Seq::<u8>::empty()) == Some(Seq::<Record>::empty()));
    assert(records_of(ts) + Seq::<Record>::empty() =~= records_of(ts));
    lemma_apply_own_records(ts, h.targets@, ts.len() as int);
    assert(ts.take(ts.len() as int) =~= ts);
    let tab = cached_table(h.targets@);
    assert forall|i: int| 0 <= i < ts.len() implies #[trigger] apply_records(tab, graph_paths(h.targets@), records_of(ts))[i]
        =~= cached_table(ts)[i] by {
        assert(cached_table(ts)[i] == cached_of(ts[i]));
        assert(tab[i] == cached_of(h.targets@[i]));
        if ts[i].cmds@.len() > 0 {
            assert(fully_cached(ts[i].cmds@));
        }
    }
    assert(apply_records(tab, graph_paths(h.targets@), records_of(ts)) =~= cached_table(ts));
    lemma_records_of_members(ts, ts.len() as int);
}

proof fn lemma_records_of_members(ts: Seq<Target>, m: int)
    requires
        0 <= m <= ts.len(),
    ensures
        forall|r: Record| #[trigger] records_of(ts.take(m)).contains(r) ==> exists|i: int|
            0 <= i < m && ts[i].cmds@.len() > 0 && r == record_for(ts[i]),
        forall|i: int| 0 <= i < m && (#[trigger] ts[i]).cmds@.len() > 0 ==> records_of(ts.take(m)).contains(
            record_for(ts[i]),
        ),
        m == ts.len() ==> ts.take(m) == ts,
    decreases m,
{
    assert(m == ts.len() ==> ts.take(m) =~= ts);
    if m > 0 {
        lemma_records_of_members(ts, m - 1);
        assert(ts.take(m).drop_last() =~= ts.take(m - 1));
        assert(ts.take(m).last() == ts[m - 1]);
        let prev = records_of(ts.take(m - 1));
        let t = ts[m - 1];
        let rec = record_for(t);
        let cur = records_of(ts.take(m));
        if t.cmds@.len() > 0 {
            assert(cur == prev + seq![rec]);
            assert forall|r: Record| #[trigger] cur.contains(r) implies exists|i: int|
                0 <= i < m && ts[i].cmds@.len() > 0 && r == record_for(ts[i]) by {
                let k = choose|k: int| 0 <= k < cur.len() && cur[k] == r;
                if k < prev.len() {
                    assert(prev[k] == r);
                    assert(prev.contains(r));
                } else {
                    assert(r == rec);
                }
            }
            assert forall|i: int| 0 <= i < m && (#[trigger] ts[i]).cmds@.len() > 0 implies cur.contains(
                record_for(ts[i]),
            ) by {
                if i < m - 1 {
                    let r = record_for(ts[i]);
                    assert(prev.contains(r));
                    let k = choose|k: int| 0 <= k < prev.len() && prev[k] == r;
                    assert(cur[k] == r);
                } else {
                    assert(cur[prev.len() as int] == rec);
                }
            }
        } else {
            assert(cur =~= prev);
        }
    }
}

} // verus!
