use std::collections::HashMap;

use rbuild::cache::{decode_records, read_hash_cache, write_hash_cache, CacheError};
use rbuild::executor::{Dispatcher, ExecNode, NodeState, WorkerStatus};
use rbuild::graph::{CompileError, Graph};
use rbuild::target::{freshness_after, newest_input, EvalStep, Timestamp};

/// A file system of modification times, and a log of what ran.
struct World {
    mtimes: HashMap<String, Timestamp>,
    clock: Timestamp,
    ran: Vec<String>,
    failing: Vec<String>,
}

impl World {
    fn new() -> World {
        World { mtimes: HashMap::new(), clock: 100, ran: Vec::new(), failing: Vec::new() }
    }

    fn touch(&mut self, path: &str) {
        self.clock += 10;
        self.mtimes.insert(path.to_string(), self.clock);
    }

    fn mtime(&self, path: &str) -> Timestamp {
        *self.mtimes.get(path).unwrap_or(&0)
    }

    /// Runs one command: `touch` sets the last argument's time; a program
    /// named in `failing` exits non-zero; anything else succeeds.
    fn exec(&mut self, program: &str, args: &[String]) -> bool {
        let mut line = program.to_string();
        for a in args {
            line.push(' ');
            line.push_str(a);
        }
        self.ran.push(line);
        if self.failing.iter().any(|f| f == program) {
            return false;
        }
        if program == "touch" {
            if let Some(last) = args.last() {
                self.touch(last);
            }
        }
        true
    }
}

fn evaluate(graph: &mut Graph, world: &mut World, job: &ExecNode) -> WorkerStatus {
    let newest = newest_input(&job.inputs);
    let path = graph.targets[job.id].path.clone();
    let own = world.mtime(&path);
    let plan = graph.targets[job.id].plan(newest, own);
    for step in plan {
        match step {
            EvalStep::RunGated(i) => {
                let c = &graph.targets[job.id].cmds[i];
                let (p, a) = (c.program.clone(), c.args.clone());
                if !world.exec(&p, &a) {
                    return WorkerStatus::Fail(job.id);
                }
                graph.targets[job.id].record_success(i);
            }
            EvalStep::RunAlways(i) => {
                let c = &graph.targets[job.id].always_cmds[i];
                let (p, a) = (c.program.clone(), c.args.clone());
                if !world.exec(&p, &a) {
                    return WorkerStatus::Fail(job.id);
                }
            }
        }
    }
    WorkerStatus::Complete(job.id, freshness_after(newest, world.mtime(&path)))
}

/// Builds every target, one job at a time; true when nothing failed.
fn build(graph: &mut Graph, world: &mut World) -> (bool, Dispatcher) {
    let all: Vec<usize> = (0..graph.len()).collect();
    let recipe = graph.compile(&all).unwrap();
    let (mut d, mut queue) = Dispatcher::new(graph, &recipe);
    while let Some(job) = queue.pop() {
        let status = evaluate(graph, world, &job);
        let more = d.on_status(status);
        queue.extend(more);
    }
    assert!(d.is_finished());
    (!d.has_failed(), d)
}

const SIMPLE: &str = "path a path b deps 0 run touch b";

#[test]
fn fresh_build() {
    let mut world = World::new();
    world.touch("a");
    let mut g = Graph::from_config(SIMPLE).unwrap();
    let (ok, _) = build(&mut g, &mut world);
    assert!(ok);
    assert_eq!(world.ran, vec!["touch b".to_string()]);
    let cache = write_hash_cache(&g);
    let records = decode_records(&cache).unwrap();
    assert_eq!(records.len(), 1);
    assert_eq!(records[0].path, b"b".to_vec());
    assert_eq!(records[0].fps, vec![g.targets[1].cmds[0].fingerprint]);
}

fn built_simple(world: &mut World) -> Vec<u8> {
    world.touch("a");
    let mut g = Graph::from_config(SIMPLE).unwrap();
    let (ok, _) = build(&mut g, world);
    assert!(ok);
    world.ran.clear();
    write_hash_cache(&g)
}

#[test]
fn no_op_rebuild() {
    let mut world = World::new();
    let cache = built_simple(&mut world);
    let mut g = Graph::from_config(SIMPLE).unwrap();
    read_hash_cache(&mut g, &cache).unwrap();
    let (ok, _) = build(&mut g, &mut world);
    assert!(ok);
    assert!(world.ran.is_empty());
    assert_eq!(write_hash_cache(&g), cache);
}

#[test]
fn command_edit() {
    let mut world = World::new();
    let cache = built_simple(&mut world);
    let mut g = Graph::from_config("path a path b deps 0 run touch -a b").unwrap();
    read_hash_cache(&mut g, &cache).unwrap();
    let (ok, _) = build(&mut g, &mut world);
    assert!(ok);
    assert_eq!(world.ran, vec!["touch -a b".to_string()]);
    let new_cache = write_hash_cache(&g);
    assert_ne!(new_cache, cache);
    let records = decode_records(&new_cache).unwrap();
    assert_eq!(records[0].fps, vec![g.targets[1].cmds[0].fingerprint]);
}

#[test]
fn input_touch() {
    let mut world = World::new();
    let cache = built_simple(&mut world);
    world.touch("a");
    let mut g = Graph::from_config(SIMPLE).unwrap();
    read_hash_cache(&mut g, &cache).unwrap();
    let (ok, _) = build(&mut g, &mut world);
    assert!(ok);
    assert_eq!(world.ran, vec!["touch b".to_string()]);
    assert_eq!(write_hash_cache(&g), cache);
}

#[test]
fn failure_cascade() {
    let mut world = World::new();
    world.touch("src");
    world.failing.push("cc".to_string());
    let mut g = Graph::from_config("path src path obj deps 0 run cc -c path bin deps 1 run ld").unwrap();
    let (ok, d) = build(&mut g, &mut world);
    assert!(!ok);
    assert_eq!(world.ran, vec!["cc -c".to_string()]);
    assert_eq!(d.state[0], NodeState::Done);
    assert_eq!(d.state[1], NodeState::Failed);
    assert_eq!(d.state[2], NodeState::Cancelled);
    assert_eq!(g.targets[1].cmds[0].cached_fingerprint, None);
    assert_eq!(g.targets[2].cmds[0].cached_fingerprint, None);
}

#[test]
fn cycle_is_rejected() {
    let g = Graph::from_config("path a deps 1 path b deps 0").unwrap();
    match g.compile(&vec![0, 1]) {
        Err(CompileError::Cycle(c)) => {
            let mut names: Vec<String> = c.iter().map(|&i| g.get(i).unwrap().path.clone()).collect();
            names.sort();
            assert_eq!(names, vec!["a".to_string(), "b".to_string()]);
        }
        other => panic!("expected a cycle, got {:?}", other),
    }
}

#[test]
fn unrelated_cycle_does_not_block() {
    let g = Graph::from_config("path a deps 1 path b deps 0 path c path d deps 2").unwrap();
    let r = g.compile(&vec![3]).unwrap();
    assert_eq!(r.order, vec![2, 3]);
    assert_eq!(r.inputs, vec![2]);
}

#[test]
fn closure_and_layers() {
    let g = Graph::from_config("path a path b deps 0 path c deps 0 path d deps 1 2 path e").unwrap();
    let mut deps = g.get_all_deps(&vec![3]);
    deps.sort();
    assert_eq!(deps, vec![0, 1, 2, 3]);
    let layers = g.get_subgraph(&vec![3]).unwrap();
    assert_eq!(layers.len(), 3);
    assert_eq!(layers[0], vec![3]);
    let mut second = layers[1].clone();
    second.sort();
    assert_eq!(second, vec![1, 2]);
    assert_eq!(layers[2], vec![0]);
    let r = g.compile(&vec![3, 3]).unwrap();
    assert_eq!(r.outputs, vec![3]);
    assert_eq!(r.inputs, vec![0]);
    assert_eq!(r.order.len(), 4);
    assert_eq!(r.order[0], 0);
    assert_eq!(r.order[3], 3);
}

#[test]
fn dispatcher_orders_and_delivers() {
    let g = Graph::from_config("path a path b path c deps 0 1").unwrap();
    let recipe = g.compile(&vec![2]).unwrap();
    let (mut d, jobs) = Dispatcher::new(&g, &recipe);
    let mut ids: Vec<usize> = jobs.iter().map(|j| j.id).collect();
    ids.sort();
    assert_eq!(ids, vec![0, 1]);
    assert_eq!(d.state[2], NodeState::Waiting);
    assert!(d.on_status(WorkerStatus::Complete(0, 50)).is_empty());
    let next = d.on_status(WorkerStatus::Complete(1, 70));
    assert_eq!(next.len(), 1);
    assert_eq!(next[0].id, 2);
    let mut inputs = next[0].inputs.clone();
    inputs.sort();
    assert_eq!(inputs, vec![50, 70]);
    assert_eq!(newest_input(&next[0].inputs), 70);
    assert!(!d.is_finished());
    d.on_status(WorkerStatus::Complete(2, 70));
    assert!(d.is_finished());
    assert!(!d.has_failed());
}

#[test]
fn corrupt_cache_is_refused_and_changes_nothing() {
    let mut g = Graph::from_config(SIMPLE).unwrap();
    let mut bytes = vec![200u8, 0, 0, 0, 0, 0, 0, 0];
    bytes.extend_from_slice(b"b");
    assert_eq!(read_hash_cache(&mut g, &bytes), Err(CacheError::Corrupt));
    assert_eq!(g.targets[1].cmds[0].cached_fingerprint, None);
    assert_eq!(decode_records(&vec![1, 2, 3]).err(), Some(CacheError::Corrupt));
    assert_eq!(decode_records(&vec![]).unwrap().len(), 0);
}

#[test]
fn cache_layout_is_little_endian() {
    let mut g = Graph::from_config("path xy run p q path z").unwrap();
    let fp = g.targets[0].cmds[0].fingerprint;
    let bytes = write_hash_cache(&g);
    let mut want = vec![2u8, 0, 0, 0, 0, 0, 0, 0, b'x', b'y', 1, 0, 0, 0, 0, 0, 0, 0];
    want.extend_from_slice(&fp.to_le_bytes());
    assert_eq!(bytes, want);
    read_hash_cache(&mut g, &bytes).unwrap();
    assert_eq!(g.targets[0].cmds[0].cached_fingerprint, Some(fp));
}

#[test]
fn unknown_cache_paths_are_skipped_and_counts_trimmed() {
    let mut g = Graph::from_config("path t run one run two").unwrap();
    let mut bytes = Vec::new();
    bytes.extend_from_slice(&5u64.to_le_bytes());
    bytes.extend_from_slice(b"other");
    bytes.extend_from_slice(&1u64.to_le_bytes());
    bytes.extend_from_slice(&9u64.to_le_bytes());
    bytes.extend_from_slice(&1u64.to_le_bytes());
    bytes.extend_from_slice(b"t");
    bytes.extend_from_slice(&1u64.to_le_bytes());
    bytes.extend_from_slice(&42u64.to_le_bytes());
    read_hash_cache(&mut g, &bytes).unwrap();
    assert_eq!(g.targets[0].cmds[0].cached_fingerprint, Some(42));
    assert_eq!(g.targets[0].cmds[1].cached_fingerprint, None);
}
