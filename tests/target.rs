use rbuild::target::{fingerprint, freshness_after, newest_input, EvalStep, HashedCommand, Target};

fn strings(v: &[&str]) -> Vec<String> {
    v.iter().map(|s| s.to_string()).collect()
}

#[test]
fn fingerprint_tracks_program_and_argument_order() {
    let p = "cc".to_string();
    let a = fingerprint(&p, &strings(&["-c", "x.c"]));
    assert_eq!(a, fingerprint(&p, &strings(&["-c", "x.c"])));
    assert_ne!(a, fingerprint(&p, &strings(&["x.c", "-c"])));
    assert_ne!(a, fingerprint(&"gcc".to_string(), &strings(&["-c", "x.c"])));
    assert_ne!(fingerprint(&p, &strings(&["ab"])), fingerprint(&p, &strings(&["a", "b"])));
}

#[test]
fn newest_input_is_max_or_epoch() {
    assert_eq!(newest_input(&vec![]), 0);
    assert_eq!(newest_input(&vec![3, 9, 4]), 9);
    assert_eq!(freshness_after(5, 2), 5);
    assert_eq!(freshness_after(2, 5), 5);
}

#[test]
fn plan_runs_stale_then_always() {
    let mut c0 = HashedCommand::new("a".to_string(), vec![]);
    c0.cached_fingerprint = Some(c0.fingerprint);
    let c1 = HashedCommand::new("b".to_string(), vec![]);
    let always = HashedCommand::new("echo".to_string(), vec![]);
    let mut t = Target::new("out".to_string(), vec![c0, c1], vec![always]);
    assert_eq!(t.plan(1, 5), vec![EvalStep::RunGated(1), EvalStep::RunAlways(0)]);
    assert_eq!(t.plan(9, 5), vec![EvalStep::RunGated(0), EvalStep::RunGated(1), EvalStep::RunAlways(0)]);
    t.record_success(1);
    assert_eq!(t.plan(1, 5), vec![EvalStep::RunAlways(0)]);
    assert_eq!(t.stale_commands(1, 5), Vec::<usize>::new());
}
