use branching_bisim::lts::{Label, TransitionSystem};
use branching_bisim::refine::{block_signatures, refine, refine_from, signatures, split_round};
use branching_bisim::signature::find_splitters;

fn x() -> Label {
    Label::Visible('x')
}

fn sorted(mut v: Vec<(Label, usize)>) -> Vec<(Label, usize)> {
    v.sort_by_key(|(l, p)| (format!("{:?}", l), *p));
    v
}

fn same_block(p: &[usize], a: usize, b: usize) -> bool {
    p[a] == p[b]
}

#[test]
fn scenario_two_states_no_transitions() {
    let g = TransitionSystem::new(2);
    assert_eq!(refine(&g), vec![0, 0]);
}

#[test]
fn empty_system_gives_empty_partition() {
    let g = TransitionSystem::new(0);
    assert_eq!(refine(&g), Vec::<usize>::new());
    let r = refine_from(&g, &vec![]);
    assert_eq!(r.partition, Vec::<usize>::new());
    assert_eq!(r.rounds, 0);
}

#[test]
fn scenario_visible_action_asymmetry() {
    // states: A = 0, A' = 1, B = 2
    let mut g = TransitionSystem::new(3);
    g.add_transition(0, 1, x());
    let part = vec![0, 0, 0];
    assert_eq!(find_splitters(0, &g, &part), vec![(x(), 0)]);
    assert_eq!(find_splitters(1, &g, &part), vec![]);
    assert_eq!(find_splitters(2, &g, &part), vec![]);
    let sigs = signatures(&g, &part);
    let bsigs = block_signatures(&g, &part, &sigs);
    assert_eq!(bsigs[1], vec![(x(), 0)]);
    let r = refine_from(&g, &part);
    assert_eq!(r.partition, vec![0, 1, 1]);
    assert_eq!(r.rounds, 1);
    assert_eq!(refine(&g), vec![0, 1, 1]);
}

#[test]
fn scenario_silent_step_transparency() {
    // states: A = 0, A' = 1, A'' = 2, B = 3, B' = 4
    let mut g = TransitionSystem::new(5);
    g.add_transition(0, 1, Label::Silent);
    g.add_transition(1, 2, x());
    g.add_transition(3, 4, x());
    let p = refine(&g);
    assert!(same_block(&p, 0, 3));
    assert!(same_block(&p, 1, 3));
    assert!(same_block(&p, 2, 4));
    assert!(!same_block(&p, 0, 2));
    assert_eq!(find_splitters(0, &g, &p), vec![(x(), p[2])]);
    assert_eq!(find_splitters(3, &g, &p), vec![(x(), p[2])]);
}

#[test]
fn output_fed_back_is_returned_unchanged() {
    let mut g = TransitionSystem::new(5);
    g.add_transition(0, 1, Label::Silent);
    g.add_transition(1, 2, x());
    g.add_transition(3, 4, x());
    g.add_transition(4, 0, Label::Visible('y'));
    let first = refine(&g);
    let again = refine_from(&g, &first);
    assert_eq!(again.partition, first);
    assert_eq!(again.rounds, 0);
}

#[test]
fn extra_round_on_output_splits_nothing() {
    let mut g = TransitionSystem::new(4);
    g.add_transition(0, 1, x());
    g.add_transition(1, 2, Label::Silent);
    g.add_transition(2, 3, Label::Visible('y'));
    let out = refine(&g);
    let mut part = out.clone();
    let mut counter: usize = *out.iter().max().unwrap();
    let before = counter;
    let sigs = signatures(&g, &part);
    let bsigs = block_signatures(&g, &part, &sigs);
    let splits = split_round(&g, &mut part, &mut counter, &sigs, &bsigs);
    assert!(splits.is_empty());
    assert_eq!(part, out);
    assert_eq!(counter, before);
}

#[test]
fn one_round_splits_with_fresh_ids() {
    // 0 -x-> 1, 2 -y-> 1, 3 terminal; one block
    let mut g = TransitionSystem::new(4);
    g.add_transition(0, 1, x());
    g.add_transition(2, 1, Label::Visible('y'));
    let mut part = vec![0, 0, 0, 0];
    let mut counter: usize = 0;
    let sigs = signatures(&g, &part);
    let bsigs = block_signatures(&g, &part, &sigs);
    assert_eq!(
        sorted(bsigs[0].clone()),
        sorted(vec![(x(), 0), (Label::Visible('y'), 0)])
    );
    let splits = split_round(&g, &mut part, &mut counter, &sigs, &bsigs);
    assert_eq!(splits.len(), 1);
    assert_eq!(splits[0].block, 0);
    assert_eq!(splits[0].splitter, (Label::Visible('y'), 0));
    assert_eq!(splits[0].fresh, 1);
    assert_eq!(counter, 1);
    assert_eq!(part, vec![1, 1, 0, 1]);
}

#[test]
fn round_refines_previous_partition() {
    let mut g = TransitionSystem::new(6);
    g.add_transition(0, 1, x());
    g.add_transition(2, 3, Label::Visible('y'));
    g.add_transition(4, 5, x());
    let mut part = vec![0, 0, 0, 2, 2, 2];
    let start = part.clone();
    let mut counter: usize = 2;
    let sigs = signatures(&g, &part);
    let bsigs = block_signatures(&g, &part, &sigs);
    split_round(&g, &mut part, &mut counter, &sigs, &bsigs);
    for a in 0..6 {
        for b in 0..6 {
            if part[a] == part[b] {
                assert_eq!(start[a], start[b]);
            }
        }
    }
    // block 0: state 0 is the first to lack (y, 2), which becomes the splitter
    assert_eq!(part, vec![3, 3, 0, 4, 2, 4]);
}

#[test]
fn initial_blocks_are_never_merged() {
    let g = TransitionSystem::new(3);
    let r = refine_from(&g, &vec![4, 7, 4]);
    assert_eq!(r.partition, vec![4, 7, 4]);
    assert_eq!(r.rounds, 0);
}

#[test]
fn rounds_bounded_by_states_minus_initial_blocks() {
    // a chain 0 -x-> 1 -x-> 2 -x-> 3 needs several rounds
    let mut g = TransitionSystem::new(4);
    g.add_transition(0, 1, x());
    g.add_transition(1, 2, x());
    g.add_transition(2, 3, x());
    let r = refine_from(&g, &vec![0, 0, 0, 0]);
    assert_eq!(r.rounds, 3);
    assert!(r.rounds <= 4 - 1);
    let p = r.partition;
    for a in 0..4 {
        for b in 0..4 {
            assert_eq!(p[a] == p[b], a == b);
        }
    }
}

#[test]
fn signature_follows_silent_cycle_once() {
    let mut g = TransitionSystem::new(3);
    g.add_transition(0, 1, Label::Silent);
    g.add_transition(1, 0, Label::Silent);
    g.add_transition(0, 0, Label::Silent);
    g.add_transition(1, 2, x());
    let part = vec![0, 0, 0];
    assert_eq!(find_splitters(0, &g, &part), vec![(x(), 0)]);
    assert_eq!(find_splitters(1, &g, &part), vec![(x(), 0)]);
    assert_eq!(find_splitters(2, &g, &part), vec![]);
}

#[test]
fn silent_step_leaving_block_is_observed() {
    let mut g = TransitionSystem::new(3);
    g.add_transition(0, 1, Label::Silent);
    g.add_transition(1, 2, x());
    let part = vec![0, 1, 1];
    assert_eq!(find_splitters(0, &g, &part), vec![(Label::Silent, 1)]);
    assert_eq!(find_splitters(1, &g, &part), vec![(x(), 1)]);
}

#[test]
fn signature_ignores_duplicate_observations() {
    let mut g = TransitionSystem::new(3);
    g.add_transition(0, 1, x());
    g.add_transition(0, 2, x());
    let part = vec![0, 1, 1];
    assert_eq!(find_splitters(0, &g, &part), vec![(x(), 1)]);
}

#[test]
fn duplicate_transitions_are_idempotent() {
    let mut g = TransitionSystem::new(2);
    g.add_transition(0, 1, x());
    g.add_transition(0, 1, x());
    g.add_transition(0, 1, Label::Silent);
    assert_eq!(g.num_states(), 2);
    assert_eq!(g.successors(0).len(), 2);
    assert_eq!(g.successors(1).len(), 0);
}

#[test]
fn demonstration_graph_reaches_fixpoint() {
    let names = ["00", "10", "20", "30", "01", "11", "21", "31", "02", "12", "22", "03", "13", "23"];
    let id = |s: &str| names.iter().position(|n| *n == s).unwrap();
    let b = Label::Visible('b');
    let c = Label::Visible('c');
    let edges = [
        ("00", "10", Label::Silent),
        ("10", "20", Label::Silent),
        ("20", "30", b),
        ("01", "11", Label::Silent),
        ("11", "21", Label::Silent),
        ("21", "31", c),
        ("02", "12", Label::Silent),
        ("12", "22", Label::Silent),
        ("13", "23", Label::Silent),
        ("00", "01", Label::Silent),
        ("01", "02", Label::Silent),
        ("02", "03", c),
        ("10", "11", Label::Silent),
        ("11", "12", Label::Silent),
        ("12", "13", c),
        ("20", "21", Label::Silent),
        ("21", "22", Label::Silent),
        ("22", "23", b),
        ("30", "31", Label::Silent),
    ];
    let mut g = TransitionSystem::new(names.len());
    for (s, t, l) in edges.iter() {
        g.add_transition(id(s), id(t), *l);
    }
    let out = refine(&g);
    // terminal states are all equivalent
    for t in ["03", "13", "23", "31"] {
        assert_eq!(out[id(t)], out[id("31")]);
    }
    assert_eq!(out[id("30")], out[id("31")]);
    let again = refine_from(&g, &out);
    assert_eq!(again.partition, out);
    assert_eq!(again.rounds, 0);
}

#[test]
fn output_ids_are_dense_from_zero() {
    let mut g = TransitionSystem::new(4);
    g.add_transition(0, 1, x());
    g.add_transition(2, 3, Label::Visible('y'));
    let p = refine(&g);
    let mut ids = p.clone();
    ids.sort();
    ids.dedup();
    for id in p.iter() {
        assert!(*id < ids.len());
    }
    assert_eq!(p, vec![1, 2, 0, 2]);
}

#[test]
fn signature_independent_of_exploration_order() {
    // the same system, with transitions added in two orders
    let edges = [
        (0, 1, Label::Silent),
        (0, 2, Label::Silent),
        (1, 3, x()),
        (2, 4, Label::Visible('y')),
        (2, 0, Label::Silent),
        (4, 5, Label::Silent),
    ];
    let mut g1 = TransitionSystem::new(6);
    for (s, t, l) in edges.iter() {
        g1.add_transition(*s, *t, *l);
    }
    let mut g2 = TransitionSystem::new(6);
    for (s, t, l) in edges.iter().rev() {
        g2.add_transition(*s, *t, *l);
    }
    let part = vec![0, 0, 0, 1, 1, 2];
    let a = sorted(find_splitters(0, &g1, &part));
    let b = sorted(find_splitters(0, &g2, &part));
    assert_eq!(a, b);
    assert_eq!(a, sorted(vec![(x(), 1), (Label::Visible('y'), 1)]));
    assert_eq!(find_splitters(4, &g1, &part), vec![(Label::Silent, 2)]);
}
