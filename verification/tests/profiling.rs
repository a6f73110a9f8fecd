use execute::isa::BFIsa;
use execute::profile::{body_of, key_of, LoopTable, Profile};
use execute::state::ProgramState;

#[test]
fn a_new_profile_counts_nothing() {
    let p = Profile::default();
    assert_eq!(
        (p.arith, p.mv, p.inp, p.out, p.jmp, p.ret, p.loopsetz, p.loopmvptr, p.loopmvdata),
        (0, 0, 0, 0, 0, 0, 0, 0, 0)
    );
    assert!(p.loops.table().is_empty());
    assert_eq!(p.loops.count(0, 1), 0);
}

#[test]
fn record_counts_by_kind() {
    let mut p = Profile::default();
    p.record(BFIsa::Incr(3), 0);
    p.record(BFIsa::Incr(1), 4);
    p.record(BFIsa::Mv(-1), 1);
    p.record(BFIsa::In, 2);
    p.record(BFIsa::Out, 3);
    p.record(BFIsa::Out, 3);
    p.record(BFIsa::Out, 3);
    p.record(BFIsa::Jmp(9), 5);
    p.record(BFIsa::LoopSetZero, 6);
    p.record(BFIsa::LoopMvData(2), 7);
    p.record(BFIsa::LoopMvPtr(1), 8);
    assert_eq!(
        (p.arith, p.mv, p.inp, p.out, p.jmp, p.ret, p.loopsetz, p.loopmvptr, p.loopmvdata),
        (2, 1, 1, 3, 1, 0, 1, 1, 1)
    );
    assert!(p.loops.table().is_empty());
}

#[test]
fn record_counts_a_ret_for_its_loop_body() {
    let mut p = Profile::default();
    p.record(BFIsa::Ret(2), 6);
    p.record(BFIsa::Ret(2), 6);
    p.record(BFIsa::Ret(9), 12);
    assert_eq!(p.ret, 3);
    assert_eq!(p.loops.count(2, 7), 2);
    assert_eq!(p.loops.count(9, 13), 1);
    assert_eq!(p.loops.count(2, 6), 0);
    assert_eq!(p.loops.table().len(), 2);
}

#[test]
fn counters_stay_at_their_highest_value() {
    let mut p = Profile::default();
    p.arith = u64::MAX - 1;
    p.record(BFIsa::Incr(1), 0);
    assert_eq!(p.arith, u64::MAX);
    p.record(BFIsa::Incr(1), 0);
    assert_eq!(p.arith, u64::MAX);
}

#[test]
fn loop_table_keeps_one_row_for_each_body() {
    let mut t = LoopTable::new();
    t.bump(1, 5);
    t.bump(7, 9);
    t.bump(1, 5);
    t.bump(1, 9);
    t.bump(1, 5);
    assert_eq!(t.count(1, 5), 3);
    assert_eq!(t.count(7, 9), 1);
    assert_eq!(t.count(1, 9), 1);
    assert_eq!(t.count(7, 5), 0);
    let mut rows: Vec<(usize, usize, usize)> =
        t.table().iter().map(|(k, c)| (body_of(*k).0, body_of(*k).1, *c)).collect();
    rows.sort();
    assert_eq!(rows, vec![(1, 5, 3), (1, 9, 1), (7, 9, 1)]);
}

#[test]
fn a_body_is_found_again_in_its_key() {
    assert_eq!(key_of(0, 0), 0);
    assert_eq!(key_of(0, 7), 7);
    assert_eq!(key_of(1, 0), 1u128 << 64);
    assert_eq!(key_of(3, 5), (3u128 << 64) + 5);
    assert_eq!(body_of((3u128 << 64) + 5), (3, 5));
    assert_eq!(body_of(key_of(usize::MAX, usize::MAX)), (usize::MAX, usize::MAX));
    assert_eq!(body_of(key_of(usize::MAX, 0)), (usize::MAX, 0));
    assert_ne!(key_of(1, 2), key_of(2, 1));
}

#[test]
fn the_table_holds_a_body_under_its_key() {
    let mut t = LoopTable::new();
    t.bump(4, 9);
    assert_eq!(t.count(4, 9), 1);
    assert_eq!(t.table().get(&key_of(4, 9)), Some(&1));
    assert_eq!(t.table().get(&key_of(9, 4)), None);
}

#[test]
fn a_run_counts_what_it_executed() {
    let mut prog = ProgramState::new(b"+++[>+.<-],[-]>[-<+>]<[>]", 8).unwrap();
    let mut out = Vec::new();
    assert_eq!(prog.interpret(&[5], &mut out, 10_000), Ok(0));
    let p = prog.profile();
    assert_eq!(p.arith, 1 + 3 * 2);
    assert_eq!(p.mv, 3 * 2 + 1 + 1);
    assert_eq!(p.out, 3);
    assert_eq!(p.inp, 1);
    assert_eq!(p.jmp, 1);
    assert_eq!(p.ret, 3);
    assert_eq!(p.loopsetz, 1);
    assert_eq!(p.loopmvdata, 1);
    assert_eq!(p.loopmvptr, 1);
    assert_eq!(p.loops.count(1, 8), 3);
    assert_eq!(p.loops.table().len(), 1);
}

#[test]
fn an_in_that_waits_is_not_counted() {
    let mut prog = ProgramState::new(b",", 2).unwrap();
    prog.step(None);
    prog.step(None);
    assert_eq!(prog.profile().inp, 0);
    prog.step(Some(1));
    assert_eq!(prog.profile().inp, 1);
    prog.step(None);
    assert_eq!(prog.profile().inp, 1);
}
