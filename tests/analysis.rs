use unwind_audit::catalog::{Catalog, Effect};
use unwind_audit::cfg::{BasicBlock, Cfg, Edge, EdgeKind, Operation, Terminator};
use unwind_audit::diagnosis::{analyze_function, diagnose, Finding, HazardKind, Point, Severity};
use unwind_audit::summary::{summarize, Analyzer};
use unwind_audit::visitor::run_to_fixpoint;

const S: usize = 0;
const DUP: usize = 1;
const F: usize = 2;

fn op(name: &str, operand: usize) -> Operation {
    Operation { name: name.to_string(), operand }
}

fn normal(target: usize) -> Edge {
    Edge { target, kind: EdgeKind::Normal }
}

fn unwind(target: usize) -> Edge {
    Edge { target, kind: EdgeKind::Unwind }
}

fn block(ops: Vec<Operation>, call: Option<Operation>, edges: Vec<Edge>) -> BasicBlock {
    BasicBlock { ops, terminator: Terminator { call, edges } }
}

fn function(blocks: Vec<BasicBlock>) -> Cfg {
    Cfg { blocks, num_values: 3, params: vec![S, F] }
}

fn hazard(value: usize, block: usize, index: usize, exposed_at: usize) -> Finding {
    Finding {
        kind: HazardKind::DoubleFreeOnUnwind,
        value,
        duplicated_at: Point { block, index },
        exposed_at,
        severity: Severity::Definite,
    }
}

// read, then a call that may unwind, then forget
fn unguarded() -> Cfg {
    function(vec![
        block(vec![], Some(op("core::ptr::read", S)), vec![normal(1)]),
        block(vec![], Some(op("core::ops::FnOnce::call_once", DUP)), vec![normal(2), unwind(3)]),
        block(vec![], Some(op("core::mem::forget", S)), vec![normal(4)]),
        block(vec![], None, vec![]),
        block(vec![], None, vec![]),
    ])
}

#[test]
fn unresolved_duplicate_reaching_unwind_is_reported() {
    let r = analyze_function(&unguarded(), &Catalog::standard(), 1000);
    assert_eq!(r, vec![hazard(S, 0, 0, 1)]);
}

#[test]
fn catch_unwind_guards_the_duplicate() {
    let cfg = function(vec![
        block(vec![], Some(op("core::ptr::read", S)), vec![normal(1)]),
        block(vec![], Some(op("std::panic::catch_unwind", F)), vec![normal(2), unwind(3)]),
        block(vec![op("core::mem::forget", DUP)], Some(op("core::mem::ManuallyDrop::<T>::drop", S)), vec![normal(4)]),
        block(vec![], None, vec![]),
        block(vec![], None, vec![]),
    ]);
    let r = analyze_function(&cfg, &Catalog::standard(), 1000);
    assert!(r.is_empty());
}

#[test]
fn duplicate_forgotten_before_unwind() {
    let cfg = function(vec![
        block(
            vec![op("core::ptr::read", S), op("core::mem::forget", S)],
            Some(op("core::ops::FnOnce::call_once", DUP)),
            vec![normal(1), unwind(2)],
        ),
        block(vec![], None, vec![]),
        block(vec![], None, vec![]),
    ]);
    let r = analyze_function(&cfg, &Catalog::standard(), 1000);
    assert!(r.is_empty());
}

#[test]
fn one_unresolved_branch_is_enough() {
    let cfg = function(vec![
        block(vec![op("core::ptr::read", S)], None, vec![normal(1), normal(2)]),
        block(vec![op("core::mem::forget", S)], None, vec![normal(3)]),
        block(vec![], None, vec![normal(3)]),
        block(vec![], Some(op("core::ops::FnOnce::call_once", DUP)), vec![normal(4), unwind(5)]),
        block(vec![], None, vec![]),
        block(vec![], None, vec![]),
    ]);
    let r = analyze_function(&cfg, &Catalog::standard(), 1000);
    assert_eq!(r, vec![hazard(S, 0, 0, 3)]);
}

fn looping() -> Cfg {
    function(vec![
        block(vec![], None, vec![normal(1)]),
        block(vec![op("core::ptr::read", S)], Some(op("core::ops::FnOnce::call_once", DUP)), vec![normal(2), unwind(4)]),
        block(vec![], None, vec![normal(1), normal(3)]),
        block(vec![op("core::mem::forget", S)], None, vec![]),
        block(vec![], None, vec![]),
    ])
}

#[test]
fn duplicate_inside_loop() {
    let r = analyze_function(&looping(), &Catalog::standard(), 1000);
    assert_eq!(r, vec![hazard(S, 1, 0, 1)]);
}

#[test]
fn loop_converges_within_visit_bound() {
    let cfg = looping();
    let ctx = run_to_fixpoint(&cfg, &Catalog::standard(), usize::MAX).ok().unwrap();
    assert!(ctx.worklist.is_empty());
    assert!(ctx.visits <= 5 * (2 * 3 + 1));
    assert!(ctx.visits >= 5);
}

#[test]
fn diagnosis_twice_gives_same_findings() {
    let cfg = looping();
    let cat = Catalog::standard();
    let ctx = run_to_fixpoint(&cfg, &cat, 1000).ok().unwrap();
    let first = diagnose(&cfg, &cat, &ctx);
    let second = diagnose(&cfg, &cat, &ctx);
    assert_eq!(first, second);
    assert_eq!(first.len(), 1);
}

#[test]
fn release_resolves_the_duplicate() {
    let cfg = function(vec![
        block(
            vec![op("core::ptr::read", S), op("core::mem::ManuallyDrop::<T>::drop", S)],
            Some(op("core::ops::FnOnce::call_once", DUP)),
            vec![normal(1), unwind(2)],
        ),
        block(vec![], None, vec![]),
        block(vec![], None, vec![]),
    ]);
    assert!(analyze_function(&cfg, &Catalog::standard(), 1000).is_empty());
}

#[test]
fn consumed_value_is_no_longer_tracked() {
    let cfg = function(vec![
        block(
            vec![op("core::ptr::read", S), op("core::mem::drop", S)],
            Some(op("core::ops::FnOnce::call_once", DUP)),
            vec![normal(1), unwind(2)],
        ),
        block(vec![], None, vec![]),
        block(vec![], None, vec![]),
    ]);
    assert!(analyze_function(&cfg, &Catalog::standard(), 1000).is_empty());
}

#[test]
fn unknown_operations_have_no_effect() {
    let cfg = function(vec![block(
        vec![op("my_crate::copy_out", S)],
        Some(op("core::ops::FnOnce::call_once", DUP)),
        vec![normal(1), unwind(1)],
    ), block(vec![], None, vec![])]);
    assert!(analyze_function(&cfg, &Catalog::standard(), 1000).is_empty());
    let mut cat = Catalog::standard();
    cat.add("my_crate::copy_out", Effect::DuplicatesOperand);
    assert_eq!(analyze_function(&cfg, &cat, 1000), vec![hazard(S, 0, 0, 0)]);
}

#[test]
fn duplication_in_the_terminator_call_is_pointed_at() {
    let cfg = function(vec![
        block(vec![op("core::mem::transmute_copy", F)], Some(op("core::ptr::read", S)), vec![normal(1), unwind(2)]),
        block(vec![], None, vec![]),
        block(vec![], None, vec![]),
    ]);
    let r = analyze_function(&cfg, &Catalog::standard(), 1000);
    assert_eq!(r, vec![hazard(S, 0, 1, 0), hazard(F, 0, 0, 0)]);
}

#[test]
fn unreached_blocks_are_not_reported() {
    let cfg = function(vec![
        block(vec![], None, vec![]),
        block(vec![op("core::ptr::read", S)], Some(op("core::ops::FnOnce::call_once", DUP)), vec![normal(0), unwind(0)]),
    ]);
    assert!(analyze_function(&cfg, &Catalog::standard(), 1000).is_empty());
}

// `wrapper` hands out a duplicate of its parameter that it never resolves.
fn duplicating_helper() -> Cfg {
    Cfg {
        blocks: vec![block(vec![op("core::ptr::read", 0)], None, vec![])],
        num_values: 1,
        params: vec![0],
    }
}

fn caller_of_helper() -> Cfg {
    function(vec![
        block(vec![op("my_crate::wrapper", S)], Some(op("core::ops::FnOnce::call_once", DUP)), vec![normal(1), unwind(2)]),
        block(vec![op("core::mem::forget", S)], None, vec![]),
        block(vec![], None, vec![]),
    ])
}

#[test]
fn summaries_carry_duplication_to_callers() {
    let mut analyzer = Analyzer::new(Catalog::standard(), true, 1000);
    assert!(analyzer.analyze("my_crate::wrapper", &duplicating_helper()).is_empty());
    assert_eq!(analyzer.catalog.effect_of(&"my_crate::wrapper".to_string()), Effect::DuplicatesOperand);
    assert_eq!(analyzer.analyze("my_crate::caller", &caller_of_helper()), vec![hazard(S, 0, 0, 0)]);
    // its unwind exit still holds the duplicate
    assert_eq!(analyzer.catalog.effect_of(&"my_crate::caller".to_string()), Effect::DuplicatesOperand);
}

#[test]
fn without_summaries_calls_have_no_effect() {
    let mut analyzer = Analyzer::new(Catalog::standard(), false, 1000);
    assert!(analyzer.analyze("my_crate::wrapper", &duplicating_helper()).is_empty());
    assert_eq!(analyzer.catalog.entries.len(), Catalog::standard().entries.len());
    assert!(analyzer.analyze("my_crate::caller", &caller_of_helper()).is_empty());
}

#[test]
fn summary_of_a_resolving_function_is_no_effect() {
    let cfg = function(vec![
        block(
            vec![op("core::ptr::read", S), op("core::mem::forget", S)],
            Some(op("core::ops::FnOnce::call_once", DUP)),
            vec![normal(1), unwind(2)],
        ),
        block(vec![], None, vec![]),
        block(vec![], None, vec![]),
    ]);
    let cat = Catalog::standard();
    let ctx = run_to_fixpoint(&cfg, &cat, 1000).ok().unwrap();
    assert_eq!(summarize(&cfg, &cat, &ctx), Effect::NoEffect);
    let helper = duplicating_helper();
    let ctx = run_to_fixpoint(&helper, &cat, 1000).ok().unwrap();
    assert_eq!(summarize(&helper, &cat, &ctx), Effect::DuplicatesOperand);
}
