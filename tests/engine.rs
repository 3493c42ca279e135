use unwind_audit::catalog::{Catalog, Effect};
use unwind_audit::cfg::{BasicBlock, Cfg, Edge, EdgeKind, Operation, Terminator};
use unwind_audit::context::Context;
use unwind_audit::diagnosis::analyze_function;
use unwind_audit::domain::{apply_step, apply_transfer, join, join_states, same_state, Ownership};
use unwind_audit::visitor::{run_to_fixpoint, AnalysisError};

use Ownership::{Duplicated, Forgotten, Owned, Released, Unknown};

fn straight_line(num_values: usize, params: Vec<usize>) -> Cfg {
    Cfg {
        blocks: vec![BasicBlock {
            ops: vec![Operation { name: "core::ptr::read".to_string(), operand: 0 }],
            terminator: Terminator { call: None, edges: vec![Edge { target: 0, kind: EdgeKind::Unwind }] },
        }],
        num_values,
        params,
    }
}

#[test]
fn join_prefers_the_hazard() {
    assert_eq!(join(Owned, Duplicated), Duplicated);
    assert_eq!(join(Duplicated, Released), Duplicated);
    assert_eq!(join(Forgotten, Duplicated), Duplicated);
    assert_eq!(join(Unknown, Duplicated), Duplicated);
    assert_eq!(join(Unknown, Owned), Unknown);
    assert_eq!(join(Owned, Forgotten), Unknown);
    assert_eq!(join(Released, Released), Released);
}

#[test]
fn steps_follow_the_effects() {
    assert_eq!(apply_step(Owned, Effect::DuplicatesOperand), Duplicated);
    assert_eq!(apply_step(Unknown, Effect::DuplicatesOperand), Duplicated);
    assert_eq!(apply_step(Forgotten, Effect::DuplicatesOperand), Unknown);
    assert_eq!(apply_step(Duplicated, Effect::ForgetsOperand), Forgotten);
    assert_eq!(apply_step(Duplicated, Effect::ReleasesOperand), Released);
    assert_eq!(apply_step(Duplicated, Effect::ConsumesOperand), Unknown);
    assert_eq!(apply_step(Duplicated, Effect::ConvertsUnwindToNormal), Duplicated);
    assert_eq!(apply_step(Owned, Effect::NoEffect), Owned);
}

#[test]
fn transfer_is_monotone_on_an_example() {
    // [Owned, Forgotten] lies below [Unknown, Duplicated]
    let effects = [
        Effect::DuplicatesOperand,
        Effect::ConsumesOperand,
        Effect::ForgetsOperand,
        Effect::ReleasesOperand,
        Effect::ConvertsUnwindToNormal,
        Effect::NoEffect,
    ];
    for e in effects {
        for v in 0..2 {
            let mut low = vec![Owned, Forgotten];
            let mut high = vec![Unknown, Duplicated];
            apply_transfer(&mut low, e, v);
            apply_transfer(&mut high, e, v);
            let joined = join_states(&low, &high);
            assert!(same_state(&joined, &high), "{:?} on {}", e, v);
        }
    }
}

#[test]
fn catalog_lookup_and_override() {
    let mut cat = Catalog::standard();
    assert_eq!(cat.effect_of(&"core::ptr::read".to_string()), Effect::DuplicatesOperand);
    assert_eq!(cat.effect_of(&"core::mem::forget".to_string()), Effect::ForgetsOperand);
    assert_eq!(cat.effect_of(&"std::panic::catch_unwind".to_string()), Effect::ConvertsUnwindToNormal);
    assert_eq!(cat.effect_of(&"core::ptr::drop_in_place".to_string()), Effect::ReleasesOperand);
    assert_eq!(cat.effect_of(&"core::mem::drop".to_string()), Effect::ConsumesOperand);
    assert_eq!(cat.effect_of(&"alloc::vec::Vec::<T>::push".to_string()), Effect::NoEffect);
    cat.add("core::ptr::read", Effect::NoEffect);
    assert_eq!(cat.effect_of(&"core::ptr::read".to_string()), Effect::NoEffect);
    assert_eq!(Catalog::empty().effect_of(&"core::ptr::read".to_string()), Effect::NoEffect);
}

#[test]
fn seed_owns_parameters_only() {
    let cfg = straight_line(3, vec![2]);
    assert!(cfg.is_wf());
    let ctx = Context::seed(&cfg);
    assert_eq!(ctx.worklist, vec![0]);
    assert_eq!(ctx.visits, 0);
    assert_eq!(ctx.states[0], Some(vec![Unknown, Unknown, Owned]));
}

#[test]
fn merge_marks_changed_blocks() {
    let cfg = straight_line(2, vec![0]);
    let mut ctx = Context::seed(&cfg);
    ctx.worklist.clear();
    assert!(!ctx.merge_into(0, &vec![Owned, Unknown]));
    assert!(ctx.worklist.is_empty());
    assert!(ctx.merge_into(0, &vec![Duplicated, Unknown]));
    assert_eq!(ctx.worklist, vec![0]);
    assert_eq!(ctx.states[0], Some(vec![Duplicated, Unknown]));
}

#[test]
fn empty_function_is_unanalyzable() {
    let cfg = Cfg { blocks: vec![], num_values: 0, params: vec![] };
    assert_eq!(run_to_fixpoint(&cfg, &Catalog::standard(), 100).err(), Some(AnalysisError::UnanalyzableFunction));
    assert!(analyze_function(&cfg, &Catalog::standard(), 100).is_empty());
}

#[test]
fn dangling_edge_or_operand_is_unanalyzable() {
    let mut cfg = straight_line(1, vec![0]);
    cfg.blocks[0].terminator.edges[0].target = 5;
    assert_eq!(run_to_fixpoint(&cfg, &Catalog::standard(), 100).err(), Some(AnalysisError::UnanalyzableFunction));
    let mut cfg = straight_line(1, vec![0]);
    cfg.blocks[0].ops[0].operand = 1;
    assert_eq!(run_to_fixpoint(&cfg, &Catalog::standard(), 100).err(), Some(AnalysisError::UnanalyzableFunction));
    let cfg = straight_line(1, vec![3]);
    assert!(!cfg.is_wf());
}

#[test]
fn visit_cap_gives_up_without_findings() {
    let cfg = straight_line(1, vec![0]);
    assert_eq!(run_to_fixpoint(&cfg, &Catalog::standard(), 0).err(), Some(AnalysisError::IterationLimitExceeded));
    assert!(analyze_function(&cfg, &Catalog::standard(), 0).is_empty());
    assert_eq!(analyze_function(&cfg, &Catalog::standard(), 3).len(), 1);
}

