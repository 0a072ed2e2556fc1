use muaddib::capability::{CapError, Kernel};
use muaddib::rights::Rights;
use muaddib::process::Handle;
use muaddib::workload::chaos::{
    arb_rights, generate, predict_access, predict_check, run_chaos, CapModel, ChaosConfig, ChaosModel, Fault,
    GrantKind, Mismatch, Obj, Op, Pick, RegionModel, World, CHANNELS,
};
use muaddib::memory::MemoryError;
use muaddib::workload::rng::SplitMix64;

#[test]
fn generated_operations_are_a_pure_function_of_the_seed() {
    let mut a = SplitMix64::new(0xC0FFEE);
    let mut b = SplitMix64::new(0xC0FFEE);
    let mut kinds = std::collections::BTreeSet::new();
    for n in 1..400usize {
        let procs = 1 + n % 8;
        let x = generate(&mut a, procs);
        let y = generate(&mut b, procs);
        assert_eq!(format!("{x:?}"), format!("{y:?}"));
        kinds.insert(x.name());
        match x {
            Op::NewRegion { p, size } => assert!(p < procs && 1 <= size && size <= 32),
            Op::Send { channel, grants, .. } => assert!(channel < CHANNELS && grants.len() < 4),
            Op::Receive { channel, .. } => assert!(channel < CHANNELS),
            Op::Spawn { grants, .. } => assert!(grants.len() < 4),
            _ => {}
        }
    }
    assert_eq!(kinds.len(), 9);
    assert_eq!(a.next_u64(), b.next_u64());
}

#[test]
fn arb_rights_draws_only_defined_rights() {
    let mut rng = SplitMix64::new(7);
    for _ in 0..100 {
        let r = arb_rights(&mut rng);
        assert!(Rights::ALL().contains(r));
    }
}

#[test]
fn the_model_predicts_what_the_kernel_answers() {
    let mut k = Kernel::new();
    let cap = k.new_object(Rights::READ() | Rights::DESTROY());
    let regions = vec![RegionModel { object: cap.object(), alive: true, epoch: 0, bytes: vec![0; 8] }];
    let channels = vec![];
    let model = CapModel { obj: Obj::Region(0), rights: cap.rights(), epoch: 0 };
    for req in [Rights::READ(), Rights::WRITE(), Rights::DESTROY()] {
        assert_eq!(predict_check(&regions, &channels, &model, req), k.check(&cap, req));
    }
    assert_eq!(
        predict_access(&regions, &channels, &model, Rights::READ(), 6, 3),
        Err(MemoryError::OutOfBounds { object: cap.object(), offset: 6, len: 3, size: 8 })
    );
    k.revoke(&cap).unwrap();
    let regions = vec![RegionModel { object: cap.object(), alive: true, epoch: 1, bytes: vec![0; 8] }];
    assert_eq!(
        predict_check(&regions, &channels, &model, Rights::READ()),
        Err(CapError::Revoked(cap.object()))
    );
    assert_eq!(k.check(&cap, Rights::READ()), Err(CapError::Revoked(cap.object())));
}

fn config(seed: u64, steps: usize) -> ChaosConfig {
    ChaosConfig { seed, steps, fault: None }
}

#[test]
fn many_seeds_run_clean() {
    for seed in 0..48 {
        if let Err(failure) = run_chaos(config(seed, 300)) {
            panic!("{failure:?}");
        }
    }
}

#[test]
fn a_run_is_a_pure_function_of_its_seed() {
    let a = run_chaos(config(0xDEAD_BEEF, 400)).unwrap();
    let b = run_chaos(config(0xDEAD_BEEF, 400)).unwrap();
    assert_eq!(a, b);
    let c = run_chaos(config(0xDEAD_BEF0, 400)).unwrap();
    assert_ne!(a.log_hash, c.log_hash);
}

#[test]
fn an_injected_fault_is_caught_and_replays_identically_from_its_seed() {
    let faulty = ChaosConfig { seed: 77, steps: 500, fault: Some(Fault::CorruptModelAt { step: 40 }) };
    let first = run_chaos(faulty).expect_err("the audit must notice the corrupted byte");
    assert!(first.step >= 40);
    assert!(matches!(first.mismatch, Mismatch::RegionBytes { .. }), "{first:?}");

    let replay = run_chaos(faulty).expect_err("replay must fail too");
    assert_eq!(first, replay, "same seed, same failure: same step, op, mismatch");
    // What the replay command names: seed 0x4d, 500 steps.
    assert_eq!((first.seed, first.steps), (0x4d, 500));
}

#[test]
fn the_harness_exercises_every_operation_both_ways() {
    let mut totals = std::collections::BTreeMap::<&str, (u64, u64)>::new();
    let mut stale_refused = 0;
    for seed in 100..116 {
        let summary = run_chaos(config(seed, 300)).unwrap();
        stale_refused += summary.stale_replays_refused;
        for (op, (ok, rejected)) in summary.outcomes {
            let t = totals.entry(op).or_default();
            t.0 += ok;
            t.1 += rejected;
        }
    }
    for op in ["spawn", "send", "receive", "read", "write", "revoke", "destroy"] {
        let (ok, rejected) = totals[op];
        assert!(ok > 0 && rejected > 0, "{op}: {ok} ok / {rejected} rejected");
    }
    assert!(totals["new_region"].0 > 0 && totals["local"].0 > 0);
    assert!(stale_refused > 0);
}

#[test]
fn a_fresh_world_passes_its_audit_and_runs_an_operation() {
    let mut w = World::new();
    assert_eq!(w.process_count(), 1);
    assert_eq!(w.sweep(), Ok(()));
    let op = Op::Write { p: 0, pick: Pick::Table(3), regions_only: true, offset: 1, len: 2, byte: 9 };
    assert_eq!(w.execute(&op), Ok(()));
    assert_eq!(w.sweep(), Ok(()));
    assert_eq!(w.execute(&Op::Spawn { parent: 0, grants: vec![(0, GrantKind::Move)] }), Ok(()));
    assert_eq!(w.process_count(), 2);
    assert_eq!(w.sweep(), Ok(()));
}

fn model_with_one_region() -> (ChaosModel, Handle) {
    let mut k = Kernel::new();
    let cap = k.new_object(Rights::ALL());
    let h = Handle(4);
    let model = ChaosModel {
        regions: vec![RegionModel { object: cap.object(), alive: true, epoch: 3, bytes: vec![0; 4] }],
        channels: vec![],
        tables: vec![vec![(h, CapModel { obj: Obj::Region(0), rights: Rights::ALL(), epoch: 3 })]],
    };
    (model, h)
}

#[test]
fn a_modelled_move_leaves_the_table_and_bumps_the_epoch() {
    let (mut model, h) = model_with_one_region();
    let delivered = model.apply_grants_model(0, &vec![(h, GrantKind::Move)]).unwrap();
    assert_eq!(delivered, vec![CapModel { obj: Obj::Region(0), rights: Rights::ALL(), epoch: 4 }]);
    assert_eq!(model.regions[0].epoch, 4);
    assert!(model.tables[0].is_empty());
}

#[test]
fn a_modelled_derivation_keeps_the_table_and_attenuates() {
    let (mut model, h) = model_with_one_region();
    let delivered = model.apply_grants_model(0, &vec![(h, GrantKind::Derive(Rights::READ()))]).unwrap();
    assert_eq!(delivered, vec![CapModel { obj: Obj::Region(0), rights: Rights::READ(), epoch: 3 }]);
    assert_eq!(model.tables[0].len(), 1);
    assert_eq!(model.regions[0].epoch, 3);
}

#[test]
fn a_modelled_batch_that_takes_a_handle_twice_is_refused_and_changes_nothing() {
    let (mut model, h) = model_with_one_region();
    assert_eq!(model.apply_grants_model(0, &vec![(h, GrantKind::Transfer), (h, GrantKind::Transfer)]), None);
    assert_eq!(model.tables[0].len(), 1);
    let (mut model, h) = model_with_one_region();
    assert_eq!(model.apply_grants_model(0, &vec![(h, GrantKind::Move), (h, GrantKind::Derive(Rights::READ()))]), None);
    assert_eq!(model.regions[0].epoch, 3);
    let (mut model, h) = model_with_one_region();
    assert_eq!(model.apply_grants_model(0, &vec![(h, GrantKind::Derive(Rights::ALL()))]).map(|v| v.len()), Some(1));
}

#[test]
fn every_operation_keeps_the_audit_passing() {
    let mut w = World::new();
    let mut rng = SplitMix64::new(0x5EED);
    for _ in 0..300 {
        let op = generate(&mut rng, w.process_count());
        assert_eq!(w.execute(&op), Ok(()), "{op:?}");
        assert_eq!(w.sweep(), Ok(()), "{op:?}");
    }
}

#[test]
fn a_message_sent_with_capabilities_is_received_and_mirrored() {
    let mut w = World::new();
    let send = Op::Send { p: 0, channel: 1, grants: vec![(0, GrantKind::Derive(Rights::READ())), (1, GrantKind::Move)] };
    assert_eq!(w.execute(&send), Ok(()));
    assert_eq!(w.sweep(), Ok(()));
    assert_eq!(w.execute(&Op::Spawn { parent: 0, grants: vec![(0, GrantKind::Transfer)] }), Ok(()));
    assert_eq!(w.process_count(), 2);
    assert_eq!(w.execute(&Op::Receive { p: 1, channel: 1 }), Ok(()));
    assert_eq!(w.sweep(), Ok(()));
    assert_eq!(w.execute(&Op::Receive { p: 1, channel: 1 }), Ok(()));
    assert_eq!(w.sweep(), Ok(()));
}

#[test]
fn a_run_of_no_steps_logs_nothing() {
    let summary = run_chaos(config(7, 0)).unwrap();
    assert_eq!(summary.log_hash, 0xCBF2_9CE4_8422_2325);
    assert_eq!(summary.events, 0);
    assert_eq!(summary.stale_replays_refused, 0);
}
