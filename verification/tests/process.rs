use muaddib::capability::{CapError, Kernel};
use muaddib::process::{
    apply_grants, resolve_grants, Grant, GrantError, Handle, Process, ProcessError, ProcessId,
    Scheduler,
};
use muaddib::rights::Rights;

#[test]
fn a_granted_capability_is_reachable_by_its_handle() {
    let mut k = Kernel::new();
    let cap = k.new_object(Rights::READ());
    let mut p = Process::new(ProcessId(0));
    let handle = p.grant(cap);
    assert_eq!(p.capability(handle), Some(cap));
}

#[test]
fn an_unused_handle_value_is_not_reachable() {
    let p = Process::new(ProcessId(0));
    assert_eq!(p.capability(Handle(0)), None);
}

#[test]
fn take_removes_the_capability_from_the_table() {
    let mut k = Kernel::new();
    let cap = k.new_object(Rights::READ());
    let mut p = Process::new(ProcessId(0));
    let handle = p.grant(cap);
    assert_eq!(p.take(handle), Some(cap));
    assert_eq!(p.capability(handle), None);
    assert_eq!(p.take(handle), None);
}

#[test]
fn a_new_process_has_no_events_and_events_advance_its_clock() {
    let mut p = Process::new(ProcessId(4));
    assert_eq!(p.clock().lamport(), 0);
    let s = p.record_local_event();
    assert_eq!(s.process(), ProcessId(4));
    assert_eq!(s.lamport(), 1);
    assert_eq!(s.vector().get(ProcessId(4)), 1);
    assert_eq!(p.clock(), s);
}

#[test]
fn distinct_grants_get_distinct_handles() {
    let mut k = Kernel::new();
    let mut p = Process::new(ProcessId(0));
    let a = p.grant(k.new_object(Rights::READ()));
    let b = p.grant(k.new_object(Rights::WRITE()));
    assert_ne!(a, b);
    assert_eq!(p.handle_count(), 2);
}

#[test]
fn spawn_grants_exactly_the_initial_capabilities() {
    let mut k = Kernel::new();
    let mut s = Scheduler::new();
    let cap = k.new_object(Rights::READ());
    let id = s.spawn(vec![cap]);
    let proc = s.process(id).unwrap();
    assert_eq!(proc.handle_count(), 1);
}

#[test]
fn a_freshly_spawned_process_holds_nothing_by_default() {
    let mut s = Scheduler::new();
    let id = s.spawn(vec![]);
    assert_eq!(s.process(id).unwrap().handle_count(), 0);
}

#[test]
fn spawn_child_via_transfer_removes_the_capability_from_the_parent() {
    let mut k = Kernel::new();
    let mut s = Scheduler::new();
    let cap = k.new_object(Rights::READ());
    let parent = s.spawn(vec![cap]);
    let handle = s.process(parent).unwrap().handles()[0];

    let child = s
        .spawn_child(&mut k, parent, vec![Grant::Transfer(handle)])
        .unwrap();

    assert_eq!(s.process(parent).unwrap().handle_count(), 0);
    assert_eq!(s.process(parent).unwrap().capability(handle), None);
    assert_eq!(s.process(child).unwrap().handle_count(), 1);
}

#[test]
fn spawn_child_via_derive_leaves_the_parents_own_capability_untouched() {
    let mut k = Kernel::new();
    let mut s = Scheduler::new();
    let cap = k.new_object(Rights::READ() | Rights::WRITE() | Rights::GRANT());
    let parent = s.spawn(vec![cap]);
    let handle = s.process(parent).unwrap().handles()[0];

    let child = s
        .spawn_child(&mut k, parent, vec![Grant::Derive(handle, Rights::READ())])
        .unwrap();

    assert_eq!(s.process(parent).unwrap().capability(handle), Some(cap));
    let child_handle = s.process(child).unwrap().handles()[0];
    let child_cap = s.process(child).unwrap().capability(child_handle).unwrap();
    assert_eq!(child_cap.rights(), Rights::READ());
    assert!(cap.rights().contains(child_cap.rights()));
}

#[test]
fn deriving_more_rights_than_the_parent_holds_is_rejected() {
    let mut k = Kernel::new();
    let mut s = Scheduler::new();
    let cap = k.new_object(Rights::READ() | Rights::GRANT());
    let parent = s.spawn(vec![cap]);
    let handle = s.process(parent).unwrap().handles()[0];

    let result = s.spawn_child(
        &mut k,
        parent,
        vec![Grant::Derive(handle, Rights::READ() | Rights::WRITE())],
    );
    assert!(matches!(
        result,
        Err(ProcessError::Grant(GrantError::Capability(
            CapError::CannotAmplify { .. }
        )))
    ));
    assert_eq!(s.process(parent).unwrap().capability(handle), Some(cap));
}

#[test]
fn an_invalid_grant_leaves_the_parent_completely_unchanged() {
    let mut k = Kernel::new();
    let mut s = Scheduler::new();
    let cap = k.new_object(Rights::READ());
    let parent = s.spawn(vec![cap]);
    let valid_handle = s.process(parent).unwrap().handles()[0];
    let bogus_handle = Handle(9999);

    let result = s.spawn_child(
        &mut k,
        parent,
        vec![Grant::Transfer(valid_handle), Grant::Transfer(bogus_handle)],
    );
    assert_eq!(result, Err(ProcessError::Grant(GrantError::UnknownHandle)));
    assert_eq!(
        s.process(parent).unwrap().capability(valid_handle),
        Some(cap)
    );
    assert_eq!(s.process(parent).unwrap().handle_count(), 1);
}

#[test]
fn schedule_next_cycles_through_every_process_in_order() {
    let mut s = Scheduler::new();
    let a = s.spawn(vec![]);
    let b = s.spawn(vec![]);
    let c = s.spawn(vec![]);
    assert_eq!(s.schedule_next(), Some(a));
    assert_eq!(s.schedule_next(), Some(b));
    assert_eq!(s.schedule_next(), Some(c));
    assert_eq!(s.schedule_next(), Some(a));
}

#[test]
fn spawn_child_of_an_unknown_parent_is_a_typed_error() {
    let mut k = Kernel::new();
    let mut s = Scheduler::new();
    let bogus = ProcessId(999);
    assert_eq!(
        s.spawn_child(&mut k, bogus, vec![]),
        Err(ProcessError::UnknownProcess(bogus))
    );
}

#[test]
fn resolve_grants_never_mutates_the_source() {
    let mut k = Kernel::new();
    let mut p = Process::new(ProcessId(0));
    let cap = k.new_object(Rights::READ());
    let handle = p.grant(cap);

    let resolved = resolve_grants(&k, &p, &[Grant::Transfer(handle)]).unwrap();
    assert_eq!(resolved, vec![cap]);
    assert_eq!(p.capability(handle), Some(cap));
}

#[test]
fn apply_grants_removes_only_the_transfer_variants() {
    let mut k = Kernel::new();
    let mut p = Process::new(ProcessId(0));
    let cap_a = k.new_object(Rights::READ() | Rights::GRANT());
    let cap_b = k.new_object(Rights::WRITE() | Rights::GRANT());
    let handle_a = p.grant(cap_a);
    let handle_b = p.grant(cap_b);

    let grants = [
        Grant::Transfer(handle_a),
        Grant::Derive(handle_b, Rights::WRITE()),
    ];
    let resolved = resolve_grants(&k, &p, &grants).unwrap();
    apply_grants(&mut k, &mut p, &grants, resolved);

    assert_eq!(p.capability(handle_a), None);
    assert_eq!(p.capability(handle_b), Some(cap_b));
}

#[test]
fn transferring_the_same_handle_twice_in_one_batch_is_rejected() {
    let mut k = Kernel::new();
    let mut p = Process::new(ProcessId(0));
    let handle = p.grant(k.new_object(Rights::READ()));

    let result = resolve_grants(&k, &p, &[Grant::Transfer(handle), Grant::Transfer(handle)]);
    assert_eq!(result, Err(GrantError::DuplicateTransfer(handle)));
}

#[test]
fn deriving_twice_from_one_handle_is_still_allowed() {
    let mut k = Kernel::new();
    let mut p = Process::new(ProcessId(0));
    let handle = p.grant(k.new_object(Rights::READ() | Rights::WRITE() | Rights::GRANT()));

    let resolved = resolve_grants(
        &k,
        &p,
        &[
            Grant::Derive(handle, Rights::READ()),
            Grant::Derive(handle, Rights::WRITE()),
        ],
    )
    .unwrap();
    assert_eq!(resolved.len(), 2);
}

#[test]
fn a_move_revokes_every_copy_the_source_kept() {
    let mut k = Kernel::new();
    let mut p = Process::new(ProcessId(0));
    let owner = k.new_object(Rights::ALL());
    let handle = p.grant(owner);
    let stashed = p.capability(handle).unwrap();

    let grants = [Grant::Move(handle)];
    let resolved = resolve_grants(&k, &p, &grants).unwrap();
    assert_eq!(k.check(&stashed, Rights::ALL()), Ok(()));
    let delivered = apply_grants(&mut k, &mut p, &grants, resolved);

    assert_eq!(p.capability(handle), None);
    assert_eq!(delivered.len(), 1);
    assert_eq!(delivered[0].rights(), Rights::ALL());
    assert_eq!(k.check(&delivered[0], Rights::ALL()), Ok(()));
    assert_eq!(
        k.check(&stashed, Rights::NONE()),
        Err(CapError::Revoked(owner.object()))
    );
}

#[test]
fn a_move_without_destroy_is_rejected_and_nothing_changes() {
    let mut k = Kernel::new();
    let mut p = Process::new(ProcessId(0));
    let cap = k.new_object(Rights::READ() | Rights::WRITE());
    let handle = p.grant(cap);

    let result = resolve_grants(&k, &p, &[Grant::Move(handle)]);
    assert!(matches!(
        result,
        Err(GrantError::Capability(CapError::InsufficientRights { .. }))
    ));
    assert_eq!(p.capability(handle), Some(cap));
    assert_eq!(k.check(&cap, Rights::READ() | Rights::WRITE()), Ok(()));
}

#[test]
fn moving_an_object_also_named_elsewhere_in_the_batch_is_rejected() {
    let mut k = Kernel::new();
    let mut p = Process::new(ProcessId(0));
    let owner = k.new_object(Rights::ALL());
    let view = k.derive(&owner, Rights::READ()).unwrap();
    let owner_handle = p.grant(owner);
    let view_handle = p.grant(view);

    for grants in [
        vec![Grant::Move(owner_handle), Grant::Transfer(view_handle)],
        vec![
            Grant::Derive(owner_handle, Rights::READ()),
            Grant::Move(owner_handle),
        ],
    ] {
        assert_eq!(
            resolve_grants(&k, &p, &grants),
            Err(GrantError::MoveConflict(owner.object()))
        );
    }
    assert_eq!(
        resolve_grants(&k, &p, &[Grant::Move(owner_handle), Grant::Move(owner_handle)]),
        Err(GrantError::DuplicateTransfer(owner_handle))
    );
}

#[test]
fn resolve_grants_fails_on_an_unknown_handle_without_touching_the_source() {
    let mut k = Kernel::new();
    let mut p = Process::new(ProcessId(0));
    let cap = k.new_object(Rights::READ());
    let handle = p.grant(cap);
    let bogus = Handle(9999);

    let result = resolve_grants(&k, &p, &[Grant::Transfer(handle), Grant::Transfer(bogus)]);
    assert_eq!(result, Err(GrantError::UnknownHandle));
    assert_eq!(p.capability(handle), Some(cap));
}

#[test]
fn a_transferred_capability_exists_in_exactly_one_process_at_a_time() {
    for chain_length in 1usize..8 {
        let mut k = Kernel::new();
        let mut s = Scheduler::new();
        let cap = k.new_object(Rights::READ() | Rights::EXECUTE());
        let mut current = s.spawn(vec![cap]);
        let mut current_handle = s.process(current).unwrap().handles()[0];
        for _ in 0..chain_length {
            let next = s
                .spawn_child(&mut k, current, vec![Grant::Transfer(current_handle)])
                .unwrap();
            assert_eq!(s.process(current).unwrap().handle_count(), 0);
            assert_eq!(s.process(next).unwrap().handle_count(), 1);
            let next_handle = s.process(next).unwrap().handles()[0];
            assert_eq!(s.process(next).unwrap().capability(next_handle), Some(cap));
            current = next;
            current_handle = next_handle;
        }
    }
}

#[test]
fn a_spawned_child_is_born_after_its_parents_spawn_event() {
    let mut k = Kernel::new();
    let mut s = Scheduler::new();
    let parent = s.spawn(vec![]);
    s.process_mut(parent).unwrap().record_local_event();
    let child = s.spawn_child(&mut k, parent, vec![]).unwrap();
    let spawned_at = s.process(parent).unwrap().clock();
    let birth = s.process(child).unwrap().clock();
    assert_eq!(spawned_at.lamport(), 2);
    assert_eq!(birth.lamport(), 3);
    assert!(spawned_at.happened_before(&birth));
    assert_eq!(s.process_count(), 2);
    // A refused spawn records no event.
    let before = s.process(parent).unwrap().clock();
    assert!(s.spawn_child(&mut k, parent, vec![Grant::Transfer(Handle(3))]).is_err());
    assert_eq!(s.process(parent).unwrap().clock(), before);
}
