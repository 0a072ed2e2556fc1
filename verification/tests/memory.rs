use muaddib::capability::{CapError, Kernel};
use muaddib::ipc::ChannelRegistry;
use muaddib::memory::{MemoryError, RegionRegistry};
use muaddib::process::{Grant, Scheduler};
use muaddib::rights::Rights;

#[test]
fn a_new_region_is_zero_filled_and_the_right_size() {
    let mut k = Kernel::new();
    let mut mem = RegionRegistry::new();
    let cap = mem.new_region(&mut k, 16);
    assert_eq!(mem.size(&k, &cap), Ok(16));
    assert_eq!(mem.read(&k, &cap, 0, 16), Ok(vec![0; 16]));
}

#[test]
fn written_bytes_read_back() {
    let mut k = Kernel::new();
    let mut mem = RegionRegistry::new();
    let cap = mem.new_region(&mut k, 8);
    mem.write(&k, &cap, 2, &[1, 2, 3]).unwrap();
    assert_eq!(mem.read(&k, &cap, 0, 8), Ok(vec![0, 0, 1, 2, 3, 0, 0, 0]));
}

#[test]
fn a_read_only_view_can_read_but_not_write() {
    let mut k = Kernel::new();
    let mut mem = RegionRegistry::new();
    let owner = mem.new_region(&mut k, 4);
    mem.write(&k, &owner, 0, &[9, 9, 9, 9]).unwrap();
    let view = k.derive(&owner, Rights::READ()).unwrap();

    assert_eq!(mem.read(&k, &view, 0, 4), Ok(vec![9; 4]));
    assert!(matches!(
        mem.write(&k, &view, 0, &[0]),
        Err(MemoryError::Capability(CapError::InsufficientRights { .. }))
    ));
    assert_eq!(mem.read(&k, &owner, 0, 4), Ok(vec![9; 4]));
}

#[test]
fn an_out_of_bounds_write_changes_nothing() {
    let mut k = Kernel::new();
    let mut mem = RegionRegistry::new();
    let cap = mem.new_region(&mut k, 4);
    assert_eq!(
        mem.write(&k, &cap, 2, &[7, 7, 7]),
        Err(MemoryError::OutOfBounds {
            object: cap.object(),
            offset: 2,
            len: 3,
            size: 4,
        })
    );
    assert_eq!(mem.read(&k, &cap, 0, 4), Ok(vec![0; 4]));
}

#[test]
fn an_offset_overflowing_usize_is_out_of_bounds_not_a_panic() {
    let mut k = Kernel::new();
    let mut mem = RegionRegistry::new();
    let cap = mem.new_region(&mut k, 4);
    assert!(matches!(
        mem.read(&k, &cap, usize::MAX, 2),
        Err(MemoryError::OutOfBounds { .. })
    ));
}

#[test]
fn authority_is_checked_before_bounds() {
    let mut k = Kernel::new();
    let mut mem = RegionRegistry::new();
    let owner = mem.new_region(&mut k, 4);
    let none = k.derive(&owner, Rights::NONE()).unwrap();
    // Out of bounds *and* unauthorized: the rights error wins.
    assert!(matches!(
        mem.read(&k, &none, 100, 1),
        Err(MemoryError::Capability(_))
    ));
}

#[test]
fn a_capability_for_a_non_region_object_is_rejected() {
    let mut k = Kernel::new();
    let mem = RegionRegistry::new();
    let mut channels = ChannelRegistry::new();
    let channel = channels.new_channel(&mut k);
    assert_eq!(
        mem.read(&k, &channel, 0, 0),
        Err(MemoryError::UnknownRegion(channel.object()))
    );
}

#[test]
fn destroy_region_frees_it_and_every_capability_fails_with_unknown_object() {
    let mut k = Kernel::new();
    let mut mem = RegionRegistry::new();
    let owner = mem.new_region(&mut k, 4);
    let view = k.derive(&owner, Rights::READ()).unwrap();

    assert!(mem.destroy_region(&mut k, &view).is_err()); // no DESTROY
    mem.destroy_region(&mut k, &owner).unwrap();

    assert_eq!(mem.region_count(), 0);
    assert_eq!(
        mem.read(&k, &view, 0, 1),
        Err(MemoryError::Capability(CapError::UnknownObject(
            owner.object()
        )))
    );
}

#[test]
fn destroy_region_on_a_non_region_object_destroys_nothing() {
    let mut k = Kernel::new();
    let mut mem = RegionRegistry::new();
    let other = k.new_object(Rights::ALL());
    assert_eq!(
        mem.destroy_region(&mut k, &other),
        Err(MemoryError::UnknownRegion(other.object()))
    );
    assert!(k.object_exists(other.object()));
}

#[test]
fn reclaim_drops_regions_destroyed_directly_through_the_kernel() {
    let mut k = Kernel::new();
    let mut mem = RegionRegistry::new();
    let kept = mem.new_region(&mut k, 4);
    let leaked = mem.new_region(&mut k, 4);
    k.destroy_object(&leaked).unwrap();

    assert_eq!(mem.region_count(), 2);
    assert_eq!(mem.reclaim(&k), 1);
    assert_eq!(mem.region_count(), 1);
    assert_eq!(mem.size(&k, &kept), Ok(4));
}

#[test]
fn after_a_move_over_ipc_the_old_owners_kept_copy_cannot_read_or_write() {
    let mut k = Kernel::new();
    let mut mem = RegionRegistry::new();
    let mut channels = ChannelRegistry::new();
    let mut sched = Scheduler::new();

    let region = mem.new_region(&mut k, 4);
    mem.write(&k, &region, 0, b"mine").unwrap();
    let a = sched.spawn(vec![region]);
    let b = sched.spawn(vec![]);
    let channel = channels.new_channel(&mut k);
    let handle = sched.process(a).unwrap().handles()[0];
    let kept_by_a = sched.process(a).unwrap().capability(handle).unwrap();

    channels
        .send(
            &mut k,
            &channel,
            sched.process_mut(a).unwrap(),
            vec![Grant::Move(handle)],
            0,
        )
        .unwrap();
    channels
        .receive(&k, &channel, sched.process_mut(b).unwrap())
        .unwrap();
    let b_proc = sched.process(b).unwrap();
    let b_cap = b_proc.capability(b_proc.handles()[0]).unwrap();

    let revoked = Err(MemoryError::Capability(CapError::Revoked(region.object())));
    assert_eq!(mem.read(&k, &kept_by_a, 0, 4), revoked);
    assert_eq!(mem.write(&k, &kept_by_a, 0, b"back"), revoked.map(|_| ()));
    assert_eq!(
        mem.destroy_region(&mut k, &kept_by_a),
        Err(MemoryError::Capability(CapError::Revoked(region.object())))
    );
    // The data moved with the ownership, untouched.
    assert_eq!(mem.read(&k, &b_cap, 0, 4), Ok(b"mine".to_vec()));
    mem.write(&k, &b_cap, 0, b"ours").unwrap();
}

#[test]
fn a_plain_transfer_is_not_enough_which_is_why_move_exists() {
    let mut k = Kernel::new();
    let mut mem = RegionRegistry::new();
    let mut sched = Scheduler::new();

    let region = mem.new_region(&mut k, 1);
    let a = sched.spawn(vec![region]);
    let handle = sched.process(a).unwrap().handles()[0];
    let kept_by_a = sched.process(a).unwrap().capability(handle).unwrap();
    sched
        .spawn_child(&mut k, a, vec![Grant::Transfer(handle)])
        .unwrap();

    // Transfer removed the table entry, but the kept copy still works:
    // not kernel-enforced ownership.
    assert_eq!(mem.write(&k, &kept_by_a, 0, &[1]), Ok(()));
}

#[test]
fn inspect_hands_the_whole_region_to_the_reader() {
    let mut k = Kernel::new();
    let mut mem = RegionRegistry::new();
    let cap = mem.new_region(&mut k, 3);
    mem.write(&k, &cap, 0, &[1, 2, 3]).unwrap();
    assert_eq!(mem.inspect(&k, &cap, |b: &[u8]| b.to_vec()), Ok(vec![1, 2, 3]));
    let none = k.derive(&cap, Rights::NONE()).unwrap();
    assert!(matches!(
        mem.inspect(&k, &none, |b: &[u8]| b.len()),
        Err(MemoryError::Capability(CapError::InsufficientRights { .. }))
    ));
}
