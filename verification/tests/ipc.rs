use muaddib::capability::{CapError, Kernel};
use muaddib::ipc::{ChannelRegistry, IpcError};
use muaddib::process::{Grant, GrantError, Scheduler};
use muaddib::rights::Rights;

#[test]
fn sending_then_receiving_delivers_the_data() {
    let mut k = Kernel::new();
    let mut reg = ChannelRegistry::new();
    let mut sched = Scheduler::new();

    let sender_id = sched.spawn(vec![]);
    let receiver_id = sched.spawn(vec![]);
    let channel = reg.new_channel(&mut k);

    {
        let sender = sched.process_mut(sender_id).unwrap();
        reg.send(&mut k, &channel, sender, vec![], 42).unwrap();
    }
    let receiver = sched.process_mut(receiver_id).unwrap();
    assert_eq!(reg.receive(&k, &channel, receiver).unwrap().map(|d| d.data), Some(42));
    assert_eq!(reg.receive(&k, &channel, receiver).unwrap().map(|d| d.data), None); // drained
}

#[test]
fn sending_without_write_rights_is_rejected() {
    let mut k = Kernel::new();
    let mut reg = ChannelRegistry::new();
    let mut sched = Scheduler::new();
    let sender_id = sched.spawn(vec![]);
    let full = reg.new_channel(&mut k);
    let read_only = k.derive(&full, Rights::READ()).unwrap();

    let sender = sched.process_mut(sender_id).unwrap();
    let result = reg.send(&mut k, &read_only, sender, vec![], 1);
    assert!(matches!(
        result,
        Err(IpcError::Capability(CapError::InsufficientRights { .. }))
    ));
}

#[test]
fn a_transferred_capability_reaches_the_receivers_table() {
    let mut k = Kernel::new();
    let mut reg = ChannelRegistry::new();
    let mut sched = Scheduler::new();

    let payload_cap = k.new_object(Rights::READ() | Rights::WRITE());
    let sender_id = sched.spawn(vec![payload_cap]);
    let receiver_id = sched.spawn(vec![]);
    let channel = reg.new_channel(&mut k);

    let payload_handle = sched.process(sender_id).unwrap().handles()[0];
    {
        let sender = sched.process_mut(sender_id).unwrap();
        reg.send(&mut k, &channel, sender, vec![Grant::Transfer(payload_handle)], 0)
            .unwrap();
        // Gone from the sender the instant send() returns.
        assert_eq!(sender.capability(payload_handle), None);
    }

    let receiver = sched.process_mut(receiver_id).unwrap();
    assert_eq!(receiver.handle_count(), 0);
    reg.receive(&k, &channel, receiver).unwrap();
    assert_eq!(receiver.handle_count(), 1);
    let received_handle = receiver.handles()[0];
    assert_eq!(receiver.capability(received_handle), Some(payload_cap));
}

#[test]
fn a_derived_capability_leaves_the_senders_own_copy_untouched() {
    let mut k = Kernel::new();
    let mut reg = ChannelRegistry::new();
    let mut sched = Scheduler::new();

    let payload_cap = k.new_object(Rights::READ() | Rights::WRITE() | Rights::GRANT());
    let sender_id = sched.spawn(vec![payload_cap]);
    let receiver_id = sched.spawn(vec![]);
    let channel = reg.new_channel(&mut k);
    let payload_handle = sched.process(sender_id).unwrap().handles()[0];

    {
        let sender = sched.process_mut(sender_id).unwrap();
        reg.send(
            &mut k,
            &channel,
            sender,
            vec![Grant::Derive(payload_handle, Rights::READ())],
            0,
        )
        .unwrap();
        assert_eq!(sender.capability(payload_handle), Some(payload_cap));
    }

    let receiver = sched.process_mut(receiver_id).unwrap();
    reg.receive(&k, &channel, receiver).unwrap();
    let received_handle = receiver.handles()[0];
    let received = receiver.capability(received_handle).unwrap();
    assert_eq!(received.rights(), Rights::READ());
    assert!(payload_cap.rights().contains(received.rights()));
}

#[test]
fn an_in_flight_capability_exists_in_no_process_table() {
    let mut k = Kernel::new();
    let mut reg = ChannelRegistry::new();
    let mut sched = Scheduler::new();

    let payload_cap = k.new_object(Rights::READ());
    let sender_id = sched.spawn(vec![payload_cap]);
    let receiver_id = sched.spawn(vec![]);
    let channel = reg.new_channel(&mut k);
    let payload_handle = sched.process(sender_id).unwrap().handles()[0];

    {
        let sender = sched.process_mut(sender_id).unwrap();
        reg.send(&mut k, &channel, sender, vec![Grant::Transfer(payload_handle)], 0)
            .unwrap();
    }

    // Not received yet: neither process holds it anywhere.
    assert_eq!(sched.process(sender_id).unwrap().handle_count(), 0);
    assert_eq!(sched.process(receiver_id).unwrap().handle_count(), 0);
    assert_eq!(reg.queue_len(&channel), Some(1));
}

#[test]
fn sending_more_rights_than_the_sender_holds_is_rejected_and_nothing_moves() {
    let mut k = Kernel::new();
    let mut reg = ChannelRegistry::new();
    let mut sched = Scheduler::new();

    let payload_cap = k.new_object(Rights::READ() | Rights::GRANT());
    let sender_id = sched.spawn(vec![payload_cap]);
    let channel = reg.new_channel(&mut k);
    let payload_handle = sched.process(sender_id).unwrap().handles()[0];

    let sender = sched.process_mut(sender_id).unwrap();
    let result = reg.send(
        &mut k,
        &channel,
        sender,
        vec![Grant::Derive(payload_handle, Rights::READ() | Rights::WRITE())],
        0,
    );
    assert!(matches!(
        result,
        Err(IpcError::Grant(GrantError::Capability(
            CapError::CannotAmplify { .. }
        )))
    ));
    assert_eq!(sender.capability(payload_handle), Some(payload_cap));
    assert_eq!(reg.queue_len(&channel), Some(0));
}

#[test]
fn receiving_on_an_unknown_channel_is_a_typed_error() {
    let mut k = Kernel::new();
    let mut reg = ChannelRegistry::new();
    let mut sched = Scheduler::new();
    let receiver_id = sched.spawn(vec![]);
    let bogus = k.new_object(Rights::READ()); // never registered as a channel
    let receiver = sched.process_mut(receiver_id).unwrap();
    assert_eq!(
        reg.receive(&k, &bogus, receiver),
        Err(IpcError::UnknownChannel(bogus.object()))
    );
}
