use muaddib::capability::{CapError, Kernel};
use muaddib::rights::Rights;

#[test]
fn a_fresh_capability_passes_check_for_rights_it_holds() {
    let mut k = Kernel::new();
    let cap = k.new_object(Rights::READ() | Rights::WRITE());
    assert_eq!(k.check(&cap, Rights::READ()), Ok(()));
    assert_eq!(k.check(&cap, Rights::READ() | Rights::WRITE()), Ok(()));
}

#[test]
fn check_fails_for_rights_not_held() {
    let mut k = Kernel::new();
    let cap = k.new_object(Rights::READ());
    assert_eq!(
        k.check(&cap, Rights::WRITE()),
        Err(CapError::InsufficientRights {
            object: cap.object(),
            held: Rights::READ(),
            required: Rights::WRITE(),
        })
    );
}

#[test]
fn checking_a_capability_for_an_unknown_object_fails_distinctly() {
    let k1 = Kernel::new();
    let mut k2 = Kernel::new();
    let cap_from_other_kernel = k2.new_object(Rights::READ());
    assert_eq!(
        k1.check(&cap_from_other_kernel, Rights::READ()),
        Err(CapError::UnknownObject(cap_from_other_kernel.object()))
    );
}

#[test]
fn revoke_invalidates_every_capability_for_that_object() {
    let mut k = Kernel::new();
    let cap = k.new_object(Rights::READ() | Rights::DESTROY());
    let cap_copy = cap;
    k.revoke(&cap).unwrap();
    assert_eq!(
        k.check(&cap, Rights::READ()),
        Err(CapError::Revoked(cap.object()))
    );
    assert_eq!(
        k.check(&cap_copy, Rights::READ()),
        Err(CapError::Revoked(cap.object()))
    );
}

#[test]
fn revoke_does_not_affect_other_objects() {
    let mut k = Kernel::new();
    let cap_a = k.new_object(Rights::READ() | Rights::DESTROY());
    let cap_b = k.new_object(Rights::READ());
    k.revoke(&cap_a).unwrap();
    assert_eq!(k.check(&cap_b, Rights::READ()), Ok(()));
}

#[test]
fn derive_produces_a_capability_with_exactly_the_requested_subset() {
    let mut k = Kernel::new();
    let cap = k.new_object(Rights::READ() | Rights::WRITE() | Rights::GRANT());
    let derived = k.derive(&cap, Rights::READ()).unwrap();
    assert_eq!(derived.rights(), Rights::READ());
    assert_eq!(derived.object(), cap.object());
}

#[test]
fn derive_without_grant_is_rejected() {
    let mut k = Kernel::new();
    let cap = k.new_object(Rights::READ() | Rights::WRITE());
    assert_eq!(
        k.derive(&cap, Rights::READ()),
        Err(CapError::InsufficientRights {
            object: cap.object(),
            held: Rights::READ() | Rights::WRITE(),
            required: Rights::GRANT(),
        })
    );
}

#[test]
fn derive_cannot_amplify_rights() {
    let mut k = Kernel::new();
    let cap = k.new_object(Rights::READ() | Rights::GRANT());
    assert_eq!(
        k.derive(&cap, Rights::READ() | Rights::WRITE()),
        Err(CapError::CannotAmplify {
            object: cap.object(),
            held: Rights::READ() | Rights::GRANT(),
            requested: Rights::READ() | Rights::WRITE(),
        })
    );
}

#[test]
fn derive_from_a_revoked_capability_fails() {
    let mut k = Kernel::new();
    let cap = k.new_object(Rights::READ() | Rights::GRANT() | Rights::DESTROY());
    k.revoke(&cap).unwrap();
    assert_eq!(
        k.derive(&cap, Rights::READ()),
        Err(CapError::Revoked(cap.object()))
    );
}

#[test]
fn revoke_requires_destroy_right() {
    let mut k = Kernel::new();
    let cap = k.new_object(Rights::READ() | Rights::GRANT());
    assert_eq!(
        k.revoke(&cap),
        Err(CapError::InsufficientRights {
            object: cap.object(),
            held: Rights::READ() | Rights::GRANT(),
            required: Rights::DESTROY(),
        })
    );
    assert_eq!(k.check(&cap, Rights::READ()), Ok(()));
}

#[test]
fn a_weaker_derived_view_cannot_revoke_its_owner() {
    let mut k = Kernel::new();
    let owner = k.new_object(Rights::ALL());
    let view = k.derive(&owner, Rights::READ()).unwrap();
    assert!(k.revoke(&view).is_err());
    assert_eq!(k.check(&owner, Rights::ALL()), Ok(()));
}

#[test]
fn a_revoked_capability_cannot_revoke_again() {
    let mut k = Kernel::new();
    let old = k.new_object(Rights::ALL());
    k.revoke(&old).unwrap();
    assert_eq!(k.revoke(&old), Err(CapError::Revoked(old.object())));
}

#[test]
fn destroy_requires_destroy_right() {
    let mut k = Kernel::new();
    let cap = k.new_object(Rights::READ());
    assert_eq!(
        k.destroy_object(&cap),
        Err(CapError::InsufficientRights {
            object: cap.object(),
            held: Rights::READ(),
            required: Rights::DESTROY(),
        })
    );
}

#[test]
fn destroy_makes_every_capability_fail_with_unknown_object_not_revoked() {
    let mut k = Kernel::new();
    let cap = k.new_object(Rights::DESTROY() | Rights::READ());
    let cap_copy = cap;
    k.destroy_object(&cap).unwrap();
    assert_eq!(
        k.check(&cap, Rights::READ()),
        Err(CapError::UnknownObject(cap.object()))
    );
    assert_eq!(
        k.check(&cap_copy, Rights::READ()),
        Err(CapError::UnknownObject(cap.object()))
    );
}

#[test]
fn distinct_objects_get_distinct_ids() {
    let mut k = Kernel::new();
    let a = k.new_object(Rights::NONE());
    let b = k.new_object(Rights::NONE());
    assert_ne!(a.object(), b.object());
}

#[test]
fn contains_checks_every_required_bit() {
    let rw = Rights::READ() | Rights::WRITE();
    assert!(rw.contains(Rights::READ()));
    assert!(rw.contains(Rights::WRITE()));
    assert!(rw.contains(Rights::READ() | Rights::WRITE()));
    assert!(!rw.contains(Rights::EXECUTE()));
    assert!(!rw.contains(Rights::READ() | Rights::EXECUTE()));
}

#[test]
fn none_contains_nothing_but_none() {
    assert!(Rights::NONE().contains(Rights::NONE()));
    assert!(!Rights::NONE().contains(Rights::READ()));
}

#[test]
fn all_contains_everything() {
    for r in [
        Rights::READ(),
        Rights::WRITE(),
        Rights::EXECUTE(),
        Rights::GRANT(),
        Rights::DESTROY(),
    ] {
        assert!(Rights::ALL().contains(r));
    }
}

#[test]
fn display_lists_held_rights() {
    assert_eq!((Rights::READ() | Rights::GRANT()).to_string(), "READ|GRANT");
    assert_eq!(Rights::NONE().to_string(), "NONE");
}

// Every combination of the five rights bits.
fn every_rights() -> Vec<Rights> {
    let bits = [
        Rights::READ(),
        Rights::WRITE(),
        Rights::EXECUTE(),
        Rights::GRANT(),
        Rights::DESTROY(),
    ];
    (0u32..32)
        .map(|mask| {
            bits.iter()
                .enumerate()
                .filter(|(i, _)| mask & (1 << i) != 0)
                .fold(Rights::NONE(), |acc, (_, r)| acc | *r)
        })
        .collect()
}

#[test]
fn revocation_invalidates_every_outstanding_capability_for_every_rights_combination() {
    for created in every_rights() {
        for required in every_rights() {
            let mut k = Kernel::new();
            let cap = k.new_object(created | Rights::DESTROY());
            let was_valid = k.check(&cap, required).is_ok();
            k.revoke(&cap).unwrap();
            let result = k.check(&cap, required);
            if was_valid {
                assert_eq!(result, Err(CapError::Revoked(cap.object())));
            } else {
                assert!(result.is_err());
            }
        }
    }
}

#[test]
fn derivation_never_amplifies_for_every_rights_combination() {
    for held in every_rights() {
        for requested in every_rights() {
            let mut k = Kernel::new();
            let cap = k.new_object(held | Rights::GRANT());
            match k.derive(&cap, requested) {
                Ok(derived) => {
                    assert_eq!(derived.rights(), requested);
                    assert!(cap.rights().contains(derived.rights()));
                }
                Err(CapError::CannotAmplify { .. }) => {
                    assert!(!cap.rights().contains(requested));
                }
                Err(other) => panic!("unexpected error: {other:?}"),
            }
        }
    }
}

#[test]
fn attenuation_composes_across_two_derivations() {
    let all = every_rights();
    for original in all.iter().step_by(3) {
        for first_step in &all {
            for second_step in all.iter().step_by(5) {
                let mut k = Kernel::new();
                let root = k.new_object(*original | Rights::GRANT());
                let Ok(first) = k.derive(&root, *first_step) else { continue };
                let Ok(second) = k.derive(&first, *second_step) else { continue };
                assert!(root.rights().contains(second.rights()));
                assert!(first.rights().contains(second.rights()));
            }
        }
    }
}

#[test]
fn reissue_leaves_only_the_fresh_capability_live() {
    let mut k = Kernel::new();
    let owner = k.new_object(Rights::ALL());
    let view = k.derive(&owner, Rights::READ()).unwrap();
    let fresh = k.reissue(&owner).unwrap();
    assert_eq!(fresh.rights(), Rights::ALL());
    assert_eq!(fresh.object(), owner.object());
    assert_eq!(k.check(&fresh, Rights::ALL()), Ok(()));
    assert_eq!(k.check(&owner, Rights::NONE()), Err(CapError::Revoked(owner.object())));
    assert_eq!(k.check(&view, Rights::NONE()), Err(CapError::Revoked(owner.object())));
    // The stale owner can no longer reissue or revoke.
    assert_eq!(k.reissue(&owner), Err(CapError::Revoked(owner.object())));
    assert!(k.object_exists(owner.object()));
}

#[test]
fn rights_text_lists_every_bit_in_order() {
    assert_eq!(Rights::ALL().to_string(), "READ|WRITE|EXECUTE|GRANT|DESTROY");
    assert_eq!(Rights::DESTROY().to_string(), "DESTROY");
    assert!((Rights::READ() & Rights::WRITE()).is_empty());
    assert_eq!((Rights::ALL() & Rights::WRITE()), Rights::WRITE());
}
