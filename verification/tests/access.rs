//! Grant and revoke behaviour: authorization tiers, events, and storage.

use call_rbac::pallet::Pallet;
use call_rbac::role::Role;
use call_rbac::{Config, Error, Event, Origin};

fn new_pallet() -> Pallet {
    Pallet::new(Config { max_calls: 10 })
}

#[test]
fn tests_grant_access_emits_event() {
    let mut p = new_pallet();
    assert!(p.grant_access(&Origin::Root, 0, 1, Role::Executer).is_ok());
    assert_eq!(p.events().last(), Some(&Event::AccessGranted(0, 1, Role::Executer)));
    assert!(p.grant_access(&Origin::Root, 0, 2, Role::Admin).is_ok());
    assert_eq!(p.events().last(), Some(&Event::AccessGranted(0, 2, Role::Admin)));
}

#[test]
fn tests_revoke_access_emits_event() {
    let mut p = new_pallet();
    assert!(p.grant_access(&Origin::Root, 0, 1, Role::Executer).is_ok());
    assert!(p.revoke_access(&Origin::Root, 0, 1).is_ok());
    assert_eq!(p.events().last(), Some(&Event::AccessRevoked(0, 1, Role::Executer)));
    assert!(p.grant_access(&Origin::Root, 0, 2, Role::Admin).is_ok());
    assert!(p.revoke_access(&Origin::Root, 0, 2).is_ok());
    assert_eq!(p.events().last(), Some(&Event::AccessRevoked(0, 2, Role::Admin)));
}

#[test]
fn tests_cannot_grant_access_if_already_granted() {
    let mut p = new_pallet();
    assert!(p.grant_access(&Origin::Root, 0, 1, Role::Executer).is_ok());
    assert_eq!(
        p.grant_access(&Origin::Root, 0, 1, Role::Admin),
        Err(Error::AlreadyGrantedAccess)
    );
    assert_eq!(
        p.grant_access(&Origin::Root, 0, 1, Role::Executer),
        Err(Error::AlreadyGrantedAccess)
    );
}

#[test]
fn tests_cannot_revoke_access_if_access_not_granted() {
    let mut p = new_pallet();
    assert!(p.grant_access(&Origin::Root, 0, 1, Role::Executer).is_ok());
    assert!(p.revoke_access(&Origin::Root, 0, 1).is_ok());
    assert_eq!(p.revoke_access(&Origin::Root, 0, 1), Err(Error::AccessDNE));
}

#[test]
fn tests_admin_can_grant_executor_access() {
    let mut p = new_pallet();
    assert!(p.grant_access(&Origin::Root, 0, 1, Role::Admin).is_ok());
    assert!(p.grant_access(&Origin::Signed(1), 0, 2, Role::Executer).is_ok());
}

#[test]
fn tests_admin_x_cannot_grant_executor_access_for_y() {
    let mut p = new_pallet();
    assert!(p.grant_access(&Origin::Root, 0, 1, Role::Admin).is_ok());
    assert_eq!(
        p.grant_access(&Origin::Signed(1), 1, 2, Role::Executer),
        Err(Error::AuthorizationRejected)
    );
}

#[test]
fn tests_non_admin_cannot_grant_executor_access() {
    let mut p = new_pallet();
    assert!(p.grant_access(&Origin::Root, 0, 1, Role::Executer).is_ok());
    assert_eq!(
        p.grant_access(&Origin::Signed(1), 0, 2, Role::Executer),
        Err(Error::CallerNotAdmin)
    );
}

#[test]
fn tests_admin_cannot_grant_admin_access() {
    let mut p = new_pallet();
    assert!(p.grant_access(&Origin::Root, 0, 1, Role::Admin).is_ok());
    assert_eq!(
        p.grant_access(&Origin::Signed(1), 0, 2, Role::Admin),
        Err(Error::AdminOnlyGrantsExecuterAccess)
    );
}

#[test]
fn tests_executer_cannot_grant_access() {
    let mut p = new_pallet();
    assert!(p.grant_access(&Origin::Root, 0, 1, Role::Executer).is_ok());
    assert_eq!(
        p.grant_access(&Origin::Signed(1), 0, 2, Role::Admin),
        Err(Error::CallerNotAdmin)
    );
    assert_eq!(
        p.grant_access(&Origin::Signed(1), 0, 2, Role::Executer),
        Err(Error::CallerNotAdmin)
    );
}

#[test]
fn grant_executor_access_updates_storage() {
    let _p = new_pallet();
    assert!(true);
}

#[test]
fn access_grant_access_emits_event() {
    let mut p = new_pallet();
    assert!(p.grant_access(&Origin::Root, 0, 1, Role::Executer).is_ok());
    assert_eq!(p.events().last(), Some(&Event::AccessGranted(0, 1, Role::Executer)));
    assert!(p.grant_access(&Origin::Root, 0, 2, Role::Admin).is_ok());
    assert_eq!(p.events().last(), Some(&Event::AccessGranted(0, 2, Role::Admin)));
}

#[test]
fn access_revoke_access_emits_event() {
    let mut p = new_pallet();
    assert!(p.grant_access(&Origin::Root, 0, 1, Role::Executer).is_ok());
    assert!(p.revoke_access(&Origin::Root, 0, 1).is_ok());
    assert_eq!(p.events().last(), Some(&Event::AccessRevoked(0, 1, Role::Executer)));
    assert!(p.grant_access(&Origin::Root, 0, 2, Role::Admin).is_ok());
    assert!(p.revoke_access(&Origin::Root, 0, 2).is_ok());
    assert_eq!(p.events().last(), Some(&Event::AccessRevoked(0, 2, Role::Admin)));
}

#[test]
fn access_cannot_grant_access_if_already_granted() {
    let mut p = new_pallet();
    assert!(p.grant_access(&Origin::Root, 0, 1, Role::Executer).is_ok());
    assert_eq!(
        p.grant_access(&Origin::Root, 0, 1, Role::Admin),
        Err(Error::AlreadyGrantedAccess)
    );
    assert_eq!(
        p.grant_access(&Origin::Root, 0, 1, Role::Executer),
        Err(Error::AlreadyGrantedAccess)
    );
}

#[test]
fn access_cannot_revoke_access_if_access_not_granted() {
    let mut p = new_pallet();
    assert!(p.grant_access(&Origin::Root, 0, 1, Role::Executer).is_ok());
    assert!(p.revoke_access(&Origin::Root, 0, 1).is_ok());
    assert_eq!(p.revoke_access(&Origin::Root, 0, 1), Err(Error::AccessDNE));
}

#[test]
fn access_admin_can_grant_executor_access() {
    let mut p = new_pallet();
    assert!(p.grant_access(&Origin::Root, 0, 1, Role::Admin).is_ok());
    assert!(p.grant_access(&Origin::Signed(1), 0, 2, Role::Executer).is_ok());
}

#[test]
fn admin_can_revoke_executor_access() {
    let mut p = new_pallet();
    assert!(p.grant_access(&Origin::Root, 0, 1, Role::Admin).is_ok());
    assert!(p.grant_access(&Origin::Signed(1), 0, 2, Role::Executer).is_ok());
    assert!(p.revoke_access(&Origin::Signed(1), 0, 2).is_ok());
}

#[test]
fn access_admin_x_cannot_grant_executor_access_for_y() {
    let mut p = new_pallet();
    assert!(p.grant_access(&Origin::Root, 0, 1, Role::Admin).is_ok());
    assert_eq!(
        p.grant_access(&Origin::Signed(1), 1, 2, Role::Executer),
        Err(Error::AuthorizationRejected)
    );
}

#[test]
fn admin_x_cannot_revoke_access_for_y() {
    let mut p = new_pallet();
    assert!(p.grant_access(&Origin::Root, 0, 1, Role::Admin).is_ok());
    assert!(p.grant_access(&Origin::Root, 1, 2, Role::Admin).is_ok());
    assert!(p.grant_access(&Origin::Root, 1, 3, Role::Executer).is_ok());
    assert_eq!(
        p.revoke_access(&Origin::Signed(1), 1, 2),
        Err(Error::AuthorizationRejected)
    );
    assert_eq!(
        p.revoke_access(&Origin::Signed(1), 1, 3),
        Err(Error::AuthorizationRejected)
    );
}

#[test]
fn access_non_admin_cannot_grant_executor_access() {
    let mut p = new_pallet();
    assert!(p.grant_access(&Origin::Root, 0, 1, Role::Executer).is_ok());
    assert_eq!(
        p.grant_access(&Origin::Signed(1), 0, 2, Role::Executer),
        Err(Error::CallerNotAdmin)
    );
}

#[test]
fn non_admin_cannot_revoke_executor_access() {
    let mut p = new_pallet();
    assert!(p.grant_access(&Origin::Root, 0, 1, Role::Executer).is_ok());
    assert!(p.grant_access(&Origin::Root, 0, 2, Role::Executer).is_ok());
    assert_eq!(
        p.revoke_access(&Origin::Signed(1), 0, 2),
        Err(Error::CallerNotAdmin)
    );
}

#[test]
fn access_admin_cannot_grant_admin_access() {
    let mut p = new_pallet();
    assert!(p.grant_access(&Origin::Root, 0, 1, Role::Admin).is_ok());
    assert_eq!(
        p.grant_access(&Origin::Signed(1), 0, 2, Role::Admin),
        Err(Error::AdminOnlyGrantsExecuterAccess)
    );
}

#[test]
fn admin_cannot_revoke_admin_access() {
    let mut p = new_pallet();
    assert!(p.grant_access(&Origin::Root, 0, 1, Role::Admin).is_ok());
    assert!(p.grant_access(&Origin::Root, 0, 2, Role::Admin).is_ok());
    assert_eq!(
        p.revoke_access(&Origin::Signed(1), 0, 2),
        Err(Error::AdminOnlyRevokesExecuterAccess)
    );
}

#[test]
fn access_executer_cannot_grant_access() {
    let mut p = new_pallet();
    assert!(p.grant_access(&Origin::Root, 0, 1, Role::Executer).is_ok());
    assert_eq!(
        p.grant_access(&Origin::Signed(1), 0, 2, Role::Admin),
        Err(Error::CallerNotAdmin)
    );
    assert_eq!(
        p.grant_access(&Origin::Signed(1), 0, 2, Role::Executer),
        Err(Error::CallerNotAdmin)
    );
}

#[test]
fn executer_cannot_revoke_access() {
    let mut p = new_pallet();
    assert!(p.grant_access(&Origin::Root, 0, 1, Role::Executer).is_ok());
    assert!(p.grant_access(&Origin::Root, 0, 2, Role::Executer).is_ok());
    assert!(p.grant_access(&Origin::Root, 0, 3, Role::Admin).is_ok());
    assert_eq!(
        p.revoke_access(&Origin::Signed(1), 0, 2),
        Err(Error::CallerNotAdmin)
    );
    assert_eq!(
        p.revoke_access(&Origin::Signed(1), 0, 3),
        Err(Error::CallerNotAdmin)
    );
}

#[test]
fn grant_access_updates_storage() {
    let mut p = new_pallet();
    assert!(p.grant_access(&Origin::Root, 0, 1, Role::Executer).is_ok());
    assert!(p.grant_access(&Origin::Root, 0, 2, Role::Admin).is_ok());
    assert_eq!(p.role_of(0, 1).unwrap(), Role::Executer);
    assert!(p.role_of(1, 1).is_none());
    assert_eq!(p.role_of(0, 2).unwrap(), Role::Admin);
    // executor has call permissions
    assert!(p.has_permission(1, 0));
    // executor only has call permissions for group 0
    assert!(!p.has_permission(1, 1));
    // admin does not have call permissions
    assert!(!p.has_permission(2, 0));
}

#[test]
fn revoke_access_updates_storage() {
    let mut p = new_pallet();
    assert!(p.grant_access(&Origin::Root, 0, 1, Role::Executer).is_ok());
    assert!(p.grant_access(&Origin::Root, 0, 2, Role::Admin).is_ok());
    assert!(p.revoke_access(&Origin::Root, 0, 1).is_ok());
    assert!(p.revoke_access(&Origin::Root, 0, 2).is_ok());
    assert!(p.role_of(1, 0).is_none());
    assert!(p.role_of(2, 0).is_none());
    assert!(!p.has_permission(1, 0));
}
