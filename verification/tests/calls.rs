//! Registry updates and the validate-then-execute protocol.

use call_rbac::pallet::Pallet;
use call_rbac::role::Role;
use call_rbac::{CallOrigin, Config, Dispatcher, Error, Event, Origin};

fn new_pallet() -> Pallet {
    Pallet::new(Config { max_calls: 10 })
}

/// The canonical encoding of a transfer of `value` to `dest`, drawn from the
/// issuing account's balance.
fn call_transfer(dest: u64, value: u64) -> Vec<u8> {
    let mut v = vec![4u8, 0u8];
    v.extend_from_slice(&dest.to_le_bytes());
    v.extend_from_slice(&value.to_le_bytes());
    v
}

/// A stand-in execution collaborator: a balance ledger that understands the
/// transfer encoding above and debits the impersonated origin.
struct Balances {
    accounts: Vec<(u64, u64)>,
}

impl Balances {
    fn new() -> Balances {
        Balances { accounts: vec![(1, 10), (2, 10)] }
    }

    fn free_balance(&self, who: u64) -> u64 {
        for (a, b) in &self.accounts {
            if *a == who {
                return *b;
            }
        }
        0
    }

    fn set_balance(&mut self, who: u64, new: u64) {
        for entry in &mut self.accounts {
            if entry.0 == who {
                entry.1 = new;
                return;
            }
        }
        self.accounts.push((who, new));
    }
}

impl Dispatcher for Balances {
    fn dispatch(&mut self, call: &Vec<u8>, origin: u64) -> Result<(), Error> {
        assert_eq!(call.len(), 18);
        assert_eq!(call[0], 4);
        assert_eq!(call[1], 0);
        let mut dest_bytes = [0u8; 8];
        dest_bytes.copy_from_slice(&call[2..10]);
        let mut value_bytes = [0u8; 8];
        value_bytes.copy_from_slice(&call[10..18]);
        let dest = u64::from_le_bytes(dest_bytes);
        let value = u64::from_le_bytes(value_bytes);
        let from = self.free_balance(origin);
        let to = self.free_balance(dest);
        self.set_balance(origin, from - value);
        self.set_balance(dest, to + value);
        Ok(())
    }
}

#[test]
fn set_calls_emits_event() {
    let mut p = new_pallet();
    assert!(p.set_calls(&Origin::Root, 0, vec![]).is_ok());
    assert_eq!(p.events().last(), Some(&Event::CallsUpdated(0)));
    assert!(p.set_calls(&Origin::Root, 1, vec![]).is_ok());
    assert_eq!(p.events().last(), Some(&Event::CallsUpdated(1)));
}

#[test]
fn set_call_only_for_super_user_origin() {
    let mut p = new_pallet();
    assert!(
        p.set_calls(
            &Origin::Root,
            0,
            vec![CallOrigin { call: call_transfer(2, 3), origin: 1 }]
        )
        .is_ok()
    );
    assert_eq!(
        p.set_calls(&Origin::Signed(1), 0, vec![]),
        Err(Error::AuthorizationRejected)
    );
}

#[test]
fn set_calls_updates_storage() {
    let mut p = new_pallet();
    assert!(
        p.set_calls(
            &Origin::Root,
            0,
            vec![CallOrigin { call: call_transfer(2, 3), origin: 1 }]
        )
        .is_ok()
    );
    assert_eq!(p.call_origin_of(0, &call_transfer(2, 3)), Some(1));
    assert!(p.set_calls(&Origin::Root, 0, vec![]).is_ok());
    assert_eq!(p.call_origin_of(0, &call_transfer(2, 3)), None);
}

#[test]
fn execute_call_works_for_executor_not_admin() {
    let mut p = new_pallet();
    let mut balances = Balances::new();
    assert!(
        p.set_calls(
            &Origin::Root,
            0,
            vec![CallOrigin { call: call_transfer(2, 3), origin: 1 }]
        )
        .is_ok()
    );
    assert!(p.grant_access(&Origin::Root, 0, 1, Role::Admin).is_ok());
    assert!(p.grant_access(&Origin::Signed(1), 0, 2, Role::Executer).is_ok());
    assert_eq!(
        p.execute_call(&mut balances, &Origin::Signed(1), &call_transfer(2, 3)),
        Err(Error::CallNotPermitted)
    );
    assert_eq!(balances.free_balance(1), 10);
    assert_eq!(balances.free_balance(2), 10);
    assert!(p.execute_call(&mut balances, &Origin::Signed(2), &call_transfer(2, 3)).is_ok());
    assert_eq!(balances.free_balance(1), 7);
    assert_eq!(balances.free_balance(2), 13);
}
