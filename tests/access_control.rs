use lifebank::access_control::{AccessControlContract, Role, RoleGrant};
use lifebank::address::Address;

fn addr(n: u32) -> Address {
    Address::new(&format!("GADDRESS{:04}", n))
}

#[test]
fn test_grant_and_has_role() {
    let mut client = AccessControlContract::new();
    let address = addr(1);

    client.grant_role(0, &address, Role::Admin, None);

    assert!(client.has_role(0, &address, Role::Admin));
    assert!(!client.has_role(0, &address, Role::Hospital));
}

#[test]
fn test_revoke_role() {
    let mut client = AccessControlContract::new();
    let address = addr(1);

    client.grant_role(0, &address, Role::Donor, None);
    assert!(client.has_role(0, &address, Role::Donor));

    client.revoke_role(&address, Role::Donor);
    assert!(!client.has_role(0, &address, Role::Donor));
}

#[test]
fn test_multiple_roles_single_entry() {
    let mut client = AccessControlContract::new();
    let address = addr(1);

    client.grant_role(0, &address, Role::Admin, None);
    client.grant_role(0, &address, Role::Hospital, None);
    client.grant_role(0, &address, Role::Donor, None);

    assert!(client.has_role(0, &address, Role::Admin));
    assert!(client.has_role(0, &address, Role::Hospital));
    assert!(client.has_role(0, &address, Role::Donor));

    let roles = client.get_roles(&address);
    assert_eq!(roles.len(), 3);
}

#[test]
fn test_no_duplicate_roles() {
    let mut client = AccessControlContract::new();
    let address = addr(1);

    client.grant_role(0, &address, Role::Admin, None);
    client.grant_role(0, &address, Role::Admin, None);

    let roles = client.get_roles(&address);
    assert_eq!(roles.len(), 1);
    assert_eq!(roles[0].role, Role::Admin);
}

#[test]
fn test_roles_sorted() {
    let mut client = AccessControlContract::new();
    let address = addr(1);

    client.grant_role(0, &address, Role::Rider, None);
    client.grant_role(0, &address, Role::Admin, None);
    client.grant_role(0, &address, Role::Hospital, None);

    let roles = client.get_roles(&address);

    for i in 0..(roles.len() - 1) {
        let current = roles[i];
        let next = roles[i + 1];
        assert!(current.role < next.role);
    }
}

#[test]
fn test_role_expiration() {
    let mut client = AccessControlContract::new();
    let address = addr(1);

    client.grant_role(1000, &address, Role::Donor, Some(2000));

    assert!(client.has_role(1000, &address, Role::Donor));

    assert!(!client.has_role(2001, &address, Role::Donor));

    let roles = client.get_roles(&address);
    assert_eq!(
        roles.len(),
        0,
        "Expired role should be removed via lazy deletion"
    );
}

#[test]
fn test_get_roles_empty() {
    let client = AccessControlContract::new();
    let address = addr(1);

    let roles = client.get_roles(&address);
    assert_eq!(roles.len(), 0);
}

#[test]
fn test_revoke_one_of_multiple_roles() {
    let mut client = AccessControlContract::new();
    let address = addr(1);

    client.grant_role(0, &address, Role::Admin, None);
    client.grant_role(0, &address, Role::Hospital, None);
    client.grant_role(0, &address, Role::Donor, None);

    client.revoke_role(&address, Role::Hospital);

    assert!(client.has_role(0, &address, Role::Admin));
    assert!(!client.has_role(0, &address, Role::Hospital));
    assert!(client.has_role(0, &address, Role::Donor));

    let roles = client.get_roles(&address);
    assert_eq!(roles.len(), 2);
}

#[test]
fn test_storage_benchmark_comparison() {
    let mut client = AccessControlContract::new();

    let addr1 = addr(1);
    let addr2 = addr(2);
    let addr3 = addr(3);
    let addr4 = addr(4);
    let addr5 = addr(5);

    client.grant_role(0, &addr1, Role::Admin, None);
    client.grant_role(0, &addr1, Role::Hospital, None);

    client.grant_role(0, &addr2, Role::Donor, None);
    client.grant_role(0, &addr2, Role::Rider, None);

    client.grant_role(0, &addr3, Role::BloodBank, None);
    client.grant_role(0, &addr3, Role::Admin, None);

    client.grant_role(0, &addr4, Role::Hospital, None);
    client.grant_role(0, &addr4, Role::Donor, None);

    client.grant_role(0, &addr5, Role::Rider, None);
    client.grant_role(0, &addr5, Role::BloodBank, None);

    let mut storage_entry_count = 0;

    if client.get_roles(&addr1).len() > 0 {
        storage_entry_count += 1;
    }
    if client.get_roles(&addr2).len() > 0 {
        storage_entry_count += 1;
    }
    if client.get_roles(&addr3).len() > 0 {
        storage_entry_count += 1;
    }
    if client.get_roles(&addr4).len() > 0 {
        storage_entry_count += 1;
    }
    if client.get_roles(&addr5).len() > 0 {
        storage_entry_count += 1;
    }

    assert_eq!(
        storage_entry_count, 5,
        "Should have exactly 5 storage entries (one per address)"
    );

    assert!(client.has_role(0, &addr1, Role::Admin));
    assert!(client.has_role(0, &addr1, Role::Hospital));
    assert!(client.has_role(0, &addr2, Role::Donor));
    assert!(client.has_role(0, &addr3, Role::BloodBank));
}

#[test]
fn test_role_grant_metadata() {
    let mut client = AccessControlContract::new();
    let address = addr(1);

    client.grant_role(5000, &address, Role::Hospital, Some(10000));

    let roles = client.get_roles(&address);
    assert_eq!(roles.len(), 1);

    let grant = roles[0];
    assert_eq!(grant.role, Role::Hospital);
    assert_eq!(grant.granted_at, 5000);
    assert_eq!(grant.expires_at, Some(10000));
}

#[test]
fn test_lazy_deletion_in_has_role() {
    let mut client = AccessControlContract::new();
    let address = addr(1);

    client.grant_role(1000, &address, Role::Donor, Some(2000));

    let roles_before = client.get_roles(&address);
    assert_eq!(roles_before.len(), 1);

    assert!(!client.has_role(2001, &address, Role::Donor));

    let roles_after = client.get_roles(&address);
    assert_eq!(
        roles_after.len(),
        0,
        "Expired role should be deleted from storage"
    );
}

#[test]
fn test_lazy_deletion_preserves_other_roles() {
    let mut client = AccessControlContract::new();
    let address = addr(1);

    client.grant_role(1000, &address, Role::Donor, Some(2000));
    client.grant_role(1000, &address, Role::Admin, None);

    assert!(!client.has_role(2001, &address, Role::Donor));

    let roles = client.get_roles(&address);
    assert_eq!(roles.len(), 1);
    assert_eq!(roles[0].role, Role::Admin);

    assert!(client.has_role(2001, &address, Role::Admin));
}

#[test]
fn test_cleanup_expired_roles_basic() {
    let mut client = AccessControlContract::new();
    let address = addr(1);

    client.grant_role(1000, &address, Role::Donor, Some(2000));
    client.grant_role(1000, &address, Role::Rider, Some(3000));
    client.grant_role(1000, &address, Role::Hospital, None);

    let removed = client.cleanup_expired_roles(2500, &address);
    assert_eq!(removed, 1, "Should have removed 1 expired role");

    let roles = client.get_roles(&address);
    assert_eq!(roles.len(), 2);

    assert!(!client.has_role(2500, &address, Role::Donor));
    assert!(client.has_role(2500, &address, Role::Rider));
    assert!(client.has_role(2500, &address, Role::Hospital));
}

#[test]
fn test_cleanup_expired_roles_100_roles() {
    let mut client = AccessControlContract::new();
    let address = addr(1);

    let roles = [
        Role::Admin,
        Role::Hospital,
        Role::Donor,
        Role::Rider,
        Role::BloodBank,
    ];

    for i in 0..100 {
        let role = roles[i % 5];
        let expiry = 2000 + (i as u64 * 100);
        client.grant_role(1000, &address, role, Some(expiry));
    }

    let roles_before = client.get_roles(&address);
    assert_eq!(roles_before.len(), 5, "Should have 5 unique roles");

    let removed = client.cleanup_expired_roles(20000, &address);
    assert_eq!(removed, 5, "Should have removed all 5 expired roles");

    let roles_after = client.get_roles(&address);
    assert_eq!(
        roles_after.len(),
        0,
        "Storage should be completely empty after cleanup"
    );

    assert!(!client.has_role(20000, &address, Role::Admin));
    assert!(!client.has_role(20000, &address, Role::Hospital));
    assert!(!client.has_role(20000, &address, Role::Donor));
    assert!(!client.has_role(20000, &address, Role::Rider));
    assert!(!client.has_role(20000, &address, Role::BloodBank));
}

#[test]
fn test_cleanup_expired_roles_removes_all_when_all_expired() {
    let mut client = AccessControlContract::new();
    let address = addr(1);

    client.grant_role(1000, &address, Role::Admin, Some(2000));
    client.grant_role(1000, &address, Role::Hospital, Some(2500));
    client.grant_role(1000, &address, Role::Donor, Some(3000));

    assert_eq!(client.get_roles(&address).len(), 3);

    let removed = client.cleanup_expired_roles(4000, &address);
    assert_eq!(removed, 3);

    let roles = client.get_roles(&address);
    assert_eq!(roles.len(), 0, "All expired roles should be removed");
}

#[test]
fn test_cleanup_expired_roles_no_roles() {
    let mut client = AccessControlContract::new();
    let address = addr(1);

    let removed = client.cleanup_expired_roles(0, &address);
    assert_eq!(removed, 0, "Should return 0 when no roles exist");
}

#[test]
fn test_cleanup_expired_roles_none_expired() {
    let mut client = AccessControlContract::new();
    let address = addr(1);

    client.grant_role(1000, &address, Role::Admin, Some(5000));
    client.grant_role(1000, &address, Role::Hospital, None);

    let removed = client.cleanup_expired_roles(1000, &address);
    assert_eq!(removed, 0, "Should not remove any non-expired roles");

    let roles = client.get_roles(&address);
    assert_eq!(roles.len(), 2);
}

#[test]
fn grant_order_yields_sorted_roles() {
    let mut client = AccessControlContract::new();
    let a = addr(7);
    client.grant_role(0, &a, Role::Rider, None);
    client.grant_role(0, &a, Role::Admin, None);
    client.grant_role(0, &a, Role::Hospital, None);
    let roles: Vec<Role> = client.get_roles(&a).iter().map(|g| g.role).collect();
    assert_eq!(roles, vec![Role::Admin, Role::Hospital, Role::Rider]);
}

#[test]
fn expired_grant_removed_by_has_role() {
    let mut client = AccessControlContract::new();
    let a = addr(8);
    client.grant_role(1000, &a, Role::Donor, Some(2000));
    assert!(!client.has_role(2001, &a, Role::Donor));
    assert_eq!(client.get_roles(&a).len(), 0);
}

#[test]
fn regrant_keeps_single_grant_with_latest_time() {
    let mut client = AccessControlContract::new();
    let a = addr(9);
    client.grant_role(100, &a, Role::Donor, Some(900));
    client.grant_role(300, &a, Role::Donor, None);
    let roles = client.get_roles(&a);
    assert_eq!(
        roles,
        vec![RoleGrant { role: Role::Donor, granted_at: 300, expires_at: None }]
    );
}

#[test]
fn cleanup_twice_removes_nothing_second_time() {
    let mut client = AccessControlContract::new();
    let a = addr(10);
    client.grant_role(1000, &a, Role::Admin, Some(1500));
    client.grant_role(1000, &a, Role::Rider, Some(5000));
    assert_eq!(client.cleanup_expired_roles(2000, &a), 1);
    let after_first = client.get_roles(&a);
    assert_eq!(client.cleanup_expired_roles(2000, &a), 0);
    assert_eq!(client.get_roles(&a), after_first);
}

#[test]
fn expiry_boundary_differs_between_query_and_sweep() {
    let mut client = AccessControlContract::new();
    let a = addr(11);
    client.grant_role(0, &a, Role::Hospital, Some(2000));
    // At the expiry instant the sweep keeps the grant...
    assert_eq!(client.cleanup_expired_roles(2000, &a), 0);
    assert_eq!(client.get_roles(&a).len(), 1);
    // ...while a query no longer honours it.
    assert!(!client.has_role(2000, &a, Role::Hospital));
    assert_eq!(client.get_roles(&a).len(), 0);
}

#[test]
fn has_role_keeps_active_grant_and_other_addresses() {
    let mut client = AccessControlContract::new();
    let a = addr(12);
    let b = addr(13);
    client.grant_role(0, &a, Role::BloodBank, Some(100));
    client.grant_role(0, &b, Role::BloodBank, Some(100));
    assert!(client.has_role(99, &a, Role::BloodBank));
    assert!(!client.has_role(100, &a, Role::BloodBank));
    assert_eq!(client.get_roles(&b).len(), 1);
}

#[test]
fn revoke_missing_role_keeps_others() {
    let mut client = AccessControlContract::new();
    let a = addr(14);
    client.grant_role(0, &a, Role::Admin, None);
    client.revoke_role(&a, Role::Rider);
    assert_eq!(client.get_roles(&a).len(), 1);
}
