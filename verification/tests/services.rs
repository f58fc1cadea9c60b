use rspring::apis::{AuthService, InventoryService, UserService};
use std::sync::Arc;

#[test]
fn the_greeting_is_fixed() {
    let user = UserService::new();
    assert_eq!(user.get_greeting(), "Hello from UserService!");
}

#[test]
fn login_accepts_exactly_the_known_credentials() {
    let auth = AuthService::new(Arc::new(UserService::new()));
    assert!(auth.login("admin", "1234"));
    assert!(!auth.login("admin", "12345"));
    assert!(!auth.login("root", "1234"));
}

#[test]
fn even_items_are_in_stock() {
    let inventory = InventoryService::new();
    assert!(inventory.check_stock(2));
    assert!(!inventory.check_stock(3));
}
