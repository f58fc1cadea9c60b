//! The example component graph: four services and three controllers wired
//! together by constructor injection, each with an explicit identity under
//! which its descriptor is registered.

use std::sync::Arc;
use vstd::prelude::*;

verus! {

/// Identity of `UserService`.
pub const USER_SERVICE_ID: u64 = 1;

/// Identity of `AuthService`.
pub const AUTH_SERVICE_ID: u64 = 2;

/// Identity of `InventoryService`.
pub const INVENTORY_SERVICE_ID: u64 = 3;

/// Identity of `OrderService`.
pub const ORDER_SERVICE_ID: u64 = 4;

/// Identity of `ApiController`.
pub const API_CONTROLLER_ID: u64 = 5;

/// Identity of `AuthController`.
pub const AUTH_CONTROLLER_ID: u64 = 6;

/// Identity of `OrderController`.
pub const ORDER_CONTROLLER_ID: u64 = 7;

/// Compares two strings character by character.
fn str_equal(a: &str, b: &str) -> (r: bool)
    ensures
        r == (a@ == b@),
{
    let n = a.unicode_len();
    if n != b.unicode_len() {
        proof {
            if a@ == b@ {
                assert(a@.len() == b@.len());
            }
        }
        return false;
    }
    let mut i: usize = 0;
    while i < n
        invariant
            n == a@.len(),
            n == b@.len(),
            i <= n,
            forall|j: int| 0 <= j < i ==> a@[j] == b@[j],
        decreases n - i,
    {
        if a.get_char(i) != b.get_char(i) {
            proof {
                if a@ == b@ {
                    assert(a@[i as int] == b@[i as int]);
                }
            }
            return false;
        }
        i = i + 1;
    }
    proof {
        assert(a@ =~= b@);
    }
    true
}

/// Looks users up; depends on nothing.
pub struct UserService;

impl UserService {
    /// Constructs the service; it has no dependencies.
    pub fn new() -> Self {
        UserService
    }

    /// The fixed greeting this service hands out.
    pub fn get_greeting(&self) -> (r: String)
        ensures
            r@ == "Hello from UserService!"@,
    {
        "Hello from UserService!".to_owned()
    }
}

/// Checks credentials; depends on the user service.
pub struct AuthService {
    user_service: Arc<UserService>,
}

impl AuthService {
    /// The injected user service.
    pub closed spec fn user_service_spec(&self) -> Arc<UserService> {
        self.user_service
    }

    /// Constructs the service around its injected user service.
    pub fn new(user_service: Arc<UserService>) -> (r: Self)
        ensures
            r.user_service_spec() == user_service,
    {
        AuthService { user_service }
    }

    /// Accepts exactly the one known credential pair.
    pub fn login(&self, username: &str, password: &str) -> (r: bool)
        ensures
            r == (username@ == "admin"@ && password@ == "1234"@),
    {
        str_equal(username, "admin") && str_equal(password, "1234")
    }
}

/// Tracks stock; depends on nothing.
pub struct InventoryService;

impl InventoryService {
    /// Constructs the service; it has no dependencies.
    pub fn new() -> Self {
        InventoryService
    }

    /// Whether an item is in stock: exactly the even item numbers are.
    pub fn check_stock(&self, item_id: u32) -> (r: bool)
        ensures
            r == (item_id % 2 == 0),
    {
        item_id % 2 == 0
    }
}

/// Places orders; depends on the inventory and user services.
pub struct OrderService {
    inventory_service: Arc<InventoryService>,
    user_service: Arc<UserService>,
}

impl OrderService {
    /// The injected inventory service.
    pub closed spec fn inventory_service_spec(&self) -> Arc<InventoryService> {
        self.inventory_service
    }

    /// The injected user service.
    pub closed spec fn user_service_spec(&self) -> Arc<UserService> {
        self.user_service
    }

    /// Constructs the service around its injected dependencies.
    pub fn new(inventory_service: Arc<InventoryService>, user_service: Arc<UserService>) -> (r:
        Self)
        ensures
            r.inventory_service_spec() == inventory_service,
            r.user_service_spec() == user_service,
    {
        OrderService { inventory_service, user_service }
    }
}

/// Serves the user endpoints; depends on the user service.
pub struct ApiController {
    user_service: Arc<UserService>,
}

impl ApiController {
    /// The injected user service.
    pub closed spec fn user_service_spec(&self) -> Arc<UserService> {
        self.user_service
    }

    /// Constructs the controller around its injected user service.
    pub fn new(user_service: Arc<UserService>) -> (r: Self)
        ensures
            r.user_service_spec() == user_service,
    {
        ApiController { user_service }
    }
}

/// Serves the login endpoints; depends on the auth service.
pub struct AuthController {
    auth_service: Arc<AuthService>,
}

impl AuthController {
    /// The injected auth service.
    pub closed spec fn auth_service_spec(&self) -> Arc<AuthService> {
        self.auth_service
    }

    /// Constructs the controller around its injected auth service.
    pub fn new(auth_service: Arc<AuthService>) -> (r: Self)
        ensures
            r.auth_service_spec() == auth_service,
    {
        AuthController { auth_service }
    }
}

/// Serves the order endpoints; depends on the order service.
pub struct OrderController {
    order_service: Arc<OrderService>,
}

impl OrderController {
    /// The injected order service.
    pub closed spec fn order_service_spec(&self) -> Arc<OrderService> {
        self.order_service
    }

    /// Constructs the controller around its injected order service.
    pub fn new(order_service: Arc<OrderService>) -> (r: Self)
        ensures
            r.order_service_spec() == order_service,
    {
        OrderController { order_service }
    }
}

} // verus!
