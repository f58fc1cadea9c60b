use rspring::apis::{AUTH_SERVICE_ID, INVENTORY_SERVICE_ID, ORDER_SERVICE_ID, USER_SERVICE_ID};
use rspring::container::{Component, ServiceContainer};
use rspring::errors::StartupError;
use rspring::routing::{Method, Route};
use rspring::Application;

fn comp(name: &str, id: u64, deps: &[u64]) -> Component {
    Component { name: name.to_string(), type_id: id, dependencies: deps.to_vec() }
}

#[test]
fn build_wires_dependency_before_dependent() {
    let descriptors = vec![
        comp("B", 20, &[10]),
        comp("A", 10, &[]),
    ];
    let container = match ServiceContainer::build(&descriptors) {
        Ok(c) => c,
        Err(_) => panic!("build failed on an acyclic set"),
    };
    let a = container.get(10);
    assert_eq!(a.identity, 10);
    assert!(a.injected.is_empty());
    let b = container.get(20);
    assert_eq!(b.identity, 20);
    assert_eq!(b.injected, vec![10]);
}

#[test]
fn get_returns_the_same_instance_on_every_call() {
    let descriptors = vec![comp("A", 10, &[])];
    let container = match ServiceContainer::build(&descriptors) {
        Ok(c) => c,
        Err(_) => panic!("build failed on an acyclic set"),
    };
    let first = container.get(10).identity;
    let second = container.get(10).identity;
    assert_eq!(first, second);
    assert_eq!(container.get(10).injected, container.get(10).injected);
}

#[test]
fn build_fails_on_a_mutual_cycle() {
    let descriptors = vec![
        comp("X", 1, &[2]),
        comp("Y", 2, &[1]),
    ];
    match ServiceContainer::build(&descriptors) {
        Ok(_) => panic!("build succeeded on a cycle"),
        Err(StartupError::CircularOrUnsatisfiedDependency { names }) => {
            assert!(names.contains(&"X".to_string()));
            assert!(names.contains(&"Y".to_string()));
        }
        Err(_) => panic!("wrong error on a cycle"),
    }
}

#[test]
fn build_fails_on_a_duplicate_identity() {
    let descriptors = vec![
        comp("A", 10, &[]),
        comp("A again", 10, &[]),
    ];
    match ServiceContainer::build(&descriptors) {
        Err(StartupError::DuplicateIdentity { identity }) => assert_eq!(identity, 10),
        _ => panic!("duplicate identity was not rejected"),
    }
}

#[test]
fn build_fails_on_a_missing_dependency() {
    let descriptors = vec![comp("B", 20, &[99])];
    match ServiceContainer::build(&descriptors) {
        Err(StartupError::CircularOrUnsatisfiedDependency { names }) => {
            assert_eq!(names, vec!["B".to_string()]);
        }
        _ => panic!("missing dependency was not rejected"),
    }
}

#[test]
fn registration_order_does_not_change_what_is_built() {
    let one = vec![
        comp("user", USER_SERVICE_ID, &[]),
        comp("auth", AUTH_SERVICE_ID, &[USER_SERVICE_ID]),
        comp("inventory", INVENTORY_SERVICE_ID, &[]),
        comp("order", ORDER_SERVICE_ID, &[INVENTORY_SERVICE_ID, USER_SERVICE_ID]),
    ];
    let two = vec![
        comp("order", ORDER_SERVICE_ID, &[INVENTORY_SERVICE_ID, USER_SERVICE_ID]),
        comp("inventory", INVENTORY_SERVICE_ID, &[]),
        comp("auth", AUTH_SERVICE_ID, &[USER_SERVICE_ID]),
        comp("user", USER_SERVICE_ID, &[]),
    ];
    let c1 = match ServiceContainer::build(&one) {
        Ok(c) => c,
        Err(_) => panic!("build failed"),
    };
    let c2 = match ServiceContainer::build(&two) {
        Ok(c) => c,
        Err(_) => panic!("build failed"),
    };
    for id in [USER_SERVICE_ID, AUTH_SERVICE_ID, INVENTORY_SERVICE_ID, ORDER_SERVICE_ID] {
        assert_eq!(c1.get(id).identity, c2.get(id).identity);
        assert_eq!(c1.get(id).injected, c2.get(id).injected);
    }
}

#[test]
fn application_registers_and_builds() {
    let mut app = Application::new().bind("127.0.0.1:8080");
    assert_eq!(app.addr(), "127.0.0.1:8080");
    app.register_component(comp("user", USER_SERVICE_ID, &[]));
    app.register_component(comp("auth", AUTH_SERVICE_ID, &[USER_SERVICE_ID]));
    app.register_route(Route {
        path: "/hello".to_string(),
        method: Method::GET,
        owner: Some(AUTH_SERVICE_ID),
    });
    let container = match app.run() {
        Ok(c) => c,
        Err(_) => panic!("startup failed on a valid registration"),
    };
    assert_eq!(container.get(AUTH_SERVICE_ID).injected, vec![USER_SERVICE_ID]);
}

#[test]
fn contains_key_reports_only_built_identities() {
    let descriptors = vec![comp("A", 10, &[])];
    let container = match ServiceContainer::build(&descriptors) {
        Ok(c) => c,
        Err(_) => panic!("build failed"),
    };
    assert!(container.contains_key(10));
    assert!(!container.contains_key(11));
}

#[test]
fn run_rejects_conflicting_routes() {
    let mut app = Application::new();
    app.register_component(comp("user", USER_SERVICE_ID, &[]));
    app.register_route(Route { path: "/hello".to_string(), method: Method::GET, owner: None });
    app.register_route(Route { path: "/hello".to_string(), method: Method::GET, owner: None });
    match app.run() {
        Err(StartupError::RouteConflict { path }) => assert_eq!(path, "/hello"),
        _ => panic!("conflicting routes were not rejected"),
    }
}

#[test]
fn run_rejects_an_unknown_route_owner() {
    let mut app = Application::new();
    app.register_component(comp("user", USER_SERVICE_ID, &[]));
    app.register_route(Route { path: "/hello".to_string(), method: Method::GET, owner: Some(99) });
    match app.run() {
        Err(StartupError::UnknownIdentity { identity }) => assert_eq!(identity, 99),
        _ => panic!("unknown owner was not rejected"),
    }
}

#[test]
fn distinct_methods_on_one_path_do_not_conflict() {
    let mut app = Application::new();
    app.register_route(Route { path: "/hello".to_string(), method: Method::GET, owner: None });
    app.register_route(Route { path: "/hello".to_string(), method: Method::POST, owner: None });
    assert!(app.run().is_ok());
}
