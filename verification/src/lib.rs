//! A minimal application-framework core: a component registry with
//! dependency-ordered singleton construction (a dependency-injection
//! container) and route descriptors binding HTTP request patterns to
//! handler logic owned by constructed components.
//!
//! Identities are explicit `u64` keys chosen by the application; the
//! container maps each identity to exactly one instance, built after all
//! of its declared dependencies. The HTTP transport itself lives outside
//! this crate.

pub mod apis;
pub mod container;
pub mod errors;
pub mod routing;

use crate::container::{built_from, has_component, Component, ServiceContainer};
use crate::errors::StartupError;
use crate::routing::Route;
use vstd::prelude::*;

verus! {

/// Every route that names an owner names a registered component identity.
pub open spec fn owners_resolved(rs: Seq<Route>, comps: Seq<Component>) -> bool {
    forall|k: int|
        0 <= k < rs.len() ==> match (#[trigger] rs[k]).owner {
            Option::Some(id) => has_component(comps, id),
            Option::None => true,
        }
}

/// Verifies that every route owner was built: fails with `UnknownIdentity`
/// exactly when some route names an identity the container does not hold.
fn check_owners(routes: &Vec<Route>, container: &ServiceContainer) -> (r: Result<
    (),
    StartupError,
>)
    ensures
        r is Ok <==> (forall|k: int|
            0 <= k < routes@.len() ==> match (#[trigger] routes@[k]).owner {
                Option::Some(id) => container.contains(id),
                Option::None => true,
            }),
        match r {
            Ok(_) => true,
            Err(e) => match e {
                StartupError::UnknownIdentity { identity } => exists|k: int|
                    0 <= k < routes@.len() && (#[trigger] routes@[k]).owner == Some(identity)
                        && !container.contains(identity),
                _ => false,
            },
        },
{
    let n = routes.len();
    let mut k: usize = 0;
    while k < n
        invariant
            n == routes@.len(),
            k <= n,
            forall|q: int|
                0 <= q < k ==> match (#[trigger] routes@[q]).owner {
                    Option::Some(id) => container.contains(id),
                    Option::None => true,
                },
        decreases n - k,
    {
        match routes[k].owner {
            Some(id) => {
                if !container.contains_key(id) {
                    return Err(StartupError::UnknownIdentity { identity: id });
                }
            },
            None => {},
        }
        k = k + 1;
    }
    Ok(())
}

/// The bootstrap object: collects component and route descriptors during
/// startup and, once registration is complete, builds the container.
pub struct Application {
    addr: String,
    components: Vec<Component>,
    routes: Vec<Route>,
}

impl Application {
    /// The address the application will serve on.
    pub closed spec fn addr_spec(&self) -> Seq<char> {
        self.addr@
    }

    /// The component descriptors registered so far, in registration order.
    pub closed spec fn components_spec(&self) -> Seq<Component> {
        self.components@
    }

    /// The route descriptors registered so far, in registration order.
    pub closed spec fn routes_spec(&self) -> Seq<Route> {
        self.routes@
    }

    /// A fresh application bound to the default address, with nothing
    /// registered yet.
    pub fn new() -> (r: Self)
        ensures
            r.addr_spec() == "127.0.0.1:3000"@,
            r.components_spec() =~= Seq::<Component>::empty(),
            r.routes_spec() =~= Seq::<Route>::empty(),
    {
        Application {
            addr: "127.0.0.1:3000".to_owned(),
            components: Vec::new(),
            routes: Vec::new(),
        }
    }

    /// Rebinds the application to another address; registrations are kept.
    pub fn bind(self, addr: &str) -> (r: Self)
        ensures
            r.addr_spec() == addr@,
            r.components_spec() == self.components_spec(),
            r.routes_spec() == self.routes_spec(),
    {
        Application { addr: addr.to_owned(), components: self.components, routes: self.routes }
    }

    /// The address as a string, for the transport layer to bind.
    pub fn addr(&self) -> (r: &String)
        ensures
            r@ == self.addr_spec(),
    {
        &self.addr
    }

    /// Registers one component descriptor. Registration is append-only and
    /// order between independent registrations carries no meaning.
    pub fn register_component(&mut self, c: Component)
        ensures
            final(self).components_spec() == old(self).components_spec().push(c),
            final(self).routes_spec() == old(self).routes_spec(),
            final(self).addr_spec() == old(self).addr_spec(),
    {
        self.components.push(c);
    }

    /// Registers one route descriptor. Registration is append-only.
    pub fn register_route(&mut self, r: Route)
        ensures
            final(self).routes_spec() == old(self).routes_spec().push(r),
            final(self).components_spec() == old(self).components_spec(),
            final(self).addr_spec() == old(self).addr_spec(),
    {
        self.routes.push(r);
    }

    /// Ends the registration phase: rejects conflicting routes, builds the
    /// container from every registered component descriptor, and verifies
    /// that every route owner was built. On success the caller hands the
    /// container to the transport layer; any failure aborts startup before
    /// a request can be served.
    pub fn run(self) -> (r: Result<ServiceContainer, StartupError>)
        ensures
            match r {
                Ok(c) => {
                    &&& container::distinct_identities(self.components_spec())
                    &&& container::all_buildable(self.components_spec())
                    &&& built_from(c, self.components_spec())
                    &&& routing::routes_conflict_free(self.routes_spec())
                    &&& owners_resolved(self.routes_spec(), self.components_spec())
                },
                Err(e) => match e {
                    StartupError::RouteConflict { path } => exists|i: int, j: int|
                        0 <= i < j < self.routes_spec().len() && (
                        #[trigger] self.routes_spec()[i]).method == (
                        #[trigger] self.routes_spec()[j]).method && self.routes_spec()[i].path@
                            == self.routes_spec()[j].path@ && path@ == self.routes_spec()[i].path@,
                    StartupError::DuplicateIdentity { identity } => !container::distinct_identities(
                        self.components_spec(),
                    ) && exists|i: int, j: int|
                        0 <= i < j < self.components_spec().len() && (
                        #[trigger] self.components_spec()[i]).type_id == identity && (
                        #[trigger] self.components_spec()[j]).type_id == identity,
                    StartupError::CircularOrUnsatisfiedDependency { names } => {
                        &&& container::distinct_identities(self.components_spec())
                        &&& !container::all_buildable(self.components_spec())
                        &&& container::reports_unbuildable(names@, self.components_spec())
                    },
                    StartupError::UnknownIdentity { identity } => exists|k: int|
                        0 <= k < self.routes_spec().len() && (
                        #[trigger] self.routes_spec()[k]).owner == Some(identity)
                            && !has_component(self.components_spec(), identity),
                },
            },
    {
        proof {
            assert(self.components_spec() == self.components@);
            assert(self.routes_spec() == self.routes@);
        }
        match routing::check_routes(&self.routes) {
            Ok(_) => {},
            Err(e) => {
                return Err(e);
            },
        }
        let container = match ServiceContainer::build(&self.components) {
            Ok(c) => c,
            Err(e) => {
                return Err(e);
            },
        };
        match check_owners(&self.routes, &container) {
            Ok(_) => {},
            Err(e) => {
                return Err(e);
            },
        }
        Ok(container)
    }
}

} // verus!
