//! Error taxonomy: fatal startup errors, which abort before any request can
//! be served, and per-request dispatch errors, which are confined to the
//! request that raised them.

use vstd::prelude::*;

verus! {

/// A fatal error raised while the container is built or the route table is
/// installed. Any of these aborts startup: a partial container or route
/// table is never handed out.
pub enum StartupError {
    /// Two component descriptors share the same identity.
    DuplicateIdentity {
        /// The identity that occurs more than once.
        identity: u64,
    },
    /// The dependency-ordered build reached its pass bound with descriptors
    /// still unbuilt: the leftovers contain a dependency cycle or depend on
    /// an identity no descriptor provides.
    CircularOrUnsatisfiedDependency {
        /// Display names of every descriptor that could not be built, in
        /// registration order.
        names: Vec<String>,
    },
    /// A route names an owner identity that the container never built.
    UnknownIdentity {
        /// The identity no instance was built for.
        identity: u64,
    },
    /// Two routes share the same method and path pattern.
    RouteConflict {
        /// The path pattern registered twice.
        path: String,
    },
}

/// A per-request error raised while a request is dispatched.
pub enum DispatchError {
    /// No installed route has the request's method and a pattern matching
    /// its path.
    NotFound,
    /// A path segment could not be converted to the declared type of its
    /// placeholder. A client-class error: the route exists, the request
    /// does not fit it.
    ParameterDecodeError {
        /// The placeholder's declared name.
        name: String,
        /// The path segment that failed to convert.
        raw: String,
    },
}

} // verus!
