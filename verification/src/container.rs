//! The dependency-injection core: component descriptors, the
//! dependency-ordered container build, and the service-locator lookup.

use crate::errors::StartupError;
use vstd::prelude::*;

verus! {

/// Describes one injectable unit: a process-wide-unique identity, a
/// human-readable display name (diagnostics only), and the identities this
/// component requires before it can be constructed.
pub struct Component {
    /// Human-readable label, used only in error reports.
    pub name: String,
    /// Process-wide-unique key for this component's logical type.
    pub type_id: u64,
    /// Identities that must be built before this component.
    pub dependencies: Vec<u64>,
}

/// One constructed singleton. `injected` records, in declaration order, the
/// identities whose instances were looked up in the container and handed to
/// this component when it was constructed.
pub struct Instance {
    /// The identity this instance was built for.
    pub identity: u64,
    /// The identities injected into this instance at construction time.
    pub injected: Vec<u64>,
}

/// True when some descriptor in `comps` carries `id`.
pub open spec fn has_component(comps: Seq<Component>, id: u64) -> bool {
    exists|i: int| 0 <= i < comps.len() && comps[i].type_id == id
}

/// The index of the descriptor carrying `id` (unique when identities are
/// distinct).
pub open spec fn component_index(comps: Seq<Component>, id: u64) -> int {
    choose|i: int| 0 <= i < comps.len() && comps[i].type_id == id
}

/// The declared dependencies of the descriptor carrying `id`.
pub open spec fn dependencies_of(comps: Seq<Component>, id: u64) -> Seq<u64> {
    comps[component_index(comps, id)].dependencies@
}

/// No two descriptors share an identity.
pub open spec fn distinct_identities(comps: Seq<Component>) -> bool {
    forall|i: int, j: int|
        0 <= i < j < comps.len() ==> comps[i].type_id != comps[j].type_id
}

/// `id` can be constructed by a dependency chain of height below `fuel`:
/// a descriptor for `id` exists and each of its dependencies is itself
/// buildable with one unit of fuel less. With `fuel` at least the number of
/// descriptors this coincides with "every dependency chain ends and never
/// revisits `id`", i.e. the dependency graph below `id` is acyclic and
/// complete.
pub open spec fn buildable(comps: Seq<Component>, id: u64, fuel: nat) -> bool
    decreases fuel,
{
    &&& fuel > 0
    &&& has_component(comps, id)
    &&& forall|k: int|
        0 <= k < dependencies_of(comps, id).len() ==> buildable(
            comps,
            dependencies_of(comps, id)[k],
            (fuel - 1) as nat,
        )
}

/// Every descriptor in the set can be constructed. Fuel equal to the number
/// of descriptors always suffices for an acyclic, complete dependency graph.
pub open spec fn all_buildable(comps: Seq<Component>) -> bool {
    forall|i: int|
        0 <= i < comps.len() ==> buildable(comps, comps[i].type_id, comps.len() as nat)
}

/// Raising the fuel never makes a buildable identity unbuildable.
pub proof fn lemma_buildable_fuel_monotone(comps: Seq<Component>, id: u64, f1: nat, f2: nat)
    requires
        buildable(comps, id, f1),
        f1 <= f2,
    ensures
        buildable(comps, id, f2),
    decreases f1,
{
    assert forall|k: int| 0 <= k < dependencies_of(comps, id).len() implies buildable(
        comps,
        dependencies_of(comps, id)[k],
        (f2 - 1) as nat,
    ) by {
        lemma_buildable_fuel_monotone(
            comps,
            dependencies_of(comps, id)[k],
            (f1 - 1) as nat,
            (f2 - 1) as nat,
        );
    }
}

/// True when some instance in `s` was built for `id`.
pub open spec fn holds_identity(s: Seq<Instance>, id: u64) -> bool {
    exists|i: int| 0 <= i < s.len() && s[i].identity == id
}

/// A build order is well-formed when no identity occurs twice and every
/// identity injected into an instance occurs strictly earlier.
pub open spec fn instances_wf(s: Seq<Instance>) -> bool {
    &&& forall|i: int, j: int| 0 <= i < j < s.len() ==> s[i].identity != s[j].identity
    &&& forall|i: int, k: int|
        0 <= i < s.len() && 0 <= k < s[i].injected@.len() ==> holds_identity(
            s.take(i),
            #[trigger] s[i].injected@[k],
        )
}

/// Appending an instance with a fresh identity, all of whose injected
/// identities are already held, keeps a build order well-formed.
pub proof fn lemma_instances_wf_push(s: Seq<Instance>, inst: Instance)
    requires
        instances_wf(s),
        !holds_identity(s, inst.identity),
        forall|k: int|
            0 <= k < inst.injected@.len() ==> holds_identity(s, #[trigger] inst.injected@[k]),
    ensures
        instances_wf(s.push(inst)),
{
    assert forall|i: int, j: int|
        0 <= i < j < s.push(inst).len() implies s.push(inst)[i].identity != s.push(
        inst,
    )[j].identity by {
        if j == s.len() {
            assert(s.push(inst)[i] == s[i] && s.push(inst)[j] == inst);
            if s[i].identity == inst.identity {
                assert(holds_identity(s, inst.identity));
            }
        } else {
            assert(s.push(inst)[i] == s[i] && s.push(inst)[j] == s[j]);
        }
    }
    assert forall|i: int, k: int|
        0 <= i < s.push(inst).len() && 0 <= k < s.push(inst)[i].injected@.len() implies
        holds_identity(s.push(inst).take(i), #[trigger] s.push(inst)[i].injected@[k]) by {
        if i == s.len() {
            assert(s.push(inst)[i] == inst);
            assert(s.push(inst).take(i) =~= s);
            assert(holds_identity(s, inst.injected@[k]));
        } else {
            assert(s.push(inst)[i] == s[i]);
            assert(s.push(inst).take(i) =~= s.take(i));
            assert(holds_identity(s.take(i), s[i].injected@[k]));
        }
    }
}

/// The descriptor carrying `id` is unique when identities are distinct.
pub proof fn lemma_component_index_unique(comps: Seq<Component>, i: int)
    requires
        distinct_identities(comps),
        0 <= i < comps.len(),
    ensures
        component_index(comps, comps[i].type_id) == i,
{
    assert(has_component(comps, comps[i].type_id));
    let j = component_index(comps, comps[i].type_id);
    if j != i {
        assert(comps[i].type_id != comps[j].type_id);
    }
}

/// Appending one instance adds exactly its identity to the identities held.
pub proof fn lemma_holds_identity_push(s: Seq<Instance>, inst: Instance, id: u64)
    ensures
        holds_identity(s.push(inst), id) <==> (holds_identity(s, id) || inst.identity == id),
{
    if holds_identity(s, id) {
        let i = choose|i: int| 0 <= i < s.len() && s[i].identity == id;
        assert(s.push(inst)[i].identity == id);
    }
    if inst.identity == id {
        assert(s.push(inst)[s.len() as int].identity == id);
    }
    if holds_identity(s.push(inst), id) {
        let i = choose|i: int| 0 <= i < s.push(inst).len() && s.push(inst)[i].identity == id;
        if i < s.len() {
            assert(s[i].identity == id);
        }
    }
}

/// The immutable post-build lookup table from identity to instance.
pub struct ServiceContainer {
    components: Vec<Instance>,
}

impl View for ServiceContainer {
    type V = Seq<Instance>;

    /// The constructed instances, in the order they were built.
    closed spec fn view(&self) -> Seq<Instance> {
        self.components@
    }
}

impl ServiceContainer {
    /// True when an instance for `id` has been built.
    pub open spec fn contains(&self, id: u64) -> bool {
        holds_identity(self@, id)
    }

    /// The build position of the instance for `id` (unique under `wf`).
    pub open spec fn instance_index(&self, id: u64) -> int {
        choose|i: int| 0 <= i < self@.len() && self@[i].identity == id
    }

    /// The instance built for `id`.
    pub open spec fn instance_of(&self, id: u64) -> Instance {
        self@[self.instance_index(id)]
    }

    /// Well-formedness: each identity maps to exactly one instance, and
    /// every identity injected into an instance was built strictly earlier.
    pub open spec fn wf(&self) -> bool {
        instances_wf(self@)
    }

    /// An empty container: nothing has been built yet.
    fn new() -> (r: Self)
        ensures
            r@ =~= Seq::<Instance>::empty(),
    {
        ServiceContainer { components: Vec::new() }
    }

    /// Looks the instance for `identity` up. The identity must have been
    /// built: asking for an unknown identity is a descriptor bug, which the
    /// caller rules out, not a recoverable runtime condition.
    ///
    /// The container is immutable and `get`'s result is pinned to
    /// `instance_of`, a function of the container and the identity alone:
    /// every call for one identity returns the same instance
    /// (see `lemma_get_singleton`).
    pub fn get(&self, identity: u64) -> (r: &Instance)
        requires
            self.wf(),
            self.contains(identity),
        ensures
            *r == self.instance_of(identity),
            r.identity == identity,
    {
        let n = self.components.len();
        let mut i: usize = 0;
        loop
            invariant
                self.wf(),
                self.contains(identity),
                n == self@.len(),
                0 <= i <= n,
                forall|j: int| 0 <= j < i ==> self@[j].identity != identity,
            decreases n - i,
        {
            if self.components[i].identity == identity {
                return &self.components[i];
            }
            i = i + 1;
            if i >= n {
                proof {
                    let w = choose|w: int| 0 <= w < self@.len() && self@[w].identity == identity;
                    assert(self@[w].identity == identity);
                    assert(false);
                }
                unreached()
            }
        }
    }

    /// True when an instance for `id` has been built (executable form of
    /// `contains`).
    pub fn contains_key(&self, id: u64) -> (b: bool)
        ensures
            b == self.contains(id),
    {
        let n = self.components.len();
        let mut i: usize = 0;
        while i < n
            invariant
                n == self@.len(),
                i <= n,
                forall|j: int| 0 <= j < i ==> self@[j].identity != id,
            decreases n - i,
        {
            if self.components[i].identity == id {
                return true;
            }
            i = i + 1;
        }
        false
    }
}

/// The dependencies of the descriptor at `i` are all held by the instances
/// in `s`: the descriptor could be constructed against `s`.
pub open spec fn ready_in(s: Seq<Instance>, comps: Seq<Component>, i: int) -> bool {
    forall|e: int|
        0 <= e < comps[i].dependencies@.len() ==> holds_identity(
            s,
            #[trigger] comps[i].dependencies@[e],
        )
}

/// Every instance in `s` was built for a descriptor in `comps` and records
/// exactly that descriptor's dependencies as its injected identities.
pub open spec fn instances_canonical(s: Seq<Instance>, comps: Seq<Component>) -> bool {
    forall|j: int|
        0 <= j < s.len() ==> {
            &&& has_component(comps, (#[trigger] s[j]).identity)
            &&& s[j].injected@ == dependencies_of(comps, s[j].identity)
        }
}

/// Every identity held by `s` is buildable with fuel `s.len()`.
pub open spec fn instances_buildable(s: Seq<Instance>, comps: Seq<Component>) -> bool {
    forall|j: int|
        0 <= j < s.len() ==> buildable(comps, (#[trigger] s[j]).identity, s.len() as nat)
}

/// What a successful build guarantees: the container is well-formed, holds
/// exactly the registered identities, and the instance for each identity was
/// constructed from exactly that descriptor's declared dependencies.
pub open spec fn built_from(c: ServiceContainer, comps: Seq<Component>) -> bool {
    &&& c.wf()
    &&& forall|id: u64| #[trigger] c.contains(id) <==> has_component(comps, id)
    &&& forall|i: int|
        0 <= i < comps.len() ==> c.instance_of((#[trigger] comps[i]).type_id).identity
            == comps[i].type_id
    &&& forall|i: int|
        0 <= i < comps.len() ==> c.instance_of((#[trigger] comps[i]).type_id).injected@
            == comps[i].dependencies@
}

/// Copies a dependency list.
fn copy_ids(v: &Vec<u64>) -> (r: Vec<u64>)
    ensures
        r@ == v@,
{
    let mut r: Vec<u64> = Vec::new();
    let n = v.len();
    let mut i: usize = 0;
    while i < n
        invariant
            n == v@.len(),
            i <= n,
            r@ =~= v@.subrange(0, i as int),
        decreases n - i,
    {
        r.push(v[i]);
        i = i + 1;
    }
    proof {
        assert(r@ =~= v@);
    }
    r
}

/// True when every declared dependency of `comp` has been built.
fn all_dependencies_built(container: &ServiceContainer, comp: &Component) -> (b: bool)
    ensures
        b <==> (forall|e: int|
            0 <= e < comp.dependencies@.len() ==> container.contains(
                #[trigger] comp.dependencies@[e],
            )),
{
    let n = comp.dependencies.len();
    let mut e: usize = 0;
    while e < n
        invariant
            n == comp.dependencies@.len(),
            e <= n,
            forall|f: int| 0 <= f < e ==> container.contains(#[trigger] comp.dependencies@[f]),
        decreases n - e,
    {
        if !container.contains_key(comp.dependencies[e]) {
            return false;
        }
        e = e + 1;
    }
    true
}

/// Scans for two descriptors sharing an identity.
fn find_duplicate_identity(components: &Vec<Component>) -> (r: Option<u64>)
    ensures
        match r {
            Some(id) => exists|i: int, j: int|
                0 <= i < j < components@.len() && (#[trigger] components@[i]).type_id == id && (
                #[trigger] components@[j]).type_id == id,
            None => distinct_identities(components@),
        },
{
    let n = components.len();
    let mut i: usize = 0;
    while i < n
        invariant
            n == components@.len(),
            i <= n,
            forall|a: int, b: int|
                0 <= a < b < n && a < i ==> components@[a].type_id != components@[b].type_id,
        decreases n - i,
    {
        let mut j: usize = i + 1;
        while j < n
            invariant
                n == components@.len(),
                i < n,
                i + 1 <= j <= n,
                forall|b: int| i < b < j ==> components@[i as int].type_id != components@[b].type_id,
            decreases n - j,
        {
            if components[i].type_id == components[j].type_id {
                return Some(components[i].type_id);
            }
            j = j + 1;
        }
        i = i + 1;
    }
    None
}

/// Runs one pass of the fixed-point build: scans `remaining` once,
/// constructing every descriptor whose dependencies are all already built,
/// and returns the indices still unbuilt afterwards. Anything whose
/// dependencies were all built when the pass began is guaranteed to be built
/// when it ends.
#[verifier::loop_isolation(false)]
#[verifier::rlimit(50)]
fn build_pass(
    container: &mut ServiceContainer,
    components: &Vec<Component>,
    remaining: &Vec<usize>,
) -> (nr: Vec<usize>)
    requires
        distinct_identities(components@),
        old(container).wf(),
        old(container)@.len() + remaining@.len() <= components@.len(),
        forall|kk: int|
            0 <= kk < remaining@.len() ==> (#[trigger] remaining@[kk]) < components@.len(),
        forall|k1: int, k2: int|
            0 <= k1 < k2 < remaining@.len() ==> remaining@[k1] != remaining@[k2],
        forall|kk: int|
            0 <= kk < remaining@.len() ==> !old(container).contains(
                components@[#[trigger] remaining@[kk] as int].type_id,
            ),
        forall|i2: int|
            0 <= i2 < components@.len() && !old(container).contains(
                (#[trigger] components@[i2]).type_id,
            ) ==> remaining@.contains(i2 as usize),
        instances_canonical(old(container)@, components@),
        instances_buildable(old(container)@, components@),
    ensures
        final(container).wf(),
        forall|id: u64| holds_identity(old(container)@, id) ==> final(container).contains(id),
        final(container)@.len() + nr@.len() <= components@.len(),
        forall|q: int| 0 <= q < nr@.len() ==> (#[trigger] nr@[q]) < components@.len(),
        forall|q1: int, q2: int| 0 <= q1 < q2 < nr@.len() ==> nr@[q1] != nr@[q2],
        forall|q: int|
            0 <= q < nr@.len() ==> !final(container).contains(
                components@[#[trigger] nr@[q] as int].type_id,
            ),
        forall|i2: int|
            0 <= i2 < components@.len() && !final(container).contains(
                (#[trigger] components@[i2]).type_id,
            ) ==> nr@.contains(i2 as usize),
        instances_canonical(final(container)@, components@),
        instances_buildable(final(container)@, components@),
        forall|kk: int|
            0 <= kk < remaining@.len() && ready_in(
                old(container)@,
                components@,
                #[trigger] remaining@[kk] as int,
            ) ==> final(container).contains(components@[remaining@[kk] as int].type_id),
{
    let ghost snap = container@;
    let n_exec = components.len();
    let ghost n = components@.len();
    let m = remaining.len();
    let mut new_remaining: Vec<usize> = Vec::new();
    let mut k: usize = 0;
    while k < m
        invariant
            k <= m,
            container.wf(),
            forall|id: u64| holds_identity(snap, id) ==> container.contains(id),
            container@.len() + (m - k) + new_remaining@.len() <= n,
            forall|kk: int|
                k <= kk < m ==> !container.contains(
                    components@[#[trigger] remaining@[kk] as int].type_id,
                ),
            forall|q: int|
                0 <= q < new_remaining@.len() ==> exists|kk: int|
                    0 <= kk < k && remaining@[kk] == #[trigger] new_remaining@[q],
            forall|q1: int, q2: int|
                0 <= q1 < q2 < new_remaining@.len() ==> new_remaining@[q1] != new_remaining@[q2],
            forall|q: int|
                0 <= q < new_remaining@.len() ==> !container.contains(
                    components@[#[trigger] new_remaining@[q] as int].type_id,
                ),
            forall|i2: int|
                0 <= i2 < n && !container.contains((#[trigger] components@[i2]).type_id) ==> (
                exists|kk: int| k <= kk < m && remaining@[kk] == i2 as usize)
                    || new_remaining@.contains(i2 as usize),
            instances_canonical(container@, components@),
            instances_buildable(container@, components@),
            forall|kk: int|
                0 <= kk < k && ready_in(snap, components@, #[trigger] remaining@[kk] as int)
                    ==> container.contains(components@[remaining@[kk] as int].type_id),
        decreases m - k,
    {
        let idx = remaining[k];
        if all_dependencies_built(&container, &components[idx]) {
            let injected = copy_ids(&components[idx].dependencies);
            let inst = Instance { identity: components[idx].type_id, injected };
            let ghost old_c = container@;
            proof {
                lemma_component_index_unique(components@, idx as int);
            }
            container.components.push(inst);
            proof {
                assert(container@ =~= old_c.push(inst));
                assert forall|id: u64| #[trigger]
                    container.contains(id) == (holds_identity(old_c, id) || inst.identity
                    == id) by {
                    lemma_holds_identity_push(old_c, inst, id);
                }
                assert(!holds_identity(old_c, inst.identity));
                assert forall|k2: int|
                    0 <= k2 < inst.injected@.len() implies holds_identity(
                    old_c,
                    #[trigger] inst.injected@[k2],
                ) by {
                    assert(inst.injected@[k2] == components@[idx as int].dependencies@[k2]);
                }
                lemma_instances_wf_push(old_c, inst);
                assert(container.wf());
                let big = old_c.len() + 1;
                assert forall|j: int|
                    0 <= j < container@.len() implies buildable(
                    components@,
                    (#[trigger] container@[j]).identity,
                    big as nat,
                ) by {
                    if j < old_c.len() {
                        lemma_buildable_fuel_monotone(
                            components@,
                            old_c[j].identity,
                            old_c.len() as nat,
                            big as nat,
                        );
                    } else {
                        assert forall|e: int|
                            0 <= e < dependencies_of(components@, inst.identity).len()
                                implies buildable(
                            components@,
                            dependencies_of(components@, inst.identity)[e],
                            old_c.len() as nat,
                        ) by {
                            let dep = dependencies_of(components@, inst.identity)[e];
                            assert(holds_identity(old_c, dep));
                            let w = choose|w: int| 0 <= w < old_c.len() && old_c[w].identity == dep;
                            assert(buildable(components@, dep, old_c.len() as nat));
                        }
                        assert(has_component(components@, inst.identity));
                        assert(buildable(components@, inst.identity, big as nat));
                    }
                }
                assert(instances_buildable(container@, components@));
                assert forall|i2: int|
                    0 <= i2 < n && !container.contains((#[trigger] components@[i2]).type_id)
                    implies (exists|kk: int| k + 1 <= kk < m && remaining@[kk] == i2 as usize)
                    || new_remaining@.contains(i2 as usize) by {
                    assert(!holds_identity(old_c, components@[i2].type_id));
                    if exists|kk: int| k <= kk < m && remaining@[kk] == i2 as usize {
                        let kk = choose|kk: int| k <= kk < m && remaining@[kk] == i2 as usize;
                        if kk == k {
                            assert(i2 as usize == idx);
                            assert(i2 == idx as int);
                            assert(components@[i2].type_id == inst.identity);
                            assert(container.contains(components@[i2].type_id));
                        } else {
                            assert(k + 1 <= kk < m && remaining@[kk] == i2 as usize);
                        }
                    }
                }
            }
        } else {
            proof {
                assert(!ready_in(snap, components@, idx as int)) by {
                    if ready_in(snap, components@, idx as int) {
                        assert forall|e: int|
                            0 <= e < components@[idx as int].dependencies@.len() implies
                            container.contains(
                            #[trigger] components@[idx as int].dependencies@[e],
                        ) by {
                            assert(holds_identity(snap, components@[idx as int].dependencies@[e]));
                        }
                    }
                }
            }
            let ghost old_nr = new_remaining@;
            new_remaining.push(idx);
            proof {
                assert(new_remaining@ =~= old_nr.push(idx));
                assert(new_remaining@[old_nr.len() as int] == idx);
                assert(new_remaining@.contains(idx));
                assert forall|q: int|
                    0 <= q < new_remaining@.len() implies exists|kk: int|
                    0 <= kk < k + 1 && remaining@[kk] == #[trigger] new_remaining@[q] by {
                    if q < old_nr.len() {
                        let kk = choose|kk: int| 0 <= kk < k && remaining@[kk] == old_nr[q];
                        assert(remaining@[kk] == new_remaining@[q]);
                    } else {
                        assert(remaining@[k as int] == new_remaining@[q]);
                    }
                }
                assert forall|i2: int|
                    0 <= i2 < n && !container.contains((#[trigger] components@[i2]).type_id)
                    implies (exists|kk: int| k + 1 <= kk < m && remaining@[kk] == i2 as usize)
                    || new_remaining@.contains(i2 as usize) by {
                    if exists|kk: int| k <= kk < m && remaining@[kk] == i2 as usize {
                        let kk = choose|kk: int| k <= kk < m && remaining@[kk] == i2 as usize;
                        if kk == k {
                            assert(new_remaining@.contains(i2 as usize));
                        }
                    } else {
                        assert(old_nr.contains(i2 as usize));
                        let q = choose|q: int| 0 <= q < old_nr.len() && old_nr[q] == i2 as usize;
                        assert(new_remaining@[q] == i2 as usize);
                        assert(new_remaining@.contains(i2 as usize));
                    }
                }
            }
        }
        k = k + 1;
    }
    new_remaining
}

/// A container that holds every registered identity, canonically and in
/// dependency order, witnesses that the whole descriptor set is buildable.
proof fn lemma_build_success(comps: Seq<Component>, c: ServiceContainer)
    requires
        distinct_identities(comps),
        c.wf(),
        c@.len() <= comps.len(),
        instances_canonical(c@, comps),
        instances_buildable(c@, comps),
        forall|i2: int| 0 <= i2 < comps.len() ==> c.contains((#[trigger] comps[i2]).type_id),
    ensures
        all_buildable(comps),
        built_from(c, comps),
{
    assert forall|i2: int|
        0 <= i2 < comps.len() implies buildable(
        comps,
        (#[trigger] comps[i2]).type_id,
        comps.len() as nat,
    ) by {
        let id = comps[i2].type_id;
        assert(c.contains(id));
        let w = choose|w: int| 0 <= w < c@.len() && c@[w].identity == id;
        lemma_buildable_fuel_monotone(comps, id, c@.len() as nat, comps.len() as nat);
    }
    assert forall|id: u64| #[trigger] c.contains(id) implies has_component(comps, id) by {
        let w = choose|w: int| 0 <= w < c@.len() && c@[w].identity == id;
        assert(has_component(comps, c@[w].identity));
    }
    assert forall|i2: int|
        0 <= i2 < comps.len() implies c.instance_of(
        (#[trigger] comps[i2]).type_id,
    ).identity == comps[i2].type_id && c.instance_of(comps[i2].type_id).injected@
        == comps[i2].dependencies@ by {
        let id = comps[i2].type_id;
        assert(c.contains(id));
        let j = c.instance_index(id);
        assert(0 <= j < c@.len() && c@[j].identity == id);
        lemma_component_index_unique(comps, i2);
    }
}


/// `name` is the display name of some registered descriptor that is not
/// buildable.
pub open spec fn names_an_unbuildable(name: String, comps: Seq<Component>) -> bool {
    exists|i: int|
        0 <= i < comps.len() && !buildable(comps, comps[i].type_id, comps.len() as nat) && name@
            == comps[i].name@
}

/// Some reported name is the display name of the descriptor at `i`.
pub open spec fn name_reported(names: Seq<String>, comps: Seq<Component>, i: int) -> bool {
    exists|k: int| 0 <= k < names.len() && names[k]@ == comps[i].name@
}

/// What a failed build reports: the display names of exactly those
/// descriptors that are not buildable, in registration order. This set
/// contains every dependency cycle and everything depending on one.
pub open spec fn reports_unbuildable(names: Seq<String>, comps: Seq<Component>) -> bool {
    &&& names.len() > 0
    &&& forall|k: int| 0 <= k < names.len() ==> names_an_unbuildable(#[trigger] names[k], comps)
    &&& forall|i: int|
        0 <= i < comps.len() && !buildable(comps, (#[trigger] comps[i]).type_id, comps.len() as nat)
            ==> name_reported(names, comps, i)
}

/// `id` occurs in `ord` strictly before position `j`.
pub open spec fn listed_before(ord: Seq<u64>, j: int, id: u64) -> bool {
    exists|j2: int| 0 <= j2 < j && ord[j2] == id
}

/// `ord` lists every identity only after all of its dependencies.
pub open spec fn dependency_ordered(ord: Seq<u64>, comps: Seq<Component>) -> bool {
    forall|j: int, k: int|
        0 <= j < ord.len() && 0 <= k < dependencies_of(comps, ord[j]).len() ==> listed_before(
            ord,
            j,
            #[trigger] dependencies_of(comps, ord[j])[k],
        )
}

/// Along a dependency order, the identity at position `j` is buildable with
/// fuel `j + 1`.
proof fn lemma_ordered_prefix_buildable(ord: Seq<u64>, comps: Seq<Component>, j: int)
    requires
        dependency_ordered(ord, comps),
        forall|j2: int| 0 <= j2 < ord.len() ==> has_component(comps, #[trigger] ord[j2]),
        0 <= j < ord.len(),
    ensures
        buildable(comps, ord[j], (j + 1) as nat),
    decreases j,
{
    assert forall|k: int|
        0 <= k < dependencies_of(comps, ord[j]).len() implies buildable(
        comps,
        dependencies_of(comps, ord[j])[k],
        j as nat,
    ) by {
        assert(listed_before(ord, j, dependencies_of(comps, ord[j])[k]));
        let j2 = choose|j2: int| 0 <= j2 < j && ord[j2] == dependencies_of(comps, ord[j])[k];
        lemma_ordered_prefix_buildable(ord, comps, j2);
        lemma_buildable_fuel_monotone(
            comps,
            ord[j2],
            (j2 + 1) as nat,
            j as nat,
        );
    }
}

/// An acyclic, complete dependency graph makes the whole set buildable:
/// whenever some order lists every registered identity only after all of
/// its dependencies, every descriptor can be constructed — and `build` is
/// then guaranteed to succeed on distinct identities.
pub proof fn lemma_dependency_order_buildable(ord: Seq<u64>, comps: Seq<Component>)
    requires
        ord.len() == comps.len(),
        dependency_ordered(ord, comps),
        forall|j2: int| 0 <= j2 < ord.len() ==> has_component(comps, #[trigger] ord[j2]),
        forall|i: int|
            0 <= i < comps.len() ==> listed_before(ord, ord.len() as int, (#[trigger] comps[i]).type_id),
    ensures
        all_buildable(comps),
{
    assert forall|i: int|
        0 <= i < comps.len() implies buildable(
        comps,
        (#[trigger] comps[i]).type_id,
        comps.len() as nat,
    ) by {
        assert(listed_before(ord, ord.len() as int, comps[i].type_id));
        let j = choose|j: int| 0 <= j < ord.len() && ord[j] == comps[i].type_id;
        lemma_ordered_prefix_buildable(ord, comps, j);
        lemma_buildable_fuel_monotone(comps, ord[j], (j + 1) as nat, comps.len() as nat);
    }
}

/// A member of a dependency cycle can never be constructed: when every
/// identity in `cycle` has a dependency that again lies in `cycle`, no
/// amount of fuel makes any of them buildable.
pub proof fn lemma_cycle_member_unbuildable(
    comps: Seq<Component>,
    cycle: Set<u64>,
    id: u64,
    fuel: nat,
)
    requires
        cycle.contains(id),
        forall|c: u64| #[trigger]
            cycle.contains(c) ==> exists|e: int|
                0 <= e < dependencies_of(comps, c).len() && cycle.contains(
                    #[trigger] dependencies_of(comps, c)[e],
                ),
    ensures
        !buildable(comps, id, fuel),
    decreases fuel,
{
    if buildable(comps, id, fuel) {
        let e = choose|e: int|
            0 <= e < dependencies_of(comps, id).len() && cycle.contains(
                dependencies_of(comps, id)[e],
            );
        lemma_cycle_member_unbuildable(
            comps,
            cycle,
            dependencies_of(comps, id)[e],
            (fuel - 1) as nat,
        );
    }
}

/// A dependency cycle always shows up in a failure report: the display name
/// of every registered cycle member is among the reported names, whatever
/// else the report contains.
pub proof fn lemma_cycle_reported(
    comps: Seq<Component>,
    cycle: Set<u64>,
    i: int,
    names: Seq<String>,
)
    requires
        0 <= i < comps.len(),
        cycle.contains(comps[i].type_id),
        forall|c: u64| #[trigger]
            cycle.contains(c) ==> exists|e: int|
                0 <= e < dependencies_of(comps, c).len() && cycle.contains(
                    #[trigger] dependencies_of(comps, c)[e],
                ),
        reports_unbuildable(names, comps),
    ensures
        name_reported(names, comps, i),
{
    lemma_cycle_member_unbuildable(comps, cycle, comps[i].type_id, comps.len() as nat);
}

/// Buildability transfers between descriptor sets that register the same
/// identities with the same dependencies.
proof fn lemma_buildable_same_descriptors(
    comps1: Seq<Component>,
    comps2: Seq<Component>,
    id: u64,
    fuel: nat,
)
    requires
        forall|x: u64| has_component(comps1, x) <==> has_component(comps2, x),
        forall|x: u64| #[trigger]
            has_component(comps1, x) ==> dependencies_of(comps1, x) == dependencies_of(comps2, x),
        buildable(comps1, id, fuel),
    ensures
        buildable(comps2, id, fuel),
    decreases fuel,
{
    assert(has_component(comps1, id));
    assert forall|k: int|
        0 <= k < dependencies_of(comps2, id).len() implies buildable(
        comps2,
        dependencies_of(comps2, id)[k],
        (fuel - 1) as nat,
    ) by {
        assert(dependencies_of(comps2, id)[k] == dependencies_of(comps1, id)[k]);
        assert(buildable(comps1, dependencies_of(comps1, id)[k], (fuel - 1) as nat));
        lemma_buildable_same_descriptors(
            comps1,
            comps2,
            dependencies_of(comps1, id)[k],
            (fuel - 1) as nat,
        );
    }
}

/// Registration order is irrelevant: two sequences holding the same
/// descriptors (as a multiset) register the same identities with the same
/// descriptor each, distinctness carries over, and a set buildable in one
/// order is buildable in every order.
pub proof fn lemma_registration_order_irrelevant(comps1: Seq<Component>, comps2: Seq<Component>)
    requires
        comps1.to_multiset() == comps2.to_multiset(),
        distinct_identities(comps1),
    ensures
        distinct_identities(comps2),
        forall|id: u64| has_component(comps1, id) <==> has_component(comps2, id),
        forall|id: u64| #[trigger]
            has_component(comps1, id) ==> comps1[component_index(comps1, id)]
                == comps2[component_index(comps2, id)],
        all_buildable(comps1) ==> all_buildable(comps2),
{
    broadcast use vstd::seq_lib::group_to_multiset_ensures;

    assert forall|x: Component| comps1.contains(x) == comps2.contains(x) by {
        vstd::seq_lib::to_multiset_contains(comps1, x);
        vstd::seq_lib::to_multiset_contains(comps2, x);
        assert(comps1.to_multiset().count(x) == comps2.to_multiset().count(x));
    }
    assert forall|id: u64| has_component(comps1, id) == has_component(comps2, id) by {
        if has_component(comps1, id) {
            let i = choose|i: int| 0 <= i < comps1.len() && comps1[i].type_id == id;
            assert(comps1.contains(comps1[i]));
            let j = choose|j: int| 0 <= j < comps2.len() && comps2[j] == comps1[i];
            assert(comps2[j].type_id == id);
        }
        if has_component(comps2, id) {
            let i = choose|i: int| 0 <= i < comps2.len() && comps2[i].type_id == id;
            assert(comps2.contains(comps2[i]));
            let j = choose|j: int| 0 <= j < comps1.len() && comps1[j] == comps2[i];
            assert(comps1[j].type_id == id);
        }
    }
    assert(comps1.no_duplicates()) by {
        assert forall|i: int, j: int|
            0 <= i < comps1.len() && 0 <= j < comps1.len() && i != j implies comps1[i]
            != comps1[j] by {
            if i < j {
                assert(comps1[i].type_id != comps1[j].type_id);
            } else {
                assert(comps1[j].type_id != comps1[i].type_id);
            }
        }
    }
    comps1.lemma_multiset_has_no_duplicates();
    comps2.lemma_multiset_has_no_duplicates_conv();
    assert forall|i: int, j: int|
        0 <= i < j < comps2.len() implies comps2[i].type_id != comps2[j].type_id by {
        if comps2[i].type_id == comps2[j].type_id {
            assert(comps2[i] != comps2[j]);
            assert(comps2.contains(comps2[i]) && comps2.contains(comps2[j]));
            assert(comps1.contains(comps2[i]) && comps1.contains(comps2[j]));
            let a = choose|a: int| 0 <= a < comps1.len() && comps1[a] == comps2[i];
            let b = choose|b: int| 0 <= b < comps1.len() && comps1[b] == comps2[j];
            assert(a != b);
            if a < b {
                assert(comps1[a].type_id != comps1[b].type_id);
            } else {
                assert(comps1[b].type_id != comps1[a].type_id);
            }
        }
    }
    assert forall|id: u64| #[trigger]
        has_component(comps1, id) implies comps1[component_index(comps1, id)]
        == comps2[component_index(comps2, id)] by {
        let i = component_index(comps1, id);
        let j = component_index(comps2, id);
        assert(0 <= i < comps1.len() && comps1[i].type_id == id);
        assert(has_component(comps2, id));
        assert(0 <= j < comps2.len() && comps2[j].type_id == id);
        assert(comps2.contains(comps2[j]));
        assert(comps1.contains(comps2[j]));
        let a = choose|a: int| 0 <= a < comps1.len() && comps1[a] == comps2[j];
        assert(comps1[a].type_id == id);
        if a != i {
            assert(comps1[a].type_id != comps1[i].type_id);
        }
    }
    if all_buildable(comps1) {
        assert(comps1.len() == comps1.to_multiset().len());
        assert(comps2.len() == comps2.to_multiset().len());
        assert forall|i: int|
            0 <= i < comps2.len() implies buildable(
            comps2,
            (#[trigger] comps2[i]).type_id,
            comps2.len() as nat,
        ) by {
            let id = comps2[i].type_id;
            assert(has_component(comps2, id));
            assert(has_component(comps1, id));
            let w = component_index(comps1, id);
            assert(0 <= w < comps1.len() && comps1[w].type_id == id);
            assert(buildable(comps1, id, comps1.len() as nat));
            assert forall|x: u64| #[trigger]
                has_component(comps1, x) implies dependencies_of(comps1, x) == dependencies_of(
                comps2,
                x,
            ) by {
                assert(comps1[component_index(comps1, x)] == comps2[component_index(comps2, x)]);
            }
            lemma_buildable_same_descriptors(comps1, comps2, id, comps1.len() as nat);
        }
    }
}

/// Registering the same descriptors in any order yields an identical
/// container: two containers built from permutations of one distinct,
/// acyclic descriptor set hold exactly the same identities and record the
/// same injected dependencies for each.
pub proof fn lemma_container_order_independent(
    comps1: Seq<Component>,
    comps2: Seq<Component>,
    c1: ServiceContainer,
    c2: ServiceContainer,
)
    requires
        comps1.to_multiset() == comps2.to_multiset(),
        distinct_identities(comps1),
        built_from(c1, comps1),
        built_from(c2, comps2),
    ensures
        forall|id: u64| c1.contains(id) <==> c2.contains(id),
        forall|id: u64| #[trigger]
            c1.contains(id) ==> c1.instance_of(id).identity == c2.instance_of(id).identity
                && c1.instance_of(id).injected@ == c2.instance_of(id).injected@,
{
    lemma_registration_order_irrelevant(comps1, comps2);
    assert forall|id: u64| c1.contains(id) == c2.contains(id) by {
        assert(c1.contains(id) <==> has_component(comps1, id));
        assert(c2.contains(id) <==> has_component(comps2, id));
    }
    assert forall|id: u64| #[trigger]
        c1.contains(id) implies c1.instance_of(id).identity == c2.instance_of(id).identity
        && c1.instance_of(id).injected@ == c2.instance_of(id).injected@ by {
        assert(has_component(comps1, id));
        let i = component_index(comps1, id);
        let j = component_index(comps2, id);
        assert(0 <= i < comps1.len() && comps1[i].type_id == id);
        assert(has_component(comps2, id));
        assert(0 <= j < comps2.len() && comps2[j].type_id == id);
        assert(comps1[i] == comps2[j]);
        assert(c1.instance_of(comps1[i].type_id).injected@ == comps1[i].dependencies@);
        assert(c2.instance_of(comps2[j].type_id).injected@ == comps2[j].dependencies@);
        assert(c1.instance_of(comps1[i].type_id).identity == comps1[i].type_id);
        assert(c2.instance_of(comps2[j].type_id).identity == comps2[j].type_id);
    }
}

/// The service locator is a singleton lookup: any two results that meet
/// `get`'s postcondition for one identity on one container are the same
/// instance, for the whole life of the container.
pub proof fn lemma_get_singleton(c: ServiceContainer, id: u64, a: Instance, b: Instance)
    requires
        a == c.instance_of(id),
        b == c.instance_of(id),
    ensures
        a == b,
{
}

/// An identity the container holds is buildable with full fuel.
proof fn lemma_contained_buildable(comps: Seq<Component>, c: ServiceContainer, id: u64)
    requires
        c@.len() <= comps.len(),
        instances_buildable(c@, comps),
        c.contains(id),
    ensures
        buildable(comps, id, comps.len() as nat),
{
    let w = choose|w: int| 0 <= w < c@.len() && c@[w].identity == id;
    assert(buildable(comps, c@[w].identity, c@.len() as nat));
    lemma_buildable_fuel_monotone(comps, id, c@.len() as nat, comps.len() as nat);
}

/// One pass after the other: everything buildable with one more unit of fuel
/// than was already covered before the pass is built once the pass ends.
proof fn lemma_pass_completes(
    comps: Seq<Component>,
    snap: Seq<Instance>,
    cur: ServiceContainer,
    prev: Seq<usize>,
    pass: nat,
)
    requires
        distinct_identities(comps),
        comps.len() <= usize::MAX,
        forall|id: u64| holds_identity(snap, id) ==> cur.contains(id),
        forall|i2: int|
            0 <= i2 < comps.len() && !holds_identity(snap, (#[trigger] comps[i2]).type_id)
                ==> prev.contains(i2 as usize),
        forall|kk: int| 0 <= kk < prev.len() ==> (#[trigger] prev[kk]) < comps.len(),
        forall|kk: int|
            0 <= kk < prev.len() && ready_in(snap, comps, #[trigger] prev[kk] as int)
                ==> cur.contains(comps[prev[kk] as int].type_id),
        forall|id: u64| buildable(comps, id, pass) ==> holds_identity(snap, id),
    ensures
        forall|id: u64| buildable(comps, id, (pass + 1) as nat) ==> cur.contains(id),
{
    assert forall|id: u64| buildable(comps, id, (pass + 1) as nat) implies cur.contains(id) by {
        if !cur.contains(id) {
            let i0 = component_index(comps, id);
            assert(0 <= i0 < comps.len() && comps[i0].type_id == id);
            assert(!holds_identity(snap, comps[i0].type_id));
            assert(prev.contains(i0 as usize));
            let kk = choose|kk: int| 0 <= kk < prev.len() && prev[kk] == i0 as usize;
            assert(prev[kk] as int == i0);
            assert(ready_in(snap, comps, i0)) by {
                assert forall|e: int|
                    0 <= e < comps[i0].dependencies@.len() implies holds_identity(
                    snap,
                    #[trigger] comps[i0].dependencies@[e],
                ) by {
                    assert(buildable(comps, dependencies_of(comps, id)[e], pass));
                }
            }
            assert(cur.contains(comps[prev[kk] as int].type_id));
            assert(false);
        }
    }
}

/// Every reported name belongs to a descriptor that is not buildable.
proof fn lemma_reports_names_unbuildable(
    comps: Seq<Component>,
    c: ServiceContainer,
    rem: Seq<usize>,
    names: Seq<String>,
)
    requires
        names.len() == rem.len(),
        forall|kk: int| 0 <= kk < rem.len() ==> (#[trigger] rem[kk]) < comps.len(),
        forall|kk: int|
            0 <= kk < rem.len() ==> !c.contains(comps[#[trigger] rem[kk] as int].type_id),
        forall|id: u64| buildable(comps, id, comps.len() as nat) ==> c.contains(id),
        forall|q: int|
            0 <= q < names.len() ==> (#[trigger] names[q])@ == comps[rem[q] as int].name@,
    ensures
        forall|q: int| 0 <= q < names.len() ==> names_an_unbuildable(#[trigger] names[q], comps),
{
    assert forall|q: int|
        0 <= q < names.len() implies names_an_unbuildable(#[trigger] names[q], comps) by {
        let i2 = rem[q] as int;
        assert(!c.contains(comps[i2].type_id));
        assert(!buildable(comps, comps[i2].type_id, comps.len() as nat));
        assert(names[q]@ == comps[i2].name@);
    }
}

/// Every descriptor that is not buildable has its display name reported.
proof fn lemma_reports_cover_unbuildable(
    comps: Seq<Component>,
    c: ServiceContainer,
    rem: Seq<usize>,
    names: Seq<String>,
)
    requires
        comps.len() <= usize::MAX,
        names.len() == rem.len(),
        c@.len() <= comps.len(),
        instances_buildable(c@, comps),
        forall|i2: int|
            0 <= i2 < comps.len() && !c.contains((#[trigger] comps[i2]).type_id) ==> rem.contains(
                i2 as usize,
            ),
        forall|kk: int| 0 <= kk < rem.len() ==> (#[trigger] rem[kk]) < comps.len(),
        forall|q: int|
            0 <= q < names.len() ==> (#[trigger] names[q])@ == comps[rem[q] as int].name@,
    ensures
        forall|i2: int|
            0 <= i2 < comps.len() && !buildable(
                comps,
                (#[trigger] comps[i2]).type_id,
                comps.len() as nat,
            ) ==> name_reported(names, comps, i2),
{
    assert forall|i2: int|
        0 <= i2 < comps.len() && !buildable(
            comps,
            (#[trigger] comps[i2]).type_id,
            comps.len() as nat,
        ) implies name_reported(names, comps, i2) by {
        assert(!c.contains(comps[i2].type_id)) by {
            if c.contains(comps[i2].type_id) {
                lemma_contained_buildable(comps, c, comps[i2].type_id);
            }
        }
        assert(rem.contains(i2 as usize));
        let q = choose|q: int| 0 <= q < rem.len() && rem[q] == i2 as usize;
        assert(rem[q] as int == i2);
        assert(names[q]@ == comps[rem[q] as int].name@);
        assert(names[q]@ == comps[i2].name@);
    }
}

impl ServiceContainer {
    /// Consumes the registered component descriptors and produces the
    /// immutable container, constructing each instance only after all of its
    /// dependencies, by repeated passes over the still-unbuilt descriptors.
    /// The number of passes is bounded by the number of descriptors, which
    /// always exceeds the longest dependency chain of a buildable set.
    ///
    /// Succeeds exactly when identities are distinct and the dependency
    /// graph is complete and acyclic; a failure reports either a duplicated
    /// identity or the display names of every descriptor left unbuilt.
    #[verifier::rlimit(60)]
    pub fn build(components: &Vec<Component>) -> (r: Result<ServiceContainer, StartupError>)
        ensures
            match r {
                Ok(c) => distinct_identities(components@) && all_buildable(components@)
                    && built_from(c, components@),
                Err(e) => match e {
                    StartupError::DuplicateIdentity { identity } => !distinct_identities(
                        components@,
                    ) && exists|i: int, j: int|
                        0 <= i < j < components@.len() && (#[trigger] components@[i]).type_id
                            == identity && (#[trigger] components@[j]).type_id == identity,
                    StartupError::CircularOrUnsatisfiedDependency { names } => {
                        &&& distinct_identities(components@)
                        &&& !all_buildable(components@)
                        &&& reports_unbuildable(names@, components@)
                    },
                    _ => false,
                },
            },
    {
        let n = components.len();
        if let Some(identity) = find_duplicate_identity(components) {
            return Err(StartupError::DuplicateIdentity { identity });
        }
        let mut container = ServiceContainer::new();
        let mut remaining: Vec<usize> = Vec::new();
        let mut i: usize = 0;
        while i < n
            invariant
                n == components@.len(),
                i <= n,
                remaining@.len() == i,
                forall|k: int| 0 <= k < i ==> remaining@[k] == k,
            decreases n - i,
        {
            remaining.push(i);
            i = i + 1;
        }
        proof {
            assert forall|i2: int| 0 <= i2 < n implies remaining@.contains(#[trigger] (i2 as usize)) by {
                assert(remaining@[i2] == i2 as usize);
            }
        }
        let mut pass: usize = 0;
        while pass < n && remaining.len() > 0
            invariant
                n == components@.len(),
                distinct_identities(components@),
                pass <= n,
                container.wf(),
                container@.len() + remaining@.len() <= n,
                forall|k: int| 0 <= k < remaining@.len() ==> (#[trigger] remaining@[k]) < n,
                forall|k1: int, k2: int|
                    0 <= k1 < k2 < remaining@.len() ==> remaining@[k1] != remaining@[k2],
                forall|k: int|
                    0 <= k < remaining@.len() ==> !container.contains(
                        components@[#[trigger] remaining@[k] as int].type_id,
                    ),
                forall|i2: int|
                    0 <= i2 < n && !container.contains((#[trigger] components@[i2]).type_id)
                        ==> remaining@.contains(i2 as usize),
                instances_canonical(container@, components@),
                instances_buildable(container@, components@),
                forall|id: u64| buildable(components@, id, pass as nat) ==> container.contains(id),
            decreases n - pass,
        {
            let ghost snap = container@;
            let nr = build_pass(&mut container, components, &remaining);
            let ghost prev = remaining@;
            remaining = nr;
            proof {
                lemma_pass_completes(components@, snap, container, prev, pass as nat);
            }
            pass = pass + 1;
        }
        if remaining.len() == 0 {
            proof {
                assert forall|i2: int|
                    0 <= i2 < components@.len() implies container.contains(
                    (#[trigger] components@[i2]).type_id,
                ) by {
                    if !container.contains(components@[i2].type_id) {
                        assert(remaining@.contains(i2 as usize));
                    }
                }
                lemma_build_success(components@, container);
            }
            Ok(container)
        } else {
            let r_len = remaining.len();
            let mut names: Vec<String> = Vec::new();
            let mut k2: usize = 0;
            while k2 < r_len
                invariant
                    n == components@.len(),
                    r_len == remaining@.len(),
                    k2 <= r_len,
                    names@.len() == k2,
                    forall|kk: int| 0 <= kk < r_len ==> (#[trigger] remaining@[kk]) < n,
                    forall|q: int|
                        0 <= q < k2 ==> (#[trigger] names@[q])@ == components@[remaining@[q] as int].name@,
                decreases r_len - k2,
            {
                names.push(components[remaining[k2]].name.clone());
                k2 = k2 + 1;
            }
            proof {
                assert(pass == n);
                assert(!container.contains(components@[remaining@[0] as int].type_id));
                assert(!buildable(components@, components@[remaining@[0] as int].type_id, n as nat));
                assert(!all_buildable(components@));
                lemma_reports_names_unbuildable(components@, container, remaining@, names@);
                lemma_reports_cover_unbuildable(components@, container, remaining@, names@);
            }
            Err(StartupError::CircularOrUnsatisfiedDependency { names })
        }
    }
}

} // verus!

