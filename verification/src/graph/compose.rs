//! How links composed over a base resolve.

use vstd::prelude::*;

use super::base::{resolved, step_up};
use super::dsu::{absorbed, descending, higher, lower, root_is_a_root, root_of};
use super::types::NodeId;

verus! {

/// The root of `x` under `links` layered over `base`: one walk settles a node
/// that `links` knows, and only an unknown one needs a probe of the base.
pub open spec fn composed(
    links: Map<NodeId, NodeId>,
    base: Map<NodeId, NodeId>,
    x: NodeId,
) -> NodeId {
    if root_of(links, x) != x {
        root_of(links, x)
    } else {
        root_of(links, step_up(base, x))
    }
}

/// The keys of `links`, and the roots they resolve to, are roots of `base`.
pub open spec fn above(links: Map<NodeId, NodeId>, base: Map<NodeId, NodeId>) -> bool {
    forall|k: NodeId| #[trigger]
        links.contains_key(k) ==> !base.contains_key(k) && !base.contains_key(root_of(links, k))
}

/// Over a resolved base, composition is exactly "the base, then the links",
/// and what it gives is a root of both.
pub proof fn composition_is_exact(
    links: Map<NodeId, NodeId>,
    base: Map<NodeId, NodeId>,
    x: NodeId,
)
    requires
        descending(links),
        resolved(base),
        above(links, base),
    ensures
        composed(links, base, x) == root_of(links, step_up(base, x)),
        composed(links, base, x) <= x,
        !links.contains_key(composed(links, base, x)),
        !base.contains_key(composed(links, base, x)),
        composed(links, base, composed(links, base, x)) == composed(links, base, x),
        composed(links, base, x) == x <==> !links.contains_key(x) && !base.contains_key(x),
{
    root_is_a_root(links, x);
    let y = step_up(base, x);
    root_is_a_root(links, y);
    let r = composed(links, base, x);
    assert(root_of(links, r) == r) by {
        root_is_a_root(links, r);
    }
}

/// Joining two composed roots joins exactly their two components.
pub proof fn composed_join(
    links: Map<NodeId, NodeId>,
    links2: Map<NodeId, NodeId>,
    base: Map<NodeId, NodeId>,
    a: NodeId,
    b: NodeId,
)
    requires
        descending(links),
        descending(links2),
        resolved(base),
        above(links, base),
        a != b,
        !links.contains_key(a),
        !links.contains_key(b),
        !base.contains_key(a),
        !base.contains_key(b),
        links2.dom() == links.dom().insert(higher(a, b)),
        forall|y: NodeId|
            root_of(links2, y) == absorbed(root_of(links, y), higher(a, b), lower(a, b)),
    ensures
        above(links2, base),
        forall|x: NodeId| #[trigger]
            composed(links2, base, x) == absorbed(
                composed(links, base, x),
                higher(a, b),
                lower(a, b),
            ),
{
    let hi = higher(a, b);
    let lo = lower(a, b);
    assert forall|k: NodeId| #[trigger] links2.contains_key(k) implies !base.contains_key(k)
        && !base.contains_key(root_of(links2, k)) by {
        if k == hi {
            root_is_a_root(links, hi);
        } else {
            assert(links.dom().contains(k));
        }
    }
    assert forall|x: NodeId| #[trigger]
        composed(links2, base, x) == absorbed(composed(links, base, x), hi, lo) by {
        composition_is_exact(links, base, x);
        composition_is_exact(links2, base, x);
    }
}

/// Links with the same keys and roots compose the same.
pub proof fn same_roots_compose_the_same(
    links: Map<NodeId, NodeId>,
    links2: Map<NodeId, NodeId>,
    base: Map<NodeId, NodeId>,
)
    requires
        links2.dom() == links.dom(),
        forall|y: NodeId| root_of(links2, y) == root_of(links, y),
    ensures
        above(links, base) ==> above(links2, base),
        forall|x: NodeId| #[trigger] composed(links2, base, x) == composed(links, base, x),
{
    if above(links, base) {
        assert forall|k: NodeId| #[trigger] links2.contains_key(k) implies !base.contains_key(k)
            && !base.contains_key(root_of(links2, k)) by {
            assert(links.dom().contains(k));
        }
    }
}

} // verus!
