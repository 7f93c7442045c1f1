//! The containment check that guards every removal.
//!
//! Deletion is irreversible, so a removal is only allowed strictly inside the
//! scan root: never the root itself, never anything outside it. Paths are
//! compared as `Path` compares them, component by component (each component
//! as its raw bytes), after both have been resolved to canonical form.

use vstd::prelude::*;

verus! {

/// Why a removal is refused.
#[derive(Clone, Copy, Debug, PartialEq, Eq, Structural)]
pub enum Refusal {
    /// The target is the scan root itself.
    RootItself,
    /// The target does not lie inside the scan root.
    OutsideRoot,
}

/// The components of a path, each as its bytes.
pub open spec fn components_view(v: Seq<Vec<u8>>) -> Seq<Seq<u8>> {
    v.map_values(|c: Vec<u8>| c@)
}

/// Whether the components `a` and `b` are equal.
fn component_eq(a: &Vec<u8>, b: &Vec<u8>) -> (r: bool)
    ensures
        r == (a@ == b@),
{
    if a.len() != b.len() {
        return false;
    }
    let n = a.len();
    for i in 0..n
        invariant
            n == a@.len(),
            n == b@.len(),
            forall|j: int| 0 <= j < i ==> a@[j] == b@[j],
    {
        if a[i] != b[i] {
            return false;
        }
    }
    assert(a@ =~= b@);
    true
}

/// Whether the path with components `root` is a prefix of the one with
/// components `target`.
pub fn starts_with_components(target: &Vec<Vec<u8>>, root: &Vec<Vec<u8>>) -> (r: bool)
    ensures
        r == components_view(root@).is_prefix_of(components_view(target@)),
{
    let n = root.len();
    if n > target.len() {
        return false;
    }
    for i in 0..n
        invariant
            n == root@.len(),
            n <= target@.len(),
            forall|j: int| 0 <= j < i ==> #[trigger] root@[j]@ == target@[j]@,
    {
        if !component_eq(&root[i], &target[i]) {
            assert(components_view(root@)[i as int] != components_view(target@).subrange(0, n as int)[i as int]);
            return false;
        }
    }
    assert(components_view(root@) =~= components_view(target@).subrange(0, n as int));
    true
}

/// Whether the paths with components `a` and `b` are equal.
pub fn same_path(a: &Vec<Vec<u8>>, b: &Vec<Vec<u8>>) -> (r: bool)
    ensures
        r == (components_view(a@) == components_view(b@)),
{
    if a.len() != b.len() {
        return false;
    }
    let r = starts_with_components(a, b);
    proof {
        if r {
            assert(components_view(a@).subrange(0, components_view(a@).len() as int) =~= components_view(a@));
        }
    }
    r
}

/// Decides whether `target` may be removed under the scan `root` (both
/// canonical, given as components): refused when it is the root itself or
/// lies outside it, allowed when it lies strictly inside.
pub fn check_removal(root: &Vec<Vec<u8>>, target: &Vec<Vec<u8>>) -> (r: Result<(), Refusal>)
    ensures
        r == (if components_view(target@) == components_view(root@) {
            Err(Refusal::RootItself)
        } else if !components_view(root@).is_prefix_of(components_view(target@)) {
            Err(Refusal::OutsideRoot)
        } else {
            Ok(())
        }),
{
    if same_path(target, root) {
        return Err(Refusal::RootItself);
    }
    if !starts_with_components(target, root) {
        return Err(Refusal::OutsideRoot);
    }
    Ok(())
}

/// A removal that is allowed lies strictly below the root: the root's
/// components are a proper prefix of the target's.
pub proof fn lemma_allowed_is_strictly_inside(root: Seq<Seq<u8>>, target: Seq<Seq<u8>>)
    requires
        target != root,
        root.is_prefix_of(target),
    ensures
        root.len() < target.len(),
        target.subrange(0, root.len() as int) == root,
{
    if root.len() == target.len() {
        assert(target =~= target.subrange(0, root.len() as int));
    }
}

} // verus!
