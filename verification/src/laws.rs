//! Laws of the resolution engine, stated over the specification model that
//! the executable functions are proved against.

use vstd::prelude::*;

use crate::dataset::{find_root, lemma_find_root_from, lower_bound, spec_resolve};
use crate::normalize::no_dot_components;
use crate::path::{is_abs, lemma_parse_render, parse_path, render_path, wf_path};

verus! {

/// Containment: when resolution succeeds, the resolved root joined with the
/// relative path gives back exactly the path that was resolved.
pub proof fn lemma_resolve_containment(path: Seq<Seq<char>>, roots: Seq<Seq<Seq<char>>>)
    requires
        spec_resolve(path, roots) is Some,
    ensures
        spec_resolve(path, roots)->Some_0.0 + spec_resolve(path, roots)->Some_0.1 == path,
{
    let k = find_root(path, roots)->Some_0;
    lemma_find_root_from(path, roots, path.len() as int, lower_bound(path));
    assert(path.take(k) + path.skip(k) =~= path);
}

/// Nesting: resolution never selects a mounted root when a more specific
/// mounted root also contains the path. If `inner` is a mounted root and an
/// ancestor of the path, the selected root is at least as specific.
pub proof fn lemma_resolve_prefers_innermost(
    path: Seq<Seq<char>>,
    roots: Seq<Seq<Seq<char>>>,
    inner: Seq<Seq<char>>,
)
    requires
        roots.contains(inner),
        inner.len() <= path.len(),
        path.take(inner.len() as int) == inner,
        lower_bound(path) <= inner.len(),
    ensures
        find_root(path, roots) is Some,
        find_root(path, roots)->Some_0 >= inner.len(),
{
    lemma_find_root_from(path, roots, path.len() as int, lower_bound(path));
    assert(roots.contains(path.take(inner.len() as int)));
}

/// Rejection: a path none of whose ancestors is a mounted root does not
/// resolve.
pub proof fn lemma_unmounted_path_rejected(path: Seq<Seq<char>>, roots: Seq<Seq<Seq<char>>>)
    requires
        forall|k: int|
            lower_bound(path) <= k <= path.len() ==> !(#[trigger] roots.contains(path.take(k))),
    ensures
        spec_resolve(path, roots) is None,
{
    lemma_find_root_from(path, roots, path.len() as int, lower_bound(path));
}

/// Idempotence of normalization: a normalized path — well-formed, absolute
/// and free of dot components, as normalization guarantees — rendered back
/// to a string parses to exactly its own components, still absolute and
/// dot-free. Normalizing it a second time therefore succeeds and returns
/// the same components.
pub proof fn lemma_normalize_idempotent(p: Seq<Seq<char>>)
    requires
        wf_path(p),
        is_abs(p),
        no_dot_components(p),
    ensures
        parse_path(render_path(p)) == p,
        is_abs(parse_path(render_path(p))),
        no_dot_components(parse_path(render_path(p))),
{
    lemma_parse_render(p);
}

/// Idempotence: resolution is a function of the path and the mounted roots
/// alone, so two resolutions of one path against one mount set agree.
pub proof fn lemma_resolve_idempotent(
    path: Seq<Seq<char>>,
    roots: Seq<Seq<Seq<char>>>,
    first: Option<(Seq<Seq<char>>, Seq<Seq<char>>)>,
    second: Option<(Seq<Seq<char>>, Seq<Seq<char>>)>,
)
    requires
        first == spec_resolve(path, roots),
        second == spec_resolve(path, roots),
    ensures
        first == second,
{
}

} // verus!
