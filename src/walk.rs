//! What a whole walk yields on a filesystem described by its links, and the
//! properties of that result.
//!
//! `links` maps each path that names a link to the target stored in it; a
//! path outside its domain is not a link, and reading it fails.
use vstd::prelude::*;

use crate::path::{
    absolute_of, is_absolute, joined, lemma_absolute_of_normal, lemma_normal_form_idempotent,
    normal_form, parent_dir,
};
use crate::resolver::{
    check_step, read_step, start_step, steps_left, view_wf, Phase, ResolveError, ResolverView,
};

verus! {

/// The walk from the link at `path`, with relative targets read against
/// `anchor`, after `hops` link reads.
pub open spec fn chase(
    links: Map<Seq<u8>, Seq<u8>>,
    anchor: Seq<u8>,
    path: Seq<u8>,
    hops: nat,
    max_hops: nat,
) -> Result<Seq<u8>, ResolveError>
    decreases max_hops - hops,
{
    if !links.contains_key(path) {
        Err(ResolveError::Io)
    } else if hops >= max_hops {
        Err(ResolveError::HopLimitExceeded)
    } else {
        let cur = normal_form(joined(anchor, links[path]));
        if !links.contains_key(cur) {
            Ok(normal_form(cur))
        } else {
            chase(links, parent_dir(cur), cur, hops + 1, max_hops)
        }
    }
}

/// The result of following the link chain from `input`, for the working
/// directory `cwd` and at most `max_hops` link reads.
pub open spec fn resolution(
    links: Map<Seq<u8>, Seq<u8>>,
    cwd: Seq<u8>,
    input: Seq<u8>,
    max_hops: nat,
) -> Result<Seq<u8>, ResolveError> {
    if input.len() == 0 {
        Err(ResolveError::Io)
    } else {
        chase(links, parent_dir(absolute_of(cwd, input)), input, 0, max_hops)
    }
}

/// What the rest of a walk in state `v` yields.
pub open spec fn outcome(links: Map<Seq<u8>, Seq<u8>>, v: ResolverView) -> Result<
    Seq<u8>,
    ResolveError,
> {
    match v.phase {
        Phase::AwaitLink => chase(links, v.anchor, v.current, v.hops, v.max_hops),
        Phase::AwaitCheck => if !links.contains_key(v.current) {
            Ok(normal_form(v.current))
        } else {
            chase(links, parent_dir(v.current), v.current, v.hops, v.max_hops)
        },
        Phase::Finished => Err(ResolveError::Io),
    }
}

/// The answer to reading the link at `p`.
pub open spec fn lookup(links: Map<Seq<u8>, Seq<u8>>, p: Seq<u8>) -> Option<Seq<u8>> {
    if links.contains_key(p) {
        Some(links[p])
    } else {
        None
    }
}

/// The path one link read leads to from the link `p`.
pub open spec fn next_hop(links: Map<Seq<u8>, Seq<u8>>, cwd: Seq<u8>, p: Seq<u8>) -> Seq<u8> {
    normal_form(joined(parent_dir(absolute_of(cwd, p)), links[p]))
}

/// A walk starts in a state whose outcome is the resolution of its input,
/// unless it is over at once.
pub proof fn lemma_start_outcome(
    links: Map<Seq<u8>, Seq<u8>>,
    cwd: Seq<u8>,
    input: Seq<u8>,
    max_hops: nat,
)
    ensures
        ({
            let (v, s) = start_step(input, cwd, max_hops);
            &&& s is Done ==> s->Done_0 == resolution(links, cwd, input, max_hops)
            &&& !(s is Done) ==> v.phase == Phase::AwaitLink && outcome(links, v) == resolution(
                links,
                cwd,
                input,
                max_hops,
            )
        }),
{
}

/// Answering a link read as the filesystem does either ends the walk with its
/// outcome or moves to a state with the same outcome.
pub proof fn lemma_read_step_outcome(links: Map<Seq<u8>, Seq<u8>>, v: ResolverView)
    requires
        v.phase == Phase::AwaitLink,
        view_wf(v),
    ensures
        ({
            let (w, s) = read_step(v, lookup(links, v.current));
            &&& s is Done ==> s->Done_0 == outcome(links, v)
            &&& !(s is Done) ==> outcome(links, w) == outcome(links, v)
            &&& view_wf(w)
            &&& steps_left(w) < steps_left(v)
        }),
{
    if links.contains_key(v.current) && v.hops < v.max_hops {
        lemma_normal_form_idempotent(joined(v.anchor, links[v.current]));
    }
}

/// Answering a link check as the filesystem does either ends the walk with
/// its outcome or moves to a state with the same outcome.
pub proof fn lemma_check_step_outcome(links: Map<Seq<u8>, Seq<u8>>, v: ResolverView)
    requires
        v.phase == Phase::AwaitCheck,
        view_wf(v),
    ensures
        ({
            let (w, s) = check_step(v, links.contains_key(v.current));
            &&& s is Done ==> s->Done_0 == outcome(links, v)
            &&& !(s is Done) ==> outcome(links, w) == outcome(links, v)
            &&& view_wf(w)
            &&& steps_left(w) < steps_left(v)
        }),
{
}

/// A walk from a path that is not a link fails with `Io`.
pub proof fn lemma_not_a_link_fails(
    links: Map<Seq<u8>, Seq<u8>>,
    cwd: Seq<u8>,
    input: Seq<u8>,
    max_hops: nat,
)
    requires
        !links.contains_key(input),
    ensures
        resolution(links, cwd, input, max_hops) == Err::<Seq<u8>, ResolveError>(ResolveError::Io),
{
}

/// A link whose absolute target `f` is not a link resolves to the normal
/// form of `f`.
pub proof fn lemma_absolute_link_to_file(
    links: Map<Seq<u8>, Seq<u8>>,
    cwd: Seq<u8>,
    input: Seq<u8>,
    max_hops: nat,
)
    requires
        input.len() > 0,
        links.contains_key(input),
        is_absolute(links[input]),
        !links.contains_key(normal_form(links[input])),
        max_hops >= 1,
    ensures
        resolution(links, cwd, input, max_hops) == Ok::<Seq<u8>, ResolveError>(
            normal_form(links[input]),
        ),
{
    lemma_normal_form_idempotent(links[input]);
}

/// The walk from a link after `hops` reads depends on how many reads are
/// left, not on how many were made.
pub proof fn lemma_chase_shift(
    links: Map<Seq<u8>, Seq<u8>>,
    anchor: Seq<u8>,
    path: Seq<u8>,
    hops: nat,
    max_hops: nat,
)
    ensures
        chase(links, anchor, path, hops + 1, max_hops + 1) == chase(
            links,
            anchor,
            path,
            hops,
            max_hops,
        ),
    decreases max_hops - hops,
{
    if links.contains_key(path) && hops < max_hops {
        let cur = normal_form(joined(anchor, links[path]));
        if links.contains_key(cur) {
            lemma_chase_shift(links, parent_dir(cur), cur, hops + 1, max_hops);
        }
    }
}

/// A link `l` whose target `t` is relative resolves as `t` read against the
/// directory that holds `l`; where that path is a link in turn, as the walk
/// from it with one read fewer.
pub proof fn lemma_relative_link(
    links: Map<Seq<u8>, Seq<u8>>,
    cwd: Seq<u8>,
    l: Seq<u8>,
    max_hops: nat,
)
    requires
        l.len() > 0,
        links.contains_key(l),
        !is_absolute(links[l]),
        max_hops >= 1,
    ensures
        ({
            let c = normal_form(joined(parent_dir(absolute_of(cwd, l)), links[l]));
            &&& !links.contains_key(c) ==> resolution(links, cwd, l, max_hops) == Ok::<
                Seq<u8>,
                ResolveError,
            >(c)
            &&& links.contains_key(c) ==> resolution(links, cwd, l, max_hops) == resolution(
                links,
                cwd,
                c,
                (max_hops - 1) as nat,
            )
        }),
{
    let d = parent_dir(absolute_of(cwd, l));
    let c = normal_form(joined(d, links[l]));
    lemma_normal_form_idempotent(joined(d, links[l]));
    if links.contains_key(c) {
        lemma_absolute_of_normal(cwd, c);
        lemma_chase_shift(links, parent_dir(c), c, 0, (max_hops - 1) as nat);
    }
}

/// `chain` is a chain of links from `chain[0]`: each entry but the last is a
/// link that leads to the next, and the last is not a link.
pub open spec fn is_link_chain(
    links: Map<Seq<u8>, Seq<u8>>,
    cwd: Seq<u8>,
    chain: Seq<Seq<u8>>,
) -> bool {
    &&& chain.len() >= 2
    &&& forall|i: int|
        0 <= i < chain.len() - 1 ==> #[trigger] links.contains_key(chain[i]) && chain[i + 1]
            == next_hop(links, cwd, chain[i])
    &&& !links.contains_key(chain.last())
}

proof fn lemma_chain_from(
    links: Map<Seq<u8>, Seq<u8>>,
    cwd: Seq<u8>,
    chain: Seq<Seq<u8>>,
    j: nat,
    max_hops: nat,
)
    requires
        is_link_chain(links, cwd, chain),
        chain.len() - 1 <= max_hops,
        j < chain.len() - 1,
        j > 0 ==> normal_form(chain[j as int]) == chain[j as int],
    ensures
        chase(links, parent_dir(absolute_of(cwd, chain[j as int])), chain[j as int], j, max_hops)
            == Ok::<Seq<u8>, ResolveError>(chain.last()),
    decreases chain.len() - j,
{
    let p = chain[j as int];
    assert(links.contains_key(p));
    let next = chain[(j + 1) as int];
    assert(next == next_hop(links, cwd, p));
    lemma_normal_form_idempotent(joined(parent_dir(absolute_of(cwd, p)), links[p]));
    if j + 1 < chain.len() - 1 {
        assert(links.contains_key(chain[(j + 1) as int]));
        lemma_absolute_of_normal(cwd, next);
        lemma_chain_from(links, cwd, chain, j + 1, max_hops);
    }
}

/// A chain of at most `max_hops` links that ends in a path that is not a
/// link resolves to that path, whatever mix of relative and absolute targets
/// it passes through.
pub proof fn lemma_chain_resolves(
    links: Map<Seq<u8>, Seq<u8>>,
    cwd: Seq<u8>,
    chain: Seq<Seq<u8>>,
    max_hops: nat,
)
    requires
        chain[0].len() > 0,
        is_link_chain(links, cwd, chain),
        chain.len() - 1 <= max_hops,
    ensures
        resolution(links, cwd, chain[0], max_hops) == Ok::<Seq<u8>, ResolveError>(chain.last()),
{
    lemma_chain_from(links, cwd, chain, 0, max_hops);
}

/// Every path of `s` is a link that leads back into `s`.
pub open spec fn is_link_cycle(links: Map<Seq<u8>, Seq<u8>>, cwd: Seq<u8>, s: Set<Seq<u8>>) -> bool {
    forall|p: Seq<u8>|
        #[trigger] s.contains(p) ==> links.contains_key(p) && s.contains(next_hop(links, cwd, p))
}

proof fn lemma_cycle_from(
    links: Map<Seq<u8>, Seq<u8>>,
    cwd: Seq<u8>,
    s: Set<Seq<u8>>,
    p: Seq<u8>,
    hops: nat,
    max_hops: nat,
)
    requires
        is_link_cycle(links, cwd, s),
        s.contains(p),
        hops > 0 ==> normal_form(p) == p,
    ensures
        chase(links, parent_dir(absolute_of(cwd, p)), p, hops, max_hops) == Err::<
            Seq<u8>,
            ResolveError,
        >(ResolveError::HopLimitExceeded),
    decreases max_hops - hops,
{
    if hops < max_hops {
        let next = next_hop(links, cwd, p);
        assert(s.contains(next));
        lemma_normal_form_idempotent(joined(parent_dir(absolute_of(cwd, p)), links[p]));
        lemma_absolute_of_normal(cwd, next);
        lemma_cycle_from(links, cwd, s, next, hops + 1, max_hops);
    }
}

/// A walk that enters a cycle of links fails with `HopLimitExceeded`.
pub proof fn lemma_cycle_fails(
    links: Map<Seq<u8>, Seq<u8>>,
    cwd: Seq<u8>,
    s: Set<Seq<u8>>,
    input: Seq<u8>,
    max_hops: nat,
)
    requires
        input.len() > 0,
        is_link_cycle(links, cwd, s),
        s.contains(input),
    ensures
        resolution(links, cwd, input, max_hops) == Err::<Seq<u8>, ResolveError>(
            ResolveError::HopLimitExceeded,
        ),
{
    lemma_cycle_from(links, cwd, s, input, 0, max_hops);
}

proof fn lemma_chase_normal(
    links: Map<Seq<u8>, Seq<u8>>,
    anchor: Seq<u8>,
    path: Seq<u8>,
    hops: nat,
    max_hops: nat,
)
    ensures
        chase(links, anchor, path, hops, max_hops) is Ok ==> normal_form(
            chase(links, anchor, path, hops, max_hops)->Ok_0,
        ) == chase(links, anchor, path, hops, max_hops)->Ok_0,
    decreases max_hops - hops,
{
    if links.contains_key(path) && hops < max_hops {
        let cur = normal_form(joined(anchor, links[path]));
        lemma_normal_form_idempotent(joined(anchor, links[path]));
        if links.contains_key(cur) {
            lemma_chase_normal(links, parent_dir(cur), cur, hops + 1, max_hops);
        }
    }
}

/// A resolved path is in normal form: taking its absolute form again, for any
/// working directory, gives it back unchanged.
pub proof fn lemma_resolved_is_fixed(
    links: Map<Seq<u8>, Seq<u8>>,
    cwd: Seq<u8>,
    input: Seq<u8>,
    max_hops: nat,
    other_cwd: Seq<u8>,
)
    requires
        resolution(links, cwd, input, max_hops) is Ok,
    ensures
        ({
            let r = resolution(links, cwd, input, max_hops)->Ok_0;
            &&& normal_form(r) == r
            &&& is_absolute(r)
            &&& absolute_of(other_cwd, r) == r
        }),
{
    let r = resolution(links, cwd, input, max_hops)->Ok_0;
    lemma_chase_normal(links, parent_dir(absolute_of(cwd, input)), input, 0, max_hops);
    lemma_normal_form_idempotent(r);
    lemma_absolute_of_normal(other_cwd, r);
}

} // verus!
