use crate::scalar::Scalar;
use vstd::prelude::*;

verus! {

/// Whether the primitive at `i` can be the nearest hit: the ray meets it, at a
/// distance that is a number below positive infinity. Every finite distance
/// is one.
pub open spec fn candidate(hits: Seq<Option<Scalar>>, i: int) -> bool {
    &&& 0 <= i < hits.len()
    &&& hits[i].is_some()
    &&& hits[i].unwrap().spec_lt(Scalar::spec_infinity())
}

/// Whether the primitive at `i` is the nearest hit: no candidate is nearer,
/// and none before it is as near.
pub open spec fn nearest(hits: Seq<Option<Scalar>>, i: int) -> bool {
    &&& candidate(hits, i)
    &&& forall|j: int| #[trigger]
        candidate(hits, j) ==> if j < i {
            hits[i].unwrap().rank() < hits[j].unwrap().rank()
        } else {
            hits[i].unwrap().rank() <= hits[j].unwrap().rank()
        }
}

/// The nearest hit among `hits`, if the ray hits anything.
pub open spec fn trace_of(hits: Seq<Option<Scalar>>) -> Option<int> {
    if exists|i: int| nearest(hits, i) {
        Some(choose|i: int| nearest(hits, i))
    } else {
        None
    }
}

/// The primitive that a ray hits first, where `hits` holds for each
/// primitive, in the scene's order, the distance at which the ray meets it.
/// Of several at the same distance the first in `hits` is chosen.
pub fn nearest_hit(hits: &Vec<Option<Scalar>>) -> (r: Option<usize>)
    ensures
        match r {
            Some(i) => trace_of(hits@) == Some(i as int),
            None => trace_of(hits@).is_none(),
        },
{
    let mut bound = Scalar::infinity();
    let mut best: Option<usize> = None;
    let mut i: usize = 0;
    while i < hits.len()
        invariant
            i <= hits.len(),
            !bound.spec_is_nan(),
            bound.rank() <= Scalar::spec_infinity().rank(),
            match best {
                Some(b) => {
                    &&& b < i
                    &&& candidate(hits@, b as int)
                    &&& bound == hits@[b as int].unwrap()
                    &&& forall|j: int|
                        j < i && #[trigger] candidate(hits@, j) ==> if j < b {
                            bound.rank() < hits@[j].unwrap().rank()
                        } else {
                            bound.rank() <= hits@[j].unwrap().rank()
                        }
                },
                None => {
                    &&& bound == Scalar::spec_infinity()
                    &&& forall|j: int| j < i ==> !#[trigger] candidate(hits@, j)
                },
            },
        decreases hits.len() - i,
    {
        let entry = hits[i];
        if let Some(distance) = entry {
            if distance.lt(&bound) {
                bound = distance;
                best = Some(i);
            }
        }
        i += 1;
    }
    proof {
        match best {
            Some(b) => {
                assert(nearest(hits@, b as int));
                lemma_nearest_is_unique(hits@, b as int, choose|k: int| nearest(hits@, k));
            },
            None => {
                assert forall|k: int| !nearest(hits@, k) by {
                    assert(!candidate(hits@, k));
                }
            },
        }
    }
    best
}

/// At most one primitive is the nearest hit.
pub proof fn lemma_nearest_is_unique(hits: Seq<Option<Scalar>>, i: int, j: int)
    requires
        nearest(hits, i),
        nearest(hits, j),
    ensures
        i == j,
{
    assert(candidate(hits, i));
    assert(candidate(hits, j));
}

/// A ray that hits anything has a nearest hit, and only then.
pub proof fn lemma_trace_of_is_some(hits: Seq<Option<Scalar>>)
    ensures
        trace_of(hits).is_some() <==> exists|j: int| candidate(hits, j),
        trace_of(hits).is_some() ==> nearest(hits, trace_of(hits).unwrap()),
{
    if exists|j: int| candidate(hits, j) {
        let j = choose|j: int| candidate(hits, j);
        lemma_nearest_exists(hits, hits.len() as int, j);
        assert(hits.take(hits.len() as int) =~= hits);
    }
    if trace_of(hits).is_some() {
        let i = choose|i: int| nearest(hits, i);
        assert(candidate(hits, i));
    }
}

/// Among the first `n` entries, once one is a candidate, one is nearest.
proof fn lemma_nearest_exists(hits: Seq<Option<Scalar>>, n: int, j: int)
    requires
        0 <= j < n <= hits.len(),
        candidate(hits, j),
    ensures
        exists|i: int| nearest(hits.take(n), i),
    decreases n,
{
    let here = hits.take(n);
    if exists|c: int| 0 <= c < n - 1 && candidate(hits, c) {
        let c = choose|c: int| 0 <= c < n - 1 && candidate(hits, c);
        lemma_nearest_exists(hits, n - 1, c);
        let before = hits.take(n - 1);
        let b = choose|b: int| nearest(before, b);
        assert(candidate(before, b));
        assert(here[b] == hits[b]);
        if candidate(hits, n - 1) && hits[n - 1].unwrap().rank() < hits[b].unwrap().rank() {
            assert forall|k: int| #[trigger] candidate(here, k) implies if k < n - 1 {
                here[n - 1].unwrap().rank() < here[k].unwrap().rank()
            } else {
                here[n - 1].unwrap().rank() <= here[k].unwrap().rank()
            } by {
                if k < n - 1 {
                    assert(before[k] == here[k]);
                    assert(candidate(before, k));
                }
            }
            assert(nearest(here, n - 1));
        } else {
            assert forall|k: int| #[trigger] candidate(here, k) implies if k < b {
                here[b].unwrap().rank() < here[k].unwrap().rank()
            } else {
                here[b].unwrap().rank() <= here[k].unwrap().rank()
            } by {
                if k < n - 1 {
                    assert(before[k] == here[k]);
                    assert(candidate(before, k));
                } else {
                    assert(candidate(hits, n - 1));
                }
            }
            assert(nearest(here, b));
        }
    } else {
        assert(j == n - 1);
        assert forall|k: int| #[trigger] candidate(here, k) implies if k < j {
            here[j].unwrap().rank() < here[k].unwrap().rank()
        } else {
            here[j].unwrap().rank() <= here[k].unwrap().rank()
        } by {
            assert(candidate(hits, k));
        }
        assert(candidate(here, j));
        assert(nearest(here, j));
    }
}

/// Where every distance is finite, the ray has a nearest hit exactly when it
/// meets a primitive: none is found only where none is met, as in a scene
/// without primitives.
pub proof fn lemma_trace_finds_every_hit(hits: Seq<Option<Scalar>>)
    requires
        forall|j: int|
            0 <= j < hits.len() && (#[trigger] hits[j]).is_some() ==> hits[j].unwrap().is_finite(),
    ensures
        trace_of(hits).is_none() <==> forall|j: int|
            0 <= j < hits.len() ==> (#[trigger] hits[j]).is_none(),
{
    lemma_trace_of_is_some(hits);
    if exists|j: int| 0 <= j < hits.len() && (#[trigger] hits[j]).is_some() {
        let j = choose|j: int| 0 <= j < hits.len() && (#[trigger] hits[j]).is_some();
        assert(candidate(hits, j));
    }
    if exists|j: int| candidate(hits, j) {
        let j = choose|j: int| candidate(hits, j);
        assert(hits[j].is_some());
    }
}

/// Of two primitives that the ray hits, the farther one is never chosen.
pub proof fn lemma_trace_prefers_nearer(hits: Seq<Option<Scalar>>, near: int, far: int)
    requires
        candidate(hits, near),
        candidate(hits, far),
        hits[near].unwrap().spec_lt(hits[far].unwrap()),
    ensures
        trace_of(hits).is_some(),
        trace_of(hits) != Some(far),
{
    lemma_trace_of_is_some(hits);
}

/// Of two primitives alone, with different distances, the nearer one is
/// chosen, whichever of the two comes first.
pub proof fn lemma_trace_of_two(near: Scalar, far: Scalar)
    requires
        near.spec_lt(far),
        far.spec_lt(Scalar::spec_infinity()),
    ensures
        trace_of(seq![Some(near), Some(far)]) == Some(0int),
        trace_of(seq![Some(far), Some(near)]) == Some(1int),
{
    let ahead = seq![Some(near), Some(far)];
    let behind = seq![Some(far), Some(near)];
    assert(candidate(ahead, 0) && candidate(ahead, 1));
    assert(candidate(behind, 0) && candidate(behind, 1));
    lemma_trace_prefers_nearer(ahead, 0, 1);
    lemma_trace_prefers_nearer(behind, 1, 0);
    lemma_trace_of_is_some(ahead);
    lemma_trace_of_is_some(behind);
    assert(candidate(ahead, trace_of(ahead).unwrap()));
    assert(candidate(behind, trace_of(behind).unwrap()));
}

/// The distance of the nearest hit does not depend on the order of the
/// primitives: two lists that hold the same distances, each as often as the
/// other, give hits that are equally near, or both give none.
pub proof fn lemma_trace_ignores_order(a: Seq<Option<Scalar>>, b: Seq<Option<Scalar>>)
    requires
        a.to_multiset() == b.to_multiset(),
    ensures
        trace_of(a).is_some() == trace_of(b).is_some(),
        trace_of(a).is_some() ==> a[trace_of(a).unwrap()].unwrap().spec_eq(
            b[trace_of(b).unwrap()].unwrap(),
        ),
{
    lemma_trace_of_is_some(a);
    lemma_trace_of_is_some(b);
    if trace_of(a).is_some() {
        let i = trace_of(a).unwrap();
        let in_b = lemma_candidate_moves(a, b, i);
        let j = trace_of(b).unwrap();
        let in_a = lemma_candidate_moves(b, a, j);
        assert(candidate(a, in_a) && candidate(b, in_b));
    } else if trace_of(b).is_some() {
        let in_a = lemma_candidate_moves(b, a, trace_of(b).unwrap());
        assert(candidate(a, in_a));
    }
}

/// A candidate of one list has its distance in every list with the same
/// entries.
proof fn lemma_candidate_moves(a: Seq<Option<Scalar>>, b: Seq<Option<Scalar>>, i: int) -> (k: int)
    requires
        a.to_multiset() == b.to_multiset(),
        candidate(a, i),
    ensures
        candidate(b, k),
        b[k] == a[i],
{
    a.to_multiset_ensures();
    b.to_multiset_ensures();
    assert(a.contains(a[i]));
    assert(a.to_multiset().count(a[i]) > 0);
    assert(b.to_multiset().count(a[i]) > 0);
    assert(b.contains(a[i]));
    choose|k: int| 0 <= k < b.len() && b[k] == a[i]
}

} // verus!
