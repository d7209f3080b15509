//! The closest-hit scan: every primitive of a scene is asked for an
//! intersection nearer than the nearest found so far, and the last one that
//! answers is kept.

use vstd::prelude::*;

verus! {

/// The answers that an intersection test may give for a primitive, a ray, and
/// a lower and an upper bound on the ray parameter.
pub open spec fn probe_outputs<P, R, T, H, F: Fn(&P, &R, T, T) -> Option<(T, H)>>(
    probe: F,
) -> spec_fn(P, R, T, T, Option<(T, H)>) -> bool {
    |p: P, ray: R, t_min: T, t_max: T, answer: Option<(T, H)>|
        call_ensures(probe, (&p, &ray, t_min, t_max), answer)
}

/// The last intersection among `answers`, with its ray parameter.
pub open spec fn kept<T, H>(answers: Seq<Option<(T, H)>>) -> Option<(T, H)>
    decreases answers.len(),
{
    if answers.len() == 0 {
        None
    } else {
        match answers.last() {
            Some(hit) => Some(hit),
            None => kept(answers.drop_last()),
        }
    }
}

/// The upper bound that the next primitive is asked under once `answers` are
/// in: the ray parameter of the intersection kept so far, and `t_max` as long
/// as there is none.
pub open spec fn bound_after<T, H>(t_max: T, answers: Seq<Option<(T, H)>>) -> T {
    match kept(answers) {
        Some((t, _)) => t,
        None => t_max,
    }
}

/// The intersection record of an answer.
pub open spec fn record<T, H>(answer: Option<(T, H)>) -> Option<H> {
    match answer {
        Some((_, hit)) => Some(hit),
        None => None,
    }
}

/// Whether `answers` can be what the primitives of `objects` answer, one after
/// the other, in a scan for `ray` between `t_min` and `t_max`: each answer is
/// one that `probe` allows for its primitive, for `ray`, above `t_min` and
/// under the bound that the answers before it have left.
pub open spec fn is_scan<P, R, T, H>(
    objects: Seq<P>,
    probe: spec_fn(P, R, T, T, Option<(T, H)>) -> bool,
    ray: R,
    t_min: T,
    t_max: T,
    answers: Seq<Option<(T, H)>>,
) -> bool {
    &&& answers.len() == objects.len()
    &&& forall|k: int|
        0 <= k < objects.len() ==> probe(
            objects[k],
            ray,
            t_min,
            bound_after(t_max, answers.take(k)),
            #[trigger] answers[k],
        )
}

/// The intersection to keep of `ray` with the primitives of `objects`, none
/// if no primitive reports one.
///
/// `probe` tests one primitive: handed the ray and two bounds on the ray
/// parameter, it answers with an intersection and its ray parameter, or with
/// none. Every primitive is asked once, in order, for the same ray and above
/// the same `t_min`; the first under `t_max`, each later one under the
/// parameter of the intersection kept so far. The result is the record of the
/// last intersection that was reported.
///
/// The scan compares no parameters itself. That the record it keeps is the
/// closest of those it was shown is [`lemma_scan_keeps_closest`], which holds
/// of primitives that stay inside the bounds they are handed. That it is the
/// closest of the scene, in whatever order the primitives stand, is
/// [`lemma_scan_is_closest`] with [`lemma_closest_ignores_order`], which hold
/// of primitives that report one nearest intersection whenever the bounds let
/// them.
pub fn closest_hit<P, R, T: Copy, H, F: Fn(&P, &R, T, T) -> Option<(T, H)>>(
    objects: &Vec<P>,
    ray: &R,
    t_min: T,
    t_max: T,
    probe: &F,
) -> (out: Option<H>)
    requires
        forall|k: int, bound: T|
            0 <= k < objects@.len() ==> #[trigger] call_requires(
                *probe,
                (&objects@[k], ray, t_min, bound),
            ),
    ensures
        exists|answers: Seq<Option<(T, H)>>| #[trigger]
            is_scan(objects@, probe_outputs(*probe), *ray, t_min, t_max, answers) && out
                == record(kept(answers)),
{
    let mut closest_so_far = t_max;
    let mut hit_anything: Option<H> = None;
    let ghost mut answers: Seq<Option<(T, H)>> = Seq::empty();
    let mut k: usize = 0;
    while k < objects.len()
        invariant
            k <= objects@.len(),
            is_scan(objects@.take(k as int), probe_outputs(*probe), *ray, t_min, t_max, answers),
            closest_so_far == bound_after(t_max, answers),
            hit_anything == record(kept(answers)),
            forall|k: int, bound: T|
                0 <= k < objects@.len() ==> #[trigger] call_requires(
                    *probe,
                    (&objects@[k], ray, t_min, bound),
                ),
        decreases objects@.len() - k,
    {
        let answer = probe(&objects[k], ray, t_min, closest_so_far);
        proof {
            let before = answers;
            answers = before.push(answer);
            assert(answers.drop_last() == before);
            assert forall|i: int| 0 <= i < k + 1 implies probe_outputs(*probe)(
                objects@.take(k + 1)[i],
                *ray,
                t_min,
                bound_after(t_max, answers.take(i)),
                #[trigger] answers[i],
            ) by {
                assert(answers.take(i) == before.take(i));
                if i < k {
                    assert(objects@.take(k as int)[i] == objects@[i]);
                    assert(answers[i] == before[i]);
                } else {
                    assert(before.take(i) == before);
                }
            }
        }
        match answer {
            Some((t, hit)) => {
                closest_so_far = t;
                hit_anything = Some(hit);
            },
            None => {},
        }
        k += 1;
    }
    proof {
        assert(objects@.take(k as int) == objects@);
    }
    hit_anything
}

/// Whether `below` is transitive.
pub open spec fn transitive<T>(below: spec_fn(T, T) -> bool) -> bool {
    forall|a: T, b: T, c: T| #[trigger] below(a, b) && #[trigger] below(b, c) ==> below(a, c)
}

/// Whether every intersection that `probe` may report lies inside the bounds
/// that it was handed: above the lower and below the upper.
pub open spec fn honest<P, R, T, H>(
    probe: spec_fn(P, R, T, T, Option<(T, H)>) -> bool,
    below: spec_fn(T, T) -> bool,
) -> bool {
    forall|p: P, ray: R, t_min: T, t_max: T, t: T, hit: H| #[trigger]
        probe(p, ray, t_min, t_max, Some((t, hit))) ==> below(t_min, t) && below(t, t_max)
}

/// A scan keeps nothing exactly when no primitive reports an intersection.
pub proof fn lemma_kept_none<T, H>(answers: Seq<Option<(T, H)>>)
    ensures
        kept(answers) is None <==> forall|k: int| 0 <= k < answers.len() ==> answers[k] is None,
    decreases answers.len(),
{
    if answers.len() > 0 {
        lemma_kept_none(answers.drop_last());
        if kept(answers) is None {
            assert forall|k: int| 0 <= k < answers.len() implies answers[k] is None by {
                if k < answers.len() - 1 {
                    assert(answers.drop_last()[k] == answers[k]);
                }
            }
        } else if answers.last() is None {
            let k = choose|k: int| 0 <= k < answers.len() - 1 && !(answers.drop_last()[k] is None);
            assert(answers[k] == answers.drop_last()[k]);
        }
    }
}

/// A scan keeps the closest of the intersections that it is shown.
///
/// Let `below` be a transitive order on ray parameters, and let every
/// primitive be honest: what it reports lies inside the bounds that it was
/// handed. Then the intersection that the scan keeps lies inside the bounds
/// that the scan started with, and below every other intersection that was
/// reported on the way.
pub proof fn lemma_scan_keeps_closest<P, R, T, H>(
    objects: Seq<P>,
    probe: spec_fn(P, R, T, T, Option<(T, H)>) -> bool,
    below: spec_fn(T, T) -> bool,
    ray: R,
    t_min: T,
    t_max: T,
    answers: Seq<Option<(T, H)>>,
)
    requires
        transitive(below),
        honest(probe, below),
        is_scan(objects, probe, ray, t_min, t_max, answers),
    ensures
        kept(answers) matches Some((t, _)) ==> {
            &&& below(t_min, t)
            &&& below(t, t_max)
            &&& forall|k: int|
                0 <= k < answers.len() ==> (#[trigger] answers[k] matches Some((other, _)) ==> other
                    == t || below(t, other))
        },
    decreases answers.len(),
{
    if answers.len() > 0 {
        let n = answers.len() - 1;
        let before = answers.drop_last();
        assert(answers.take(n) == before);
        assert(is_scan(objects.drop_last(), probe, ray, t_min, t_max, before)) by {
            assert forall|k: int| 0 <= k < n implies probe(
                objects.drop_last()[k],
                ray,
                t_min,
                bound_after(t_max, before.take(k)),
                #[trigger] before[k],
            ) by {
                assert(before.take(k) == answers.take(k));
                assert(before[k] == answers[k]);
            }
        }
        lemma_scan_keeps_closest(objects.drop_last(), probe, below, ray, t_min, t_max, before);
        lemma_kept_none(before);
        match answers.last() {
            Some((t, hit)) => {
                let bound = bound_after(t_max, before);
                assert(probe(objects[n], ray, t_min, bound, answers[n]));
                assert(probe(objects[n], ray, t_min, bound, Some((t, hit))));
                assert forall|k: int| 0 <= k < answers.len() implies (#[trigger] answers[k] matches Some(
                    (other, _),
                ) ==> other == t || below(t, other)) by {
                    if k < n {
                        assert(before[k] == answers[k]);
                        if let Some((other, _)) = answers[k] {
                            assert(other == bound || below(bound, other));
                        }
                    }
                }
            },
            None => {
                assert forall|k: int| 0 <= k < answers.len() implies (#[trigger] answers[k] matches Some(
                    (other, _),
                ) ==> kept(before) matches Some((t, _)) && (other == t || below(t, other))) by {
                    if k < n {
                        assert(before[k] == answers[k]);
                    }
                }
            },
        }
    }
}

/// What is left of an intersection when only those below `bound` count.
pub open spec fn under<T, H>(
    hit: Option<(T, H)>,
    bound: T,
    below: spec_fn(T, T) -> bool,
) -> Option<(T, H)> {
    match hit {
        Some((t, _)) => if below(t, bound) {
            hit
        } else {
            None
        },
        None => None,
    }
}

/// Whether every primitive has its own nearest intersection with `ray`
/// between `t_min` and `t_max`, the one that `alone` gives, and reports it
/// under every upper bound that it lies below, and nothing under any other.
pub open spec fn steady<P, R, T, H>(
    probe: spec_fn(P, R, T, T, Option<(T, H)>) -> bool,
    below: spec_fn(T, T) -> bool,
    ray: R,
    t_min: T,
    t_max: T,
    alone: spec_fn(P) -> Option<(T, H)>,
) -> bool {
    &&& forall|p: P| (#[trigger] alone(p)) matches Some((t, _)) ==> below(t_min, t) && below(t, t_max)
    &&& forall|p: P, bound: T, answer: Option<(T, H)>|
        (bound == t_max || below(bound, t_max)) && #[trigger] probe(p, ray, t_min, bound, answer)
            ==> answer == under(alone(p), bound, below)
}

/// The closest of `hits`, and of several equally close the first.
pub open spec fn closest<T, H>(hits: Seq<Option<(T, H)>>, below: spec_fn(T, T) -> bool) -> Option<
    (T, H),
>
    decreases hits.len(),
{
    if hits.len() == 0 {
        None
    } else {
        let before = closest(hits.drop_last(), below);
        match (before, hits.last()) {
            (_, None) => before,
            (None, Some(hit)) => Some(hit),
            (Some(best), Some(hit)) => if below(hit.0, best.0) {
                Some(hit)
            } else {
                Some(best)
            },
        }
    }
}

/// The ray parameter of an intersection.
pub open spec fn parameter<T, H>(hit: Option<(T, H)>) -> Option<T> {
    match hit {
        Some((t, _)) => Some(t),
        None => None,
    }
}

/// Whether `below` is a strict total order.
pub open spec fn strict_total<T>(below: spec_fn(T, T) -> bool) -> bool {
    &&& transitive(below)
    &&& forall|a: T| !#[trigger] below(a, a)
    &&& forall|a: T, b: T| #[trigger] below(a, b) || a == b || below(b, a)
}

/// A scan keeps the closest intersection of the scene.
///
/// Let every primitive be steady: it has its own nearest intersection with
/// the ray inside the bounds of the scan, and under a lower bound it reports
/// that intersection or nothing. Then what the scan keeps is the closest of
/// the nearest intersections of all primitives, and of several equally close
/// the one whose primitive comes first.
pub proof fn lemma_scan_is_closest<P, R, T, H>(
    objects: Seq<P>,
    probe: spec_fn(P, R, T, T, Option<(T, H)>) -> bool,
    below: spec_fn(T, T) -> bool,
    ray: R,
    t_min: T,
    t_max: T,
    alone: spec_fn(P) -> Option<(T, H)>,
    answers: Seq<Option<(T, H)>>,
)
    requires
        steady(probe, below, ray, t_min, t_max, alone),
        is_scan(objects, probe, ray, t_min, t_max, answers),
    ensures
        kept(answers) == closest(objects.map_values(alone), below),
        kept(answers) matches Some((t, _)) ==> below(t_min, t) && below(t, t_max),
    decreases answers.len(),
{
    let hits = objects.map_values(alone);
    if answers.len() > 0 {
        let n = answers.len() - 1;
        let before = answers.drop_last();
        assert(answers.take(n) == before);
        assert(is_scan(objects.drop_last(), probe, ray, t_min, t_max, before)) by {
            assert forall|k: int| 0 <= k < n implies probe(
                objects.drop_last()[k],
                ray,
                t_min,
                bound_after(t_max, before.take(k)),
                #[trigger] before[k],
            ) by {
                assert(before.take(k) == answers.take(k));
                assert(before[k] == answers[k]);
            }
        }
        lemma_scan_is_closest(objects.drop_last(), probe, below, ray, t_min, t_max, alone, before);
        assert(hits.drop_last() == objects.drop_last().map_values(alone));
        assert(hits.last() == alone(objects[n]));
        let bound = bound_after(t_max, before);
        assert(probe(objects[n], ray, t_min, bound, answers[n]));
        assert(answers[n] == under(alone(objects[n]), bound, below));
    }
}

/// No intersection is closer than the closest, which is one of them.
pub proof fn lemma_closest_is_least<T, H>(hits: Seq<Option<(T, H)>>, below: spec_fn(T, T) -> bool)
    requires
        strict_total(below),
    ensures
        closest(hits, below) is None <==> forall|k: int| 0 <= k < hits.len() ==> hits[k] is None,
        closest(hits, below) matches Some((t, _)) ==> {
            &&& exists|k: int| 0 <= k < hits.len() && #[trigger] hits[k] == closest(hits, below)
            &&& forall|k: int|
                0 <= k < hits.len() ==> (#[trigger] hits[k] matches Some((other, _)) ==> !below(
                    other,
                    t,
                ))
        },
    decreases hits.len(),
{
    if hits.len() > 0 {
        let n = hits.len() - 1;
        let before = hits.drop_last();
        lemma_closest_is_least(before, below);
        assert forall|k: int| 0 <= k < n implies before[k] == #[trigger] hits[k] by {}
        match (closest(before, below), hits.last()) {
            (_, None) => {
                if let Some((t, _)) = closest(before, below) {
                    let k = choose|k: int| 0 <= k < before.len() && #[trigger] before[k] == closest(before, below);
                    assert(hits[k] == closest(hits, below));
                } else {
                    assert forall|k: int| 0 <= k < hits.len() implies hits[k] is None by {
                        if k < n {
                            assert(before[k] == hits[k]);
                        }
                    }
                }
            },
            (None, Some(hit)) => {
                assert(hits[n] == closest(hits, below));
                assert forall|k: int| 0 <= k < hits.len() implies (#[trigger] hits[k] matches Some(
                    (other, _),
                ) ==> !below(other, hit.0)) by {
                    if k < n {
                        assert(before[k] == hits[k]);
                    }
                }
            },
            (Some(best), Some(hit)) => {
                if below(hit.0, best.0) {
                    assert(hits[n] == closest(hits, below));
                    assert forall|k: int| 0 <= k < hits.len() implies (#[trigger] hits[k] matches Some(
                        (other, _),
                    ) ==> !below(other, hit.0)) by {
                        if k < n {
                            assert(before[k] == hits[k]);
                            if let Some((other, _)) = hits[k] {
                                if below(other, hit.0) {
                                    assert(below(other, best.0));
                                }
                            }
                        }
                    }
                } else {
                    let k = choose|k: int| 0 <= k < before.len() && #[trigger] before[k] == closest(before, below);
                    assert(hits[k] == closest(hits, below));
                    assert forall|k: int| 0 <= k < hits.len() implies (#[trigger] hits[k] matches Some(
                        (other, _),
                    ) ==> !below(other, best.0)) by {
                        if k < n {
                            assert(before[k] == hits[k]);
                        }
                    }
                }
            },
        }
    }
}

/// How close the closest intersection is does not depend on the order of the
/// primitives: two scenes with the same intersections, in whatever order, have
/// their closest at the same ray parameter, or both have none.
pub proof fn lemma_closest_ignores_order<T, H>(
    hits: Seq<Option<(T, H)>>,
    shuffled: Seq<Option<(T, H)>>,
    below: spec_fn(T, T) -> bool,
)
    requires
        strict_total(below),
        hits.to_multiset() == shuffled.to_multiset(),
    ensures
        parameter(closest(hits, below)) == parameter(closest(shuffled, below)),
{
    lemma_closest_is_least(hits, below);
    lemma_closest_is_least(shuffled, below);
    hits.to_multiset_ensures();
    shuffled.to_multiset_ensures();
    assert forall|k: int| 0 <= k < hits.len() implies shuffled.contains(#[trigger] hits[k]) by {
        assert(hits.contains(hits[k]));
        assert(hits.to_multiset().count(hits[k]) > 0);
    }
    assert forall|k: int| 0 <= k < shuffled.len() implies hits.contains(#[trigger] shuffled[k]) by {
        assert(shuffled.contains(shuffled[k]));
        assert(shuffled.to_multiset().count(shuffled[k]) > 0);
    }
    match (closest(hits, below), closest(shuffled, below)) {
        (Some(a), Some(b)) => {
            let i = choose|k: int| 0 <= k < hits.len() && #[trigger] hits[k] == closest(hits, below);
            let j = choose|k: int| 0 <= k < shuffled.len() && #[trigger] shuffled[k] == closest(shuffled, below);
            assert(shuffled.contains(hits[i]));
            let i2 = choose|k: int| 0 <= k < shuffled.len() && shuffled[k] == hits[i];
            assert(shuffled[i2] == Some(a));
            assert(!below(a.0, b.0));
            assert(hits.contains(shuffled[j]));
            let j2 = choose|k: int| 0 <= k < hits.len() && hits[k] == shuffled[j];
            assert(hits[j2] == Some(b));
            assert(!below(b.0, a.0));
            assert(below(a.0, b.0) || a.0 == b.0 || below(b.0, a.0));
        },
        (Some(a), None) => {
            let i = choose|k: int| 0 <= k < hits.len() && #[trigger] hits[k] == closest(hits, below);
            assert(shuffled.contains(hits[i]));
            let i2 = choose|k: int| 0 <= k < shuffled.len() && shuffled[k] == hits[i];
            assert(shuffled[i2] is None);
        },
        (None, Some(b)) => {
            let j = choose|k: int| 0 <= k < shuffled.len() && #[trigger] shuffled[k] == closest(shuffled, below);
            assert(hits.contains(shuffled[j]));
            let j2 = choose|k: int| 0 <= k < hits.len() && hits[k] == shuffled[j];
            assert(hits[j2] is None);
        },
        (None, None) => {},
    }
}

} // verus!
