//! Rejection sampling: candidates are drawn until one passes a test.

use vstd::prelude::*;

verus! {

/// The candidates that a source may draw.
pub open spec fn candidates<P, D: Fn() -> P>(draw: D) -> spec_fn(P) -> bool {
    |p: P| call_ensures(draw, (), p)
}

/// The verdicts that a test may give on a candidate.
pub open spec fn verdicts<P, A: Fn(&P) -> bool>(accept: A) -> spec_fn(P, bool) -> bool {
    |p: P, verdict: bool| call_ensures(accept, (&p,), verdict)
}

/// Whether every candidate of `tried` was drawn and turned down.
pub open spec fn all_rejected<P>(
    draw: spec_fn(P) -> bool,
    accept: spec_fn(P, bool) -> bool,
    tried: Seq<P>,
) -> bool {
    forall|k: int| 0 <= k < tried.len() ==> draw(#[trigger] tried[k]) && accept(tried[k], false)
}

/// Whether `out` may come of at most `attempts` draws: the first candidate
/// that passes the test, after fewer than `attempts` that failed it, or none
/// after `attempts` that failed it.
pub open spec fn sampled<P>(
    draw: spec_fn(P) -> bool,
    accept: spec_fn(P, bool) -> bool,
    attempts: nat,
    out: Option<P>,
) -> bool {
    exists|tried: Seq<P>| #[trigger]
        all_rejected(draw, accept, tried) && match out {
            Some(p) => tried.len() < attempts && draw(p) && accept(p, true),
            None => tried.len() == attempts,
        }
}

/// Draws candidates until one passes the test, at most `attempts` times.
///
/// The result is the first candidate that `accept` lets through, so a point
/// that comes back has passed the test, whatever was drawn before it. It is
/// none only if `attempts` candidates in a row were turned down; a caller that
/// wants a sample at any price calls again.
pub fn rejection_sample<P, D: Fn() -> P, A: Fn(&P) -> bool>(
    attempts: u32,
    draw: &D,
    accept: &A,
) -> (out: Option<P>)
    requires
        call_requires(*draw, ()),
        forall|p: P| call_requires(*accept, (&p,)),
    ensures
        sampled(candidates(*draw), verdicts(*accept), attempts as nat, out),
        out matches Some(p) ==> call_ensures(*accept, (&p,), true),
        attempts == 0 ==> out is None,
{
    let ghost mut tried: Seq<P> = Seq::empty();
    let mut drawn: u32 = 0;
    while drawn < attempts
        invariant
            drawn <= attempts,
            tried.len() == drawn,
            all_rejected(candidates(*draw), verdicts(*accept), tried),
            call_requires(*draw, ()),
            forall|p: P| call_requires(*accept, (&p,)),
        decreases attempts - drawn,
    {
        let p = draw();
        if accept(&p) {
            assert(candidates(*draw)(p) && verdicts(*accept)(p, true));
            return Some(p);
        }
        proof {
            let before = tried;
            tried = before.push(p);
            assert forall|k: int| 0 <= k < tried.len() implies candidates(*draw)(
                #[trigger] tried[k],
            ) && verdicts(*accept)(tried[k], false) by {
                if k < before.len() {
                    assert(tried[k] == before[k]);
                }
            }
        }
        drawn += 1;
    }
    None
}

} // verus!
