//! One light path: a ray is followed from bounce to bounce until it leaves the
//! scene, is absorbed, or has used up its bounces.

use vstd::prelude::*;
use crate::relation::{outputs1, outputs2, total1, total2};

verus! {

/// What the scene does with a ray.
pub enum Bounce<R, C> {
    /// The ray meets no surface. The field is the light that the background
    /// sends back along it.
    Escaped(C),
    /// The ray meets a surface that swallows it.
    Absorbed,
    /// The ray meets a surface that sends it on as the first field, keeping of
    /// the incoming light the share given by the second.
    Scattered(R, C),
}

/// Whether `out` is a light that a path of at most `depth` bounces may carry
/// back along `ray`.
///
/// `bounce` relates a ray to what the scene may do with it, and `tint` relates
/// an attenuation and a light to their product. A path with no bounce left
/// carries `black`. Otherwise the scene is asked once: the light of the
/// background comes back as it is, an absorbed ray carries `black`, and a
/// scattered ray carries the product of its attenuation and of the light along
/// its continuation, which has one bounce less to spend.
pub open spec fn path_color<R, C>(
    bounce: spec_fn(R, Bounce<R, C>) -> bool,
    tint: spec_fn(C, C, C) -> bool,
    black: C,
    ray: R,
    depth: nat,
    out: C,
) -> bool
    decreases depth,
{
    if depth == 0 {
        out == black
    } else {
        exists|b: Bounce<R, C>| #[trigger]
            bounce(ray, b) && match b {
                Bounce::Escaped(light) => out == light,
                Bounce::Absorbed => out == black,
                Bounce::Scattered(next, attenuation) => exists|inner: C|
                    path_color(bounce, tint, black, next, (depth - 1) as nat, inner)
                        && #[trigger] tint(attenuation, inner, out),
            }
    }
}

/// The light that comes back along `ray` when the path may bounce `depth`
/// times.
///
/// `bounce` stands for the scene and `tint` for the product of an attenuation
/// and a light. With no bounce to spend the result is `black`, whatever the ray
/// and the scene. A ray that can only escape brings back the very light that
/// the scene reported for it, and one that can only be absorbed brings back
/// `black`.
pub fn ray_color<R, C: Copy, B: Fn(R) -> Bounce<R, C>, T: Fn(C, C) -> C>(
    ray: R,
    depth: u32,
    black: C,
    bounce: &B,
    tint: &T,
) -> (out: C)
    requires
        total1(*bounce),
        total2(*tint),
    ensures
        path_color(outputs1(*bounce), outputs2(*tint), black, ray, depth as nat, out),
        depth == 0 ==> out == black,
        depth > 0 && (forall|b: Bounce<R, C>| call_ensures(*bounce, (ray,), b) ==> b is Escaped)
            ==> call_ensures(*bounce, (ray,), Bounce::Escaped(out)),
        depth > 0 && (forall|b: Bounce<R, C>| call_ensures(*bounce, (ray,), b) ==> b is Absorbed)
            ==> out == black,
    decreases depth,
{
    if depth == 0 {
        return black;
    }
    let b = bounce(ray);
    assert(outputs1(*bounce)(ray, b));
    match b {
        Bounce::Escaped(light) => light,
        Bounce::Absorbed => black,
        Bounce::Scattered(next, attenuation) => {
            let inner = ray_color(next, depth - 1, black, bounce, tint);
            let out = tint(attenuation, inner);
            assert(path_color(
                outputs1(*bounce),
                outputs2(*tint),
                black,
                next,
                (depth - 1) as nat,
                inner,
            ) && outputs2(*tint)(attenuation, inner, out));
            out
        },
    }
}

} // verus!
