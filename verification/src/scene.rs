//! The light-transport recursion: how the colour that a ray brings back is
//! put together from what the ray meets.

use vstd::prelude::*;

verus! {

/// What became of a ray.
pub enum Bounce<R, C> {
    /// It met nothing.
    Missed,
    /// It met a surface that gives off `emitted` and sends no ray on.
    Absorbed { emitted: C },
    /// It met a surface that gives off `emitted` and sends `scattered` on,
    /// weighting what that ray brings back by `attenuation`.
    Scattered { emitted: C, attenuation: C, scattered: R },
}

/// What following a ray can come to: whether `met` can be what becomes of
/// `ray`.
pub open spec fn bounces_of<R, C, B: Fn(R) -> Bounce<R, C>>(bounce: B) -> spec_fn(
    R,
    Bounce<R, C>,
) -> bool {
    |ray: R, met: Bounce<R, C>| call_ensures(bounce, (ray,), met)
}

/// What blending can come to: whether `colour` can be the blend of what a
/// surface gives off, its attenuation and what comes back to it.
pub open spec fn blends_of<C, M: Fn(C, C, C) -> C>(blend: M) -> spec_fn(C, C, C, C) -> bool {
    |emitted: C, attenuation: C, inner: C, colour: C|
        call_ensures(blend, (emitted, attenuation, inner), colour)
}

/// Whether `colour` can come back along `ray` with `depth` bounces left:
/// `black` with none left; else `background` where the ray meets nothing,
/// what the surface gives off where it sends no ray on, and otherwise the
/// blend of what it gives off, its attenuation, and what comes back along
/// the scattered ray with one bounce fewer. `bounces` tells what can become
/// of a ray, `blends` what a blend can come to.
pub open spec fn radiance<R, C>(
    bounces: spec_fn(R, Bounce<R, C>) -> bool,
    blends: spec_fn(C, C, C, C) -> bool,
    black: C,
    background: C,
    ray: R,
    depth: nat,
    colour: C,
) -> bool
    decreases depth,
{
    if depth == 0 {
        colour == black
    } else {
        exists|met: Bounce<R, C>|
            #[trigger] bounces(ray, met) && match met {
                Bounce::Missed => colour == background,
                Bounce::Absorbed { emitted } => colour == emitted,
                Bounce::Scattered { emitted, attenuation, scattered } => exists|inner: C|
                    radiance(
                        bounces,
                        blends,
                        black,
                        background,
                        scattered,
                        (depth - 1) as nat,
                        inner,
                    ) && #[trigger] blends(emitted, attenuation, inner, colour),
            }
    }
}

/// The colour that comes back along `ray` when it may bounce `depth` times.
/// `bounce` follows a ray to the nearest surface and asks the material there
/// what it gives off and where it sends the ray; `blend` adds to what a
/// surface gives off what comes back along the scattered ray, weighted by the
/// attenuation.
pub fn ray_color<R, C, B: Fn(R) -> Bounce<R, C>, M: Fn(C, C, C) -> C>(
    ray: R,
    depth: usize,
    black: C,
    background: C,
    bounce: &B,
    blend: &M,
) -> (colour: C)
    requires
        forall|ray: R| call_requires(*bounce, (ray,)),
        forall|emitted: C, attenuation: C, inner: C|
            call_requires(*blend, (emitted, attenuation, inner)),
    ensures
        radiance(
            bounces_of(*bounce),
            blends_of(*blend),
            black,
            background,
            ray,
            depth as nat,
            colour,
        ),
    decreases depth,
{
    if depth == 0 {
        return black;
    }
    let met = bounce(ray);
    let ghost seen = met;
    let colour = match met {
        Bounce::Missed => background,
        Bounce::Absorbed { emitted } => emitted,
        Bounce::Scattered { emitted, attenuation, scattered } => {
            let inner = ray_color(scattered, depth - 1, black, background, bounce, blend);
            let ghost weighted = inner;
            let colour = blend(emitted, attenuation, inner);
            assert(blends_of(*blend)(emitted, attenuation, weighted, colour));
            colour
        },
    };
    assert(bounces_of(*bounce)(ray, seen));
    colour
}

/// A ray that meets nothing brings back the background and nothing else, as
/// long as it may bounce at all.
pub proof fn lemma_miss_is_background<R, C>(
    bounces: spec_fn(R, Bounce<R, C>) -> bool,
    blends: spec_fn(C, C, C, C) -> bool,
    black: C,
    background: C,
    ray: R,
    depth: nat,
    colour: C,
)
    requires
        depth > 0,
        forall|met: Bounce<R, C>| #[trigger] bounces(ray, met) ==> met is Missed,
        radiance(bounces, blends, black, background, ray, depth, colour),
    ensures
        colour == background,
{
}

/// A ray that meets a surface brings back what the surface gives off,
/// blended with what the scattered ray brings back: black where no bounce is
/// left for it, the background where one is left and it meets nothing.
pub proof fn lemma_one_surface<R, C>(
    bounces: spec_fn(R, Bounce<R, C>) -> bool,
    blends: spec_fn(C, C, C, C) -> bool,
    black: C,
    background: C,
    ray: R,
    depth: nat,
    colour: C,
    emitted: C,
    attenuation: C,
    scattered: R,
)
    requires
        depth == 1 || depth == 2,
        forall|met: Bounce<R, C>|
            #[trigger] bounces(ray, met) ==> met == (Bounce::Scattered {
                emitted,
                attenuation,
                scattered,
            }),
        forall|met: Bounce<R, C>| #[trigger] bounces(scattered, met) ==> met is Missed,
        radiance(bounces, blends, black, background, ray, depth, colour),
    ensures
        blends(emitted, attenuation, if depth == 1 { black } else { background }, colour),
{
    reveal_with_fuel(radiance, 3);
}

} // verus!
