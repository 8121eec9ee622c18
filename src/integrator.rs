//! The recursive radiance estimate along one camera ray.
use vstd::prelude::*;

verus! {

/// What the scene does with one ray: it escapes, or meets a surface whose
/// material emits light and either absorbs the ray or scatters it with an
/// attenuation.
pub enum Bounce<C, Ry> {
    Miss,
    Absorbed { emitted: C },
    Scattered { emitted: C, attenuation: C, scattered: Ry },
}

/// `r` is a value that the estimate may take for `ray` with `depth` bounces
/// left, given the answers that `trace` and `shade` may give.
pub open spec fn color_of<C, Ry, FT: Fn(&Ry) -> Bounce<C, Ry>, FS: Fn(&C, &C, &C) -> C>(
    trace: FT,
    shade: FS,
    ray: Ry,
    background: C,
    black: C,
    depth: int,
    r: C,
) -> bool
    decreases depth,
{
    if depth <= 0 {
        r == black
    } else {
        exists|out: Bounce<C, Ry>|
            #[trigger] trace.ensures((&ray,), out) && match out {
                Bounce::Miss => r == background,
                Bounce::Absorbed { emitted } => r == emitted,
                Bounce::Scattered { emitted, attenuation, scattered } => exists|inc: C|
                    #[trigger] shade.ensures((&emitted, &attenuation, &inc), r) && color_of(
                        trace,
                        shade,
                        scattered,
                        background,
                        black,
                        depth - 1,
                        inc,
                    ),
            }
    }
}

/// The radiance estimate for `ray` with `depth` bounces left: `black` when
/// the budget is spent, the background on a miss, the emitted light when the
/// ray is absorbed, and otherwise `shade(emitted, attenuation, incoming)`
/// with `incoming` the estimate for the scattered ray one bounce deeper.
pub fn ray_color<C: Copy, Ry, FT: Fn(&Ry) -> Bounce<C, Ry>, FS: Fn(&C, &C, &C) -> C>(
    ray: &Ry,
    background: C,
    black: C,
    depth: i32,
    trace: &FT,
    shade: &FS,
) -> (r: C)
    requires
        forall|x: &Ry| #[trigger] trace.requires((x,)),
        forall|e: &C, a: &C, i: &C| #[trigger] shade.requires((e, a, i)),
    ensures
        color_of(*trace, *shade, *ray, background, black, depth as int, r),
        depth <= 0 ==> r == black,
    decreases depth,
{
    if depth <= 0 {
        return black;
    }
    let out = trace(ray);
    match out {
        Bounce::Miss => background,
        Bounce::Absorbed { emitted } => emitted,
        Bounce::Scattered { emitted, attenuation, scattered } => {
            let inc = ray_color(&scattered, background, black, depth - 1, trace, shade);
            let r = shade(&emitted, &attenuation, &inc);
            assert(trace.ensures((ray,), Bounce::Scattered { emitted, attenuation, scattered }));
            r
        },
    }
}

} // verus!
