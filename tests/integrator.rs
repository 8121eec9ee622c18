use raytracer::integrator::{ray_color, Bounce};

// A ray is a bounce counter; the "scene" scatters it with attenuation 2
// and emission 1 until it reaches `stop`, where it escapes.
fn trace_until(stop: u32) -> impl Fn(&u32) -> Bounce<i64, u32> {
    move |r: &u32| {
        if *r >= stop {
            Bounce::Miss
        } else {
            Bounce::Scattered {
                emitted: 1,
                attenuation: 2,
                scattered: *r + 1,
            }
        }
    }
}

fn shade(e: &i64, a: &i64, i: &i64) -> i64 {
    *e + *a * *i
}

#[test]
fn zero_depth_is_black() {
    let trace = trace_until(100);
    assert_eq!(ray_color(&0u32, 7i64, -1i64, 0, &trace, &shade), -1);
    assert_eq!(ray_color(&0u32, 7i64, -1i64, -3, &trace, &shade), -1);
    let light = |_: &u32| Bounce::<i64, u32>::Absorbed { emitted: 50 };
    assert_eq!(ray_color(&0u32, 7i64, 0i64, 0, &light, &shade), 0);
}

#[test]
fn miss_gives_background() {
    let trace = trace_until(0);
    assert_eq!(ray_color(&0u32, 7i64, 0i64, 5, &trace, &shade), 7);
}

#[test]
fn absorbed_gives_emission() {
    let light = |_: &u32| Bounce::<i64, u32>::Absorbed { emitted: 50 };
    assert_eq!(ray_color(&0u32, 7i64, 0i64, 3, &light, &shade), 50);
}

#[test]
fn bounces_compose() {
    // two scatters, then a miss: 1 + 2 * (1 + 2 * 7)
    let trace = trace_until(2);
    assert_eq!(ray_color(&0u32, 7i64, 0i64, 10, &trace, &shade), 31);
    // depth 2: the third trace is cut off: 1 + 2 * (1 + 2 * 0)
    assert_eq!(ray_color(&0u32, 7i64, 0i64, 2, &trace, &shade), 3);
}
