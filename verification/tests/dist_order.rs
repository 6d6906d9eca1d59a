//! The exact sqrt(2)-weighted length order.

use flowfield::dist::{Dist, Distance};

fn fin(ortho: u32, diag: u32) -> Distance {
    Distance::Finite(Dist { ortho, diag })
}

fn value(d: &Dist) -> f64 {
    d.ortho as f64 + d.diag as f64 * 2.0f64.sqrt()
}

#[test]
fn zero_is_least() {
    let z = Dist::zero();
    assert_eq!(z, Dist { ortho: 0, diag: 0 });
    assert!(z.le(Dist { ortho: 3, diag: 1 }));
    assert!(z.le(z));
    assert!(!z.lt(z));
}

#[test]
fn orthogonal_beats_diagonal() {
    // 1 < sqrt(2)
    assert!(Dist { ortho: 1, diag: 0 }.lt(Dist { ortho: 0, diag: 1 }));
    assert!(!Dist { ortho: 0, diag: 1 }.lt(Dist { ortho: 1, diag: 0 }));
}

#[test]
fn close_irrational_comparisons_are_exact() {
    // 7 < 5*sqrt(2) = 7.0710...
    assert!(Dist { ortho: 7, diag: 0 }.lt(Dist { ortho: 0, diag: 5 }));
    // 3 > 2*sqrt(2) = 2.8284...
    assert!(Dist { ortho: 0, diag: 2 }.lt(Dist { ortho: 3, diag: 0 }));
    // 99 < 70*sqrt(2) = 98.9949... is false: 99 > 98.9949
    assert!(Dist { ortho: 0, diag: 70 }.lt(Dist { ortho: 99, diag: 0 }));
    // 169 vs 120*sqrt(2) = 169.7056...
    assert!(Dist { ortho: 169, diag: 0 }.lt(Dist { ortho: 0, diag: 120 }));
}

#[test]
fn comparisons_match_float_values() {
    let samples = [
        Dist { ortho: 0, diag: 0 },
        Dist { ortho: 1, diag: 0 },
        Dist { ortho: 0, diag: 1 },
        Dist { ortho: 5, diag: 3 },
        Dist { ortho: 3, diag: 5 },
        Dist { ortho: 12, diag: 0 },
        Dist { ortho: 0, diag: 9 },
        Dist { ortho: 1000, diag: 999 },
    ];
    for a in samples.iter() {
        for b in samples.iter() {
            assert_eq!(a.le(*b), value(a) <= value(b) + 1e-9, "{:?} vs {:?}", a, b);
        }
    }
}

#[test]
fn plus_step_adds_one_step() {
    let d = Dist { ortho: 2, diag: 1 };
    assert_eq!(d.plus_step(false), Dist { ortho: 3, diag: 1 });
    assert_eq!(d.plus_step(true), Dist { ortho: 2, diag: 2 });
    assert!(d.lt(d.plus_step(true)));
    assert!(d.lt(d.plus_step(false)));
}

#[test]
fn infinite_tops_the_order() {
    assert!(fin(1000, 1000).lt(Distance::Infinite));
    assert!(!Distance::Infinite.le(fin(1000, 1000)));
    assert!(Distance::Infinite.le(Distance::Infinite));
    assert!(!Distance::Infinite.lt(Distance::Infinite));
    assert!(fin(0, 0).is_finite());
    assert!(!Distance::Infinite.is_finite());
}
