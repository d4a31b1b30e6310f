use stellar::classify::{composition, le_bits, lt_bits, tectonic_label, tectonic_severity, Composition};
use stellar::placement::moon_orbit_radius;

fn band(x: f64) -> u8 {
    tectonic_severity(x.to_bits())
}

#[test]
fn tectonic_bands_at_their_cut_points() {
    assert_eq!(band(0.0), 1);
    assert_eq!(band(0.19999), 1);
    assert_eq!(band(0.2), 2);
    assert_eq!(band(0.39999), 2);
    assert_eq!(band(0.4), 3);
    assert_eq!(band(0.6), 4);
    assert_eq!(band(0.9999), 4);
    assert_eq!(band(1.0), 4);
    assert_eq!(band(1.0000001), 5);
    assert_eq!(band(1.2), 6);
    assert_eq!(band(1.4), 7);
    assert_eq!(band(9.999), 7);
    assert_eq!(band(10.0), 0);
}

#[test]
fn tectonic_bands_outside_the_table() {
    assert_eq!(band(-0.5), 1);
    assert_eq!(band(-0.0), 1);
    assert_eq!(band(f64::NEG_INFINITY), 1);
    assert_eq!(band(f64::INFINITY), 0);
    assert_eq!(band(1.0e9), 0);
    assert_eq!(band(f64::NAN), 0);
}

#[test]
fn tectonic_labels() {
    assert_eq!(tectonic_label(0), "None");
    assert_eq!(tectonic_label(1), "Dormant");
    assert_eq!(tectonic_label(2), "Barely Active");
    assert_eq!(tectonic_label(3), "Weakly Active");
    assert_eq!(tectonic_label(4), "Moderately Active");
    assert_eq!(tectonic_label(5), "Strongly Active");
    assert_eq!(tectonic_label(6), "Unstable");
    assert_eq!(tectonic_label(7), "Permanent Resurfacing");
    assert_eq!(tectonic_label(9), "None");
}

#[test]
fn composition_classes() {
    let c = |d: f64, m: f64| composition(d.to_bits(), m.to_bits());
    assert_eq!(c(2000.0, 20.0), Composition::GasGiant);
    assert_eq!(c(2000.0, 10.0), Composition::GasGiant);
    assert_eq!(c(2000.0, 9.99), Composition::IceWorld);
    assert_eq!(c(2999.9, 0.1), Composition::IceWorld);
    assert_eq!(c(3000.0, 50.0), Composition::RockyVolatile);
    assert_eq!(c(5499.0, 1.0), Composition::RockyVolatile);
    assert_eq!(c(5500.0, 1.0), Composition::RockyMetallic);
    assert_eq!(c(8000.0, 300.0), Composition::RockyMetallic);
    assert_eq!(c(2000.0, f64::NAN), Composition::RockyVolatile);
    assert_eq!(c(f64::NAN, 1.0), Composition::RockyMetallic);
}

#[test]
fn composition_labels() {
    assert_eq!(Composition::GasGiant.label(), "gas giant");
    assert_eq!(Composition::IceWorld.label(), "ice world");
    assert_eq!(Composition::RockyVolatile.label(), "rocky with volatile-rich crust");
    assert_eq!(Composition::RockyMetallic.label(), "rocky with metallic core");
}

#[test]
fn bit_comparisons_follow_ieee() {
    let lt = |a: f64, b: f64| lt_bits(a.to_bits(), b.to_bits());
    let le = |a: f64, b: f64| le_bits(a.to_bits(), b.to_bits());
    let samples = [
        f64::NEG_INFINITY, -3.5, -1.0, -0.0, 0.0, 1e-300, 0.2, 1.0, 2.5, 1e300, f64::INFINITY, f64::NAN,
    ];
    for &a in samples.iter() {
        for &b in samples.iter() {
            assert_eq!(lt(a, b), a < b, "{} < {}", a, b);
            assert_eq!(le(a, b), a <= b, "{} <= {}", a, b);
        }
    }
}

#[test]
fn moon_orbit_takes_the_larger_bound() {
    let r = |hill: f64, roche: f64| f64::from_bits(moon_orbit_radius(hill.to_bits(), roche.to_bits()));
    assert_eq!(r(1.0e7, 2.5e7), 2.5e7);
    assert_eq!(r(3.0e8, 2.5e7), 3.0e8);
    assert_eq!(r(4.0, 4.0), 4.0);
    assert_eq!(r(f64::NAN, 7.0), 7.0);
    assert_eq!(r(7.0, f64::NAN), 7.0);
    assert!(r(f64::NAN, f64::NAN).is_nan());
    for &(h, k) in [(0.1, 0.2), (5.0, 1.0), (1e-3, 1e3), (2.0, 2.0)].iter() {
        let m = r(h, k);
        assert!(m >= h && m >= k);
        assert_eq!(m, h.max(k));
    }
}
