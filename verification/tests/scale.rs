use pltrs_core::{Binary64, Linear, Scale};

fn d(x: f64) -> Binary64 {
    Binary64::from_bits(x.to_bits())
}

fn val(x: Binary64) -> f64 {
    f64::from_bits(x.to_bits())
}

fn pair(a: f64, b: f64) -> (Binary64, Binary64) {
    (d(a), d(b))
}

/// The interpolation formula in the machine's own arithmetic.
fn machine_map(domain: (f64, f64), range: (f64, f64), v: f64) -> f64 {
    let (d0, d1) = domain;
    let (r0, r1) = range;
    if d1 == d0 {
        return r0;
    }
    let t = (v - d0) / (d1 - d0);
    r0 + t * (r1 - r0)
}

fn agrees(domain: (f64, f64), range: (f64, f64), v: f64) {
    let scale = Scale::linear(pair(domain.0, domain.1), pair(range.0, range.1));
    let got = val(scale.map(d(v)));
    let want = machine_map(domain, range, v);
    if want.is_nan() {
        assert!(got.is_nan(), "{:?} {:?} {:e}", domain, range, v);
    } else {
        assert_eq!(got.to_bits(), want.to_bits(), "{:?} {:?} {:e}", domain, range, v);
    }
}

#[test]
fn linear_new_keeps_domain_and_range() {
    let l = Linear::new(pair(1.0, 2.0), pair(3.0, 4.0));
    assert_eq!(l.domain, pair(1.0, 2.0));
    assert_eq!(l.range, pair(3.0, 4.0));
}

#[test]
fn scale_linear_wraps_a_linear_scale() {
    match Scale::linear(pair(0.0, 10.0), pair(0.0, 1.0)) {
        Scale::Linear(l) => {
            assert_eq!(l.domain, pair(0.0, 10.0));
            assert_eq!(l.range, pair(0.0, 1.0));
        }
    }
}

#[test]
fn linear_map_interpolates() {
    let l = Linear::new(pair(0.0, 10.0), pair(0.0, 1.0));
    assert_eq!(val(l.map(d(5.0))), 0.5);
    assert_eq!(val(l.map(d(2.5))), 0.25);
    assert_eq!(val(l.map(d(0.0))), 0.0);
    assert_eq!(val(l.map(d(10.0))), 1.0);
    let m = Linear::new(pair(0.0, 2.0), pair(0.0, 1.0));
    assert_eq!(val(m.map(d(1.0))), 0.5);
    let n = Linear::new(pair(-1.0, 1.0), pair(100.0, 200.0));
    assert_eq!(val(n.map(d(0.0))), 150.0);
    assert_eq!(val(n.map(d(0.5))), 175.0);
}

#[test]
fn scale_map_is_its_variant_map() {
    let s = Scale::linear(pair(2.0, 4.0), pair(10.0, 20.0));
    assert_eq!(val(s.map(d(3.0))), 15.0);
    assert_eq!(val(s.map(d(2.0))), 10.0);
    assert_eq!(val(s.map(d(4.0))), 20.0);
}

#[test]
fn map_extrapolates_outside_the_domain() {
    let s = Scale::linear(pair(0.0, 10.0), pair(0.0, 1.0));
    assert_eq!(val(s.map(d(20.0))), 2.0);
    assert_eq!(val(s.map(d(-10.0))), -1.0);
}

#[test]
fn map_takes_an_unordered_domain_and_range() {
    let s = Scale::linear(pair(10.0, 0.0), pair(1.0, 0.0));
    assert_eq!(val(s.map(d(10.0))), 1.0);
    assert_eq!(val(s.map(d(0.0))), 0.0);
    assert_eq!(val(s.map(d(2.5))), 0.25);
    let flipped = Scale::linear(pair(0.0, 10.0), pair(1.0, 0.0));
    assert_eq!(val(flipped.map(d(2.5))), 0.75);
}

#[test]
fn endpoints_map_to_the_ends_of_the_range() {
    let cases: [((f64, f64), (f64, f64)); 6] = [
        ((0.0, 10.0), (0.0, 1.0)),
        ((-3.0, 7.5), (2.0, 5.0)),
        ((10.0, -10.0), (1.0, 0.0)),
        ((1e-300, 1e300), (-1.0, 1.0)),
        ((0.1, 0.3), (0.25, 0.75)),
        ((5.0, 6.0), (-0.5, 0.5)),
    ];
    for (domain, range) in cases {
        let s = Scale::linear(pair(domain.0, domain.1), pair(range.0, range.1));
        assert_eq!(val(s.map(d(domain.0))), range.0, "{:?} {:?}", domain, range);
        assert_eq!(val(s.map(d(domain.1))), range.1, "{:?} {:?}", domain, range);
    }
}

#[test]
fn a_rounded_extent_can_miss_the_end_of_the_range() {
    // 1 - 1e16 rounds to -1e16, so the end of the domain lands on 0, not on 1
    let s = Scale::linear(pair(0.0, 1.0), pair(1e16, 1.0));
    assert_eq!(val(s.map(d(1.0))), 0.0);
    assert_eq!(val(s.map(d(1.0))), machine_map((0.0, 1.0), (1e16, 1.0), 1.0));
}

#[test]
fn an_extent_that_overflows_loses_the_start_of_the_range() {
    // the extent of the range is infinite, and zero times infinity is not a number
    let s = Scale::linear(pair(0.0, 1.0), pair(-1.7e308, 1.7e308));
    assert!(val(s.map(d(0.0))).is_nan());
    assert!(machine_map((0.0, 1.0), (-1.7e308, 1.7e308), 0.0).is_nan());
}

#[test]
fn a_degenerate_domain_maps_everything_to_the_start_of_the_range() {
    let s = Scale::linear(pair(3.0, 3.0), pair(7.0, 9.0));
    for v in [0.0, 3.0, -1e300, 1e300, f64::INFINITY, f64::NEG_INFINITY, f64::NAN] {
        assert_eq!(val(s.map(d(v))), 7.0, "{:e}", v);
    }
    // the two zeros are equal, so this domain has no extent either
    let z = Scale::linear(pair(0.0, -0.0), pair(-2.0, 2.0));
    assert_eq!(val(z.map(d(5.0))), -2.0);
    let mut l = Linear::new(pair(-4.5, -4.5), pair(0.25, 0.5));
    assert_eq!(val(l.map(d(123.0))), 0.25);
    l.range = pair(0.75, 0.5);
    assert_eq!(val(l.map(d(123.0))), 0.75);
}

#[test]
fn a_domain_of_not_a_number_is_not_degenerate() {
    let s = Scale::linear(pair(f64::NAN, f64::NAN), pair(7.0, 9.0));
    assert!(val(s.map(d(1.0))).is_nan());
}

#[test]
fn non_finite_values_propagate() {
    let s = Scale::linear(pair(0.0, 10.0), pair(0.0, 1.0));
    assert!(val(s.map(d(f64::NAN))).is_nan());
    assert_eq!(val(s.map(d(f64::INFINITY))), f64::INFINITY);
    assert_eq!(val(s.map(d(f64::NEG_INFINITY))), f64::NEG_INFINITY);
    let inf_domain = Scale::linear(pair(0.0, f64::INFINITY), pair(0.0, 1.0));
    assert_eq!(val(inf_domain.map(d(5.0))), 0.0);
    assert!(val(inf_domain.map(d(f64::INFINITY))).is_nan());
}

#[test]
fn the_identity_scale_leaves_values_in_place() {
    let s = Scale::linear(pair(0.0, 1.0), pair(0.0, 1.0));
    for v in [0.0, 0.1, 0.25, 0.5, 1.0, 2.0, -3.5, 1e300, 5e-324, f64::INFINITY] {
        assert_eq!(s.map(d(v)).to_bits(), v.to_bits(), "{:e}", v);
    }
    // the negative zero comes out with the positive sign
    assert_eq!(s.map(d(-0.0)).to_bits(), 0.0f64.to_bits());
}

#[test]
fn map_agrees_with_the_formula_in_machine_arithmetic() {
    let values = [
        0.0,
        -0.0,
        1.0,
        0.1,
        0.3,
        2.5,
        -7.25,
        1e10,
        1e-10,
        1e300,
        -1e300,
        5e-324,
        f64::MAX,
        f64::INFINITY,
        f64::NAN,
    ];
    let domains = [(0.0, 10.0), (0.1, 0.3), (-1e300, 1e300), (1e-320, 2e-320), (3.0, 3.0), (1.0, f64::INFINITY)];
    let ranges = [(0.0, 1.0), (1.0, 0.0), (-1e308, 1e308), (0.1, 0.7), (1e16, 1.0)];
    for domain in domains {
        for range in ranges {
            for v in values {
                agrees(domain, range, v);
            }
        }
    }
}

#[test]
fn map_agrees_with_the_formula_on_scattered_inputs() {
    let mut state: u64 = 0x2545_f491_4f6c_dd1d;
    let mut next = move || {
        state ^= state << 13;
        state ^= state >> 7;
        state ^= state << 17;
        state
    };
    for _ in 0..1500 {
        let bits = [next(), next(), next(), next(), next()];
        // exponents near one, so that the interpolation rounds at every step
        let f = |b: u64| f64::from_bits((b & 0x800f_ffff_ffff_ffff) | ((0x3f8 + (b >> 60)) << 52));
        agrees((f(bits[0]), f(bits[1])), (f(bits[2]), f(bits[3])), f(bits[4]));
        let g = |b: u64| f64::from_bits(b);
        agrees((g(bits[0]), g(bits[1])), (g(bits[2]), g(bits[3])), g(bits[4]));
    }
}
