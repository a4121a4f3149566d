//! Spherical harmonics over `f32`: the basis polynomials and the kernel are
//! supplied here, the term counts and the weighing order by the library.
use harmonics::{sh_basis, SphericalHarmonics};
use std::f32::consts::PI;

const KERNEL: [f32; 5] = [PI, PI * 2.0 / 3.0, PI * 1.0 / 4.0, 0.0, -PI * 1.0 / 24.0];

fn basis_at(levels: usize, p: [f32; 3]) -> SphericalHarmonics<f32> {
    assert!(levels <= 4);
    let x = -p[0];
    let y = -p[1];
    let z = p[2];
    let x2 = x * x;
    let y2 = y * y;
    let z2 = z * z;
    let z3 = z2 * z;
    let x4 = x2 * x2;
    let y4 = y2 * y2;
    let z4 = z2 * z2;
    let sqrt_pi = PI.sqrt();
    let sqrt = |v: f32| v.sqrt();
    sh_basis(levels, |i| match i {
        0 => 1.0 / (2.0 * sqrt_pi),
        1 => -sqrt(3.0 / (4.0 * PI)) * y,
        2 => sqrt(3.0 / (4.0 * PI)) * z,
        3 => -sqrt(3.0 / (4.0 * PI)) * x,
        4 => sqrt(15.0 / (4.0 * PI)) * y * x,
        5 => -sqrt(15.0 / (4.0 * PI)) * y * z,
        6 => sqrt(5.0 / (16.0 * PI)) * (3.0 * z2 - 1.0),
        7 => -sqrt(15.0 / (4.0 * PI)) * x * z,
        8 => sqrt(15.0 / (16.0 * PI)) * (x2 - y2),
        9 => -sqrt(70.0 / (64.0 * PI)) * y * (3.0 * x2 - y2),
        10 => sqrt(105.0 / (4.0 * PI)) * y * x * z,
        11 => -sqrt(42.0 / (64.0 * PI)) * y * (-1.0 + 5.0 * z2),
        12 => sqrt(7.0 / (16.0 * PI)) * (5.0 * z3 - 3.0 * z),
        13 => -sqrt(42.0 / (64.0 * PI)) * x * (-1.0 + 5.0 * z2),
        14 => sqrt(105.0 / (16.0 * PI)) * (x2 - y2) * z,
        15 => -sqrt(70.0 / (64.0 * PI)) * x * (x2 - 3.0 * y2),
        16 => 3.0 * sqrt(35.0 / (16.0 * PI)) * x * y * (x2 - y2),
        17 => -3.0 * sqrt(70.0 / (64.0 * PI)) * y * z * (3.0 * x2 - y2),
        18 => 3.0 * sqrt(5.0 / (16.0 * PI)) * y * x * (-1.0 + 7.0 * z2),
        19 => -3.0 * sqrt(10.0 / (64.0 * PI)) * y * z * (-3.0 + 7.0 * z2),
        20 => (105.0 * z4 - 90.0 * z2 + 9.0) / (16.0 * sqrt_pi),
        21 => -3.0 * sqrt(10.0 / (64.0 * PI)) * x * z * (-3.0 + 7.0 * z2),
        22 => 3.0 * sqrt(5.0 / (64.0 * PI)) * (x2 - y2) * (-1.0 + 7.0 * z2),
        23 => -3.0 * sqrt(70.0 / (64.0 * PI)) * x * z * (x2 - 3.0 * y2),
        24 => 3.0 * sqrt(35.0 / (4.0 * (64.0 * PI))) * (x4 - 6.0 * y2 * x2 + y4),
        _ => unreachable!(),
    })
}

fn value_at(sh: &SphericalHarmonics<f32>, direction: [f32; 3]) -> f32 {
    assert!(sh.is_valid());
    let basis = basis_at(sh.levels, direction);
    sh.evaluate(&basis, -0.0, |acc, (slot, c, b)| acc + c * b * KERNEL[slot])
}

fn close(a: f32, b: f32, tolerance: f32) -> bool {
    (a - b).abs() <= tolerance
}

fn directions() -> Vec<[f32; 3]> {
    let mut all = vec![[0.0, 0.0, 1.0], [0.0, 0.0, -1.0], [1.0, 0.0, 0.0], [0.0, -1.0, 0.0]];
    for i in 0..8 {
        for j in 1..6 {
            let theta = i as f32 / 8.0 * 2.0 * PI;
            let phi = j as f32 / 6.0 * PI;
            all.push([phi.sin() * theta.cos(), phi.sin() * theta.sin(), phi.cos()]);
        }
    }
    all
}

#[test]
fn basis_has_one_four_nine_sixteen_twenty_five_terms() {
    let counts: Vec<usize> =
        (0..=4).map(|levels| basis_at(levels, [0.0, 0.0, 1.0]).terms.len()).collect();
    assert_eq!(counts, vec![1, 4, 9, 16, 25]);
}

#[test]
fn five_levels_have_no_basis() {
    assert_eq!(harmonics::term_count(5), None);
    assert!(!SphericalHarmonics::from_terms(5, vec![0.0f32; 36]).is_valid());
}

#[test]
fn basis_values_along_a_direction_in_the_xz_plane() {
    let expected = [
        0.282_094_8, 0.0, 0.390_882, 0.293_161_5, 0.0, 0.0, 0.290_160_2, 0.524_423_2, 0.196_658_7,
        0.0, 0.0, 0.0, 0.059_708_2, 0.603_300_5, 0.416_248, 0.127_449_4, 0.0, 0.0, 0.0, 0.0,
        -0.197_184_3, 0.475_290_7, 0.592_683_8, 0.305_878_6, 0.081_108_3,
    ];
    let basis = basis_at(4, [0.6, 0.0, 0.8]);
    assert_eq!(basis.terms.len(), 25);
    for (got, want) in basis.terms.iter().zip(expected.iter()) {
        assert!(close(*got, *want, 1e-5), "{} against {}", got, want);
    }
}

#[test]
fn basis_values_along_a_direction_off_every_plane() {
    let expected = [
        0.282_094_8, 0.325_735, 0.325_735, 0.162_867_5, 0.242_788_5, 0.485_577_1, 0.105_130_5,
        0.242_788_5, -0.182_091_4, -0.043_706_9, 0.428_238_7, 0.372_407_7, -0.193_498_8,
        0.186_203_8, -0.321_179, -0.240_388_1, -0.185_432_8, -0.087_413_9, 0.443_884_4,
        0.033_039_3, -0.361_760_5, 0.016_519_7, -0.332_913_3, -0.480_776_3, -0.054_084_6,
    ];
    let basis = basis_at(4, [1.0 / 3.0, 2.0 / 3.0, 2.0 / 3.0]);
    for (got, want) in basis.terms.iter().zip(expected.iter()) {
        assert!(close(*got, *want, 1e-5), "{} against {}", got, want);
    }
}

#[test]
fn lower_levels_are_a_prefix_of_higher_ones() {
    let direction = [1.0 / 3.0, 2.0 / 3.0, 2.0 / 3.0];
    let full = basis_at(4, direction);
    for levels in 0..4 {
        let part = basis_at(levels, direction);
        assert_eq!(part.terms[..], full.terms[..part.terms.len()]);
    }
}

#[test]
fn all_zero_terms_evaluate_to_zero_in_every_direction() {
    for levels in 0..=4 {
        let sh = SphericalHarmonics::from_terms(levels, vec![0.0f32; 25]);
        for direction in directions() {
            assert_eq!(value_at(&sh, direction), 0.0);
        }
    }
}

#[test]
fn level_zero_is_weighed_by_the_first_kernel_entry() {
    let sh = SphericalHarmonics::from_terms(0, vec![1.0f32]);
    for direction in directions() {
        assert!(close(value_at(&sh, direction), 0.886_226_9, 1e-6));
    }
}

#[test]
fn single_terms_are_weighed_by_the_kernel_entry_of_their_level() {
    let up = [0.0f32, 0.0, 1.0];
    for (term, want) in [(2, 1.023_326_7f32), (6, 0.495_415_9), (12, 0.586_184), (20, -0.110_778_4)]
    {
        let mut sh = SphericalHarmonics::from_terms(4, vec![0.0f32; 26]);
        sh.terms[term] = 1.0;
        assert!(close(value_at(&sh, up), want, 1e-5), "term {}", term);
        sh.terms[term] = -1.0;
        assert!(close(value_at(&sh, up), -want, 1e-5), "term {}", term);
    }
}

#[test]
fn evaluate_sums_the_terms_of_the_declared_levels_only() {
    let terms: Vec<f32> = (0..25).map(|i| 0.5 * (i as f32 + 1.0)).collect();
    let direction = [1.0 / 3.0, 2.0 / 3.0, 2.0 / 3.0];
    let expected = [0.443_113_5f32, 2.830_875_8, 4.859_875, 4.926_603_4, 6.458_948];
    for (levels, want) in expected.iter().enumerate() {
        let sh = SphericalHarmonics::from_terms(levels, terms.clone());
        assert!(close(value_at(&sh, direction), *want, 1e-4), "levels {}", levels);
    }
}

#[test]
fn a_term_past_the_last_level_is_never_read() {
    let mut sh = SphericalHarmonics::from_terms(4, vec![0.0f32; 26]);
    sh.terms[0] = 1.0;
    sh.terms[25] = f32::NAN;
    assert!(close(value_at(&sh, [0.0, 1.0, 0.0]), 0.886_226_9, 1e-6));
}

#[test]
fn the_sign_of_a_lone_negative_zero_survives() {
    let sh = SphericalHarmonics::from_terms(0, vec![-0.0f32]);
    let out = value_at(&sh, [0.0, 0.0, 1.0]);
    assert_eq!(out, 0.0);
    assert!(out.is_sign_negative());
}
