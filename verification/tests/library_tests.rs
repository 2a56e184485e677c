use matrixcalculus1000::cli::{check_output_options, iteration_seed, next_value, parse_config, verify_expected_kind, Config};
use matrixcalculus1000::decimal::{decimal_text, parse_unsigned};
use matrixcalculus1000::generator::GOLDEN_GAMMA;
use matrixcalculus1000::ieee;
use matrixcalculus1000::{generate_matrix, FloatArithmetic, Matrix, MatrixError, MatrixKind, SplitMix64};

/// Binary64 arithmetic with Rust's own `f64` operators.
struct F64;

impl FloatArithmetic for F64 {
    fn add(&self, a: u64, b: u64) -> u64 {
        (f64::from_bits(a) + f64::from_bits(b)).to_bits()
    }

    fn sub(&self, a: u64, b: u64) -> u64 {
        (f64::from_bits(a) - f64::from_bits(b)).to_bits()
    }

    fn mul(&self, a: u64, b: u64) -> u64 {
        (f64::from_bits(a) * f64::from_bits(b)).to_bits()
    }

    fn div(&self, a: u64, b: u64) -> u64 {
        (f64::from_bits(a) / f64::from_bits(b)).to_bits()
    }

    fn ln(&self, a: u64) -> u64 {
        f64::from_bits(a).ln().to_bits()
    }

    fn from_u64(&self, n: u64) -> u64 {
        (n as f64).to_bits()
    }
}

fn bits(values: &[f64]) -> Vec<u64> {
    values.iter().map(|v| v.to_bits()).collect()
}

fn matrix(order: usize, values: &[f64]) -> Matrix {
    Matrix::from_vec(order, bits(values)).unwrap()
}

fn samples() -> Vec<f64> {
    vec![
        0.0,
        -0.0,
        1.0,
        -1.0,
        0.5,
        -2.5,
        1e-310,
        -1e-310,
        f64::MAX,
        f64::MIN,
        f64::INFINITY,
        f64::NEG_INFINITY,
        f64::NAN,
        -f64::NAN,
    ]
}

/// Straightforward elimination with partial pivoting on `f64`, for comparison.
fn plain_elimination(order: usize, data: &[f64], tolerance: f64) -> (usize, usize, i8, f64) {
    let mut work = data.to_vec();
    let mut rank = 0;
    let mut swaps = 0;
    let mut sign = 1i8;
    let mut log = 0.0f64;
    for col in 0..order {
        if rank == order {
            break;
        }
        let mut best = rank;
        for row in rank + 1..order {
            if work[row * order + col].abs() > work[best * order + col].abs() {
                best = row;
            }
        }
        if work[best * order + col].abs() <= tolerance {
            continue;
        }
        if best != rank {
            for c in 0..order {
                work.swap(best * order + c, rank * order + c);
            }
            swaps += 1;
            sign = -sign;
        }
        let pivot = work[rank * order + col];
        if pivot < 0.0 {
            sign = -sign;
        }
        log += pivot.abs().ln();
        for row in rank + 1..order {
            let value = work[row * order + col];
            if value.abs() <= tolerance {
                work[row * order + col] = 0.0;
                continue;
            }
            let factor = value / pivot;
            work[row * order + col] = 0.0;
            for c in col + 1..order {
                work[row * order + c] -= factor * work[rank * order + c];
            }
        }
        rank += 1;
    }
    (rank, swaps, if rank < order { 0 } else { sign }, log)
}

#[test]
fn bit_level_comparisons_match_f64() {
    for a in samples() {
        assert_eq!(ieee::abs(a.to_bits()), a.abs().to_bits());
        assert_eq!(ieee::nan(a.to_bits()), a.is_nan());
        assert_eq!(ieee::finite(a.to_bits()), a.is_finite());
        for b in samples() {
            assert_eq!(ieee::lt(a.to_bits(), b.to_bits()), a < b, "{a} < {b}");
            assert_eq!(ieee::le(a.to_bits(), b.to_bits()), a <= b, "{a} <= {b}");
            let m = f64::from_bits(ieee::max(a.to_bits(), b.to_bits()));
            let expected = a.max(b);
            assert!(m == expected || (m.is_nan() && expected.is_nan()), "max({a}, {b})");
        }
    }
}

#[test]
fn named_constants_hold_their_values() {
    assert_eq!(f64::from_bits(ieee::ONE), 1.0);
    assert_eq!(f64::from_bits(ieee::TWO), 2.0);
    assert_eq!(f64::from_bits(ieee::SIXTY_FOUR), 64.0);
    assert_eq!(f64::from_bits(ieee::QUARTER), 0.25);
    assert_eq!(f64::from_bits(ieee::THREE_QUARTERS), 0.75);
    assert_eq!(f64::from_bits(ieee::FIVE_QUARTERS), 1.25);
    assert_eq!(f64::from_bits(ieee::TWO_POW_53), (1u64 << 53) as f64);
    assert_eq!(f64::from_bits(ieee::EPSILON), f64::EPSILON);
    assert_eq!(f64::from_bits(ieee::INFINITY), f64::INFINITY);
    assert_eq!(f64::from_bits(ieee::ZERO), 0.0);
}

#[test]
fn from_vec_reports_each_error() {
    assert_eq!(Matrix::from_vec(0, vec![]).unwrap_err(), MatrixError::InvalidOrder { order: 0 });
    assert_eq!(
        Matrix::from_vec(2, bits(&[1.0, 2.0, 3.0])).unwrap_err(),
        MatrixError::InvalidDataLength { expected: 4, actual: 3 }
    );
    assert_eq!(
        Matrix::from_vec(2, bits(&[1.0, f64::INFINITY, f64::NAN, 1.0])).unwrap_err(),
        MatrixError::NonFiniteValue { index: 1 }
    );
    let m = matrix(2, &[1.0, -2.0, 3.0, 4.0]);
    assert_eq!(m.as_slice(), bits(&[1.0, -2.0, 3.0, 4.0]).as_slice());
    assert_eq!(f64::from_bits(m.get(1, 0)), 3.0);
    assert_eq!(f64::from_bits(m.get(0, 2)), 3.0);
    assert!(!m.is_empty());
}

#[test]
fn zeros_and_identity_have_the_expected_entries() {
    let z = Matrix::zeros(3).unwrap();
    assert!(z.as_slice().iter().all(|&b| b == 0));
    let id = Matrix::identity(3).unwrap();
    for r in 0..3 {
        for c in 0..3 {
            assert_eq!(f64::from_bits(id.get(r, c)), if r == c { 1.0 } else { 0.0 });
        }
    }
    assert_eq!(Matrix::identity(0).unwrap_err(), MatrixError::InvalidOrder { order: 0 });
    assert_eq!(Matrix::identity(1).unwrap().memory_bytes(), 8);
}

#[test]
fn infinity_norm_and_auto_tolerance() {
    let m = matrix(2, &[1.0, -2.0, 3.0, -4.0]);
    assert_eq!(f64::from_bits(m.infinity_norm(&F64)), 7.0);
    assert_eq!(f64::from_bits(m.auto_tolerance(&F64)), f64::EPSILON * 2.0 * 7.0 * 64.0);
    let small = matrix(2, &[0.1, 0.0, 0.0, 0.1]);
    assert_eq!(f64::from_bits(small.auto_tolerance(&F64)), f64::EPSILON * 2.0 * 1.0 * 64.0);
}

#[test]
fn elimination_counts_swaps_sign_and_logarithm() {
    let swap = matrix(2, &[0.0, 1.0, 1.0, 0.0]);
    let a = swap.analyze(None, &F64).unwrap();
    assert_eq!((a.rank, a.row_swaps, a.determinant_sign), (2, 1, -1));
    assert_eq!(a.log_abs_determinant.map(f64::from_bits), Some(0.0));

    let m = matrix(2, &[-2.0, 1.0, 4.0, 3.0]);
    let a = m.analyze(Some(0.0f64.to_bits()), &F64).unwrap();
    assert_eq!((a.rank, a.nullity, a.row_swaps, a.determinant_sign), (2, 0, 1, -1));
    let log = f64::from_bits(a.log_abs_determinant.unwrap());
    assert!((log - 10.0f64.ln()).abs() < 1e-12);
    assert_eq!(f64::from_bits(a.tolerance), 0.0);
    assert_eq!(a.order, 2);
}

#[test]
fn entries_within_tolerance_give_rank_zero() {
    let m = matrix(3, &[0.1, -0.2, 0.0, 0.3, 0.0, -0.1, 0.2, 0.2, 0.2]);
    let a = m.analyze(Some(0.5f64.to_bits()), &F64).unwrap();
    assert_eq!((a.rank, a.nullity, a.row_swaps, a.determinant_sign), (0, 3, 0, 0));
    assert!(a.singular);
    assert!(m.is_singular(Some(0.5f64.to_bits()), &F64).unwrap());
    let zero = Matrix::zeros(4).unwrap();
    assert_eq!(zero.analyze(Some(0.0f64.to_bits()), &F64).unwrap().rank, 0);
}

#[test]
fn triangular_matrix_above_tolerance_is_invertible() {
    let m = matrix(3, &[-2.0, 5.0, 7.0, 0.0, 3.0, -1.0, -0.0, 0.0, -0.5]);
    let a = m.analyze(Some(0.25f64.to_bits()), &F64).unwrap();
    assert_eq!((a.rank, a.row_swaps, a.determinant_sign), (3, 0, 1));
    assert!(!m.is_singular(Some(0.25f64.to_bits()), &F64).unwrap());
    let a = m.analyze(Some(1.0f64.to_bits()), &F64).unwrap();
    assert_eq!(a.rank, 2);
}

#[test]
fn tolerance_must_be_finite_and_not_negative() {
    let m = Matrix::identity(2).unwrap();
    for bad in [f64::NAN, f64::INFINITY, f64::NEG_INFINITY, -1e-300] {
        assert_eq!(
            m.analyze(Some(bad.to_bits()), &F64).unwrap_err(),
            MatrixError::InvalidTolerance { value: bad.to_bits() }
        );
        assert!(m.is_singular(Some(bad.to_bits()), &F64).is_err());
    }
    assert_eq!(m.analyze(Some((-0.0f64).to_bits()), &F64).unwrap().rank, 2);
}

#[test]
fn parallel_elimination_agrees_with_plain_elimination() {
    for (order, kind, seed) in [
        (200, MatrixKind::Random, 7u64),
        (200, MatrixKind::Singular, 8),
        (40, MatrixKind::Random, 9),
        (3, MatrixKind::Singular, 10),
    ] {
        let m = generate_matrix(order, kind, seed, &F64).unwrap();
        let values: Vec<f64> = m.as_slice().iter().map(|&b| f64::from_bits(b)).collect();
        let tolerance = f64::from_bits(m.auto_tolerance(&F64));
        let a = m.analyze(None, &F64).unwrap();
        let (rank, swaps, sign, log) = plain_elimination(order, &values, tolerance);
        assert_eq!(a.rank, rank);
        assert_eq!(a.row_swaps, swaps);
        assert_eq!(a.determinant_sign, sign);
        if rank == order {
            assert_eq!(a.log_abs_determinant.map(f64::from_bits), Some(log));
        } else {
            assert!(a.log_abs_determinant.is_none());
        }
    }
}

#[test]
fn large_generated_matrices_are_classified_as_built() {
    let singular = generate_matrix(256, MatrixKind::Singular, 1, &F64).unwrap();
    assert!(singular.is_singular(None, &F64).unwrap());
    let invertible = generate_matrix(256, MatrixKind::Invertible, 1, &F64).unwrap();
    let a = invertible.analyze(None, &F64).unwrap();
    assert_eq!(a.rank, 256);
    assert!(!a.singular);
}

#[test]
fn splitmix64_matches_the_reference_sequence() {
    let mut rng = SplitMix64::new(0);
    assert_eq!(rng.next_u64(), 0xe220_a839_7b1d_cdaf);
    assert_eq!(rng.next_u64(), 0x6e78_9e6a_a1b9_65f4);
    assert_eq!(rng.next_u64(), 0x06c4_5d18_8009_454f);
    let mut a = SplitMix64::new(99);
    let mut b = SplitMix64::new(99u64.wrapping_add(GOLDEN_GAMMA));
    a.next_u64();
    assert_eq!(a.next_u64(), b.next_u64());
}

#[test]
fn unit_draws_stay_in_their_intervals() {
    let mut rng = SplitMix64::new(2024);
    for _ in 0..1000 {
        let u = f64::from_bits(rng.unit_interval(&F64));
        assert!((0.0..1.0).contains(&u));
        let s = f64::from_bits(rng.signed_unit(&F64));
        assert!((-1.0..1.0).contains(&s));
    }
    let mut rng = SplitMix64::new(5);
    let mut copy = SplitMix64::new(5);
    let expected = ((copy.next_u64() >> 11) as f64) / (1u64 << 53) as f64;
    assert_eq!(f64::from_bits(rng.unit_interval(&F64)), expected);
}

#[test]
fn generators_build_the_documented_shapes() {
    let one = generate_matrix(1, MatrixKind::Singular, 3, &F64).unwrap();
    assert_eq!(one.as_slice(), &[0u64][..]);

    let two = generate_matrix(2, MatrixKind::Singular, 3, &F64).unwrap();
    for c in 0..2 {
        assert_eq!(f64::from_bits(two.get(1, c)), 2.0 * f64::from_bits(two.get(0, c)));
    }

    let n = 5;
    let s = generate_matrix(n, MatrixKind::Singular, 3, &F64).unwrap();
    for c in 0..n {
        let expected = 1.25 * f64::from_bits(s.get(0, c)) - 0.75 * f64::from_bits(s.get(1, c));
        assert_eq!(f64::from_bits(s.get(n - 1, c)), expected);
    }

    let inv = generate_matrix(n, MatrixKind::Invertible, 3, &F64).unwrap();
    for r in 0..n {
        let off: f64 = (0..n).filter(|&c| c != r).map(|c| f64::from_bits(inv.get(r, c)).abs()).sum();
        let diagonal = f64::from_bits(inv.get(r, r));
        assert!(diagonal > off + 1.0 - 1e-12);
        for c in 0..n {
            if c != r {
                assert!(f64::from_bits(inv.get(r, c)).abs() <= 0.25);
            }
        }
    }

    let random = generate_matrix(n, MatrixKind::Random, 3, &F64).unwrap();
    let mut rng = SplitMix64::new(3);
    for i in 0..n * n {
        assert_eq!(random.as_slice()[i], rng.signed_unit(&F64));
        assert!((-1.0..1.0).contains(&f64::from_bits(random.as_slice()[i])));
    }
}

#[test]
fn generators_are_reproducible_and_check_the_order() {
    for kind in [MatrixKind::Singular, MatrixKind::Invertible, MatrixKind::Random] {
        let a = generate_matrix(6, kind, 77, &F64).unwrap();
        let b = generate_matrix(6, kind, 77, &F64).unwrap();
        let c = generate_matrix(6, kind, 78, &F64).unwrap();
        assert_eq!(a.as_slice(), b.as_slice());
        assert_ne!(a.as_slice(), c.as_slice());
        assert_eq!(generate_matrix(0, kind, 1, &F64).unwrap_err(), MatrixError::InvalidOrder { order: 0 });
        assert_eq!(
            generate_matrix(1001, kind, 1, &F64).unwrap_err(),
            MatrixError::InvalidOrder { order: 1001 }
        );
    }
}

#[test]
fn matrix_kind_names_parse_in_any_case() {
    assert_eq!(MatrixKind::parse("Singular"), Ok(MatrixKind::Singular));
    assert_eq!(MatrixKind::parse("INVERTIBLE"), Ok(MatrixKind::Invertible));
    assert_eq!("random".parse::<MatrixKind>(), Ok(MatrixKind::Random));
    assert_eq!(
        MatrixKind::parse("Diagonal"),
        Err("invalid matrix kind 'diagonal'; expected singular, invertible, or random".to_string())
    );
    for kind in [MatrixKind::Singular, MatrixKind::Invertible, MatrixKind::Random] {
        assert_eq!(MatrixKind::parse(kind.name()), Ok(kind));
        assert_eq!(MatrixKind::parse(&kind.name().to_uppercase()), Ok(kind));
    }
    assert_eq!(MatrixKind::Invertible.name(), "invertible");
}

#[test]
fn unsigned_numbers_are_read_like_the_standard_library() {
    for text in ["", "+", "0", "7", "+12", "-1", "1a", "007", " 1", "18446744073709551615", "18446744073709551616", "99999999999999999999x"] {
        assert_eq!(parse_unsigned(text, u64::MAX), text.parse::<u64>().ok(), "{text:?}");
    }
    assert_eq!(parse_unsigned("1000", 999), None);
    assert_eq!(parse_unsigned("999", 999), Some(999));
}

#[test]
fn next_value_takes_the_following_argument() {
    let mut args = vec!["10".to_string(), "x".to_string()].into_iter();
    assert_eq!(next_value(&mut args, "--size"), Ok("10".to_string()));
    assert_eq!(next_value(&mut args, "--size"), Ok("x".to_string()));
    assert_eq!(next_value(&mut args, "--seed"), Err("missing value after --seed".to_string()));
}

fn parse(args: &[&str]) -> Result<Option<Config>, String> {
    let args: Vec<String> = args.iter().map(|a| a.to_string()).collect();
    let numbers = args.iter().map(|a| a.parse::<f64>().ok().map(f64::to_bits)).collect();
    parse_config(args, &numbers)
}

#[test]
fn command_line_options_are_read_in_order() {
    assert_eq!(parse(&[]), Ok(Some(Config::default())));
    assert_eq!(Config::default().size, 5);
    assert_eq!(Config::default().seed, 42);
    let cfg = parse(&[
        "--size", "+10", "--kind", "Random", "--seed", "7", "--repeat", "3", "--tolerance", "1e-9", "--threads", "2",
        "--print", "--csv",
    ])
    .unwrap()
    .unwrap();
    assert_eq!(cfg.size, 10);
    assert_eq!(cfg.kind, MatrixKind::Random);
    assert_eq!(cfg.seed, 7);
    assert_eq!(cfg.repeat, 3);
    assert_eq!(cfg.tolerance, Some(1e-9f64.to_bits()));
    assert_eq!(cfg.threads, Some(2));
    assert!(cfg.print_matrix && cfg.csv);
    assert_eq!(parse(&["--tolerance", "1", "--tolerance", "AUTO"]).unwrap().unwrap().tolerance, None);
    assert_eq!(parse(&["--size", "2000", "--help"]), Ok(None));
    assert_eq!(parse(&["-h", "--bogus"]), Ok(None));
}

#[test]
fn command_line_errors_carry_their_messages() {
    let err = |args: &[&str]| parse(args).unwrap_err();
    assert_eq!(err(&["--size"]), "missing value after --size");
    assert_eq!(err(&["--size", "ten"]), "--size expects an integer");
    assert_eq!(err(&["--seed", "-1"]), "--seed expects an unsigned 64-bit integer");
    assert_eq!(err(&["--repeat", "x"]), "--repeat expects a positive integer");
    assert_eq!(err(&["--threads", "x"]), "--threads expects a positive integer");
    assert_eq!(err(&["--tolerance", "abc", "--bogus"]), "--tolerance expects a non-negative number or 'auto'");
    assert_eq!(err(&["--kind", "square"]), "invalid matrix kind 'square'; expected singular, invertible, or random");
    assert_eq!(err(&["--bogus", "--size", "x"]), "unknown option '--bogus'");
    assert_eq!(err(&["--size", "1001"]), "--size must be between 1 and 1000");
    assert_eq!(err(&["--size", "0"]), "--size must be between 1 and 1000");
    assert_eq!(err(&["--repeat", "0"]), "--repeat must be at least 1");
    assert_eq!(err(&["--threads", "0"]), "--threads must be at least 1");
    assert_eq!(err(&["--tolerance", "-1"]), "--tolerance must be finite and non-negative");
    assert_eq!(err(&["--tolerance", "inf"]), "--tolerance must be finite and non-negative");
    assert_eq!(err(&["--size", "0", "--repeat", "0"]), "--size must be between 1 and 1000");
}

#[test]
fn classifications_contradicting_the_kind_are_refused() {
    assert!(verify_expected_kind(MatrixKind::Singular, false).is_err());
    assert!(verify_expected_kind(MatrixKind::Invertible, true).is_err());
    assert_eq!(verify_expected_kind(MatrixKind::Singular, true), Ok(()));
    assert_eq!(verify_expected_kind(MatrixKind::Invertible, false), Ok(()));
    assert_eq!(verify_expected_kind(MatrixKind::Random, true), Ok(()));
    assert_eq!(
        verify_expected_kind(MatrixKind::Singular, false),
        Err("generated singular matrix was classified as invertible; review the tolerance".to_string())
    );
}

#[test]
fn run_seeds_step_by_the_golden_gamma() {
    assert_eq!(iteration_seed(42, 0), 42);
    assert_eq!(iteration_seed(42, 1), 42u64.wrapping_add(0x9E3779B97F4A7C15));
    assert_eq!(iteration_seed(u64::MAX, 2), u64::MAX.wrapping_add(0x9E3779B97F4A7C15u64.wrapping_mul(2)));
}

#[test]
fn numbers_are_written_in_decimal_and_read_back() {
    for n in [0u64, 7, 10, 42, 1000, 1_000_000, u64::MAX] {
        assert_eq!(decimal_text(n), n.to_string());
        assert_eq!(parse_unsigned(&decimal_text(n), u64::MAX), Some(n));
    }
}

#[test]
fn error_messages_name_the_offending_values() {
    assert_eq!(
        MatrixError::InvalidOrder { order: 1001 }.message(""),
        "matrix order must be between 1 and 1000; received 1001"
    );
    assert_eq!(
        MatrixError::InvalidDataLength { expected: 9, actual: 8 }.message(""),
        "invalid data length: expected 9 elements, received 8"
    );
    assert_eq!(
        MatrixError::NonFiniteValue { index: 2 }.message(""),
        "matrix contains NaN or infinity at flat index 2"
    );
    let value = -1.5f64;
    assert_eq!(
        MatrixError::InvalidTolerance { value: value.to_bits() }.message(&value.to_string()),
        "tolerance must be finite and non-negative; received -1.5"
    );
}

#[test]
fn csv_output_excludes_printing_the_matrix() {
    let both = parse(&["--csv", "--print"]).unwrap().unwrap();
    assert_eq!(check_output_options(&both), Err("--csv and --print cannot be used together".to_string()));
    let csv = parse(&["--csv"]).unwrap().unwrap();
    assert_eq!(check_output_options(&csv), Ok(()));
}

#[test]
fn order_one_norm_is_the_absolute_entry() {
    assert_eq!(f64::from_bits(matrix(1, &[-3.5]).infinity_norm(&F64)), 3.5);
    assert_eq!(matrix(1, &[-0.0]).infinity_norm(&F64), 0.0f64.to_bits());
}

#[test]
fn pivoting_exchanges_rows_and_counts_pivots() {
    let m = matrix(2, &[0.0, -2.0, 1.0, 0.0]);
    let a = m.analyze(None, &F64).unwrap();
    assert_eq!((a.rank, a.row_swaps, a.determinant_sign), (2, 1, 1));
    assert_eq!(a.log_abs_determinant.map(f64::from_bits), Some(2.0f64.ln()));
    let m = matrix(2, &[0.0, 1.0, 0.0, 0.0]);
    let a = m.analyze(None, &F64).unwrap();
    assert_eq!((a.rank, a.nullity, a.row_swaps, a.determinant_sign), (1, 1, 0, 0));
    assert!(a.singular && a.log_abs_determinant.is_none());
    let m = matrix(2, &[0.0, 0.0, 1.0, 0.0]);
    assert_eq!(m.analyze(Some(0.0f64.to_bits()), &F64).unwrap().rank, 1);
}

#[test]
fn a_clone_has_the_same_entries() {
    let m = generate_matrix(7, MatrixKind::Random, 11, &F64).unwrap();
    let c = m.clone();
    assert_eq!(c.order(), 7);
    assert_eq!(c.as_slice(), m.as_slice());
}

#[test]
fn singular_matrix_keeps_the_random_rows_but_the_last() {
    for n in [2usize, 3, 7] {
        let singular = generate_matrix(n, MatrixKind::Singular, 11, &F64).unwrap();
        let random = generate_matrix(n, MatrixKind::Random, 11, &F64).unwrap();
        let kept = (n - 1) * n;
        assert_eq!(&singular.as_slice()[..kept], &random.as_slice()[..kept]);
        assert_ne!(&singular.as_slice()[kept..], &random.as_slice()[kept..]);
    }
}

#[test]
fn is_singular_agrees_with_analyze_and_analysis_repeats() {
    for (kind, seed) in [(MatrixKind::Singular, 5u64), (MatrixKind::Invertible, 5), (MatrixKind::Random, 9)] {
        let m = generate_matrix(12, kind, seed, &F64).unwrap();
        for tolerance in [None, Some(0.0f64.to_bits()), Some(1e-9f64.to_bits()), Some(0.5f64.to_bits())] {
            let a = m.analyze(tolerance, &F64).unwrap();
            let b = m.analyze(tolerance, &F64).unwrap();
            assert_eq!(m.is_singular(tolerance, &F64).unwrap(), a.singular);
            assert_eq!(
                (a.order, a.rank, a.nullity, a.singular, a.tolerance, a.row_swaps, a.determinant_sign),
                (b.order, b.rank, b.nullity, b.singular, b.tolerance, b.row_swaps, b.determinant_sign)
            );
            if tolerance.is_none() {
                assert_eq!(a.tolerance, m.auto_tolerance(&F64));
            }
        }
    }
    let singular = generate_matrix(12, MatrixKind::Singular, 5, &F64).unwrap();
    assert!(singular.is_singular(None, &F64).unwrap());
    let invertible = generate_matrix(12, MatrixKind::Invertible, 5, &F64).unwrap();
    assert!(!invertible.is_singular(None, &F64).unwrap());
}

#[test]
fn norm_and_tolerance_repeat_for_the_same_entries() {
    let m = matrix(3, &[1.5, -2.25, 0.125, -3.0, 0.5, 4.0, 0.0, -0.0, 7.75]);
    assert_eq!(m.infinity_norm(&F64), m.clone().infinity_norm(&F64));
    assert_eq!(f64::from_bits(m.infinity_norm(&F64)), 7.75);
    assert_eq!(m.auto_tolerance(&F64), m.auto_tolerance(&F64));
    assert_eq!(f64::from_bits(m.auto_tolerance(&F64)), f64::EPSILON * 3.0 * 7.75 * 64.0);
}
