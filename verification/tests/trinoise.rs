use trinoise::{aligned, next, signature, tri, try_signature, SignatureError, MAX_BASE};

#[test]
fn it_works() {
    assert_eq!(signature(2), vec![0, 0, 0, 0]);

    let base: u8 = 3;
    assert_eq!(
        signature(base),
        vec![1, 2, 0, 1, 0, 1, 2, 0, 1, 0, 1, 2, 0, 1, 0]
    );
    assert_eq!(aligned(0, base), 1);
    assert_eq!(aligned(1, base), 1);
    assert_eq!(aligned(2, base), 2);
    assert_eq!(aligned(3, base), 2);
    assert_eq!(aligned(4, base), 2);
    assert_eq!(aligned(5, base), 3);
    assert_eq!(aligned(6, base), 1);
    assert_eq!(aligned(7, base), 1);

    assert_eq!(next(0, base), 1);
    assert_eq!(next(1, base), 0);
    assert_eq!(next(2, base), 2);
    assert_eq!(next(3, base), 1);
    assert_eq!(next(4, base), 0);
    assert_eq!(next(5, base), 0);
    assert_eq!(next(6, base), 1);

    let base: u8 = 3;
    let s = signature(base);
    let mut p = [0, 0, 0];
    for i in 0..s.len() {
        p[s[i] as usize] += 1;
    }
    assert_eq!(p, [6, 6, 3]);
}

#[test]
fn signature_is_deterministic() {
    for base in 2u8..=6 {
        assert_eq!(signature(base), signature(base));
    }
}

#[test]
fn signature_ends_in_zero() {
    for base in 2u8..=7 {
        let s = signature(base);
        assert!(!s.is_empty());
        assert_eq!(*s.last().unwrap(), 0);
    }
}

#[test]
fn run_lengths_take_three_values() {
    for base in 3u8..=6 {
        let end = (base as u64).pow(base as u32);
        let mut v: u64 = 0;
        while v + 1 < end {
            let n = next(v, base);
            assert!(n == 0 || n == base - 2 || n == base - 1);
            v += n as u64 + 1;
        }
    }
}

#[test]
fn aligned_identity_is_base() {
    // The identity values: digits equal to the reference pattern.
    assert_eq!(aligned(1, 2), 2);
    assert_eq!(aligned(5, 3), 3);
    assert_eq!(aligned(27, 4), 4);
    assert_eq!(aligned(194, 5), 5);
}

#[test]
fn aligned_stays_within_range() {
    for base in 2u8..=5 {
        let end = (base as u64).pow(base as u32);
        for v in 0..end {
            assert!(aligned(v, base) <= base);
        }
    }
}

#[test]
fn signature_frequencies() {
    let s = signature(4);
    let mut p = [0, 0, 0];
    for i in 0..s.len() {
        p[s[i] as usize] += 1;
    }
    assert_eq!(p, [44, 44, 20]);

    let s = signature(5);
    let mut p = [0, 0, 0];
    for i in 0..s.len() {
        p[s[i] as usize] += 1;
    }
    assert_eq!(p, [470, 470, 155]);
}

#[test]
fn tri_classifies_run_lengths() {
    assert_eq!(tri(0, 5), 0);
    assert_eq!(tri(3, 5), 1);
    assert_eq!(tri(4, 5), 2);
    assert_eq!(tri(1, 5), 2);
    assert_eq!(tri(2, 5), 2);
    assert_eq!(tri(0, 2), 0);
}

#[test]
fn try_signature_rejects_base_below_two() {
    assert_eq!(try_signature(0), Err(SignatureError::BaseTooSmall));
    assert_eq!(try_signature(1), Err(SignatureError::BaseTooSmall));
}

#[test]
fn try_signature_rejects_overflowing_base() {
    assert_eq!(try_signature(MAX_BASE + 1), Err(SignatureError::PeriodOverflow));
    assert_eq!(try_signature(100), Err(SignatureError::PeriodOverflow));
    assert_eq!(try_signature(255), Err(SignatureError::PeriodOverflow));
}

#[test]
fn try_signature_accepts_the_domain() {
    for base in 2u8..=7 {
        assert_eq!(try_signature(base), Ok(signature(base)));
    }
}
