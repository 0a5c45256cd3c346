use ex_poppy::params::{
    is_engine_rate, is_valid_rate, DEFAULT_VERSION, MAX_VARIANT_TAG, RATE_FLOOR, RATE_ONE,
};
use ex_poppy::{new, with_params, with_version, ExPoppyError, Params, Variant};

fn rate(p: f64) -> u64 {
    p.to_bits()
}

#[test]
fn rate_constants_are_the_bit_patterns_of_the_bounds() {
    assert_eq!(RATE_FLOOR, f64::MIN_POSITIVE.to_bits());
    assert_eq!(RATE_ONE, 1.0f64.to_bits());
    assert_eq!(rate(0.01), 0x3F84_7AE1_47AE_147B);
    assert_eq!(DEFAULT_VERSION, 2);
    assert_eq!(MAX_VARIANT_TAG, 3);
}

#[test]
fn valid_rates_are_the_numbers_between_zero_and_one() {
    assert!(is_valid_rate(rate(0.01)));
    assert!(is_valid_rate(rate(0.5)));
    assert!(is_valid_rate(rate(0.9999999999999999)));
    assert!(is_valid_rate(rate(f64::MIN_POSITIVE)));
    assert!(is_valid_rate(rate(5e-324)));
    assert!(is_valid_rate(rate(1e-310)));
    assert!(is_valid_rate(1));
    assert!(is_valid_rate(RATE_FLOOR - 1));
    assert!(!is_valid_rate(rate(1.0)));
    assert!(!is_valid_rate(rate(1.5)));
    assert!(!is_valid_rate(rate(0.0)));
    assert!(!is_valid_rate(rate(-0.0)));
    assert!(!is_valid_rate(rate(-0.5)));
    assert!(!is_valid_rate(rate(f64::NAN)));
    assert!(!is_valid_rate(rate(f64::INFINITY)));
    assert!(!is_valid_rate(rate(f64::NEG_INFINITY)));
}

#[test]
fn engine_rates_are_the_normal_numbers_below_one() {
    assert!(is_engine_rate(rate(0.01)));
    assert!(is_engine_rate(rate(f64::MIN_POSITIVE)));
    assert!(is_engine_rate(RATE_ONE - 1));
    assert!(!is_engine_rate(rate(5e-324)));
    assert!(!is_engine_rate(RATE_FLOOR - 1));
    assert!(!is_engine_rate(rate(1.0)));
    assert!(!is_engine_rate(0));
    for p in [0.0, 1e-320, f64::MIN_POSITIVE, 1e-9, 0.5, 1.0, 2.0, -0.5] {
        let built = poppy_filters::BloomFilter::with_capacity(10, p);
        assert_eq!(is_engine_rate(rate(p)), built.is_ok() && p < 1.0, "rate {}", p);
    }
}

#[test]
fn valid_rate_agrees_with_the_order_of_doubles() {
    let samples = [
        0.0, 5e-324, 1e-320, f64::MIN_POSITIVE, 1e-300, 1e-9, 0.001, 0.01, 0.25, 0.5, 0.75, 0.99,
        0.9999999999999999, 1.0, 1.0000000000000002, 2.0, 1e300, -1e-9, -0.5, -1.0,
    ];
    for p in samples {
        let expected = 0.0 < p && p < 1.0;
        assert_eq!(is_valid_rate(rate(p)), expected, "rate {}", p);
    }
}

#[test]
fn new_keeps_capacity_and_rate_and_picks_the_defaults() {
    assert_eq!(
        new(1000, rate(0.01)),
        Ok(Params { version: 2, capacity: 1000, rate_bits: rate(0.01), variant: Variant::Plain })
    );
    assert_eq!(
        new(1, rate(f64::MIN_POSITIVE)),
        Ok(Params {
            version: 2,
            capacity: 1,
            rate_bits: 0x0010_0000_0000_0000,
            variant: Variant::Plain
        })
    );
    // Every positive rate below one is accepted, the smallest too.
    assert_eq!(
        new(7, 1),
        Ok(Params { version: 2, capacity: 7, rate_bits: 1, variant: Variant::Plain })
    );
    assert_eq!(
        with_params(1, 7, rate(1e-310), 0),
        Ok(Params { version: 1, capacity: 7, rate_bits: rate(1e-310), variant: Variant::Plain })
    );
    assert_eq!(
        new(usize::MAX, RATE_ONE - 1),
        Ok(Params {
            version: 2,
            capacity: usize::MAX,
            rate_bits: 0x3FEF_FFFF_FFFF_FFFF,
            variant: Variant::Plain
        })
    );
}

#[test]
fn new_rejects_a_capacity_of_zero() {
    assert_eq!(new(0, rate(0.01)), Err(ExPoppyError::InvalidParameter));
}

#[test]
fn new_rejects_rates_outside_zero_and_one() {
    assert_eq!(new(10, rate(0.0)), Err(ExPoppyError::InvalidParameter));
    assert_eq!(new(10, rate(1.0)), Err(ExPoppyError::InvalidParameter));
    assert_eq!(new(10, rate(1.5)), Err(ExPoppyError::InvalidParameter));
    assert_eq!(new(10, rate(-0.01)), Err(ExPoppyError::InvalidParameter));
    assert_eq!(new(10, rate(f64::NAN)), Err(ExPoppyError::InvalidParameter));
    assert_eq!(new(10, rate(f64::INFINITY)), Err(ExPoppyError::InvalidParameter));
    assert_eq!(new(10, RATE_ONE), Err(ExPoppyError::InvalidParameter));
    assert_eq!(new(10, u64::MAX), Err(ExPoppyError::InvalidParameter));
}

#[test]
fn with_version_accepts_both_versions() {
    assert_eq!(
        with_version(1, 50, rate(0.1)),
        Ok(Params { version: 1, capacity: 50, rate_bits: rate(0.1), variant: Variant::Plain })
    );
    assert_eq!(
        with_version(2, 50, rate(0.1)),
        Ok(Params { version: 2, capacity: 50, rate_bits: rate(0.1), variant: Variant::Plain })
    );
}

#[test]
fn with_version_rejects_unknown_versions() {
    assert_eq!(with_version(0, 50, rate(0.1)), Err(ExPoppyError::UnsupportedVersion(0)));
    assert_eq!(with_version(3, 50, rate(0.1)), Err(ExPoppyError::UnsupportedVersion(3)));
    assert_eq!(with_version(255, 50, rate(0.1)), Err(ExPoppyError::UnsupportedVersion(255)));
}

#[test]
fn with_version_rejects_bad_capacity_and_rate() {
    assert_eq!(with_version(1, 0, rate(0.1)), Err(ExPoppyError::InvalidParameter));
    assert_eq!(with_version(2, 7, rate(1.0)), Err(ExPoppyError::InvalidParameter));
}

#[test]
fn with_params_accepts_every_variant() {
    let expected = [Variant::Plain, Variant::Space, Variant::Speed, Variant::Best];
    for tag in 0u8..=3 {
        assert_eq!(
            with_params(2, 123, rate(0.001), tag),
            Ok(Params {
                version: 2,
                capacity: 123,
                rate_bits: 0x3F50_624D_D2F1_A9FC,
                variant: expected[tag as usize]
            })
        );
    }
    assert_eq!(
        with_params(1, 9, rate(0.5), 2),
        Ok(Params { version: 1, capacity: 9, rate_bits: rate(0.5), variant: Variant::Speed })
    );
}

#[test]
fn with_params_rejects_unknown_variants() {
    assert_eq!(with_params(2, 123, rate(0.001), 4), Err(ExPoppyError::InvalidVariant(4)));
    assert_eq!(with_params(1, 123, rate(0.001), 255), Err(ExPoppyError::InvalidVariant(255)));
}

#[test]
fn with_params_looks_at_variant_then_version_then_the_rest() {
    assert_eq!(with_params(9, 0, 0, 7), Err(ExPoppyError::InvalidVariant(7)));
    assert_eq!(with_params(9, 0, 0, 3), Err(ExPoppyError::UnsupportedVersion(9)));
    assert_eq!(with_params(1, 0, 0, 3), Err(ExPoppyError::InvalidParameter));
    assert_eq!(with_params(1, 1, 0, 3), Err(ExPoppyError::InvalidParameter));
    assert!(with_params(1, 1, rate(0.3), 3).is_ok());
}

#[test]
fn variant_tags_read_back() {
    assert_eq!(Variant::from_tag(0), Ok(Variant::Plain));
    assert_eq!(Variant::from_tag(1), Ok(Variant::Space));
    assert_eq!(Variant::from_tag(2), Ok(Variant::Speed));
    assert_eq!(Variant::from_tag(3), Ok(Variant::Best));
    assert_eq!(Variant::from_tag(4), Err(ExPoppyError::InvalidVariant(4)));
    assert_eq!(Variant::Plain.tag(), 0);
    assert_eq!(Variant::Space.tag(), 1);
    assert_eq!(Variant::Speed.tag(), 2);
    assert_eq!(Variant::Best.tag(), 3);
    for tag in 0u8..=255 {
        match Variant::from_tag(tag) {
            Ok(v) => assert_eq!(v.tag(), tag),
            Err(e) => {
                assert!(tag > 3);
                assert_eq!(e, ExPoppyError::InvalidVariant(tag));
            }
        }
    }
}

#[test]
fn variant_tags_are_those_of_the_engine() {
    for tag in 0u8..=255 {
        let ours = Variant::from_tag(tag).is_ok();
        let theirs = poppy_filters::OptLevel::try_from(tag).is_ok();
        assert_eq!(ours, theirs, "tag {}", tag);
    }
    assert_eq!(Variant::Plain.tag(), poppy_filters::OptLevel::None as u8);
    assert_eq!(Variant::Space.tag(), poppy_filters::OptLevel::Space as u8);
    assert_eq!(Variant::Speed.tag(), poppy_filters::OptLevel::Speed as u8);
    assert_eq!(Variant::Best.tag(), poppy_filters::OptLevel::Best as u8);
}

#[test]
fn accepted_requests_are_those_the_engine_builds() {
    // Every accepted request is one the engine accepts too.
    for version in [1u8, 2] {
        for tag in 0u8..=3 {
            for p in [f64::MIN_POSITIVE, 1e-9, 0.01, 0.5, 0.99] {
                let params = with_params(version, 64, rate(p), tag).unwrap();
                let opt = poppy_filters::OptLevel::try_from(params.variant.tag()).unwrap();
                let built = poppy_filters::BloomFilter::with_version_capacity_opt(
                    params.version,
                    params.capacity,
                    f64::from_bits(params.rate_bits),
                    opt,
                );
                assert!(built.is_ok());
            }
        }
    }
}

#[test]
fn error_messages() {
    assert_eq!(
        ExPoppyError::InvalidParameter.message(),
        "invalid capacity or false positive rate"
    );
    assert_eq!(ExPoppyError::UnsupportedVersion(7).message(), "unsupported format version");
    assert_eq!(ExPoppyError::InvalidVariant(9).message(), "invalid variant tag");
    assert_eq!(ExPoppyError::InvalidFormat.message(), "not a filter file");
    assert_eq!(ExPoppyError::CorruptFormat.message(), "corrupt filter file");
}
