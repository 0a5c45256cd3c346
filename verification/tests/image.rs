use ex_poppy::image::{
    check_image, read_word, Header, BUCKET_BITS, BUCKET_BYTES, FLAGS_LEN, HEADER_LEN, MAX_BITS,
    MAX_BUCKETS,
};
use ex_poppy::ExPoppyError;

const RATE: u64 = 0x3F84_7AE1_47AE_147B;

/// A version 1 image with an empty bit array of `bits` bits.
fn image_v1(capacity: u64, rate_bits: u64, hashes: u64, bits: u64, count: u64) -> Vec<u8> {
    let mut out = vec![1u8, 0, 0, 0, 0, 0, 0, 0];
    out.extend_from_slice(&capacity.to_le_bytes());
    out.extend_from_slice(&rate_bits.to_le_bytes());
    out.extend_from_slice(&hashes.to_le_bytes());
    out.extend_from_slice(&bits.to_le_bytes());
    out.extend_from_slice(&count.to_le_bytes());
    let words = (bits as usize + 63) / 64;
    out.extend_from_slice(&vec![0u8; 8 * words]);
    out
}

/// A version 2 image with an empty cache and empty buckets.
fn image_v2(
    variant: u8,
    capacity: u64,
    rate_bits: u64,
    hashes: u64,
    count: u64,
    cache_bits: u64,
    buckets: u64,
) -> Vec<u8> {
    let mut out = vec![2u8, variant, 0, 0, 0, 0, 0, 0];
    out.extend_from_slice(&capacity.to_le_bytes());
    out.extend_from_slice(&rate_bits.to_le_bytes());
    out.extend_from_slice(&hashes.to_le_bytes());
    out.extend_from_slice(&count.to_le_bytes());
    out.extend_from_slice(&cache_bits.to_le_bytes());
    out.extend_from_slice(&vec![0u8; (cache_bits / 8) as usize]);
    out.extend_from_slice(&buckets.to_le_bytes());
    out.extend_from_slice(&vec![0u8; 4096 * buckets as usize]);
    out
}

#[test]
fn layout_constants() {
    assert_eq!(FLAGS_LEN, 8);
    assert_eq!(HEADER_LEN, 48);
    assert_eq!(BUCKET_BYTES, 4096);
    assert_eq!(BUCKET_BITS, 8 * BUCKET_BYTES);
    assert_eq!(MAX_BITS, 1u64 << 53);
    assert_eq!(MAX_BUCKETS * BUCKET_BITS, MAX_BITS);
}

#[test]
fn read_word_is_little_endian() {
    let bytes = [0xAAu8, 0x01, 0x02, 0x03, 0x04, 0x05, 0x06, 0x07, 0x08, 0xBB];
    assert_eq!(read_word(&bytes, 1), 0x0807_0605_0403_0201);
    assert_eq!(read_word(&bytes, 0), 0x0706_0504_0302_01AA);
    assert_eq!(read_word(&bytes, 2), 0xBB08_0706_0504_0302);
    assert_eq!(read_word(&[0xFF; 8], 0), u64::MAX);
    assert_eq!(read_word(&[0; 8], 0), 0);
    assert_eq!(read_word(&[1, 0, 0, 0, 0, 0, 0, 0], 0), 1);
    assert_eq!(read_word(&[0, 0, 0, 0, 0, 0, 0, 1], 0), 1u64 << 56);
}

#[test]
fn read_word_agrees_with_std() {
    let bytes: Vec<u8> = (0u16..64).map(|i| (i * 37 % 251) as u8).collect();
    for at in 0..=(bytes.len() - 8) {
        let mut word = [0u8; 8];
        word.copy_from_slice(&bytes[at..at + 8]);
        assert_eq!(read_word(&bytes, at), u64::from_le_bytes(word));
    }
}

#[test]
fn check_image_reads_a_version_1_header() {
    let image = image_v1(10, RATE, 3, 64, 0);
    assert_eq!(image.len(), 56);
    assert_eq!(
        check_image(&image),
        Ok(Header {
            version: 1,
            variant: 0,
            capacity: 10,
            rate_bits: RATE,
            hashes: 3,
            count: 0,
            bit_size: 64,
            cache_bits: 0,
        })
    );
    let image = image_v1(1000, RATE, 7, 9585, 1000);
    assert_eq!(image.len(), 48 + 8 * 150);
    assert_eq!(
        check_image(&image),
        Ok(Header {
            version: 1,
            variant: 0,
            capacity: 1000,
            rate_bits: RATE,
            hashes: 7,
            count: 1000,
            bit_size: 9585,
            cache_bits: 0,
        })
    );
}

#[test]
fn check_image_reads_a_version_2_header() {
    let image = image_v2(0, 1000, RATE, 7, 5, 0, 1);
    assert_eq!(image.len(), 56 + 4096);
    assert_eq!(
        check_image(&image),
        Ok(Header {
            version: 2,
            variant: 0,
            capacity: 1000,
            rate_bits: RATE,
            hashes: 7,
            count: 5,
            bit_size: 32768,
            cache_bits: 0,
        })
    );
    let image = image_v2(2, 1000, RATE, 5, 0, 1024, 3);
    assert_eq!(image.len(), 56 + 128 + 3 * 4096);
    assert_eq!(
        check_image(&image),
        Ok(Header {
            version: 2,
            variant: 2,
            capacity: 1000,
            rate_bits: RATE,
            hashes: 5,
            count: 0,
            bit_size: 3 * 32768,
            cache_bits: 1024,
        })
    );
}

#[test]
fn too_few_bytes_for_the_flags_is_invalid_format() {
    assert_eq!(check_image(&[]), Err(ExPoppyError::InvalidFormat));
    assert_eq!(check_image(&[1]), Err(ExPoppyError::InvalidFormat));
    assert_eq!(check_image(&[1, 0, 0, 0, 0, 0, 0]), Err(ExPoppyError::InvalidFormat));
    assert_eq!(check_image(&[9, 9, 9]), Err(ExPoppyError::InvalidFormat));
}

#[test]
fn a_reserved_flag_byte_is_invalid_format() {
    for at in 2..8 {
        let mut image = image_v1(10, RATE, 3, 64, 0);
        image[at] = 1;
        assert_eq!(check_image(&image), Err(ExPoppyError::InvalidFormat));
        let mut image = image_v2(0, 10, RATE, 3, 0, 0, 1);
        image[at] = 0x80;
        assert_eq!(check_image(&image), Err(ExPoppyError::InvalidFormat));
    }
    assert_eq!(check_image(&[7, 7, 0, 0, 0, 0, 0, 1]), Err(ExPoppyError::InvalidFormat));
}

#[test]
fn an_unknown_version_is_unsupported() {
    for version in [0u8, 3, 4, 200, 255] {
        let mut image = image_v1(10, RATE, 3, 64, 0);
        image[0] = version;
        assert_eq!(check_image(&image), Err(ExPoppyError::UnsupportedVersion(version)));
    }
    assert_eq!(
        check_image(&[3, 9, 0, 0, 0, 0, 0, 0]),
        Err(ExPoppyError::UnsupportedVersion(3))
    );
}

#[test]
fn an_unknown_variant_is_invalid() {
    for tag in [4u8, 5, 100, 255] {
        let image = image_v2(tag, 10, RATE, 3, 0, 0, 1);
        assert_eq!(check_image(&image), Err(ExPoppyError::InvalidVariant(tag)));
    }
    for tag in 0u8..=3 {
        let image = image_v2(tag, 10, RATE, 3, 0, 0, 1);
        assert!(check_image(&image).is_ok());
    }
    assert_eq!(
        check_image(&[2, 4, 0, 0, 0, 0, 0, 0]),
        Err(ExPoppyError::InvalidVariant(4))
    );
}

#[test]
fn version_1_has_no_variants() {
    for tag in 1u8..=3 {
        let mut image = image_v1(10, RATE, 3, 64, 0);
        image[1] = tag;
        assert_eq!(check_image(&image), Err(ExPoppyError::InvalidVariant(tag)));
    }
}

#[test]
fn a_header_cut_short_is_corrupt() {
    let image = image_v1(10, RATE, 3, 64, 0);
    for n in 8..48 {
        assert_eq!(check_image(&image[..n]), Err(ExPoppyError::CorruptFormat));
    }
    assert_eq!(check_image(&[1, 0, 0, 0, 0, 0, 0, 0]), Err(ExPoppyError::CorruptFormat));
    assert_eq!(check_image(&[2, 3, 0, 0, 0, 0, 0, 0]), Err(ExPoppyError::CorruptFormat));
}

#[test]
fn bad_parameters_in_an_image_are_invalid_parameters() {
    assert_eq!(check_image(&image_v1(0, RATE, 3, 64, 0)), Err(ExPoppyError::InvalidParameter));
    assert_eq!(
        check_image(&image_v1(10, 1.0f64.to_bits(), 3, 64, 0)),
        Err(ExPoppyError::InvalidParameter)
    );
    assert_eq!(check_image(&image_v1(10, 0, 3, 64, 0)), Err(ExPoppyError::InvalidParameter));
    assert_eq!(
        check_image(&image_v1(10, f64::NAN.to_bits(), 3, 64, 0)),
        Err(ExPoppyError::InvalidParameter)
    );
    assert_eq!(check_image(&image_v1(10, RATE, 0, 64, 0)), Err(ExPoppyError::InvalidParameter));
    assert_eq!(check_image(&image_v1(10, RATE, 3, 0, 0)), Err(ExPoppyError::InvalidParameter));
    assert_eq!(
        check_image(&image_v2(0, 0, RATE, 3, 0, 0, 1)),
        Err(ExPoppyError::InvalidParameter)
    );
    assert_eq!(
        check_image(&image_v2(0, 10, 5e-324f64.to_bits(), 3, 0, 0, 1)),
        Err(ExPoppyError::InvalidParameter)
    );
    // Version 1 takes every rate between zero and one.
    assert!(check_image(&image_v1(10, 5e-324f64.to_bits(), 3, 64, 0)).is_ok());
    assert_eq!(
        check_image(&image_v2(0, 10, RATE, 0, 0, 0, 1)),
        Err(ExPoppyError::InvalidParameter)
    );
    assert_eq!(
        check_image(&image_v2(0, 10, RATE, 3, 0, 0, 0)),
        Err(ExPoppyError::InvalidParameter)
    );
}

#[test]
fn a_count_above_the_capacity_is_corrupt() {
    assert_eq!(check_image(&image_v1(10, RATE, 3, 64, 11)), Err(ExPoppyError::CorruptFormat));
    assert!(check_image(&image_v1(10, RATE, 3, 64, 10)).is_ok());
    assert_eq!(
        check_image(&image_v2(0, 10, RATE, 3, u64::MAX, 0, 1)),
        Err(ExPoppyError::CorruptFormat)
    );
    assert!(check_image(&image_v2(0, 10, RATE, 3, 10, 0, 1)).is_ok());
}

#[test]
fn a_length_that_the_header_does_not_ask_for_is_corrupt() {
    let whole = image_v1(10, RATE, 3, 65, 0);
    assert_eq!(whole.len(), 48 + 16);
    assert!(check_image(&whole).is_ok());
    let mut longer = whole.clone();
    longer.push(0);
    assert_eq!(check_image(&longer), Err(ExPoppyError::CorruptFormat));
    assert_eq!(check_image(&whole[..whole.len() - 1]), Err(ExPoppyError::CorruptFormat));
    assert_eq!(check_image(&whole[..56]), Err(ExPoppyError::CorruptFormat));

    let whole = image_v2(1, 10, RATE, 3, 0, 16, 2);
    assert_eq!(whole.len(), 56 + 2 + 8192);
    assert!(check_image(&whole).is_ok());
    let mut longer = whole.clone();
    longer.extend_from_slice(b"attached");
    assert_eq!(check_image(&longer), Err(ExPoppyError::CorruptFormat));
    assert_eq!(check_image(&whole[..whole.len() - 4096]), Err(ExPoppyError::CorruptFormat));
}

#[test]
fn sizes_beyond_the_engine_are_corrupt() {
    let mut image = image_v1(10, RATE, 3, 64, 0);
    image[32..40].copy_from_slice(&(MAX_BITS + 1).to_le_bytes());
    assert_eq!(check_image(&image), Err(ExPoppyError::CorruptFormat));
    image[32..40].copy_from_slice(&u64::MAX.to_le_bytes());
    assert_eq!(check_image(&image), Err(ExPoppyError::CorruptFormat));

    let mut image = image_v2(0, 10, RATE, 3, 0, 0, 1);
    image[48..56].copy_from_slice(&(MAX_BUCKETS + 1).to_le_bytes());
    assert_eq!(check_image(&image), Err(ExPoppyError::CorruptFormat));
    image[48..56].copy_from_slice(&u64::MAX.to_le_bytes());
    assert_eq!(check_image(&image), Err(ExPoppyError::CorruptFormat));
    image[40..48].copy_from_slice(&(MAX_BITS + 8).to_le_bytes());
    assert_eq!(check_image(&image), Err(ExPoppyError::CorruptFormat));
    image[40..48].copy_from_slice(&u64::MAX.to_le_bytes());
    assert_eq!(check_image(&image), Err(ExPoppyError::CorruptFormat));
}

#[test]
fn a_cache_that_is_no_whole_number_of_bytes_is_corrupt() {
    let mut image = image_v2(2, 10, RATE, 3, 0, 16, 1);
    assert!(check_image(&image).is_ok());
    image[40] = 15;
    assert_eq!(check_image(&image), Err(ExPoppyError::CorruptFormat));
    image[40] = 1;
    assert_eq!(check_image(&image), Err(ExPoppyError::CorruptFormat));
}

#[test]
fn a_version_2_image_cut_before_its_bucket_count_is_corrupt() {
    let image = image_v2(2, 10, RATE, 3, 0, 64, 1);
    assert_eq!(image.len(), 56 + 8 + 4096);
    for n in [48, 50, 56, 60, 63] {
        assert_eq!(check_image(&image[..n]), Err(ExPoppyError::CorruptFormat));
    }
    assert_eq!(check_image(&image[..64]), Err(ExPoppyError::CorruptFormat));
}

#[test]
fn every_truncation_behind_the_flags_is_corrupt() {
    let images = [
        image_v1(10, RATE, 3, 64, 0),
        image_v1(1000, RATE, 7, 9585, 12),
        image_v2(0, 10, RATE, 3, 0, 0, 1),
        image_v2(3, 10, RATE, 3, 2, 32, 1),
    ];
    for image in images.iter() {
        assert!(check_image(image).is_ok());
        let mut n = 8;
        while n < image.len() {
            assert_eq!(check_image(&image[..n]), Err(ExPoppyError::CorruptFormat), "at {}", n);
            n += if n < 80 { 1 } else { 97 };
        }
        assert_eq!(
            check_image(&image[..image.len() - 1]),
            Err(ExPoppyError::CorruptFormat)
        );
    }
}

#[test]
fn more_hash_rounds_than_bits_is_corrupt() {
    assert!(check_image(&image_v1(10, RATE, 64, 64, 0)).is_ok());
    assert_eq!(check_image(&image_v1(10, RATE, 65, 64, 0)), Err(ExPoppyError::CorruptFormat));
    assert_eq!(
        check_image(&image_v1(10, RATE, u64::MAX, 64, 0)),
        Err(ExPoppyError::CorruptFormat)
    );
    assert!(check_image(&image_v2(0, 10, RATE, 32768, 0, 0, 1)).is_ok());
    assert_eq!(
        check_image(&image_v2(0, 10, RATE, 32769, 0, 0, 1)),
        Err(ExPoppyError::CorruptFormat)
    );
    assert!(check_image(&image_v2(0, 10, RATE, 32769, 0, 0, 2)).is_ok());
}
