use ex_poppy::{
    capacity, contains_str, count_set, data, fpp, insert_str, load_filter, save, version,
    with_params, BloomFilter, ExPoppyError, Variant,
};

const RATE: u64 = 0x3F84_7AE1_47AE_147B;

/// A file with an empty bit array.
fn empty_file(version: u8, variant: u8, capacity: u64, hashes: u64, bits: u64) -> Vec<u8> {
    let mut out = b"POPY".to_vec();
    out.push(version);
    out.push(variant);
    out.extend_from_slice(&capacity.to_le_bytes());
    out.extend_from_slice(&RATE.to_le_bytes());
    out.extend_from_slice(&hashes.to_le_bytes());
    out.extend_from_slice(&bits.to_le_bytes());
    out.extend_from_slice(&vec![0u8; (bits as usize + 7) / 8]);
    out
}

fn engine(version: u8, cap: usize, p: f64, tag: u8) -> poppy_filters::BloomFilter {
    let opt = poppy_filters::OptLevel::try_from(tag).unwrap();
    poppy_filters::BloomFilter::with_version_capacity_opt(version, cap, p, opt).unwrap()
}

fn filter(version: u8, cap: usize, p: f64, tag: u8) -> BloomFilter {
    BloomFilter::from_engine(engine(version, cap, p, tag)).unwrap()
}

fn image_of(engine: &poppy_filters::BloomFilter) -> Vec<u8> {
    let mut out = Vec::new();
    engine.write(&mut out).unwrap();
    out
}

#[test]
fn from_engine_takes_over_a_default_filter() {
    let made = poppy_filters::BloomFilter::with_capacity(1000, 0.01).unwrap();
    let bf = BloomFilter::from_engine(made).unwrap();
    assert_eq!(version(&bf), 2);
    assert_eq!(capacity(&bf), 1000);
    assert_eq!(fpp(&bf), RATE);
    assert_eq!(f64::from_bits(fpp(&bf)), 0.01);
    assert_eq!(count_set(&bf), 0);
    assert_eq!(bf.hash_count(), 7);
    assert_eq!(bf.bit_size(), 32768);
    assert_eq!(bf.variant(), Variant::Plain);
}

#[test]
fn from_engine_takes_over_every_version_and_variant() {
    let bf = filter(1, 1000, 0.01, 0);
    assert_eq!(version(&bf), 1);
    assert_eq!(capacity(&bf), 1000);
    assert_eq!(bf.bit_size(), 9585);
    assert_eq!(bf.hash_count(), 7);
    let variants = [Variant::Plain, Variant::Space, Variant::Speed, Variant::Best];
    for tag in 0u8..=3 {
        let bf = filter(2, 1000, 0.01, tag);
        assert_eq!(version(&bf), 2);
        assert_eq!(capacity(&bf), 1000);
        assert_eq!(fpp(&bf), RATE);
        assert_eq!(bf.bit_size(), 32768);
        assert_eq!(bf.variant(), variants[tag as usize]);
        assert_eq!(bf.hash_count(), if tag < 2 { 7 } else { 5 });
        // The lookup cache of the engine is no part of the filter.
        assert_eq!(save(&bf).len(), 38 + 4096);
    }
}

#[test]
fn from_engine_keeps_what_the_engine_holds() {
    for ver in [1u8, 2] {
        for tag in 0u8..=3 {
            let mut made = engine(ver, 100, 0.01, tag);
            assert_eq!(made.insert_bytes("alpha").unwrap(), true);
            assert_eq!(made.insert_bytes("beta").unwrap(), true);
            let image = image_of(&made);
            let bf = BloomFilter::from_engine(made).unwrap();
            assert!(contains_str(&bf, "alpha"));
            assert!(contains_str(&bf, "beta"));
            assert!(!contains_str(&bf, "gamma"));
            let bits = data(&bf);
            assert_eq!(&image[image.len() - bits.len()..], &bits[..]);
            assert!(count_set(&bf) >= 2);
        }
    }
}

#[test]
fn a_filter_has_one_bit_and_one_hash_round_at_least() {
    // One entry at a rate of 0.9 needs less than one bit in version 1: the
    // engine sizes the filter to no bits and no hash rounds. It is given one
    // of each.
    let made = engine(1, 1, 0.9, 0);
    assert_eq!(image_of(&made).len(), 48);
    let mut bf = BloomFilter::from_engine(made).unwrap();
    assert_eq!(bf.bit_size(), 1);
    assert_eq!(bf.hash_count(), 1);
    assert_eq!(capacity(&bf), 1);
    assert_eq!(fpp(&bf), 0.9f64.to_bits());
    assert!(!contains_str(&bf, "one"));
    assert_eq!(insert_str(&mut bf, "one"), Ok(true));
    assert!(contains_str(&bf, "one"));
    assert_eq!(save(&bf).len(), 39);
    assert_eq!(save(&bf)[38], 1);
    // With a lookup cache the engine sizes the same request to no hash rounds.
    let mut bf = BloomFilter::from_engine(engine(2, 1, 0.9, 2)).unwrap();
    assert_eq!(bf.hash_count(), 1);
    assert_eq!(bf.bit_size(), 32768);
    assert_eq!(insert_str(&mut bf, "one"), Ok(true));
    assert!(contains_str(&bf, "one"));
    assert!(!contains_str(&bf, "two"));
    assert_eq!(count_set(&bf), 1);
}

#[test]
fn from_engine_refuses_a_filter_for_no_entries_or_at_a_rate_of_one() {
    let r = BloomFilter::from_engine(engine(2, 0, 0.01, 0));
    assert_eq!(r.err(), Some(ExPoppyError::InvalidParameter));
    let r = BloomFilter::from_engine(engine(1, 0, 0.01, 0));
    assert_eq!(r.err(), Some(ExPoppyError::InvalidParameter));
    let r = BloomFilter::from_engine(engine(2, 10, 1.0, 0));
    assert_eq!(r.err(), Some(ExPoppyError::InvalidParameter));
}

#[test]
fn from_engine_refuses_a_filter_with_attached_data() {
    let mut made = poppy_filters::v2::BloomFilter::with_capacity(10, 0.01).unwrap();
    made.data = b"attached".to_vec();
    let r = BloomFilter::from_engine(poppy_filters::BloomFilter::V2(made));
    assert_eq!(r.err(), Some(ExPoppyError::CorruptFormat));
}

#[test]
fn from_engine_refuses_a_filter_that_was_read_in_part() {
    for ver in [1u8, 2] {
        let image = image_of(&engine(ver, 100, 0.01, 0));
        let partial =
            poppy_filters::BloomFilter::partial_from_reader(std::io::Cursor::new(&image)).unwrap();
        let expected = if ver == 1 {
            ExPoppyError::CorruptFormat
        } else {
            ExPoppyError::InvalidParameter
        };
        assert_eq!(BloomFilter::from_engine(partial).err(), Some(expected));
    }
}

#[test]
fn a_filter_read_in_part_with_data_for_a_bit_array_is_read_whole() {
    // A version 1 image with as many bytes behind it as its bit array has. The
    // engine, reading in part, skips the bit array and takes the bytes behind
    // it for attached data, and writes header and data as an image of the
    // right length. What is kept is a filter that the engine read whole from
    // that image: it holds the bits that the image shows.
    let mut image = image_of(&engine(1, 100, 0.01, 0));
    let words = image.len() - 48;
    assert_eq!(words, 120);
    let mut behind = vec![0xFFu8; words];
    behind[119] = 0x3F;
    for b in behind[112..119].iter_mut() {
        *b = 0xFF;
    }
    image.extend_from_slice(&behind);
    let partial =
        poppy_filters::BloomFilter::partial_from_reader(std::io::Cursor::new(&image)).unwrap();
    assert!(!partial.contains_bytes("anything"));
    let mut bf = BloomFilter::from_engine(partial).unwrap();
    assert_eq!(bf.bit_size(), 958);
    assert_eq!(count_set(&bf), 958);
    assert_eq!(data(&bf), behind);
    assert!(contains_str(&bf, "anything"));
    assert!(contains_str(&bf, "anything else"));
    assert_eq!(insert_str(&mut bf, "anything"), Ok(false));
    assert!(contains_str(&bf, "anything"));
    assert_eq!(data(&bf), behind);
}

#[test]
fn from_engine_refuses_a_bit_behind_the_bit_array() {
    let mut image = image_of(&engine(1, 100, 0.01, 0));
    let last = image.len() - 1;
    image[last] = 0x80;
    let made = poppy_filters::BloomFilter::from_reader(std::io::Cursor::new(&image)).unwrap();
    assert_eq!(BloomFilter::from_engine(made).err(), Some(ExPoppyError::CorruptFormat));
}

#[test]
fn from_engine_for_takes_a_filter_that_answers_the_request() {
    for ver in [1u8, 2] {
        for tag in 0u8..=3 {
            let request = with_params(ver, 64, 0.01f64.to_bits(), tag).unwrap();
            let bf = BloomFilter::from_engine_for(&request, engine(ver, 64, 0.01, tag)).unwrap();
            assert_eq!(version(&bf), ver);
            assert_eq!(capacity(&bf), 64);
            assert_eq!(fpp(&bf), request.rate_bits);
            assert_eq!(bf.variant().tag(), if ver == 1 { 0 } else { tag });
            assert_eq!(count_set(&bf), 0);
        }
    }
}

#[test]
fn from_engine_for_refuses_a_filter_that_does_not_answer_the_request() {
    let request = with_params(2, 64, 0.01f64.to_bits(), 2).unwrap();
    let wrong = [
        engine(1, 64, 0.01, 2),
        engine(2, 65, 0.01, 2),
        engine(2, 64, 0.02, 2),
        engine(2, 64, 0.01, 0),
        engine(2, 64, 0.01, 3),
    ];
    for made in wrong {
        assert_eq!(
            BloomFilter::from_engine_for(&request, made).err(),
            Some(ExPoppyError::InvalidParameter)
        );
    }
    let mut used = engine(2, 64, 0.01, 2);
    used.insert_bytes("already in").unwrap();
    assert_eq!(
        BloomFilter::from_engine_for(&request, used).err(),
        Some(ExPoppyError::InvalidParameter)
    );
    assert!(BloomFilter::from_engine_for(&request, engine(2, 64, 0.01, 2)).is_ok());
}

#[test]
fn every_request_that_the_engine_sizes_gives_a_filter() {
    for ver in [1u8, 2] {
        for cap in [1usize, 2, 10, 100, 1000] {
            for p in [f64::MIN_POSITIVE, 1e-9, 0.01, 0.5, 0.9, 0.99, 0.9999999999999999] {
                for tag in 0u8..=3 {
                    let request = with_params(ver, cap, p.to_bits(), tag).unwrap();
                    let bf = BloomFilter::from_engine_for(&request, engine(ver, cap, p, tag))
                        .unwrap();
                    assert!(bf.bit_size() >= 1);
                    assert!(bf.hash_count() >= 1);
                    assert!(bf.hash_count() <= bf.bit_size());
                    assert_eq!(capacity(&bf), cap);
                    assert_eq!(fpp(&bf), p.to_bits());
                    assert_eq!(version(&bf), ver);
                }
            }
        }
    }
}

#[test]
fn every_filter_has_bits_and_hash_rounds() {
    for ver in [1u8, 2] {
        for cap in [1usize, 2, 10, 100, 1000, 50_000] {
            for p in [1e-9, 0.001, 0.01, 0.1, 0.5] {
                for tag in 0u8..=3 {
                    let bf = BloomFilter::from_engine(engine(ver, cap, p, tag)).unwrap();
                    assert!(bf.bit_size() >= 1);
                    assert!(bf.hash_count() >= 1);
                    assert!(bf.hash_count() <= bf.bit_size());
                    assert_eq!(capacity(&bf), cap);
                    assert_eq!(fpp(&bf), p.to_bits());
                    assert_eq!(version(&bf), ver);
                }
            }
        }
    }
}

#[test]
fn an_empty_filter_reports_nothing() {
    for ver in [1u8, 2] {
        let bf = filter(ver, 100, 0.01, 0);
        for word in ["", "a", "alpha", "a longer string than eight bytes"] {
            assert!(!contains_str(&bf, word));
            assert!(!bf.contains_bytes(word.as_bytes()));
        }
        assert_eq!(count_set(&bf), 0);
    }
}

#[test]
fn insert_then_contains() {
    for ver in [1u8, 2] {
        for tag in 0u8..=3 {
            let mut bf = filter(ver, 1000, 0.01, tag);
            assert_eq!(insert_str(&mut bf, "alpha"), Ok(true));
            assert_eq!(insert_str(&mut bf, "beta"), Ok(true));
            assert!(contains_str(&bf, "alpha"));
            assert!(contains_str(&bf, "beta"));
            assert!(!contains_str(&bf, "gamma"));
            assert_eq!(version(&bf), ver);
            assert_eq!(capacity(&bf), 1000);
            assert_eq!(fpp(&bf), RATE);
        }
    }
}

#[test]
fn concrete_scenario_of_a_thousand_entries_at_one_percent() {
    let params = ex_poppy::new(1000, 0.01f64.to_bits()).unwrap();
    assert_eq!(params.capacity, 1000);
    let mut bf = filter(1, params.capacity, f64::from_bits(params.rate_bits), 0);
    // m is 9585 bits, which is the 9586 of the formula less the rounding; k is 7.
    assert_eq!(bf.bit_size(), 9585);
    assert_eq!(bf.hash_count(), 7);
    assert_eq!(insert_str(&mut bf, "alpha"), Ok(true));
    assert_eq!(insert_str(&mut bf, "beta"), Ok(true));
    assert!(contains_str(&bf, "alpha"));
    assert!(contains_str(&bf, "beta"));
    assert!(!contains_str(&bf, "gamma"));
    assert_eq!(count_set(&bf), 14);

    let made = engine(params.version, params.capacity, 0.01, params.variant.tag());
    let mut bf = BloomFilter::from_engine_for(&params, made).unwrap();
    assert_eq!(version(&bf), 2);
    assert_eq!(insert_str(&mut bf, "alpha"), Ok(true));
    assert_eq!(insert_str(&mut bf, "beta"), Ok(true));
    assert!(contains_str(&bf, "alpha"));
    assert!(!contains_str(&bf, "gamma"));
    let mut wrong = 0;
    for i in 0..1000 {
        if contains_str(&bf, &format!("fresh-{}", i)) {
            wrong += 1;
        }
    }
    assert!(wrong <= 10);
}

#[test]
fn insert_sets_exactly_the_bits_of_the_entry() {
    // With 64 bits and 3 rounds, "alpha" hashes to the bits 17, 51 and 25, and
    // "beta" to 37, 47 and 13.
    let mut bf = load_filter(&empty_file(1, 0, 10, 3, 64)).unwrap();
    assert_eq!(insert_str(&mut bf, "alpha"), Ok(true));
    let mut expected = empty_file(1, 0, 10, 3, 64);
    expected[38..46].copy_from_slice(&[0, 0, 2, 2, 0, 0, 8, 0]);
    assert_eq!(save(&bf), expected);
    assert_eq!(data(&bf), vec![0u8, 0, 2, 2, 0, 0, 8, 0]);
    assert_eq!(count_set(&bf), 3);
    assert_eq!(insert_str(&mut bf, "beta"), Ok(true));
    expected[38..46].copy_from_slice(&[0, 32, 2, 2, 32, 128, 8, 0]);
    assert_eq!(save(&bf), expected);
    assert_eq!(count_set(&bf), 6);
    assert!(contains_str(&bf, "alpha"));
    assert!(contains_str(&bf, "beta"));
    assert!(!contains_str(&bf, "gamma"));
    assert!(!contains_str(&bf, "delta"));
}

#[test]
fn insert_reports_false_when_every_bit_is_set_already() {
    // With 64 bits and 3 rounds, "delta" hashes to 55, 37 and 47. "beta" sets 37
    // and 47; the third bit is set by hand.
    let mut file = empty_file(1, 0, 10, 3, 64);
    file[38 + 6] = 0x80;
    let mut bf = load_filter(&file).unwrap();
    assert!(!contains_str(&bf, "delta"));
    assert_eq!(insert_str(&mut bf, "beta"), Ok(true));
    assert!(contains_str(&bf, "delta"));
    let before = save(&bf);
    assert_eq!(insert_str(&mut bf, "delta"), Ok(false));
    assert_eq!(save(&bf), before);
    assert_eq!(count_set(&bf), 4);
}

#[test]
fn inserting_twice_changes_nothing_the_second_time() {
    for ver in [1u8, 2] {
        for tag in 0u8..=3 {
            let mut bf = filter(ver, 100, 0.01, tag);
            assert_eq!(insert_str(&mut bf, "first"), Ok(true));
            assert_eq!(insert_str(&mut bf, "second entry"), Ok(true));
            let ones = count_set(&bf);
            let file = save(&bf);
            assert_eq!(insert_str(&mut bf, "first"), Ok(false));
            assert_eq!(insert_str(&mut bf, "second entry"), Ok(false));
            assert!(contains_str(&bf, "first"));
            assert!(contains_str(&bf, "second entry"));
            assert_eq!(count_set(&bf), ones);
            assert_eq!(save(&bf), file);
        }
    }
}

#[test]
fn an_insertion_never_fails() {
    // Far more entries than the filter was sized for: each goes in, each is
    // reported afterwards, and the second insertion returns false.
    for ver in [1u8, 2] {
        for tag in 0u8..=3 {
            for cap in [1usize, 2, 3, 10] {
                let mut bf = filter(ver, cap, 0.01, tag);
                let mut words = Vec::new();
                for i in 0..200 {
                    let word = format!("entry number {}", i);
                    let before = count_set(&bf);
                    let r = insert_str(&mut bf, &word);
                    assert!(r.is_ok());
                    assert_eq!(r, Ok(count_set(&bf) > before));
                    assert!(contains_str(&bf, &word));
                    assert_eq!(insert_str(&mut bf, &word), Ok(false));
                    words.push(word);
                }
                for word in words.iter() {
                    assert!(contains_str(&bf, word));
                }
                assert_eq!(capacity(&bf), cap);
            }
        }
    }
}

#[test]
fn no_entry_is_lost_while_the_filter_fills() {
    for ver in [1u8, 2] {
        let mut bf = filter(ver, 500, 0.01, 0);
        let mut inserted = Vec::new();
        for i in 0..700 {
            let word = format!("entry number {}", i);
            assert!(insert_str(&mut bf, &word).is_ok());
            inserted.push(word);
            if i % 50 == 0 {
                for earlier in inserted.iter() {
                    assert!(contains_str(&bf, earlier));
                }
            }
        }
        for word in inserted.iter() {
            assert!(contains_str(&bf, word));
        }
    }
}

#[test]
fn a_lookup_reads_the_bit_array_alone() {
    // Every bit of the bit array is set: whatever the variant, every entry is
    // reported, and no insertion sets a bit.
    for tag in 0u8..=3 {
        let mut file = empty_file(2, tag, 100, 5, 32768);
        for b in file[38..].iter_mut() {
            *b = 0xFF;
        }
        let mut bf = load_filter(&file).unwrap();
        assert!(contains_str(&bf, "hidden"));
        assert_eq!(insert_str(&mut bf, "hidden"), Ok(false));
        assert_eq!(save(&bf), file);
        assert_eq!(count_set(&bf), 32768);
    }
    // A filter that the engine made with a lookup cache, and filled behind the
    // back of the cache.
    let mut image = image_of(&engine(2, 100, 0.01, 2));
    let len = image.len();
    for b in image[len - 4096..].iter_mut() {
        *b = 0xFF;
    }
    let made = poppy_filters::BloomFilter::from_reader(std::io::Cursor::new(&image)).unwrap();
    assert!(!made.contains_bytes("hidden"));
    let bf = BloomFilter::from_engine(made).unwrap();
    assert!(contains_str(&bf, "hidden"));
}

#[test]
fn bytes_and_strings_are_the_same_entries() {
    let mut bf = filter(2, 100, 0.01, 0);
    assert_eq!(bf.insert_bytes("grüße".as_bytes()), Ok(true));
    assert!(contains_str(&bf, "grüße"));
    assert_eq!(insert_str(&mut bf, "日本語"), Ok(true));
    assert!(bf.contains_bytes("日本語".as_bytes()));
    assert_eq!(bf.insert_bytes(&[0xFF, 0xFE, 0x00, 0x80]), Ok(true));
    assert!(bf.contains_bytes(&[0xFF, 0xFE, 0x00, 0x80]));
    assert!(!bf.contains_bytes(&[0xFF, 0xFE, 0x00, 0x81]));
}

#[test]
fn the_empty_string_is_an_entry() {
    for ver in [1u8, 2] {
        let mut bf = filter(ver, 100, 0.01, 0);
        assert!(!contains_str(&bf, ""));
        assert_eq!(insert_str(&mut bf, ""), Ok(true));
        assert!(contains_str(&bf, ""));
        assert_eq!(insert_str(&mut bf, ""), Ok(false));
    }
}

#[test]
fn count_set_counts_the_set_bits() {
    for ver in [1u8, 2] {
        let mut bf = filter(ver, 300, 0.01, 0);
        let mut last = 0;
        for i in 0..300 {
            insert_str(&mut bf, &format!("counted {}", i)).unwrap();
            let ones = count_set(&bf);
            let expected: u32 = data(&bf).iter().map(|b| b.count_ones()).sum();
            assert_eq!(ones, expected as u64);
            assert!(ones >= last);
            assert!(ones - last <= bf.hash_count());
            last = ones;
        }
        // The estimate of the number of entries from the set bits.
        let m = bf.bit_size() as f64;
        let k = bf.hash_count() as f64;
        let estimate = -(m / k) * f64::ln(1.0 - last as f64 / m);
        assert!(estimate > 270.0 && estimate < 330.0, "estimate {}", estimate);
    }
}

#[test]
fn a_saved_filter_has_the_layout_of_a_file() {
    for ver in [1u8, 2] {
        for tag in 0u8..=3 {
            let mut bf = filter(ver, 1000, 0.01, tag);
            for i in 0..100 {
                insert_str(&mut bf, &format!("written {}", i)).unwrap();
            }
            let file = save(&bf);
            let m = bf.bit_size();
            assert_eq!(&file[..4], b"POPY");
            assert_eq!(file[4], version(&bf));
            assert_eq!(file[5], bf.variant().tag());
            assert_eq!(file[6..14], (capacity(&bf) as u64).to_le_bytes());
            assert_eq!(file[14..22], 0.01f64.to_le_bytes());
            assert_eq!(file[22..30], bf.hash_count().to_le_bytes());
            assert_eq!(file[30..38], m.to_le_bytes());
            assert_eq!(file.len(), 38 + ((m + 7) / 8) as usize);
            assert_eq!(&file[38..], &data(&bf)[..]);
            let mut ones = 0;
            for i in 0..8 * (file.len() - 38) as u64 {
                let set = file[38 + (i / 8) as usize] >> (i % 8) & 1 == 1;
                if i >= m {
                    assert!(!set);
                } else if set {
                    ones += 1;
                }
            }
            assert_eq!(ones, count_set(&bf));
        }
    }
    assert_eq!(save(&filter(1, 1000, 0.01, 0)).len(), 38 + 1199);
    assert_eq!(save(&load_filter(&empty_file(1, 0, 5, 1, 1)).unwrap()).len(), 39);
}

#[test]
fn save_then_load_gives_the_same_filter() {
    for ver in [1u8, 2] {
        for tag in 0u8..=3 {
            let mut bf = filter(ver, 300, 0.001, tag);
            for i in 0..200 {
                insert_str(&mut bf, &format!("kept {}", i)).unwrap();
            }
            let file = save(&bf);
            let mut back = load_filter(&file).unwrap();
            assert_eq!(version(&back), version(&bf));
            assert_eq!(capacity(&back), capacity(&bf));
            assert_eq!(fpp(&back), fpp(&bf));
            assert_eq!(back.variant(), bf.variant());
            assert_eq!(back.hash_count(), bf.hash_count());
            assert_eq!(back.bit_size(), bf.bit_size());
            assert_eq!(count_set(&back), count_set(&bf));
            assert_eq!(save(&back), file);
            for i in 0..200 {
                assert!(contains_str(&back, &format!("kept {}", i)));
            }
            for i in 0..2000 {
                let probe = format!("probe {}", i);
                assert_eq!(contains_str(&back, &probe), contains_str(&bf, &probe));
            }
            for word in ["kept 3", "another", "one more"] {
                assert_eq!(insert_str(&mut back, word), insert_str(&mut bf, word));
                assert_eq!(save(&back), save(&bf));
            }
        }
    }
}

#[test]
fn load_reads_a_hand_made_file() {
    let mut file = empty_file(1, 0, 5, 2, 128);
    // "alpha" hashes to the bits 17 and 115 of 128.
    file[38 + 2] = 0x02;
    file[38 + 14] = 0x08;
    let bf = load_filter(&file).unwrap();
    assert_eq!(version(&bf), 1);
    assert_eq!(capacity(&bf), 5);
    assert_eq!(fpp(&bf), RATE);
    assert_eq!(bf.hash_count(), 2);
    assert_eq!(bf.bit_size(), 128);
    assert_eq!(count_set(&bf), 2);
    assert!(contains_str(&bf, "alpha"));
    assert!(!contains_str(&bf, "beta"));
    assert_eq!(save(&bf), file);
}

#[test]
fn load_reads_a_bit_array_that_fills_no_whole_word() {
    // 61 bits in 8 bytes, 9 bits in 2 bytes, 1 bit in 1 byte.
    for (m, k) in [(61u64, 3u64), (9, 2), (1, 1), (100, 4)] {
        let mut bf = load_filter(&empty_file(1, 0, 10, k, m)).unwrap();
        assert_eq!(bf.bit_size(), m);
        for i in 0..20 {
            let word = format!("w{}", i);
            assert!(insert_str(&mut bf, &word).is_ok());
            assert!(contains_str(&bf, &word));
        }
        let file = save(&bf);
        assert_eq!(file.len(), 38 + ((m + 7) / 8) as usize);
        assert!(count_set(&bf) <= m);
        let back = load_filter(&file).unwrap();
        assert_eq!(save(&back), file);
    }
}

#[test]
fn load_takes_a_small_rate_in_version_1_alone() {
    let mut file = empty_file(1, 0, 10, 3, 64);
    file[14..22].copy_from_slice(&1e-310f64.to_le_bytes());
    let bf = load_filter(&file).unwrap();
    assert_eq!(f64::from_bits(fpp(&bf)), 1e-310);
    assert_eq!(save(&bf), file);
    let mut file = empty_file(2, 0, 10, 3, 32768);
    file[14..22].copy_from_slice(&1e-310f64.to_le_bytes());
    assert_eq!(load_filter(&file).err(), Some(ExPoppyError::InvalidParameter));
}

#[test]
fn load_refuses_what_is_no_file() {
    assert_eq!(load_filter(&[]).err(), Some(ExPoppyError::InvalidFormat));
    assert_eq!(load_filter(b"bloom").err(), Some(ExPoppyError::InvalidFormat));
    let mut file = save(&filter(2, 10, 0.01, 0));
    file[0] = b'Q';
    assert_eq!(load_filter(&file).err(), Some(ExPoppyError::InvalidFormat));
    // The image in which the engine keeps a filter is no file.
    let image = image_of(&engine(2, 10, 0.01, 0));
    assert_eq!(load_filter(&image).err(), Some(ExPoppyError::InvalidFormat));
}

#[test]
fn load_names_the_fault_of_a_file() {
    let file = save(&filter(2, 10, 0.01, 0));
    let mut bad = file.clone();
    bad[4] = 3;
    assert_eq!(load_filter(&bad).err(), Some(ExPoppyError::UnsupportedVersion(3)));
    let mut bad = file.clone();
    bad[5] = 4;
    assert_eq!(load_filter(&bad).err(), Some(ExPoppyError::InvalidVariant(4)));
    let mut bad = file.clone();
    bad[6] = 0;
    assert_eq!(load_filter(&bad).err(), Some(ExPoppyError::InvalidParameter));
    let mut bad = file.clone();
    bad[14..22].copy_from_slice(&2.0f64.to_le_bytes());
    assert_eq!(load_filter(&bad).err(), Some(ExPoppyError::InvalidParameter));
    let mut bad = file.clone();
    bad.push(0);
    assert_eq!(load_filter(&bad).err(), Some(ExPoppyError::CorruptFormat));
    let v1 = save(&filter(1, 10, 0.01, 0));
    let mut bad = v1.clone();
    bad[5] = 1;
    assert_eq!(load_filter(&bad).err(), Some(ExPoppyError::InvalidVariant(1)));
    let mut bad = v1.clone();
    let last = bad.len() - 1;
    bad[last] = 0x80;
    assert_eq!(load_filter(&bad).err(), Some(ExPoppyError::CorruptFormat));
}

#[test]
fn load_refuses_a_truncated_file() {
    for ver in [1u8, 2] {
        for tag in [0u8, 2] {
            let mut bf = filter(ver, 100, 0.01, tag);
            insert_str(&mut bf, "alpha").unwrap();
            let file = save(&bf);
            assert!(load_filter(&file).is_ok());
            let cuts = [file.len() - 1, file.len() - 8, file.len() / 2, 57, 39, 38, 37, 9, 5, 4];
            for n in cuts {
                assert_eq!(
                    load_filter(&file[..n]).err(),
                    Some(ExPoppyError::CorruptFormat),
                    "version {} cut at {}",
                    ver,
                    n
                );
            }
        }
    }
}

#[test]
fn false_positives_stay_near_the_rate() {
    let mut bf = filter(1, 1000, 0.01, 0);
    for i in 0..1000 {
        insert_str(&mut bf, &format!("item-{}", i)).unwrap();
    }
    assert_eq!(count_set(&bf), 5031);
    let mut wrong = 0;
    for j in 0..10000 {
        if contains_str(&bf, &format!("probe-{}", j)) {
            wrong += 1;
        }
    }
    // 111 of 10000: a rate of 1.11 percent where 1 percent was asked for.
    assert_eq!(wrong, 111);

    let mut bf = filter(2, 1000, 0.01, 0);
    for i in 0..1000 {
        insert_str(&mut bf, &format!("item-{}", i)).unwrap();
    }
    let mut wrong = 0;
    for j in 0..10000 {
        if contains_str(&bf, &format!("probe-{}", j)) {
            wrong += 1;
        }
    }
    assert!(wrong <= 200);
}
