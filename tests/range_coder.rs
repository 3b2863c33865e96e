use nanorand::RNG;
use opus::{tell, tell_frac, RangeDecoder, RangeEncoder};

const DATA_SIZE: usize = 10000;

struct TellImpl {
    bits_total: u32,
    range: u32,
}

impl TellImpl {
    fn tell(&self) -> u32 {
        tell(self.bits_total, self.range)
    }

    fn tell_frac(&self) -> u32 {
        tell_frac(self.bits_total, self.range)
    }
}

fn ldexp(x: f64, exp: f64) -> f64 {
    x * 2.0f64.powf(exp)
}

#[test]
fn mod_test_tell() {
    assert_eq!(TellImpl { bits_total: 0x100, range: 0x2C934200 }.tell(), 0xE2);
    assert_eq!(TellImpl { bits_total: 0xA2, range: 0x26B3D280 }.tell(), 0x84);
    assert_eq!(TellImpl { bits_total: 0x6A3, range: 0x2B79000 }.tell(), 0x689);
    assert_eq!(TellImpl { bits_total: 0x20E, range: 0x347D1700 }.tell(), 0x1F0);
    assert_eq!(TellImpl { bits_total: 0x39A, range: 0x896DA00 }.tell(), 0x37E);
    assert_eq!(TellImpl { bits_total: 0x512, range: 0x1E08800 }.tell(), 0x4F9);
    assert_eq!(TellImpl { bits_total: 0x136, range: 0x473B3F00 }.tell(), 0x117);
    assert_eq!(TellImpl { bits_total: 0x4CB, range: 0x1EDAD600 }.tell(), 0x4AE);
    assert_eq!(TellImpl { bits_total: 0x679, range: 0x11653800 }.tell(), 0x65C);
}

#[test]
fn mod_test_tell_frac() {
    assert_eq!(TellImpl { bits_total: 0x100, range: 0x2C934200 }.tell_frac(), 0x70D);
    assert_eq!(TellImpl { bits_total: 0xA2, range: 0x26B3D280 }.tell_frac(), 0x41E);
    assert_eq!(TellImpl { bits_total: 0x6A3, range: 0x2B79000 }.tell_frac(), 0x3445);
    assert_eq!(TellImpl { bits_total: 0x20E, range: 0x347D1700 }.tell_frac(), 0xF7B);
    assert_eq!(TellImpl { bits_total: 0x39A, range: 0x896DA00 }.tell_frac(), 0x1BF0);
    assert_eq!(TellImpl { bits_total: 0x512, range: 0x1E08800 }.tell_frac(), 0x27C1);
    assert_eq!(TellImpl { bits_total: 0x136, range: 0x473B3F00 }.tell_frac(), 0x8B7);
    assert_eq!(TellImpl { bits_total: 0x4CB, range: 0x1EDAD600 }.tell_frac(), 0x2569);
    assert_eq!(TellImpl { bits_total: 0x679, range: 0x11653800 }.tell_frac(), 0x32E0);
}

#[test]
fn mod_test_tell_frac_limits() {
    assert_eq!(TellImpl { bits_total: 0x18, range: 0x800000 }.tell(), 0x0);
    assert_eq!(TellImpl { bits_total: u32::MAX, range: 0x800000 }.tell(), 0xFFFFFFE7);
    assert_eq!(TellImpl { bits_total: 0x20, range: u32::MAX }.tell(), 0x0);
    assert_eq!(TellImpl { bits_total: u32::MAX, range: u32::MAX }.tell(), 0xFFFFFFDF);
}

#[test]
fn test_simple_uint_bits() {
    let mut entropy: f64 = 0.0;
    let mut nbits: u32;
    let mut nbits2: u32;

    let mut enc = RangeEncoder::new(vec![0_u8; 10 * 1024 * 1024]);

    for ft in 2..1024u32 {
        for i in 0..ft {
            entropy += f64::ln(ft as f64) * std::f64::consts::LOG2_E;
            enc.encode_uint(i, ft).unwrap();
        }
    }

    for ftb in 1..16u32 {
        for i in 0..(1u32 << ftb) {
            entropy += ftb as f64;
            nbits = enc.tell();

            enc.encode_bits(i, ftb).unwrap();
            nbits2 = enc.tell();
            assert_eq!(
                nbits2 - nbits,
                ftb,
                "Used {} bits to encode {} bits directly.",
                nbits2 - nbits,
                ftb
            );
        }
    }

    nbits = enc.tell_frac();
    enc.done().unwrap();

    assert!((entropy - 5777073.343410888).abs() < f64::EPSILON);
    assert!((ldexp(nbits as f64, -3.0) - 5778365.00).abs() < f64::EPSILON);
    assert_eq!(enc.range_bytes(), 497192);

    let mut dec = RangeDecoder::new(enc.buffer());

    for ft in 2..1024u32 {
        for i in 0..ft {
            let sym = dec.decode_uint(ft);
            assert_eq!(sym, i, "Decoded {} instead of {} with ft of {}.", sym, i, ft);
        }
    }

    for ftb in 1..16u32 {
        for i in 0..(1u32 << ftb) {
            let sym = dec.decode_bits(ftb);
            assert_eq!(sym, i, "Decoded {} instead of {} with ftb of {}.", sym, i, ftb);
        }
    }

    nbits2 = dec.tell_frac();
    assert_eq!(
        nbits,
        nbits2,
        "Reported number of bits used was {:.2}, should be {:.2}.",
        ldexp(nbits2 as f64, -3.0),
        ldexp(nbits as f64, -3.0)
    );
}

#[test]
fn test_encoder_prefers_range_coder_data() {
    // Start with a 16-bit buffer.
    let mut enc = RangeEncoder::new(vec![0_u8; 2]);
    // Write 7 raw bits.
    enc.encode_bits(0x55, 7).unwrap();
    // Write 12.3 bits of range coder data.
    enc.encode_uint(1, 2).unwrap();
    enc.encode_uint(1, 3).unwrap();
    enc.encode_uint(1, 4).unwrap();
    enc.encode_uint(1, 5).unwrap();
    enc.encode_uint(2, 6).unwrap();
    enc.encode_uint(6, 7).unwrap();
    enc.done().unwrap();

    let mut dec = RangeDecoder::new(enc.buffer());

    // The raw bits should have been overwritten by the range coder data.
    assert_eq!(dec.decode_bits(7), 0x05);
    // And all the range coder data should have been encoded correctly.
    assert_eq!(dec.decode_uint(2), 1);
    assert_eq!(dec.decode_uint(3), 1);
    assert_eq!(dec.decode_uint(4), 1);
    assert_eq!(dec.decode_uint(5), 1);
    assert_eq!(dec.decode_uint(6), 2);
    assert_eq!(dec.decode_uint(7), 6);
}

#[test]
fn test_random_data() {
    let seed = 42;
    let mut rnd = nanorand::WyRand::new_seed(seed);

    for _ in 0..1024 {
        let ft = rnd.generate_range::<u32>(2, 1024);
        let sz = rnd.generate_range::<usize>(128, 512);

        let mut data = vec![0_u32; sz];
        let mut tell = vec![0_u32; sz + 1];

        let mut enc = RangeEncoder::new(vec![0_u8; DATA_SIZE]);
        let zeros = rnd.generate_range::<u32>(0, 14) == 0;
        tell[0] = enc.tell_frac();
        for j in 0..sz {
            if zeros {
                data[j] = 0;
            } else {
                data[j] = rnd.generate_range(0, ft);
            }
            enc.encode_uint(data[j], ft).unwrap();
            tell[j + 1] = enc.tell_frac();
        }
        if rnd.generate_range::<u32>(0, 2) == 0 {
            while enc.tell() % 8 != 0 {
                enc.encode_uint(rnd.generate_range::<u32>(0, 2), 2).unwrap();
            }
        }
        let tell_bits = enc.tell();
        enc.done().unwrap();

        assert_eq!(
            tell_bits,
            enc.tell(),
            "tell() changed after done(): {} instead of {}",
            enc.tell(),
            tell_bits,
        );

        assert!(
            (tell_bits + 7) / 8 >= enc.range_bytes() as u32,
            "tell() lied, there's {} bytes instead of {}",
            enc.range_bytes(),
            (tell_bits + 7) / 8,
        );

        let mut dec = RangeDecoder::new(enc.buffer());

        assert_eq!(
            dec.tell_frac(),
            tell[0],
            "Tell mismatch between encoder and decoder at symbol {}: {} instead of {}.",
            0,
            dec.tell_frac(),
            tell[0]
        );

        for j in 0..sz {
            let sym = dec.decode_uint(ft);
            assert_eq!(
                sym, data[j],
                "Decoded {} instead of {} with ft of {} at position {} of {}",
                sym, data[j], ft, j, sz
            );
            assert_eq!(
                dec.tell_frac(),
                tell[j + 1],
                "Tell mismatch between encoder and decoder at symbol {}: {} instead of {}",
                j + 1,
                dec.tell_frac(),
                tell[j + 1]
            );
        }
    }
}

#[test]
fn test_compatibility() {
    let seed = 42;
    let mut rnd = nanorand::WyRand::new_seed(seed);

    for _ in 0..1024 {
        let sz = rnd.generate_range::<usize>(128, 512);
        let mut logp1 = vec![0_u32; sz];
        let mut data = vec![0_u32; sz];
        let mut tell = vec![0_u32; sz + 1];
        let mut enc_method = vec![0_u32; sz];

        let mut enc = RangeEncoder::new(vec![0_u8; DATA_SIZE]);
        tell[0] = enc.tell_frac();
        for j in 0..sz {
            data[j] = rnd.generate_range::<u32>(0, 2);
            logp1[j] = rnd.generate_range::<u32>(1, 17);
            enc_method[j] = rnd.generate_range::<u32>(0, 4);
            match enc_method[j] {
                0 => {
                    let x = if data[j] != 0 { (1 << logp1[j]) - 1 } else { 0 };
                    let y = if data[j] != 0 { 0 } else { 1 };
                    enc.encode(x, (1 << logp1[j]) - y, 1 << logp1[j]).unwrap();
                }
                1 => {
                    let x = if data[j] != 0 { (1 << logp1[j]) - 1 } else { 0 };
                    let y = if data[j] != 0 { 0 } else { 1 };
                    enc.encode_bin(x, (1 << logp1[j]) - y, logp1[j]).unwrap();
                }
                2 => {
                    enc.encode_bit_logp(data[j], logp1[j]).unwrap();
                }
                3 => {
                    let icdf = [1, 0];
                    enc.encode_icdf(data[j] as usize, &icdf, logp1[j]).unwrap();
                }
                _ => panic!("unreachable"),
            }
            tell[j + 1] = enc.tell_frac();
        }
        enc.done().unwrap();

        assert!(
            (enc.tell() + 7) / 8 >= enc.range_bytes() as u32,
            "tell() lied, there's {} bytes instead of {}",
            enc.range_bytes(),
            (enc.tell() + 7) / 8,
        );

        let mut dec = RangeDecoder::new(enc.buffer());

        assert_eq!(
            dec.tell_frac(),
            tell[0],
            "Tell mismatch between encoder and decoder at symbol {}: {} instead of {}",
            0,
            dec.tell_frac(),
            tell[0]
        );

        for j in 0..sz {
            let dec_method = rnd.generate_range::<u32>(0, 4);
            let sym: u32;
            match dec_method {
                0 => {
                    let fs = dec.decode(1 << logp1[j]);
                    let s = fs >= (1 << logp1[j]) - 1;
                    let x = if s { (1 << logp1[j]) - 1 } else { 0 };
                    let y = if s { 0 } else { 1 };
                    sym = if s { 1 } else { 0 };

                    dec.update(x, (1 << logp1[j]) - y, 1 << logp1[j]);
                }
                1 => {
                    let fs = dec.decode_bin(logp1[j]);
                    let s = fs >= (1 << logp1[j]) - 1;
                    let x = if s { (1 << logp1[j]) - 1 } else { 0 };
                    let y = if s { 0 } else { 1 };
                    sym = if s { 1 } else { 0 };

                    dec.update(x, (1 << logp1[j]) - y, 1 << logp1[j]);
                }
                2 => {
                    sym = if dec.decode_bit_logp(logp1[j]) { 1 } else { 0 };
                }
                3 => {
                    let icdf = [1, 0];
                    sym = dec.decode_icdf(&icdf, logp1[j]) as u32;
                }
                _ => panic!("unreachable"),
            }
            assert_eq!(
                sym,
                data[j],
                "Decoded {} instead of {} with logp1 of {} at position {} of {}. Encoding method: {}, decoding method: {}",
                sym,
                data[j],
                logp1[j],
                j,
                sz,
                enc_method[j],
                dec_method
            );
            assert_eq!(
                dec.tell_frac(),
                tell[j + 1],
                "Tell mismatch between encoder and decoder at symbol {}: {} instead of {}",
                j + 1,
                dec.tell_frac(),
                tell[j + 1]
            );
        }
    }
}

#[test]
fn test_patch_initial_bits() {
    let mut enc = RangeEncoder::new(vec![0_u8; DATA_SIZE]);
    enc.encode_bit_logp(0, 1).unwrap();
    enc.encode_bit_logp(0, 1).unwrap();
    enc.encode_bit_logp(1, 6).unwrap();
    enc.encode_bit_logp(0, 2).unwrap();
    enc.patch_initial_bits(0, 2).unwrap();
    enc.done().unwrap();

    assert_eq!(enc.range_bytes(), 2);

    assert_eq!(
        enc.buffer()[0],
        63,
        "Got {} when expecting 63 for patch_initial_bits()",
        enc.buffer()[0]
    );
}

#[test]
fn test_shrink() {
    let mut enc = RangeEncoder::new(vec![0_u8; DATA_SIZE]);
    enc.encode_uint(1, 255).unwrap();
    enc.encode_uint(2, 255).unwrap();
    enc.encode_uint(3, 255).unwrap();
    enc.encode_uint(4, 255).unwrap();
    enc.done().unwrap();
    enc.shrink(5);
}

fn get_start_freq(decay: u32) -> u32 {
    let ft = 32768 - 33;
    let fs = (ft * (16384 - decay)) / (16384 + decay);
    fs + 1
}

#[test]
fn test_laplace() {
    let mut rng = nanorand::WyRand::new_seed(42);
    let mut val = vec![0_i32; 10000];
    let mut decay = vec![0_u32; 10000];
    val[0] = 3;
    val[1] = 0;
    val[2] = -1;
    decay[0] = 6000;
    decay[1] = 5800;
    decay[2] = 5600;

    let mut enc = RangeEncoder::new(vec![0_u8; 40000]);

    (3..10000).for_each(|i| {
        val[i] = rng.generate_range::<u32>(0, 16) as i32 - 7;
        decay[i] = rng.generate_range::<u32>(5000, 16000);
    });

    (0..10000).for_each(|i| {
        enc.encode_laplace(&mut val[i], get_start_freq(decay[i]), decay[i])
            .unwrap();
    });

    enc.done().unwrap();

    let mut dec = RangeDecoder::new(enc.buffer());

    (0..10000).for_each(|i| {
        let d = dec.decode_laplace(get_start_freq(decay[i]), decay[i]);
        assert_eq!(d, val[i], "Got {} instead of {}", d, val[i]);
    });
}

#[test]
fn encoder_reports_full_buffer() {
    let mut enc = RangeEncoder::new(vec![0_u8; 1]);
    let mut failed = false;
    for i in 0..64 {
        if enc.encode_uint(i % 200, 200).is_err() {
            failed = true;
            break;
        }
    }
    assert!(failed || enc.done().is_err());
}

#[test]
fn shrink_moves_raw_bits() {
    let mut enc = RangeEncoder::new(vec![0_u8; 16]);
    enc.encode_uint(3, 7).unwrap();
    enc.encode_bits(0xAB, 8).unwrap();
    enc.done().unwrap();
    let used = enc.range_bytes();
    enc.shrink(used + 1);
    let mut dec = RangeDecoder::new(&enc.buffer()[..used + 1]);
    assert_eq!(dec.decode_uint(7), 3);
    assert_eq!(dec.decode_bits(8), 0xAB);
}

#[test]
fn laplace_zero_and_small_values() {
    let mut enc = RangeEncoder::new(vec![0_u8; 64]);
    let values = [0, 1, -1, 2, -3, 0];
    for v in values {
        let mut x = v;
        enc.encode_laplace(&mut x, 16000, 8000).unwrap();
        assert_eq!(x, v);
    }
    enc.done().unwrap();
    let mut dec = RangeDecoder::new(enc.buffer());
    for v in values {
        assert_eq!(dec.decode_laplace(16000, 8000), v);
    }
}

#[test]
fn decoder_past_the_end_reads_zeros() {
    let mut dec = RangeDecoder::new(&[]);
    assert_eq!(dec.decode_bits(8), 0);
    assert_eq!(dec.tell(), 9);
    let mut dec = RangeDecoder::new(&[0xFF]);
    dec.shrink_storage(1);
    assert_eq!(dec.decode_bits(8), 0);
}

#[test]
fn icdf_symbols_decode() {
    let icdf = [200u8, 100, 0];
    let mut enc = RangeEncoder::new(vec![0_u8; 16]);
    for s in [0usize, 1, 2, 1, 0] {
        enc.encode_icdf(s, &icdf, 8).unwrap();
    }
    enc.done().unwrap();
    let mut dec = RangeDecoder::new(enc.buffer());
    for s in [0usize, 1, 2, 1, 0] {
        assert_eq!(dec.decode_icdf(&icdf, 8), s);
    }
}
