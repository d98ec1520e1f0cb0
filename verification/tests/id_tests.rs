use kademlia::id::Id;
use kademlia::id::ID_BITS;
use kademlia::id::ID_SIZE;

// Reflexivity, symmetry, transitivity
#[test]
fn distance() {
    let x = Id::new([1u8; 20]);
    let y = Id::new([4u8; 20]);
    let z = Id::new([5u8; 20]);
    assert_eq!(x.distance(&x), ID_SIZE * 8);
    assert_eq!(x.distance(&y), 5);
    assert_eq!(x.distance(&y), y.distance(&x));
    assert!((x.distance(&y) + y.distance(&z)) >= x.distance(&z));
    assert!((x.distance(&y) + y.distance(&z)) >= x.distance(&z));
}

#[test]
fn leading_zeros() {
    assert_eq!(Id([0; 20]).leading_zeros(), ID_SIZE * 8);
    assert_eq!(Id([255; 20]).leading_zeros(), 0);

    let mut xs = [0u8; 20];
    xs[5] = 0x0F;
    assert_eq!(Id(xs).leading_zeros(), 5 * 8 + 4);

    let mut xs = [0u8; 20];
    xs[5] = 0xF0;
    assert_eq!(Id(xs).leading_zeros(), 5 * 8);
}

#[test]
fn hex() {
    let x = Id::new([1u8; 20]);
    assert_eq!(
        x.hex(),
        format!("0x{}", (0..20).map(|_| "01").collect::<String>())
    );
    assert_eq!(x.hex(), format!("{:?}", x));
    let y = Id::parse(x.hex().as_str()).unwrap();
    assert_eq!(y, x);
}

fn sample(seed: u8) -> Id {
    let mut xs = [0u8; 20];
    for (i, b) in xs.iter_mut().enumerate() {
        *b = seed.wrapping_mul(31).wrapping_add((i as u8).wrapping_mul(seed | 1)) ^ (seed >> 3);
    }
    Id::new(xs)
}

#[test]
fn distance_to_itself_is_all_bits() {
    for seed in 0..=255u8 {
        let x = sample(seed);
        assert_eq!(x.distance(&x), 160);
        assert_eq!(x.distance(&x), ID_BITS);
    }
}

#[test]
fn distance_is_symmetric() {
    for a in 0..64u8 {
        for b in 0..64u8 {
            let (x, y) = (sample(a), sample(b.wrapping_mul(5)));
            assert_eq!(x.distance(&y), y.distance(&x));
        }
    }
}

#[test]
fn distance_is_ultrametric() {
    for a in 0..32u8 {
        for b in 0..32u8 {
            for c in 0..32u8 {
                let (x, y, z) = (sample(a), sample(b.wrapping_mul(7)), sample(c.wrapping_mul(13)));
                let (xy, yz, xz) = (x.distance(&y), y.distance(&z), x.distance(&z));
                assert!(xz >= xy.min(yz));
                if xy != yz {
                    assert_eq!(xz, xy.min(yz));
                    assert!(xy + yz >= xz);
                }
            }
        }
    }
}

#[test]
fn triangle_fails_where_the_middle_is_far_from_both() {
    let x = Id::new([0u8; 20]);
    let mut far = [0u8; 20];
    far[0] = 0x80;
    let y = Id::new(far);
    assert_eq!(x.distance(&y), 0);
    assert_eq!(y.distance(&x), 0);
    assert_eq!(x.distance(&x), 160);
    assert!(x.distance(&y) + y.distance(&x) < x.distance(&x));
}

#[test]
fn distance_counts_from_the_most_significant_bit() {
    let zero = Id::new([0u8; 20]);
    let mut xs = [0u8; 20];
    xs[19] = 1;
    assert_eq!(zero.distance(&Id::new(xs)), 159);
    let mut xs = [0u8; 20];
    xs[0] = 0x80;
    assert_eq!(zero.distance(&Id::new(xs)), 0);
    let mut xs = [0u8; 20];
    xs[0] = 0x01;
    assert_eq!(zero.distance(&Id::new(xs)), 7);
    let mut xs = [0u8; 20];
    xs[1] = 0x40;
    xs[7] = 0xff;
    assert_eq!(zero.distance(&Id::new(xs)), 9);
    let a = Id::new([0xAA; 20]);
    let mut bs = [0xAA; 20];
    bs[10] = 0xAB;
    assert_eq!(a.distance(&Id::new(bs)), 87);
}

#[test]
fn leading_zeros_of_each_single_bit() {
    for bit in 0..160usize {
        let mut xs = [0u8; 20];
        xs[bit / 8] = 0x80 >> (bit % 8);
        assert_eq!(Id::new(xs).leading_zeros(), bit);
        for later in xs.iter_mut().skip(bit / 8 + 1) {
            *later = 0xff;
        }
        assert_eq!(Id::new(xs).leading_zeros(), bit);
    }
}

#[test]
fn hex_is_lowercase_and_big_endian() {
    let mut xs = [0u8; 20];
    for (i, b) in xs.iter_mut().enumerate() {
        *b = (i as u8).wrapping_mul(13).wrapping_add(0xa0);
    }
    let id = Id::new(xs);
    assert_eq!(id.hex(), "0xa0adbac7d4e1eefb0815222f3c495663707d8a97");
    assert_eq!(Id::new([0xff; 20]).hex(), format!("0x{}", "ff".repeat(20)));
    assert_eq!(Id::new([0; 20]).hex().len(), 42);
}

#[test]
fn hex_round_trip() {
    for seed in 0..=255u8 {
        let x = sample(seed);
        assert_eq!(Id::parse(&x.hex()), Some(x));
    }
}

#[test]
fn parse_reads_each_digit() {
    let s = "0x0123456789abcdef0123456789abcdef01234567";
    let id = Id::parse(s).unwrap();
    assert_eq!(
        id,
        Id::new([
            0x01, 0x23, 0x45, 0x67, 0x89, 0xab, 0xcd, 0xef, 0x01, 0x23, 0x45, 0x67, 0x89, 0xab,
            0xcd, 0xef, 0x01, 0x23, 0x45, 0x67
        ])
    );
    assert_eq!(id.hex(), s);
}

#[test]
fn parse_refuses_what_is_no_hex_form() {
    let good = format!("0x{}", "ab".repeat(20));
    assert!(Id::parse(&good).is_some());
    // incorrect length
    assert_eq!(Id::parse(""), None);
    assert_eq!(Id::parse("0x"), None);
    assert_eq!(Id::parse(&good[..41]), None);
    assert_eq!(Id::parse(&format!("{}0", good)), None);
    assert_eq!(Id::parse(&"ab".repeat(20)), None);
    // prefix
    assert_eq!(Id::parse(&format!("0X{}", "ab".repeat(20))), None);
    assert_eq!(Id::parse(&format!("1x{}", "ab".repeat(20))), None);
    assert_eq!(Id::parse(&format!("{}", "ab".repeat(21))), None);
    // non-hex
    assert_eq!(Id::parse(&format!("0x{}g", "a".repeat(39))), None);
    assert_eq!(Id::parse(&format!("0x{} ", "a".repeat(39))), None);
    assert_eq!(Id::parse(&format!("0x+f{}", "a".repeat(38))), None);
    assert_eq!(Id::parse(&format!("0x{}", "AB".repeat(20))), None);
    // 42 characters, but not 42 bytes
    assert_eq!(Id::parse(&format!("0x{}\u{e9}", "a".repeat(39))), None);
}

#[test]
fn random_ids_differ() {
    let a = Id::random();
    let b = Id::random();
    let c = Id::random();
    assert!(a != b || b != c);
    assert_eq!(Id::parse(&a.hex()), Some(a));
}

#[test]
fn equality_is_by_bytes() {
    let mut xs = [7u8; 20];
    let a = Id::new(xs);
    assert_eq!(a, Id::new([7u8; 20]));
    xs[19] = 8;
    assert_ne!(a, Id::new(xs));
    xs[19] = 7;
    xs[0] = 6;
    assert_ne!(a, Id::new(xs));
}
