use tswn::rc4::RC4;

fn hex(bytes: &[u8]) -> String {
    bytes.iter().map(|b| format!("{:02X}", b)).collect()
}

#[test]
fn keystream_matches_known_vectors() {
    let mut rc4 = RC4::new(b"Key".to_vec(), None);
    let mut stream = Vec::new();
    for _ in 0..10 {
        stream.push(rc4.next_u8());
    }
    assert_eq!(hex(&stream), "EB9F7781B734CA72A719");
}

#[test]
fn xor_matches_known_vectors() {
    let cases: [(&str, &str, &str); 3] = [
        ("Key", "Plaintext", "BBF316E8D940AF0AD3"),
        ("Wiki", "pedia", "1021BF0420"),
        ("Secret", "Attack at dawn", "45A01F645FC35B383552544B9BF5"),
    ];
    for (key, plain, cipher) in cases {
        let mut rc4 = RC4::new(key.as_bytes().to_vec(), Some(1));
        let mut bytes = plain.as_bytes().to_vec();
        rc4.xor_bytes(&mut bytes);
        assert_eq!(hex(&bytes), cipher);
    }
}

#[test]
fn xor_twice_restores() {
    let mut a = RC4::new(b"abc".to_vec(), Some(2));
    let mut b = RC4::new(b"abc".to_vec(), Some(2));
    let original = b"some battle bytes".to_vec();
    let mut bytes = original.clone();
    a.xor_bytes(&mut bytes);
    assert_ne!(bytes, original);
    b.xor_bytes(&mut bytes);
    assert_eq!(bytes, original);
    assert_eq!(a.next_u8(), b.next_u8());
}

#[test]
fn decrypt_undoes_encrypt() {
    let mut a = RC4::new(b"namerena".to_vec(), None);
    let mut b = RC4::new(b"namerena".to_vec(), None);
    let original: Vec<u8> = (0..=255u8).collect();
    let mut bytes = original.clone();
    a.encrypt_bytes(&mut bytes);
    assert_ne!(bytes, original);
    b.decrypt_bytes(&mut bytes);
    assert_eq!(bytes, original);
    // both generators end in the same state
    for _ in 0..32 {
        assert_eq!(a.next_u8(), b.next_u8());
    }
}

#[test]
fn encrypt_feeds_back_the_ciphertext() {
    let mut plain_rc4 = RC4::new(b"k".to_vec(), None);
    let mut feedback_rc4 = RC4::new(b"k".to_vec(), None);
    let mut x = vec![1u8, 2, 3];
    let mut y = vec![1u8, 2, 3];
    plain_rc4.xor_bytes(&mut x);
    feedback_rc4.encrypt_bytes(&mut y);
    // the first byte uses the same keystream byte
    assert_eq!(x[0], y[0]);
}

#[test]
fn zero_rounds_keep_the_identity() {
    let mut rc4 = RC4::new(Vec::new(), Some(0));
    // with the identity permutation the first byte is S[S[1] + S[1]] = 2
    assert_eq!(rc4.next_u8(), 2);
}

#[test]
fn round_rekeys_and_resets() {
    let mut a = RC4::new(b"Key".to_vec(), None);
    let _ = a.next_u8();
    a.round(b"Key".to_vec(), Some(0));
    // round with no passes only resets the indices
    let mut c = RC4::new(b"Key".to_vec(), None);
    let _ = c.next_u8();
    c.round(Vec::new(), Some(0));
    assert_eq!(a.next_u8(), c.next_u8());
    // a fresh generator keyed twice equals one keyed once then given one round
    let mut d = RC4::new(b"Key".to_vec(), Some(2));
    let mut e = RC4::new(b"Key".to_vec(), Some(1));
    e.round(b"Key".to_vec(), None);
    for _ in 0..16 {
        assert_eq!(d.next_u8(), e.next_u8());
    }
}

#[test]
fn next_i32_stays_below_max() {
    let mut rc4 = RC4::new(b"bounds".to_vec(), None);
    for max in [1, 2, 3, 63, 64, 65, 255, 256, 1000, 4096, 100000, i32::MAX] {
        for _ in 0..20 {
            let v = rc4.next_i32(max);
            assert!(v >= 0 && v < max);
        }
    }
}

#[test]
fn next_i32_small_max_uses_two_bytes() {
    let mut a = RC4::new(b"Key".to_vec(), None);
    let mut b = RC4::new(b"Key".to_vec(), None);
    let v = a.next_i32(10);
    let hi = b.next_u8() as i64;
    let lo = b.next_u8() as i64;
    let w = hi * 256 + lo;
    assert_eq!(v as i64, if w >= 10 { w % 10 } else { w });
    assert_eq!(a.next_u8(), b.next_u8());
}

#[test]
fn picks_stay_in_the_list() {
    let mut rc4 = RC4::new(b"pick".to_vec(), None);
    assert_eq!(rc4.pick(Vec::<u8>::new()), None);
    assert_eq!(rc4.pick(vec![7u8]), Some(0));
    for _ in 0..50 {
        let k = rc4.pick(vec![0u8; 5]).unwrap();
        assert!(k < 5);
    }
    assert_eq!(rc4.pick_skip(vec![1u8], 0), None);
    assert_eq!(rc4.pick_skip(vec![1u8], 3), Some(0));
    assert_eq!(rc4.pick_skip(Vec::<u8>::new(), 0), None);
    for _ in 0..50 {
        let k = rc4.pick_skip(vec![0u8; 6], 2).unwrap();
        assert!(k < 6 && k != 2);
    }
    for _ in 0..50 {
        let k = rc4.pick_skip_range(vec![0u8; 10], vec![3, 4, 5]).unwrap();
        assert!(k < 10 && !(3..6).contains(&k));
    }
    assert_eq!(rc4.pick_skip_range(vec![0u8; 3], vec![0, 1, 2]), None);
    assert_eq!(rc4.pick_skip_range(vec![9u8], Vec::new()), Some(0));
}

#[test]
fn pick_skip_outside_the_list_skips_nothing() {
    let mut a = RC4::new(b"skip".to_vec(), None);
    let mut b = RC4::new(b"skip".to_vec(), None);
    let k = a.pick_skip(vec![0u8; 4], 9).unwrap();
    let v = b.next_i32(4) as usize;
    assert_eq!(k, v);
}

#[test]
fn chance_and_range_helpers() {
    let mut a = RC4::new(b"Key".to_vec(), None);
    let mut b = RC4::new(b"Key".to_vec(), None);
    // keystream EB 9F 77 81 B7 34 CA 72 A7 19 ...
    assert_eq!(a.c94(), 0xEB < 240);
    assert_eq!(a.c75(), 0x9F < 192);
    assert_eq!(a.c50(), 0x77 < 128);
    assert_eq!(a.c25(), 0x81 < 64);
    assert_eq!(a.c12(), 0xB7 < 32);
    assert_eq!(a.c33(), 0x34 < 84);
    assert_eq!(a.c66(), 0xCA < 171);
    for _ in 0..7 {
        let _ = b.next_u8();
    }
    assert_eq!(b.rffff(), 0x72A7);
    assert_eq!(b.r255(), 0x19);
    let mut c = RC4::new(b"Key".to_vec(), None);
    assert_eq!(c.rffffff(), 0xEB9F77);
    assert_eq!(c.r256(), 0x81 + 1);
    assert_eq!(c.r127(), 0xB7 & 127);
    assert_eq!(c.r64(), (0x34 & 63) + 1);
    assert_eq!(c.r63(), 0xCA & 63);
    let r = c.r3x3();
    let bb = 0x72u32;
    assert_eq!(r, (((bb & 15) + 1) * (((bb >> 4) & 15) + 1) >> 5) + 1);
    assert!(r >= 1 && r <= 9);
}
