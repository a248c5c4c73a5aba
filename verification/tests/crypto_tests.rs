use mr_pdf::pdf::crypto::{permission_bits, PdfPermissions, Rc4, SecurityHandler};

fn hex(b: &[u8]) -> String {
    b.iter().map(|x| format!("{:02x}", x)).collect()
}

fn doc_id() -> Vec<u8> {
    (0u8..16).collect()
}

#[test]
fn rc4_known_vector() {
    let mut rc4 = Rc4::new(b"Key");
    let mut data = b"Plaintext".to_vec();
    rc4.apply_keystream(&mut data);
    assert_eq!(hex(&data), "bbf316e8d940af0ad3");
}

#[test]
fn rc4_twice_restores() {
    let key = b"some key";
    let mut data = b"attack at dawn".to_vec();
    Rc4::new(key).apply_keystream(&mut data);
    assert_ne!(data, b"attack at dawn".to_vec());
    Rc4::new(key).apply_keystream(&mut data);
    assert_eq!(data, b"attack at dawn".to_vec());
}

#[test]
fn rc4_empty_key_is_identity_permutation_stream() {
    let mut a = vec![0u8; 4];
    Rc4::new(&[]).apply_keystream(&mut a);
    let mut s: Vec<u8> = (0..=255).collect();
    let (mut i, mut j) = (0u8, 0u8);
    let mut expected = vec![];
    for _ in 0..4 {
        i = i.wrapping_add(1);
        j = j.wrapping_add(s[i as usize]);
        s.swap(i as usize, j as usize);
        expected.push(s[s[i as usize].wrapping_add(s[j as usize]) as usize]);
    }
    assert_eq!(a, expected);
}

#[test]
fn pad_empty_password_is_padding() {
    let p = SecurityHandler::pad_pwd("");
    assert_eq!(hex(&p), "28bf4e5e4e758a4164004e56fffa01082e2e00b6d0683e802f0ca9fe6453697a");
}

#[test]
fn pad_short_and_long_passwords() {
    let p = SecurityHandler::pad_pwd("ab");
    assert_eq!(&p[..2], b"ab");
    assert_eq!(p[2], 0x28);
    assert_eq!(p[31], 0x53);
    let long = "x".repeat(40);
    let q = SecurityHandler::pad_pwd(&long);
    assert_eq!(q, [b'x'; 32]);
}

#[test]
fn permission_bits_values() {
    assert_eq!(permission_bits(PdfPermissions::default()), 0xFFFFFFFC);
    let p = PdfPermissions { can_print: true, can_modify: false, can_copy: true, can_add_notes: false };
    assert_eq!(permission_bits(p) as i32, -44);
}

#[test]
fn security_handler_known_values() {
    let h = SecurityHandler::new("owner", "user", PdfPermissions::default(), &doc_id());
    assert_eq!(hex(&h.o), "0ba3835f88f90388e74e54584125ce142be0de24c6b0d37746e075b891756671");
    assert_eq!(hex(&h.u), "b5eeee15d9561a1fad6c9d5a195dde3328bf4e5e4e758a4164004e56fffa0108");
    assert_eq!(h.p, -4);
    assert_eq!(hex(&h.encryption_key), "4c8652a72175cef37e14c485b59602d2");
}

#[test]
fn security_handler_empty_owner_and_restricted() {
    let perms = PdfPermissions { can_print: true, can_modify: false, can_copy: true, can_add_notes: false };
    let h = SecurityHandler::new("", "", perms, &doc_id());
    assert_eq!(h.p, -44);
    assert_eq!(hex(&h.encryption_key), "5300d07ac3d6cdc5229c2efdf1800b3a");
}

#[test]
fn object_key_and_encryption() {
    let h = SecurityHandler::new("owner", "user", PdfPermissions::default(), &doc_id());
    assert_eq!(hex(&h.get_obj_key(7, 0)), "2c512d4188ccdeb82837f37ee8d33a2d");
    let mut data = b"Hello".to_vec();
    h.encrypt_bytes(7, 0, &mut data);
    assert_eq!(hex(&data), "8efeccf0d9");
    h.encrypt_bytes(7, 0, &mut data);
    assert_eq!(data, b"Hello".to_vec());
}

#[test]
fn security_handler_key_length_and_permissions() {
    let restricted = PdfPermissions { can_print: false, can_copy: false, ..PdfPermissions::default() };
    let h = SecurityHandler::new("o", "u", restricted, &doc_id());
    assert_eq!(h.p, -24);
    assert_eq!(h.encryption_key.len(), 16);
    let none = PdfPermissions { can_print: false, can_modify: false, can_copy: false, can_add_notes: false };
    assert_eq!(SecurityHandler::new("", "", none, &doc_id()).p, -64);
    assert_eq!(SecurityHandler::new("", "", PdfPermissions::default(), &[]).encryption_key.len(), 16);
}

#[test]
fn keystream_applies_in_pieces() {
    let key = b"Key";
    let mut a = b"attack ".to_vec();
    let mut b = b"at dawn".to_vec();
    let mut ab = b"attack at dawn".to_vec();
    let mut r1 = Rc4::new(key);
    r1.apply_keystream(&mut a);
    r1.apply_keystream(&mut b);
    Rc4::new(key).apply_keystream(&mut ab);
    a.extend_from_slice(&b);
    assert_eq!(a, ab);
}

#[test]
fn doubled_key_gives_same_keystream() {
    let mut a = vec![0u8; 32];
    let mut b = vec![0u8; 32];
    Rc4::new(b"abc").apply_keystream(&mut a);
    Rc4::new(b"abcabc").apply_keystream(&mut b);
    assert_eq!(a, b);
}
