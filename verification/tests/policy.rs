//! The policy parser and the sealed policy record.

use tripwirs::config::{gen_config, get_config, parse_config, Config, decode_config, encode_config};
use tripwirs::crypto::CryptoError;

#[test]
fn parser_collects_sections() {
    let src = b"# integrity policy\n\n[SCAN]\n/etc\n/usr/bin\n[IGNORE]\n/etc/mtab\n".to_vec();
    let (scans, ignores) = parse_config(&src);
    assert_eq!(scans, vec![b"/etc".to_vec(), b"/usr/bin".to_vec()]);
    assert_eq!(ignores, vec![b"/etc/mtab".to_vec()]);
}

#[test]
fn parser_initial_mode_is_scan() {
    let src = b"/first\n[ignore]\n/skipped\n[scan]\n/second\n".to_vec();
    let (scans, ignores) = parse_config(&src);
    assert_eq!(scans, vec![b"/first".to_vec(), b"/second".to_vec()]);
    assert_eq!(ignores, vec![b"/skipped".to_vec()]);
}

#[test]
fn parser_skips_comments_and_blanks() {
    let src = b"  \t \n# comment\n   # indented comment\n/kept\n\n".to_vec();
    let (scans, ignores) = parse_config(&src);
    assert_eq!(scans, vec![b"/kept".to_vec()]);
    assert_eq!(ignores.len(), 0);
}

#[test]
fn parser_keeps_entry_whitespace_and_odd_headers() {
    // a header with leading whitespace is an entry, not a header; a final
    // line without a terminator still counts; only the newline is stripped
    let src = b" [SCAN]\n/a \n[SCAN]".to_vec();
    let (scans, ignores) = parse_config(&src);
    assert_eq!(scans, vec![b" [SCAN]".to_vec(), b"/a ".to_vec(), b"[SCAN]".to_vec()]);
    assert_eq!(ignores.len(), 0);
}

#[test]
fn parser_uses_unicode_whitespace() {
    // a no-break space before '#' still makes a comment; a line of an em
    // space alone is blank; whitespace inside an entry is kept
    let mut src: Vec<u8> = Vec::new();
    src.extend_from_slice(&[0xc2, 0xa0, b'#', b'x', b'\n']);
    src.extend_from_slice(&[0xe2, 0x80, 0x83, b'\n']);
    src.extend_from_slice(&[0x0b, b'\n']);
    src.extend_from_slice(b"/a");
    src.extend_from_slice(&[0xc2, 0xa0]);
    src.extend_from_slice(b"b\n");
    let (scans, ignores) = parse_config(&src);
    let mut entry = b"/a".to_vec();
    entry.extend_from_slice(&[0xc2, 0xa0]);
    entry.extend_from_slice(b"b");
    assert_eq!(scans, vec![entry]);
    assert_eq!(ignores.len(), 0);
}

#[test]
fn config_codec_round_trip() {
    let c = Config {
        secret: (0..192u32).map(|i| (i % 251) as u8).collect(),
        scans: vec![b"/one".to_vec(), b"/two".to_vec()],
        ignores: vec![b"/one/skip".to_vec()],
    };
    let encoded = encode_config(&c);
    let decoded = decode_config(&encoded).unwrap();
    assert_eq!(decoded.secret, c.secret);
    assert_eq!(decoded.scans, c.scans);
    assert_eq!(decoded.ignores, c.ignores);
}

#[test]
fn config_decode_rejects_malformed() {
    assert!(decode_config(&Vec::new()).is_none());
    let c = Config { secret: vec![7u8; 192], scans: vec![], ignores: vec![] };
    let mut encoded = encode_config(&c);
    encoded.push(0); // trailing garbage
    assert!(decode_config(&encoded).is_none());
    let short_secret = Config { secret: vec![7u8; 192], scans: vec![], ignores: vec![] };
    let mut enc2 = encode_config(&short_secret);
    enc2[0] = 191; // shrink the recorded secret length
    assert!(decode_config(&enc2).is_none());
}

#[test]
fn sealed_policy_round_trip() {
    let src = b"[SCAN]\n/data\n[IGNORE]\n/data/tmp\n".to_vec();
    let pass = b"letmein".to_vec();
    let file = gen_config(&src, None, &pass).unwrap();
    let config = get_config(&file, &pass).unwrap();
    assert_eq!(config.secret.len(), 192);
    assert_eq!(config.scans, vec![b"/data".to_vec()]);
    assert_eq!(config.ignores, vec![b"/data/tmp".to_vec()]);
}

#[test]
fn sealed_policy_wrong_passphrase() {
    let src = b"[SCAN]\n/data\n".to_vec();
    let file = gen_config(&src, None, &b"right".to_vec()).unwrap();
    assert!(matches!(get_config(&file, &b"wrong".to_vec()), Err(CryptoError::WrongPassphrase)));
}

#[test]
fn sealed_policy_overwrite_advances_nonce() {
    let src = b"[SCAN]\n/data\n".to_vec();
    let pass = b"pw".to_vec();
    let file1 = gen_config(&src, None, &pass).unwrap();
    let file2 = gen_config(&src, Some(&file1), &pass).unwrap();
    assert_eq!(file1[file1.len() - 1], 1);
    assert_eq!(file2[file2.len() - 1], 2);
    let c2 = get_config(&file2, &pass).unwrap();
    assert_eq!(c2.scans, vec![b"/data".to_vec()]);
}

#[test]
fn fresh_secrets_differ() {
    let a = Config::new();
    let b = Config::new();
    assert_eq!(a.secret.len(), 192);
    assert_eq!(b.secret.len(), 192);
    // two draws of 192 random bytes collide with negligible probability
    assert_ne!(a.secret, b.secret);
}
