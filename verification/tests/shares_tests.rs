use seed_split::shares::combine_lines;
use seed_split::shares::parse_share_line;
use seed_split::shares::random_phrase;
use seed_split::shares::render_index;
use seed_split::shares::split_phrase;
use seed_split::shares::ShareError;

const ZERO_128: &str = "abandon abandon abandon abandon abandon abandon abandon abandon abandon abandon abandon about";

fn mnemonic_of(entropy: &[u8]) -> String {
    bip39::Mnemonic::from_entropy(entropy).unwrap().to_string()
}

#[test]
fn test_render_index_values() {
    assert_eq!(render_index(1), b"1".to_vec());
    assert_eq!(render_index(9), b"9".to_vec());
    assert_eq!(render_index(10), b"10".to_vec());
    assert_eq!(render_index(99), b"99".to_vec());
    assert_eq!(render_index(100), b"100".to_vec());
    assert_eq!(render_index(255), b"255".to_vec());
}

#[test]
fn test_parse_share_line_cases() {
    let ok = parse_share_line(b"3 abandon ability").unwrap();
    assert_eq!(ok.0, 2);
    assert_eq!(ok.1, b"abandon ability".to_vec());

    let with_zeros = parse_share_line(b"007 word").unwrap();
    assert_eq!(with_zeros.0, 6);

    let max = parse_share_line(b"255 word").unwrap();
    assert_eq!(max.0, 254);

    assert_eq!(
        parse_share_line(b"nospacehere"),
        Err(ShareError::MalformedShareLine)
    );
    assert_eq!(
        parse_share_line(b"0 word"),
        Err(ShareError::MalformedShareLine)
    );
    assert_eq!(
        parse_share_line(b"256 word"),
        Err(ShareError::MalformedShareLine)
    );
    assert_eq!(
        parse_share_line(b"9999999999 word"),
        Err(ShareError::MalformedShareLine)
    );
    assert_eq!(
        parse_share_line(b"x1 word"),
        Err(ShareError::MalformedShareLine)
    );
    assert_eq!(
        parse_share_line(b" word"),
        Err(ShareError::MalformedShareLine)
    );
}

#[test]
fn test_split_combine_round_trip_128() {
    let lines = split_phrase(ZERO_128.as_bytes(), 2, 3).unwrap();
    assert_eq!(lines.len(), 3);
    for (i, line) in lines.iter().enumerate() {
        // Each line starts with its 1-based index and a space.
        let mut expected_prefix = render_index((i + 1) as u8);
        expected_prefix.push(b' ');
        assert_eq!(&line[..expected_prefix.len()], &expected_prefix[..]);
    }
    // Any two of the three lines recombine to the source mnemonic.
    for a in 0..3 {
        for b in 0..3 {
            if a != b {
                let pair = vec![lines[a].clone(), lines[b].clone()];
                let combined = combine_lines(&pair).unwrap();
                assert_eq!(combined, ZERO_128.as_bytes().to_vec());
            }
        }
    }
}

#[test]
fn test_split_combine_round_trip_256() {
    let source = mnemonic_of(&[0x5a; 32]);
    let lines = split_phrase(source.as_bytes(), 3, 5).unwrap();
    assert_eq!(lines.len(), 5);
    let subset = vec![lines[4].clone(), lines[0].clone(), lines[2].clone()];
    let combined = combine_lines(&subset).unwrap();
    assert_eq!(combined, source.as_bytes().to_vec());
}

#[test]
fn test_split_rejects_bad_arguments() {
    assert_eq!(
        split_phrase(ZERO_128.as_bytes(), 3, 2),
        Err(ShareError::InvalidArguments)
    );
    assert_eq!(
        split_phrase(ZERO_128.as_bytes(), 0, 2),
        Err(ShareError::InvalidArguments)
    );
    assert_eq!(
        split_phrase(b"not a mnemonic at all", 2, 3),
        Err(ShareError::InvalidMnemonic)
    );
}

#[test]
fn test_split_rejects_unsupported_entropy_size() {
    // 20 bytes of entropy make a valid 15-word mnemonic, but the sharing
    // pipeline only handles 16- and 32-byte secrets.
    let source = mnemonic_of(&[0x11; 20]);
    assert_eq!(
        split_phrase(source.as_bytes(), 2, 3),
        Err(ShareError::UnsupportedEntropySize)
    );
}

#[test]
fn test_combine_rejects_inconsistent_sizes() {
    let lines_128 = split_phrase(ZERO_128.as_bytes(), 2, 2).unwrap();
    let source_256 = mnemonic_of(&[0x5a; 32]);
    let lines_256 = split_phrase(source_256.as_bytes(), 2, 2).unwrap();
    let mixed = vec![lines_128[0].clone(), lines_256[1].clone()];
    assert_eq!(
        combine_lines(&mixed),
        Err(ShareError::InconsistentShareSizes)
    );
}

#[test]
fn test_combine_rejects_bad_lines() {
    assert_eq!(
        combine_lines(&Vec::<Vec<u8>>::new()),
        Err(ShareError::InvalidArguments)
    );
    assert_eq!(
        combine_lines(&vec![b"garbage".to_vec()]),
        Err(ShareError::MalformedShareLine)
    );
    assert_eq!(
        combine_lines(&vec![b"1 not a mnemonic".to_vec()]),
        Err(ShareError::InvalidMnemonic)
    );
    // The first failing line decides the error.
    let good = split_phrase(ZERO_128.as_bytes(), 1, 1).unwrap();
    assert_eq!(
        combine_lines(&vec![good[0].clone(), b"broken".to_vec()]),
        Err(ShareError::MalformedShareLine)
    );
}

#[test]
fn test_random_phrase_is_valid_128_bit_mnemonic() {
    let phrase = random_phrase();
    let text = String::from_utf8(phrase).unwrap();
    let m = bip39::Mnemonic::parse(&text).unwrap();
    assert_eq!(m.to_entropy().len(), 16);
}

#[test]
fn test_error_messages() {
    assert_eq!(
        ShareError::MalformedShareLine.message(),
        "invalid share format"
    );
    assert_eq!(
        ShareError::InconsistentShareSizes.message(),
        "seed phrases have inconsistent sizes"
    );
    assert!(ShareError::InvalidArguments.message().contains("threshold"));
}
