use nsv::decode::decode_sequential;
use nsv::encode::encode_bytes;
use nsv::escape::{escape_bytes, unescape_bytes};
use nsv::parallel::{decode_bytes, decode_parallel, PARALLEL_THRESHOLD};
use nsv::{escape, unescape};

fn doc(rows: &[&[&[u8]]]) -> Vec<Vec<Vec<u8>>> {
    rows.iter()
        .map(|r| r.iter().map(|c| c.to_vec()).collect())
        .collect()
}

#[test]
fn escape_of_empty_is_lone_backslash() {
    assert_eq!(escape_bytes(b""), b"\\".to_vec());
    assert_eq!(escape(""), "\\");
}

#[test]
fn unescape_of_lone_backslash_is_empty() {
    assert_eq!(unescape_bytes(b"\\"), Vec::<u8>::new());
    assert_eq!(unescape("\\"), "");
}

#[test]
fn unescape_without_backslash_is_identity() {
    for s in [&b"plain"[..], b"", b"a\nb", b"\xff\xfe", "caf\u{e9}".as_bytes()] {
        assert_eq!(unescape_bytes(s), s.to_vec());
    }
}

#[test]
fn escape_replaces_both_structural_bytes() {
    assert_eq!(escape_bytes(b"a\nb\\c"), b"a\\nb\\\\c".to_vec());
    assert_eq!(escape_bytes(b"\\n"), b"\\\\n".to_vec());
    assert_eq!(escape_bytes(b"plain"), b"plain".to_vec());
    assert_eq!(escape("multi\nline"), "multi\\nline");
}

#[test]
fn unescape_pairs_and_leniency() {
    assert_eq!(unescape_bytes(b"a\\nb"), b"a\nb".to_vec());
    assert_eq!(unescape_bytes(b"a\\\\b"), b"a\\b".to_vec());
    assert_eq!(unescape_bytes(b"\\x41\\t"), b"\\x41\\t".to_vec());
    assert_eq!(unescape_bytes(b"text\\"), b"text".to_vec());
    assert_eq!(unescape_bytes(b"\\\\\\"), b"\\".to_vec());
    assert_eq!(unescape("Line 1\\nLine 2"), "Line 1\nLine 2");
}

#[test]
fn unescape_undoes_escape() {
    let samples: Vec<Vec<u8>> = vec![
        b"".to_vec(),
        b"\\".to_vec(),
        b"\n".to_vec(),
        b"\\n".to_vec(),
        b"\n\n\\\\".to_vec(),
        vec![0, 255, 10, 92, 110, 10, 92],
        "h\u{e9}llo\nw\u{f6}rld".as_bytes().to_vec(),
    ];
    for s in samples {
        assert_eq!(unescape_bytes(&escape_bytes(&s)), s);
    }
    for s in ["", "\\", "\n", "\u{1f600}\\\n", "tab\there"] {
        assert_eq!(unescape(&escape(s)), s);
    }
}

#[test]
fn decode_empty_input() {
    assert_eq!(decode_bytes(b""), Vec::<Vec<Vec<u8>>>::new());
}

#[test]
fn decode_keeps_unterminated_cell() {
    assert_eq!(decode_bytes(b"a\nb"), doc(&[&[b"a", b"b"]]));
}

#[test]
fn decode_four_empty_rows() {
    assert_eq!(decode_bytes(b"\n\n\n\n"), doc(&[&[], &[], &[], &[]]));
}

#[test]
fn decode_middle_empty_cell_marker() {
    assert_eq!(decode_bytes(b"a\n\\\nb\n\n"), doc(&[&[b"a", b"", b"b"]]));
}

#[test]
fn decode_escaped_newline() {
    assert_eq!(decode_bytes(b"Line 1\\nLine 2\n"), doc(&[&[b"Line 1\nLine 2"]]));
}

#[test]
fn decode_leading_and_odd_blank_lines() {
    assert_eq!(decode_bytes(b"\n\nx\n"), doc(&[&[], &[], &[b"x"]]));
    assert_eq!(decode_bytes(b"x\n\n\n"), doc(&[&[b"x"], &[]]));
    assert_eq!(decode_bytes(b"\n"), doc(&[&[]]));
}

#[test]
fn decode_binary_cells() {
    assert_eq!(
        decode_bytes(&[0xff, 10, 0x00, 0x5c, 0x6e, 10, 10]),
        vec![vec![vec![0xff], vec![0x00, 10]]]
    );
}

#[test]
fn encode_exact_bytes() {
    assert_eq!(encode_bytes(&[]), Vec::<u8>::new());
    assert_eq!(encode_bytes(&doc(&[&[]])), b"\n".to_vec());
    assert_eq!(encode_bytes(&doc(&[&[b"a", b""], &[b"x\ny"]])), b"a\n\\\n\n".iter().chain(b"x\\ny\n\n").copied().collect::<Vec<u8>>());
}

#[test]
fn encode_is_deterministic() {
    let d = doc(&[&[b"a", b"\\"], &[], &[b""]]);
    assert_eq!(encode_bytes(&d), encode_bytes(&d));
}

#[test]
fn bytes_round_trip() {
    let docs = vec![
        doc(&[]),
        doc(&[&[]]),
        doc(&[&[], &[]]),
        doc(&[&[b""]]),
        doc(&[&[b"a", b"b"], &[], &[b"\\", b"\n", b""]]),
        vec![vec![vec![0, 255, 10], vec![92]], vec![]],
    ];
    for d in docs {
        assert_eq!(decode_bytes(&encode_bytes(&d)), d);
        assert_eq!(decode_sequential(&encode_bytes(&d)), d);
    }
}

fn sample_buffer() -> Vec<u8> {
    let mut b = Vec::new();
    for i in 0..400 {
        if i % 7 == 0 {
            b.extend_from_slice(b"\n\n\n");
        }
        b.extend_from_slice(format!("r{}\\n\n\\\nx\\y\n\n", i).as_bytes());
        if i % 11 == 0 {
            b.push(b'\n');
        }
    }
    b.extend_from_slice(b"tail\ncell");
    b
}

#[test]
fn parallel_matches_sequential_for_every_worker_count() {
    let inputs: Vec<Vec<u8>> = vec![
        sample_buffer(),
        b"".to_vec(),
        b"\n\n\n\n\n\n\n".to_vec(),
        b"a\nb\n\nc\n\n\n\nd".to_vec(),
        b"no separators at all".to_vec(),
    ];
    for input in &inputs {
        let expected = decode_sequential(input);
        for workers in 0..12 {
            assert_eq!(decode_parallel(input, workers), expected);
        }
    }
}

#[test]
fn large_input_takes_parallel_path() {
    let mut d: Vec<Vec<Vec<u8>>> = Vec::new();
    for i in 0..20_000 {
        d.push(vec![format!("cell{}", i).into_bytes(), b"x\\y\nz".to_vec()]);
        if i % 50 == 0 {
            d.push(vec![]);
        }
    }
    let encoded = encode_bytes(&d);
    assert!(encoded.len() >= PARALLEL_THRESHOLD);
    assert_eq!(decode_bytes(&encoded), d);
    assert_eq!(decode_bytes(&encoded), decode_sequential(&encoded));
}

#[test]
fn text_round_trip_with_non_ascii() {
    let data = vec![
        vec!["caf\u{e9}".to_string(), "".to_string(), "\u{65e5}\u{672c}\n\\".to_string()],
        vec![],
        vec!["\u{1f600}".to_string()],
    ];
    let text = nsv::dumps(&data);
    assert_eq!(text, "caf\u{e9}\n\\\n\u{65e5}\u{672c}\\n\\\\\n\n\n\u{1f600}\n\n");
    assert_eq!(nsv::loads(&text), data);
}
