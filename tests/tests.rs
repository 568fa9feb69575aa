use vpk0::encode::huffman::MapTree;
use vpk0::encode::huffman::{pair_lesser_sizes, TreeNode};
use vpk0::encode::TwoSample;
use vpk0::encode::count_needed_bits;
use vpk0::encode::huffman::parse_treestr;
use vpk0::encode::lzss::find_kmp;
use vpk0::encode::lzss::brute_find_match;
use vpk0::encode::lzss::{compute_lps, lps_partial_skip};
use vpk0::encode::lzss::{compress_rdr, LzssByte};
use vpk0::{
    decode, encode, vpk_info, EncodeTreeParseErr, EncoderBuilder, LzssBackend, LzssSettings,
    VpkError, VpkHeader, VpkMethod,
};

const BACKENDS: &[LzssBackend] = &[LzssBackend::Brute, LzssBackend::Kmp, LzssBackend::KmpAhead];

/// Bytes with repeats at many distances, standing in for a small image.
fn sample_data() -> Vec<u8> {
    let mut out = Vec::new();
    let mut x: u32 = 12345;
    for i in 0..3000u32 {
        x = x.wrapping_mul(1103515245).wrapping_add(12345);
        let b = if i % 7 < 3 {
            (x >> 16) as u8
        } else {
            out[out.len() - 1 - ((x >> 8) as usize % out.len().min(40))]
        };
        out.push(b);
    }
    out
}

fn histogram(pairs: &[(usize, u64)]) -> Vec<u64> {
    let mut h = vec![0u64; 33];
    for &(w, f) in pairs {
        h[w] = f;
    }
    h
}

fn check_tree_parsing(s: &str, parsed: &[(u8, u32)]) {
    let tree = MapTree::from_text(s).unwrap();
    for &(key, expected) in parsed {
        let found = tree.get(key);
        assert!(found.is_some(), "didn't create huffcode for {} (from '{}')", key, s);
        let (_, code) = found.unwrap();
        assert_eq!(expected, code.code, "incorrect parsed huffcode for {}", key);
    }
}

#[test]
fn parse_leaf_only_treestr() {
    let inputs = ["5", "7"];
    let outputs = [vec![(5, 0b0)], vec![(7, 0b0)]];
    for (s, parsed) in inputs.iter().zip(&outputs) {
        check_tree_parsing(s, parsed);
    }
}

#[test]
fn parse_user_treestr() {
    let inputs = [
        "(1, (4, (6, (3, 7))))",
        "(3, (2, 5))",
        "((7, ((4, 1), 5)), ((10, 6), 9))",
        "((9, 11), (13, (14, 16)))",
    ];
    let outputs = [
        vec![(1, 0b0), (4, 0b10), (6, 0b110), (3, 0b1110), (7, 0b1111)],
        vec![(3, 0b0), (2, 0b10), (5, 0b11)],
        vec![
            (7, 0b00),
            (4, 0b0100),
            (1, 0b0101),
            (5, 0b011),
            (10, 0b100),
            (6, 0b101),
            (9, 0b11),
        ],
        vec![(9, 0b00), (11, 0b01), (13, 0b10), (14, 0b110), (16, 0b111)],
    ];
    for (s, parsed) in inputs.iter().zip(&outputs) {
        check_tree_parsing(s, parsed);
    }
}

#[test]
fn filling_user_tree() -> Result<(), VpkError> {
    let inputs = &["(3, 5)", "(1, (4, 7))"];
    let found_sizes = [
        histogram(&[(2, 5), (3, 8), (4, 4), (5, 1)]),
        histogram(&[(1, 8), (3, 1), (4, 4), (6, 3), (7, 2)]),
    ];
    for (s, found) in inputs.iter().zip(&found_sizes) {
        let tree = MapTree::from_text(s)?.fill_missing(found)?;
        println!("Tree for {}\n\t{:?}", s, tree);
        for w in 0..33 {
            if found[w] > 0 {
                let (width, _) = tree.get(w as u8).unwrap();
                assert!(width as usize >= w);
            }
        }
    }
    Ok(())
}

#[test]
fn filling_keeps_smallest_greater_code() {
    let tree = MapTree::from_text("(1, (4, 7))").unwrap();
    let filled = tree.fill_missing(&histogram(&[(3, 1), (6, 2)])).unwrap();
    assert_eq!(filled.get(3), filled.get(4));
    assert_eq!(filled.get(6), filled.get(7));
    assert_eq!(filled.get(3).unwrap().0, 4);
    assert_eq!(filled.get(6).unwrap().0, 7);
}

#[test]
fn filling_fails_above_largest_leaf() {
    let tree = MapTree::from_text("(3, 5)").unwrap();
    match tree.fill_missing(&histogram(&[(6, 1)])) {
        Err(VpkError::BadUserTree(EncodeTreeParseErr::Uncovered(6))) => {}
        other => panic!("unexpected {:?}", other.map(|_| ())),
    }
}

#[test]
fn decode_method0() {
    let raw = sample_data();
    let compressed = EncoderBuilder::for_bytes(&raw).one_sample().encode_to_vec().unwrap();
    let decoded = decode(&compressed).expect("working decode");
    assert_eq!(decoded, raw, "decoding method 0");
}

#[test]
fn encode_method0() {
    let data = sample_data();
    for &backend in BACKENDS {
        EncoderBuilder::for_bytes(&data)
            .one_sample()
            .lzss_backend(backend)
            .encode_to_vec()
            .expect(&format!("valid encode for {:?}", backend));
    }
}

#[test]
fn match_method0() {
    let raw = sample_data();
    let vpk = EncoderBuilder::for_bytes(&raw).one_sample().encode_to_vec().unwrap();
    let (_header, trees) = vpk_info(&vpk).unwrap();
    let compressed = EncoderBuilder::for_bytes(&raw)
        .one_sample()
        .lzss_backend(LzssBackend::Brute)
        .with_lengths(&trees.lengths)
        .with_offsets(&trees.offsets)
        .encode_to_vec()
        .unwrap();
    assert_eq!(compressed, vpk);
}

#[test]
fn decode_method1() {
    let raw = sample_data();
    let compressed = EncoderBuilder::for_bytes(&raw).two_sample().encode_to_vec().unwrap();
    let decoded = decode(&compressed).unwrap();
    assert_eq!(decoded, raw, "error method 1");
}

#[test]
fn encode_method1() {
    let data = sample_data();
    for &backend in BACKENDS {
        EncoderBuilder::for_bytes(&data)
            .two_sample()
            .lzss_backend(backend)
            .encode_to_vec()
            .expect(&format!("valid encode for {:?}", backend));
    }
}

#[test]
fn match_method1() {
    let raw = sample_data();
    let vpk = EncoderBuilder::for_bytes(&raw).two_sample().encode_to_vec().unwrap();
    let (_header, trees) = vpk_info(&vpk).unwrap();
    let compressed = EncoderBuilder::for_bytes(&raw)
        .two_sample()
        .lzss_backend(LzssBackend::Brute)
        .with_lengths(&trees.lengths)
        .with_offsets(&trees.offsets)
        .encode_to_vec()
        .unwrap();
    assert_eq!(compressed, vpk);
}

#[test]
fn decode_bad_file() {
    let mut bad_file = EncoderBuilder::for_bytes(&sample_data()).encode_to_vec().unwrap();
    bad_file.truncate(bad_file.len() / 2);
    match decode(&bad_file) {
        Ok(result) => {
            println!("{:?}", result);
            panic!("Expected error when decoding bad file");
        }
        Err(err) => {
            println!("{:?}", err);
            assert!(true)
        }
    };
}

#[test]
fn round_trip_every_method_and_backend() {
    let inputs: Vec<Vec<u8>> = vec![
        Vec::new(),
        b"a".to_vec(),
        b"AAAVVVAAABABACCCDE".to_vec(),
        b"ababacdcdeaba".to_vec(),
        vec![0u8; 1000],
        sample_data(),
    ];
    for input in &inputs {
        for &method in &[VpkMethod::OneSample, VpkMethod::TwoSample] {
            for &backend in BACKENDS {
                let c = EncoderBuilder::for_bytes(input)
                    .method(method)
                    .lzss_backend(backend)
                    .encode_to_vec()
                    .unwrap();
                assert_eq!(&decode(&c).unwrap(), input);
            }
        }
    }
}

#[test]
fn yaaa_scenario_tokens_and_bytes() {
    let input = b"YAAAAAAAAAAAAAA";
    let pass = compress_rdr(input, LzssSettings::default(), VpkMethod::OneSample, LzssBackend::Brute)
        .unwrap();
    assert_eq!(
        pass.buf,
        vec![LzssByte::Uncoded(b'Y'), LzssByte::Uncoded(b'A'), LzssByte::Encoded(13, 1)]
    );
    assert_eq!(pass.decompressed_size, Some(15));
    let out = EncoderBuilder::for_bytes(input)
        .one_sample()
        .with_offsets("(1,(4,7))")
        .with_lengths("(1,(4,7))")
        .encode_to_vec()
        .unwrap();
    assert_eq!(&out[..9], &[0x76, 0x70, 0x6B, 0x30, 0x00, 0x00, 0x00, 0x0F, 0x00]);
    assert_eq!(
        out,
        vec![
            0x76, 0x70, 0x6b, 0x30, 0x00, 0x00, 0x00, 0x0f, 0x00, 0x00, 0x81, 0x00, 0xfc, 0x02,
            0x04, 0x03, 0xf2, 0xc9, 0x06, 0xda
        ]
    );
    assert_eq!(decode(&out).unwrap(), input.to_vec());
}

#[test]
fn no_match_scenario_gives_empty_trees() {
    let input = b"abcdefgh12345";
    for &method in &[VpkMethod::OneSample, VpkMethod::TwoSample] {
        for &backend in BACKENDS {
            let pass = compress_rdr(input, LzssSettings::default(), method, backend).unwrap();
            assert_eq!(pass.buf.len(), 13);
            assert!(pass.buf.iter().all(|t| matches!(t, LzssByte::Uncoded(_))));
            let out = EncoderBuilder::for_bytes(input)
                .method(method)
                .lzss_backend(backend)
                .encode_to_vec()
                .unwrap();
            let (header, trees) = vpk_info(&out).unwrap();
            assert_eq!(header, VpkHeader { size: 13, method });
            assert_eq!(trees.offsets, "()");
            assert_eq!(trees.lengths, "()");
            // header, two one-bit trees, 13 literals of nine bits
            assert_eq!(out.len(), 9 + (2 + 13 * 9 + 7) / 8);
            assert_eq!(decode(&out).unwrap(), input.to_vec());
        }
    }
}

#[test]
fn bad_magic_is_invalid_header() {
    let bytes = [b'v', b'p', b'k', b'1', 0, 0, 0, 1, 0, 0xff];
    match decode(&bytes) {
        Err(VpkError::InvalidHeader(s)) => assert_eq!(s, "vpk1"),
        other => panic!("unexpected {:?}", other),
    }
}

#[test]
fn bad_magic_bytes_are_utf8_error() {
    let bytes = [0xff, 0xfe, b'k', b'0', 0, 0, 0, 1, 0, 0xff];
    assert_eq!(decode(&bytes), Err(VpkError::Utf8Error));
}

#[test]
fn method_two_is_invalid() {
    let bytes = [b'v', b'p', b'k', b'0', 0, 0, 0, 1, 2, 0xff];
    assert_eq!(decode(&bytes), Err(VpkError::InvalidMethod(2)));
}

#[test]
fn short_input_is_io_error() {
    assert_eq!(decode(b"vpk0"), Err(VpkError::Io));
    assert_eq!(decode(&[b'v', b'p', b'k', b'0', 0, 0, 0, 1, 0]), Err(VpkError::Io));
}

#[test]
fn lookback_past_output_fails() {
    // size 10; offset tree: a leaf of 3; length tree: a leaf of 2;
    // three literals 'a', then a back-reference whose offset reads 5
    let mut bytes = vec![b'v', b'p', b'k', b'0', 0, 0, 0, 10, 0];
    bytes.extend_from_slice(&[0x01, 0xc0, 0x53, 0x09, 0x84, 0xc3, 0xa0]);
    assert_eq!(decode(&bytes), Err(VpkError::BadLookBack(5, 3)));
}

#[test]
fn self_overlapping_copy() {
    // size 6; offset tree: a leaf of 1; length tree: a leaf of 3;
    // literal 0x41, then offset 1 and length 5
    let mut bytes = vec![b'v', b'p', b'k', b'0', 0, 0, 0, 6, 0];
    bytes.extend_from_slice(&[0x00, 0xc0, 0x72, 0x0f, 0x40]);
    assert_eq!(decode(&bytes).unwrap(), vec![0x41; 6]);
}

#[test]
fn two_sample_offsets_round_trip() {
    assert_eq!(TwoSample::from_offset(4), TwoSample::One(3));
    assert_eq!(TwoSample::from_offset(1), TwoSample::Two { first: 0, second: 2 });
    for offset in 1..5000usize {
        let back = match TwoSample::from_offset(offset) {
            TwoSample::One(q) => {
                assert!(q >= 3);
                4 * q - 8
            }
            TwoSample::Two { first, second } => {
                assert!(first < 3);
                first + 1 + 4 * second - 8
            }
        };
        assert_eq!(back, offset);
    }
}

#[test]
fn bit_widths() {
    assert_eq!(count_needed_bits(0), 0);
    assert_eq!(count_needed_bits(1), 1);
    assert_eq!(count_needed_bits(13), 4);
    assert_eq!(count_needed_bits(255), 8);
    assert_eq!(count_needed_bits(256), 9);
    assert_eq!(count_needed_bits(usize::MAX), 64);
}

#[test]
fn settings_sizes() {
    let d = LzssSettings::default();
    assert_eq!(d, LzssSettings::new(16, 8, 2));
    assert_eq!(d.window_size(), 65535);
    assert_eq!(d.max_encoded(), 255);
    let b = LzssSettings::byte_sized(1000, 18, 3);
    assert_eq!(b, LzssSettings::new(10, 5, 3));
}

#[test]
fn fixed_width_settings_round_trip() {
    let input = b"I am Sam. Sam I am.";
    let compressed = EncoderBuilder::for_bytes(input)
        .one_sample()
        .with_lzss_settings(LzssSettings::new(10, 6, 2))
        .with_offsets("10")
        .with_lengths("6")
        .encode_to_vec()
        .unwrap();
    assert_eq!(decode(&compressed).unwrap(), input.to_vec());
    let (_, trees) = vpk_info(&compressed).unwrap();
    assert_eq!(trees.offsets, "10");
    assert_eq!(trees.lengths, "6");
}

#[test]
fn tree_text_round_trip() {
    for text in ["(1, (4, 7))", "((7, ((4, 1), 5)), ((10, 6), 9))", "5", "(0, 255)"] {
        let t = MapTree::from_text(text).unwrap();
        assert_eq!(t.tree.to_text(), text);
        let again = MapTree::from_text(&t.tree.to_text()).unwrap();
        for w in 0..=255u8 {
            assert_eq!(t.get(w), again.get(w));
        }
    }
}

#[test]
fn tree_text_errors() {
    assert!(matches!(parse_treestr("(1, x)"), Err(EncodeTreeParseErr::LexUnexp('x', 4))));
    assert!(matches!(parse_treestr("(1, 300)"), Err(EncodeTreeParseErr::LexNum(4))));
    assert!(matches!(parse_treestr("(1, 2"), Err(EncodeTreeParseErr::ParseUnexpEnd)));
    assert!(matches!(parse_treestr("(1 2)"), Err(EncodeTreeParseErr::ParseUnexp("number", 3))));
    assert!(matches!(parse_treestr(""), Err(EncodeTreeParseErr::ParseUnexpEnd)));
    let r = EncoderBuilder::for_bytes(b"abcabcabcabc").with_offsets("(1,").encode_to_vec();
    assert!(matches!(r, Err(VpkError::BadUserTree(EncodeTreeParseErr::ParseUnexpEnd))));
}

#[test]
fn user_tree_too_small_fails() {
    let r = EncoderBuilder::for_bytes(b"abcabcabcabcabcabc").with_lengths("(1, 2)").encode_to_vec();
    assert!(matches!(r, Err(VpkError::BadUserTree(EncodeTreeParseErr::Uncovered(_)))));
}

#[test]
fn encode_default_and_writer() {
    let data = b"AAAVVVAAABABACCCDE";
    let a = encode(data).unwrap();
    let mut w = vec![1u8, 2];
    EncoderBuilder::for_reader(data.to_vec()).encode_to_writer(&mut w).unwrap();
    assert_eq!(&w[..2], &[1, 2]);
    assert_eq!(&w[2..], &a[..]);
    assert_eq!(decode(&a).unwrap(), data.to_vec());
}

#[test]
fn kmp_matches_are_sound() {
    let buf = b"abcabcabdabcabcabd";
    for split in 1..buf.len() {
        for &rl in &[false, true] {
            if let Some(m) = find_kmp(buf, 0, split, buf.len(), 255, rl) {
                for t in 0..m.size {
                    assert_eq!(buf[split - m.moveback + t], buf[split + t]);
                }
            }
        }
    }
    let m = find_kmp(b"abcdabc", 0, 4, 7, 255, false).unwrap();
    assert_eq!((m.size, m.moveback), (3, 4));
}

#[test]
fn brute_prefers_longest_then_closest() {
    let s = LzssSettings::default();
    let m = brute_find_match(b"abcXabcabc", 0, 7, 10, &s).unwrap();
    assert_eq!((m.size, m.moveback), (3, 3));
    assert!(brute_find_match(b"abcdef", 0, 3, 6, &s).is_none());
}

#[test]
fn lps_table() {
    assert_eq!(compute_lps(b"aabaaab", 0, 7), vec![0, 1, 0, 1, 2, 2, 3]);
    assert_eq!(lps_partial_skip(&[0, 1, 0, 1, 2]), 2);
    assert_eq!(lps_partial_skip(&[]), 0);
    assert_eq!(lps_partial_skip(&[1, 2]), 0);
}

#[test]
fn close_leaves_merge_and_far_ones_do_not() {
    let high = TreeNode::Leaf { size: 5, freq: 10 };
    let low = TreeNode::Leaf { size: 4, freq: 1 };
    let merged = pair_lesser_sizes(&low, &high).unwrap();
    assert_eq!(merged.size(), Some(5));
    assert_eq!(merged.freq(), 11);
    assert_eq!(merged.lessers(), &[4]);
    let again = pair_lesser_sizes(&merged, &TreeNode::Leaf { size: 3, freq: 2 }).unwrap();
    assert_eq!(again.size(), Some(5));
    assert_eq!(again.lessers(), &[3, 4]);
    // 1 - (10 - 2 - 1) * 5 < 0
    let far = pair_lesser_sizes(&TreeNode::Leaf { size: 10, freq: 1 }, &TreeNode::Leaf { size: 2, freq: 5 });
    assert!(far.is_none());
    let node = TreeNode::combine(TreeNode::Leaf { size: 10, freq: 1 }, TreeNode::Leaf { size: 2, freq: 5 });
    assert_eq!(node.size(), None);
    assert_eq!(node.freq(), 6);
}

#[test]
fn back_reference_widths_fit_and_are_counted() {
    let data = sample_data();
    for &method in &[VpkMethod::OneSample, VpkMethod::TwoSample] {
        let settings = LzssSettings::new(9, 5, 2);
        let pass = compress_rdr(&data, settings, method, LzssBackend::Brute).unwrap();
        let mut refs = 0;
        for t in &pass.buf {
            match *t {
                LzssByte::Encoded(l, o) => {
                    refs += 1;
                    assert!(count_needed_bits(l) as usize <= settings.length_bits);
                    assert!(count_needed_bits(o) as usize <= settings.offset_bits);
                    assert!(pass.size_bitfreq[count_needed_bits(l) as usize] >= 1);
                    assert!(pass.moveback_bitfreq[count_needed_bits(o) as usize] >= 1);
                }
                LzssByte::EncTwoSample(l, _) => {
                    refs += 1;
                    assert!(count_needed_bits(l) as usize <= settings.length_bits);
                    assert!(pass.size_bitfreq[count_needed_bits(l) as usize] >= 1);
                }
                LzssByte::Uncoded(_) => {}
            }
        }
        assert!(refs > 0);
        let total: u64 = pass.size_bitfreq.iter().sum();
        assert_eq!(total, refs);
    }
}

#[test]
fn copy_past_size_stops_at_size() {
    // size 2; offset tree: a leaf of 1; length tree: a leaf of 2;
    // literal 0x41, then offset 1 and length 3
    let mut bytes = vec![b'v', b'p', b'k', b'0', 0, 0, 0, 2, 0];
    bytes.extend_from_slice(&[0x00, 0xc0, 0x52, 0x0f, 0x80]);
    assert_eq!(decode(&bytes).unwrap(), vec![0x41, 0x41]);
}

#[test]
fn tree_text_parse_errors_report_position() {
    assert!(matches!(parse_treestr("(1, 4"), Err(EncodeTreeParseErr::ParseUnexpEnd)));
    assert!(matches!(parse_treestr("(1 4)"), Err(EncodeTreeParseErr::ParseUnexp("number", 3))));
    assert!(matches!(parse_treestr("(1, 4))"), Ok(_)));
    assert!(matches!(parse_treestr(",1"), Err(EncodeTreeParseErr::ParseUnexp(",", 0))));
    assert!(matches!(
        EncoderBuilder::for_bytes(b"abab").with_offsets("(1 4)").encode_to_vec(),
        Err(VpkError::BadUserTree(EncodeTreeParseErr::ParseUnexp("number", 3)))
    ));
}

#[test]
fn parsed_tree_is_flattened_text() {
    let t = MapTree::from_text("(1, (4, 7))").unwrap();
    assert_eq!(t.tree.entries.len(), 5);
    assert_eq!(t.tree.to_text(), "(1, (4, 7))");
    assert!(t.get(2).is_none());
    assert_eq!(t.get(7).unwrap().0, 7);
}

#[test]
fn tree_text_positions_are_byte_offsets() {
    let toks = vpk0::encode::huffman::lex_treestr("\u{3000}  1").unwrap();
    assert_eq!(toks.len(), 1);
    assert_eq!(toks[0].0, 5);
    assert!(matches!(parse_treestr("\u{3000}(1, x)"), Err(EncodeTreeParseErr::LexUnexp('x', 7))));
    assert!(matches!(parse_treestr("\u{3000}(1 2)"), Err(EncodeTreeParseErr::ParseUnexp("number", 6))));
}

#[test]
fn code_maps_of_tree_texts_are_fixed() {
    let t = MapTree::from_text("(3, 5)").unwrap();
    let f = t.fill_missing(&histogram(&[(2, 5), (3, 8), (4, 4), (5, 1)])).unwrap();
    let code = |w: u8| f.get(w).map(|(width, c)| (width, c.code, c.size));
    assert_eq!(code(2), Some((3, 0, 1)));
    assert_eq!(code(3), Some((3, 0, 1)));
    assert_eq!(code(4), Some((5, 1, 1)));
    assert_eq!(code(5), Some((5, 1, 1)));
    let g = MapTree::from_text("(1, (4, 7))").unwrap();
    assert_eq!(g.get(4).map(|(w, c)| (w, c.code, c.size)), Some((4, 0b10, 2)));
    assert!(g.get(2).is_none());
}

#[test]
fn bad_length_text_is_bad_user_tree() {
    let r = EncoderBuilder::for_bytes(b"abcabcabcabc").with_lengths("(1 2)").encode_to_vec();
    assert!(matches!(r, Err(VpkError::BadUserTree(EncodeTreeParseErr::ParseUnexp("number", 3)))));
}
