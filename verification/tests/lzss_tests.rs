use lzss::lzss::{lzss_decode, lzss_decode_ref, lzss_encode, ConfigError, DecodeError, LZSSToken};

#[test]
fn single_byte() {
    let data: [u8; 1] = [1];
    let result = lzss_encode(&data, 2, 1).unwrap();
    assert_eq!(result, [LZSSToken::Byte(1)]);
}

#[test]
fn degenerate_run() {
    let data: [u8; 5] = [1, 1, 1, 1, 1];
    let result = lzss_encode(&data, 2, 1).unwrap();
    assert_eq!(
        result,
        [
            LZSSToken::Byte(1),
            LZSSToken::Byte(1),
            LZSSToken::Byte(1),
            LZSSToken::Byte(1),
            LZSSToken::Byte(1),
        ]
    );
}

#[test]
fn repeated_run_back_reference() {
    let data: [u8; 6] = [1, 1, 1, 1, 1, 1];
    let result = lzss_encode(&data, 4, 4).unwrap();
    assert_eq!(
        result,
        [
            LZSSToken::Byte(1),
            LZSSToken::Ref { offset: 2, length: 4 },
            LZSSToken::Byte(1),
        ]
    );
}

#[test]
fn periodic_input_back_reference() {
    let data: [u8; 6] = [1, 2, 3, 1, 2, 3];
    let result = lzss_encode(&data, 3, 3).unwrap();
    assert_eq!(
        result,
        [
            LZSSToken::Byte(1),
            LZSSToken::Byte(2),
            LZSSToken::Byte(3),
            LZSSToken::Ref { offset: 4, length: 3 },
        ]
    );
}

#[test]
fn empty_input_empty_tokens() {
    let data: [u8; 0] = [];
    let result = lzss_encode(&data, 3, 2).unwrap();
    assert_eq!(result, []);
}

#[test]
fn zero_search_buffer_rejected() {
    let data: [u8; 3] = [1, 2, 3];
    assert_eq!(lzss_encode(&data, 0, 2), Err(ConfigError));
}

#[test]
fn zero_look_ahead_rejected() {
    let data: [u8; 3] = [1, 2, 3];
    assert_eq!(lzss_encode(&data, 2, 0), Err(ConfigError));
}

#[test]
fn round_trip_all_literals() {
    let data: [u8; 4] = [1, 2, 3, 4];
    let tokens = lzss_encode(&data, 1, 2).unwrap();
    assert_eq!(
        tokens,
        [
            LZSSToken::Byte(1),
            LZSSToken::Byte(2),
            LZSSToken::Byte(3),
            LZSSToken::Byte(4),
        ]
    );
    assert_eq!(lzss_decode(&tokens).unwrap(), data.to_vec());
}

#[test]
fn short_runs_stay_literals() {
    let data: [u8; 5] = [2, 2, 0, 2, 2];
    let tokens = lzss_encode(&data, 2, 2).unwrap();
    for token in &tokens {
        assert!(matches!(token, LZSSToken::Byte(_)));
    }
    assert_eq!(lzss_decode(&tokens).unwrap(), data.to_vec());
}

#[test]
fn emitted_back_references_are_well_formed() {
    let data: [u8; 6] = [1, 1, 1, 1, 1, 1];
    let tokens = lzss_encode(&data, 4, 4).unwrap();
    for token in &tokens {
        if let LZSSToken::Ref { offset, length } = token {
            assert!(*length >= 3);
            assert!(*offset >= 1 && *offset <= 5);
        }
    }
}

#[test]
fn input_shorter_than_look_ahead() {
    // When the input is shorter than the look-ahead buffer, the drain phase
    // re-examines the tail instead of sweeping every byte once.
    let data: [u8; 3] = [24, 25, 26];
    let result = lzss_encode(&data, 1, 3).unwrap();
    assert_eq!(
        result,
        [LZSSToken::Byte(24), LZSSToken::Byte(26), LZSSToken::Byte(26)]
    );
}

#[test]
fn round_trip_longer_literal_stream() {
    let data: [u8; 10] = [3, 1, 4, 1, 5, 9, 2, 6, 5, 3];
    let tokens = lzss_encode(&data, 2, 2).unwrap();
    assert_eq!(lzss_decode(&tokens).unwrap(), data.to_vec());
}

#[test]
fn decode_zero_length_reference() {
    let tokens = [
        LZSSToken::Byte(5),
        LZSSToken::Ref { offset: 0, length: 0 },
        LZSSToken::Byte(6),
    ];
    assert_eq!(lzss_decode(&tokens).unwrap(), vec![5, 6]);
}

#[test]
fn decode_back_reference() {
    let tokens = [
        LZSSToken::Byte(1),
        LZSSToken::Byte(2),
        LZSSToken::Ref { offset: 2, length: 2 },
    ];
    assert_eq!(lzss_decode(&tokens).unwrap(), vec![1, 2, 1, 2]);
}

#[test]
fn decode_nested_back_reference() {
    let tokens = [
        LZSSToken::Byte(1),
        LZSSToken::Byte(2),
        LZSSToken::Ref { offset: 2, length: 2 },
        LZSSToken::Ref { offset: 1, length: 1 },
    ];
    assert_eq!(lzss_decode(&tokens).unwrap(), vec![1, 2, 1, 2, 1, 2]);
}

#[test]
fn decode_reference_before_start_fails() {
    let tokens = [LZSSToken::Ref { offset: 1, length: 1 }];
    assert_eq!(lzss_decode(&tokens), Err(DecodeError { index: 0 }));
}

#[test]
fn decode_reference_reaching_itself_fails() {
    let tokens = [LZSSToken::Byte(1), LZSSToken::Ref { offset: 1, length: 2 }];
    assert_eq!(lzss_decode(&tokens), Err(DecodeError { index: 1 }));
}

#[test]
fn decode_ref_within_range() {
    let tokens = [LZSSToken::Byte(7), LZSSToken::Byte(8)];
    assert_eq!(lzss_decode_ref(&tokens, 1, 1).unwrap(), vec![8]);
}

#[test]
fn decode_ref_past_end_fails() {
    let tokens = [LZSSToken::Byte(1)];
    assert_eq!(lzss_decode_ref(&tokens, 0, 5), Err(DecodeError { index: 1 }));
}
