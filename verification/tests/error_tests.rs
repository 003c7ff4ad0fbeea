use vpack_engine::text::{decimal, hex};
use vpack_engine::VPackError;

#[test]
fn every_failure_has_its_code() {
    let encoding: Box<bincode::ErrorKind> =
        bincode::deserialize::<String>(&[1, 2, 3]).unwrap_err();
    let cases: Vec<(VPackError, &str)> = vec![
        (VPackError::DimensionMismatch { expected: 3, got: 2 }, "DIMENSION_MISMATCH"),
        (
            VPackError::ModelMismatch { expected: "a".to_string(), got: "b".to_string() },
            "MODEL_MISMATCH",
        ),
        (VPackError::EmptyIndex, "EMPTY_INDEX"),
        (
            VPackError::ModelHashMismatch {
                model: "m".to_string(),
                expected: "e".to_string(),
                got: "g".to_string(),
            },
            "MODEL_HASH_MISMATCH",
        ),
        (VPackError::Serialize(encoding), "SERIALIZE_FAILED"),
        (VPackError::UnknownModel("x".to_string()), "UNKNOWN_MODEL"),
        (VPackError::InvalidFormat("x".to_string()), "DESERIALIZE_FAILED"),
    ];
    for (failure, code) in cases {
        assert_eq!(failure.code(), code);
    }
}

#[test]
fn dimension_mismatch_names_both_lengths() {
    let failure = VPackError::DimensionMismatch { expected: 384, got: 1536 };
    assert_eq!(
        failure.message(),
        "dimension mismatch: index expects 384d vectors, query vector is 1536d"
    );
    let failure = VPackError::DimensionMismatch { expected: 0, got: usize::MAX };
    assert_eq!(
        failure.message(),
        format!("dimension mismatch: index expects 0d vectors, query vector is {}d", usize::MAX)
    );
}

#[test]
fn model_mismatch_names_both_models() {
    let failure = VPackError::ModelMismatch {
        expected: "BAAI/bge-m3".to_string(),
        got: "other/model".to_string(),
    };
    assert_eq!(
        failure.message(),
        "model mismatch: index built with 'BAAI/bge-m3', query uses 'other/model' \u{2014} results would be meaningless. This is a hard error, not a warning."
    );
}

#[test]
fn empty_index_says_what_to_do() {
    assert_eq!(
        VPackError::EmptyIndex.message(),
        "index is empty \u{2014} call build() before query()"
    );
}

#[test]
fn model_hash_mismatch_names_model_and_hashes() {
    let failure = VPackError::ModelHashMismatch {
        model: "BAAI/bge-m3".to_string(),
        expected: "abc".to_string(),
        got: "def".to_string(),
    };
    assert_eq!(
        failure.message(),
        "model hash mismatch for 'BAAI/bge-m3': manifest pins abc, local weights hash to def"
    );
}

#[test]
fn unknown_model_and_invalid_format_carry_their_detail() {
    assert_eq!(
        VPackError::UnknownModel("nope".to_string()).message(),
        "unknown or unsupported model: nope"
    );
    assert_eq!(
        VPackError::InvalidFormat("bad magic bytes".to_string()).message(),
        "invalid .vpack file: bad magic bytes"
    );
    assert_eq!(VPackError::UnknownModel(String::new()).message(), "unknown or unsupported model: ");
}

#[test]
fn an_encoding_failure_carries_the_words_of_the_codec() {
    let encoding: Box<bincode::ErrorKind> =
        bincode::deserialize::<String>(&[1, 2, 3]).unwrap_err();
    let words = encoding.to_string();
    assert!(!words.is_empty());
    let failure = VPackError::from(encoding);
    assert!(matches!(failure, VPackError::Serialize(_)));
    assert_eq!(failure.message(), format!("serialization failed: {words}"));
    assert_eq!(failure.wire_text(), format!("SERIALIZE_FAILED|serialization failed: {words}"));
}

#[test]
fn a_json_failure_carries_the_words_of_the_parser() {
    let error = serde_json::from_str::<serde_json::Value>("{\"a\": ").unwrap_err();
    let words = error.to_string();
    assert!(!words.is_empty());
    match VPackError::invalid_json(&error) {
        VPackError::InvalidFormat(detail) => assert_eq!(detail, words),
        other => panic!("another failure: {other:?}"),
    }
    match VPackError::unreadable_config(&error) {
        VPackError::UnknownModel(detail) => assert_eq!(detail, words),
        other => panic!("another failure: {other:?}"),
    }
    let failure = VPackError::invalid_json(&error);
    assert_eq!(failure.wire_text(), format!("DESERIALIZE_FAILED|invalid .vpack file: {words}"));
    assert_eq!(
        VPackError::host_json_text(&error),
        format!("DESERIALIZE_FAILED|invalid JSON: {words}")
    );
}

#[test]
fn a_failure_crosses_a_boundary_as_code_bar_message() {
    assert_eq!(
        VPackError::EmptyIndex.wire_text(),
        "EMPTY_INDEX|index is empty \u{2014} call build() before query()"
    );
    assert_eq!(
        VPackError::DimensionMismatch { expected: 3, got: 2 }.wire_text(),
        "DIMENSION_MISMATCH|dimension mismatch: index expects 3d vectors, query vector is 2d"
    );
    assert_eq!(
        VPackError::UnknownModel("x|y".to_string()).wire_text(),
        "UNKNOWN_MODEL|unknown or unsupported model: x|y"
    );
}

#[test]
fn numbers_are_written_in_decimal() {
    assert_eq!(decimal(0), "0");
    assert_eq!(decimal(7), "7");
    assert_eq!(decimal(10), "10");
    assert_eq!(decimal(384), "384");
    assert_eq!(decimal(1000000), "1000000");
    assert_eq!(decimal(usize::MAX), usize::MAX.to_string());
}

#[test]
fn bytes_are_written_as_two_hexadecimal_digits() {
    assert_eq!(hex(0), "00");
    assert_eq!(hex(1), "01");
    assert_eq!(hex(0x0a), "0a");
    assert_eq!(hex(0x10), "10");
    assert_eq!(hex(0xab), "ab");
    assert_eq!(hex(0xff), "ff");
    for byte in 0..=255u8 {
        assert_eq!(hex(byte), format!("{byte:02x}"));
    }
}
