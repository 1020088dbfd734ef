use evm_types::error::Error;
use evm_types::formatter::{display, DecodedValue};

#[test]
fn test_scalar_lines() {
    let values = vec![
        DecodedValue::Address(vec![0xde, 0xad, 0xbe, 0xef]),
        DecodedValue::Uint(vec![0x01, 0x00]),
        DecodedValue::Int(vec![0x2a]),
        DecodedValue::String("hello".to_string()),
        DecodedValue::Bool(true),
        DecodedValue::Bool(false),
    ];
    let lines = display(&values, "> ").unwrap();
    assert_eq!(
        lines,
        vec![
            "> address 0xdeadbeef".to_string(),
            "> uint    256".to_string(),
            "> int     42".to_string(),
            "> string  hello".to_string(),
            "> bool    true".to_string(),
            "> bool    false".to_string(),
        ]
    );
}

#[test]
fn test_empty_array_single_line() {
    let values = vec![DecodedValue::Array(vec![])];
    assert_eq!(display(&values, "  ").unwrap(), vec!["  []".to_string()]);
}

#[test]
fn test_empty_tuple_single_line() {
    let values = vec![DecodedValue::Tuple(vec![])];
    assert_eq!(display(&values, "").unwrap(), vec!["()".to_string()]);
}

#[test]
fn test_bytes_one_chunk() {
    let word = vec![0xab; 32];
    let values = vec![DecodedValue::FixedBytes(word)];
    let lines = display(&values, "").unwrap();
    assert_eq!(lines.len(), 1);
    assert_eq!(lines[0], format!("bytes   0x{}", "ab".repeat(32)));
}

#[test]
fn test_bytes_three_chunks() {
    let blob = vec![0x11; 65];
    let values = vec![DecodedValue::Bytes(blob)];
    let lines = display(&values, "").unwrap();
    assert_eq!(lines.len(), 3);
    assert_eq!(lines[0], format!("bytes   0x{}", "11".repeat(32)));
    assert_eq!(lines[1], format!("          {}", "11".repeat(32)));
    assert_eq!(lines[2], "          11".to_string());
}

#[test]
fn test_nested_array_brackets() {
    let values = vec![DecodedValue::Array(vec![
        DecodedValue::Uint(vec![0x01]),
        DecodedValue::Uint(vec![0x02]),
    ])];
    let lines = display(&values, "").unwrap();
    assert_eq!(
        lines,
        vec![
            "[".to_string(),
            "   uint    1".to_string(),
            "   uint    2".to_string(),
            "]".to_string(),
        ]
    );
}

#[test]
fn test_tuple_parentheses() {
    let values = vec![DecodedValue::Tuple(vec![DecodedValue::Bool(true)])];
    let lines = display(&values, "..").unwrap();
    assert_eq!(
        lines,
        vec![
            "..(".to_string(),
            "..   bool    true".to_string(),
            "..)".to_string(),
        ]
    );
}

#[test]
fn test_zero_word_renders_zero() {
    let values = vec![DecodedValue::Uint(vec![])];
    assert_eq!(display(&values, "").unwrap(), vec!["uint    0".to_string()]);
}

#[test]
fn test_oversized_word_is_decode_violation() {
    let values = vec![DecodedValue::Uint(vec![0x01; 33])];
    assert_eq!(display(&values, ""), Err(Error::DecodeError));
}

#[test]
fn test_error_messages() {
    assert_eq!(Error::BoundsError.message(), "BoundsError");
    assert_eq!(Error::DecodeError.message(), "DecodeError");
    assert_eq!(
        Error::SerdeError("eof".to_string()).message(),
        "Json error: eof"
    );
    assert_eq!(
        Error::FromStrRadixError("bad digit".to_string()).message(),
        "FromStrRadixError: bad digit"
    );
    assert_eq!(
        Error::GenericError("boom".to_string()).message(),
        "Error: boom"
    );
}

#[test]
fn test_nesting_past_ceiling_is_bounds_violation() {
    let mut v = DecodedValue::Array(vec![DecodedValue::Bool(true)]);
    for _ in 0..70 {
        v = DecodedValue::Array(vec![v]);
    }
    assert_eq!(display(&vec![v], ""), Err(Error::BoundsError));
}
