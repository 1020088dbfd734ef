use evm_types::descriptor::TypeDescriptor;
use evm_types::parser::parse_function_parameters;

#[test]
fn test_simple_signature() {
    let solidity_type = "test(uint256)".to_string();
    let param_type = parse_function_parameters(&solidity_type);
    assert_eq!(param_type, Some(vec![TypeDescriptor::Uint(256)]));
}

#[test]
fn test_multiple_signature() {
    let solidity_type = "test(uint256,string)".to_string();
    let param_type = parse_function_parameters(&solidity_type);
    assert_eq!(
        param_type,
        Some(vec![TypeDescriptor::Uint(256), TypeDescriptor::String])
    );
}

#[test]
fn test_array_signature() {
    let solidity_type = "test(uint256,string[],uint256)".to_string();
    let param_type = parse_function_parameters(&solidity_type);
    assert_eq!(
        param_type,
        Some(vec![
            TypeDescriptor::Uint(256),
            TypeDescriptor::Array(Box::new(TypeDescriptor::String)),
            TypeDescriptor::Uint(256)
        ])
    );
}

#[test]
fn test_complex_signature() {
    let solidity_type =
        "test(uint256,string,(address,address,uint24,address,uint256,uint256,uint256,uint160))"
            .to_string();
    let param_type = parse_function_parameters(&solidity_type);
    assert_eq!(
        param_type,
        Some(vec![
            TypeDescriptor::Uint(256),
            TypeDescriptor::String,
            TypeDescriptor::Tuple(vec![
                TypeDescriptor::Address,
                TypeDescriptor::Address,
                TypeDescriptor::Uint(24),
                TypeDescriptor::Address,
                TypeDescriptor::Uint(256),
                TypeDescriptor::Uint(256),
                TypeDescriptor::Uint(256),
                TypeDescriptor::Uint(160)
            ])
        ])
    );
}

#[test]
fn test_tuple_signature() {
    let solidity_type =
        "exactInputSingle((address,address,uint24,address,uint256,uint256,uint256,uint160))"
            .to_string();
    let param_type = parse_function_parameters(&solidity_type);
    assert_eq!(
        param_type,
        Some(vec![TypeDescriptor::Tuple(vec![
            TypeDescriptor::Address,
            TypeDescriptor::Address,
            TypeDescriptor::Uint(24),
            TypeDescriptor::Address,
            TypeDescriptor::Uint(256),
            TypeDescriptor::Uint(256),
            TypeDescriptor::Uint(256),
            TypeDescriptor::Uint(160)
        ])])
    );
}

#[test]
fn test_nested_tuple_signature() {
    let solidity_type =
        "exactInputSingle((address,address,uint24,address,uint256,(uint256,uint256)[],uint160))"
            .to_string();
    let param_type = parse_function_parameters(&solidity_type);
    assert_eq!(
        param_type,
        Some(vec![TypeDescriptor::Tuple(vec![
            TypeDescriptor::Address,
            TypeDescriptor::Address,
            TypeDescriptor::Uint(24),
            TypeDescriptor::Address,
            TypeDescriptor::Uint(256),
            TypeDescriptor::Array(Box::new(TypeDescriptor::Tuple(vec![
                TypeDescriptor::Uint(256),
                TypeDescriptor::Uint(256)
            ]))),
            TypeDescriptor::Uint(160)
        ])])
    );
}

#[test]
fn test_default_widths() {
    assert_eq!(
        parse_function_parameters("f(uint)"),
        Some(vec![TypeDescriptor::Uint(256)])
    );
    assert_eq!(
        parse_function_parameters("f(int)"),
        Some(vec![TypeDescriptor::Int(256)])
    );
    assert_eq!(
        parse_function_parameters("f(bytes)"),
        Some(vec![TypeDescriptor::Bytes])
    );
    assert_eq!(
        parse_function_parameters("f(bytes32)"),
        Some(vec![TypeDescriptor::FixedBytes(32)])
    );
}

#[test]
fn test_dynamic_and_fixed_arrays() {
    assert_eq!(
        parse_function_parameters("f(string[])"),
        Some(vec![TypeDescriptor::Array(Box::new(
            TypeDescriptor::String
        ))])
    );
    assert_eq!(
        parse_function_parameters("f(uint256[3])"),
        Some(vec![TypeDescriptor::FixedArray(
            Box::new(TypeDescriptor::Uint(256)),
            3
        )])
    );
}

#[test]
fn test_tuple_array_parameter() {
    assert_eq!(
        parse_function_parameters("f((uint256,uint256)[])"),
        Some(vec![TypeDescriptor::Array(Box::new(
            TypeDescriptor::Tuple(vec![
                TypeDescriptor::Uint(256),
                TypeDescriptor::Uint(256)
            ])
        ))])
    );
}

#[test]
fn test_nested_fixed_arrays() {
    assert_eq!(
        parse_function_parameters("f(uint256[2][3])"),
        Some(vec![TypeDescriptor::FixedArray(
            Box::new(TypeDescriptor::FixedArray(
                Box::new(TypeDescriptor::Uint(256)),
                2
            )),
            3
        )])
    );
}

#[test]
fn test_nested_dynamic_arrays() {
    assert_eq!(
        parse_function_parameters("f(uint256[][])"),
        Some(vec![TypeDescriptor::Array(Box::new(TypeDescriptor::Array(
            Box::new(TypeDescriptor::Uint(256))
        )))])
    );
}

#[test]
fn test_empty_and_unknown_yield_none() {
    assert_eq!(parse_function_parameters("f()"), None);
    assert_eq!(parse_function_parameters("f(zzz)"), None);
}

#[test]
fn test_flat_primitives_in_order() {
    assert_eq!(
        parse_function_parameters("swap(address,bool,uint8,bytes4,int128,string)"),
        Some(vec![
            TypeDescriptor::Address,
            TypeDescriptor::Bool,
            TypeDescriptor::Uint(8),
            TypeDescriptor::FixedBytes(4),
            TypeDescriptor::Int(128),
            TypeDescriptor::String
        ])
    );
}

#[test]
fn test_unparseable_width_falls_back() {
    assert_eq!(
        parse_function_parameters("f(uint99999999999999999999999999999999)"),
        Some(vec![TypeDescriptor::Uint(256)])
    );
}

#[test]
fn test_bad_fixed_size_drops_parameter() {
    assert_eq!(parse_function_parameters("f(uint256[x])"), None);
}

#[test]
fn test_nesting_past_ceiling_yields_none() {
    let mut sig = String::from("f(");
    for _ in 0..70 {
        sig.push('(');
    }
    sig.push_str("uint256");
    for _ in 0..70 {
        sig.push(')');
    }
    sig.push(')');
    assert_eq!(parse_function_parameters(&sig), None);
}
