use evm_types::inferencer::{
    convert_bitmask, Instruction, WrappedInput, WrappedOpcode, OP_AND, OP_CALLDATALOAD,
    OP_CALLDATACOPY, OP_OR,
};

fn calldata_expr(opcode: u8) -> WrappedInput {
    WrappedInput::Opcode(Box::new(WrappedOpcode {
        opcode,
        inputs: vec![WrappedInput::Raw(vec![0x04])],
    }))
}

/// An address mask: twelve clear bytes, then twenty fully-set bytes.
fn address_mask_word() -> Vec<u8> {
    let mut w = vec![0x00; 12];
    w.extend(vec![0xff; 20]);
    w
}

#[test]
fn test_and_address_mask() {
    let instruction = Instruction {
        inputs: vec![vec![0xaa; 32], address_mask_word()],
        output_operations: vec![WrappedOpcode {
            opcode: OP_AND,
            inputs: vec![
                calldata_expr(OP_CALLDATALOAD),
                WrappedInput::Raw(address_mask_word()),
            ],
        }],
    };
    let candidates = convert_bitmask(&instruction);
    assert_eq!(
        candidates,
        vec![
            "address".to_string(),
            "uint160".to_string(),
            "int160".to_string(),
            "bytes20".to_string(),
        ]
    );
}

#[test]
fn test_no_calldata_operand_yields_default() {
    let instruction = Instruction {
        inputs: vec![vec![0xaa; 32], address_mask_word()],
        output_operations: vec![WrappedOpcode {
            opcode: OP_AND,
            inputs: vec![
                WrappedInput::Raw(vec![0xaa; 32]),
                WrappedInput::Raw(address_mask_word()),
            ],
        }],
    };
    assert_eq!(convert_bitmask(&instruction), Vec::<String>::new());
}

#[test]
fn test_or_mask_counts_clear_bytes() {
    let mut mask = vec![0xff; 28];
    mask.extend(vec![0x00; 4]);
    let instruction = Instruction {
        inputs: vec![mask.clone(), vec![0xbb; 32]],
        output_operations: vec![WrappedOpcode {
            opcode: OP_OR,
            inputs: vec![
                WrappedInput::Raw(mask),
                calldata_expr(OP_CALLDATACOPY),
            ],
        }],
    };
    assert_eq!(
        convert_bitmask(&instruction),
        vec![
            "uint32".to_string(),
            "int32".to_string(),
            "bytes4".to_string(),
        ]
    );
}

#[test]
fn test_single_byte_mask_suggests_bool_first() {
    let mut mask = vec![0x00; 31];
    mask.push(0xff);
    let instruction = Instruction {
        inputs: vec![vec![0xcc; 32], mask],
        output_operations: vec![WrappedOpcode {
            opcode: OP_AND,
            inputs: vec![
                calldata_expr(OP_CALLDATALOAD),
                WrappedInput::Raw(vec![0x00]),
            ],
        }],
    };
    assert_eq!(
        convert_bitmask(&instruction),
        vec![
            "bool".to_string(),
            "uint8".to_string(),
            "int8".to_string(),
            "bytes1".to_string(),
        ]
    );
}

#[test]
fn test_no_output_expression_yields_default() {
    let instruction = Instruction {
        inputs: vec![vec![0xaa; 32], address_mask_word()],
        output_operations: vec![],
    };
    assert_eq!(convert_bitmask(&instruction), Vec::<String>::new());
}

#[test]
fn test_full_word_mask_yields_default() {
    let instruction = Instruction {
        inputs: vec![vec![0xdd; 32], vec![0xff; 32]],
        output_operations: vec![WrappedOpcode {
            opcode: OP_AND,
            inputs: vec![
                calldata_expr(OP_CALLDATALOAD),
                WrappedInput::Raw(vec![0xff; 32]),
            ],
        }],
    };
    assert_eq!(convert_bitmask(&instruction), Vec::<String>::new());
}
