//! The bitmask type inferencer: when an instruction's output was produced by
//! a bitwise AND or OR over a value loaded from call input, the shape of the
//! mask constant gives the byte width of the meaningful data, and that width
//! maps to ranked candidate type names.
use vstd::prelude::*;

use crate::strutil::{char_seqs, dec_digits, dec_string};

verus! {

/// The bitwise AND opcode.
pub const OP_AND: u8 = 0x16;

/// The bitwise OR opcode.
pub const OP_OR: u8 = 0x17;

/// The opcode that loads one word of call input.
pub const OP_CALLDATALOAD: u8 = 0x35;

/// The opcode that copies call input into memory.
pub const OP_CALLDATACOPY: u8 = 0x37;

/// The native word width of the machine, in bytes; as an inferred width it
/// means that no narrowing was seen.
pub const WORD_BYTES: u64 = 32;

/// One operand of a reconstructed expression: a raw word, or a nested
/// expression.
pub enum WrappedInput {
    Raw(Vec<u8>),
    Opcode(Box<WrappedOpcode>),
}

/// One reconstructed expression: an opcode identity over ordered operands.
pub struct WrappedOpcode {
    pub opcode: u8,
    pub inputs: Vec<WrappedInput>,
}

/// One decoded instruction: its resolved raw input words, and the
/// expressions that produced its outputs.  Owned by the execution engine
/// around this core; the inferencer only reads it.
pub struct Instruction {
    pub inputs: Vec<Vec<u8>>,
    pub output_operations: Vec<WrappedOpcode>,
}

/// How many bytes of `s` equal `b`.
pub open spec fn count_bytes(s: Seq<u8>, b: u8) -> nat
    decreases s.len(),
{
    if s.len() == 0 {
        0
    } else {
        count_bytes(s.drop_last(), b) + if s.last() == b {
            1nat
        } else {
            0nat
        }
    }
}

/// Whether an operand is a nested expression rooted in a calldata load.
pub open spec fn is_calldata_expr(inp: WrappedInput) -> bool {
    match inp {
        WrappedInput::Raw(_) => false,
        WrappedInput::Opcode(op) => op.opcode == OP_CALLDATALOAD || op.opcode == OP_CALLDATACOPY,
    }
}

/// The width that one qualifying operand yields: for an AND mask the count
/// of fully-set bytes in the sibling constant, for an OR mask the count of
/// fully-clear bytes; otherwise no change from `prev`.
pub open spec fn step_width(mask: WrappedOpcode, words: Seq<Vec<u8>>, j: int, prev: nat) -> nat {
    if is_calldata_expr(mask.inputs@[j]) && mask.inputs@.len() == 2 && words.len() == 2 {
        let sib = words[1 - j]@;
        if mask.opcode == OP_AND {
            count_bytes(sib, 0xff)
        } else if mask.opcode == OP_OR {
            count_bytes(sib, 0x00)
        } else {
            prev
        }
    } else {
        prev
    }
}

/// The width after scanning the first `i` operands of the mask expression,
/// starting from the native word width.
pub open spec fn width_upto(mask: WrappedOpcode, words: Seq<Vec<u8>>, i: int) -> nat
    decreases i,
{
    if i <= 0 {
        WORD_BYTES as nat
    } else {
        step_width(mask, words, i - 1, width_upto(mask, words, i - 1))
    }
}

/// The effective byte width that an instruction's mask shape implies.
pub open spec fn spec_width(instr: Instruction) -> nat {
    let mask = instr.output_operations@[0];
    width_upto(mask, instr.inputs@, mask.inputs@.len() as int)
}

/// The ranked candidate type names of a byte width: `address` first at the
/// address width, `bool` first at a single byte, the `uintN`/`intN`/`bytesN`
/// triple for any narrowed width, and nothing at the native width or below
/// one byte.
pub open spec fn spec_candidates(w: nat) -> Seq<Seq<char>> {
    if w == 20 {
        seq!["address"@, "uint160"@, "int160"@, "bytes20"@]
    } else if w == 1 {
        seq!["bool"@, "uint8"@, "int8"@, "bytes1"@]
    } else if 1 <= w < 32 {
        seq!["uint"@ + dec_digits(8 * w), "int"@ + dec_digits(8 * w), "bytes"@ + dec_digits(w)]
    } else {
        Seq::empty()
    }
}

/// What the inferencer yields for an instruction: nothing when there is no
/// output expression to read a mask from, else the candidates of the width
/// the mask shape implies.
pub open spec fn spec_infer(instr: Instruction) -> Seq<Seq<char>> {
    if instr.output_operations@.len() == 0 {
        Seq::empty()
    } else {
        spec_candidates(spec_width(instr))
    }
}

/// How many bytes of `s` equal `b`.
fn count_bytes_exec(s: &Vec<u8>, b: u8) -> (r: usize)
    ensures
        r as nat == count_bytes(s@, b),
{
    let mut r: usize = 0;
    let n = s.len();
    for i in 0..n
        invariant
            n == s@.len(),
            r <= i,
            r as nat == count_bytes(s@.take(i as int), b),
    {
        proof {
            assert(s@.take(i + 1).drop_last() =~= s@.take(i as int));
            assert(s@.take(i + 1).last() == s@[i as int]);
        }
        if s[i] == b {
            r = r + 1;
        }
    }
    proof {
        assert(s@.take(n as int) =~= s@);
    }
    r
}

/// Ranked candidate type names from the bitmask shape of an instruction.
///
/// The first output expression is the mask; an operand of it that is an
/// expression rooted in a calldata load qualifies, and the raw sibling word
/// of the last qualifying operand sets the width: fully-set bytes for an AND
/// mask, fully-clear bytes for an OR mask.  Never fails: without an output
/// expression or a qualifying operand the width stays at the native word
/// size and the result is empty.
pub fn convert_bitmask(instruction: &Instruction) -> (r: Vec<String>)
    ensures
        char_seqs(r@) == spec_infer(*instruction),
{
    if instruction.output_operations.len() == 0 {
        let r: Vec<String> = Vec::new();
        proof {
            assert(char_seqs(r@) =~= Seq::<Seq<char>>::empty());
        }
        return r;
    }
    let mask = &instruction.output_operations[0];
    let mut width: usize = 32;
    let n = mask.inputs.len();
    let m = instruction.inputs.len();
    for i in 0..n
        invariant
            n == mask.inputs@.len(),
            m == instruction.inputs@.len(),
            mask == instruction.output_operations@[0],
            width as nat == width_upto(*mask, instruction.inputs@, i as int),
    {
        match &mask.inputs[i] {
            WrappedInput::Raw(_) => {},
            WrappedInput::Opcode(op) => {
                if (op.opcode == OP_CALLDATALOAD || op.opcode == OP_CALLDATACOPY) && n == 2 && m
                    == 2 {
                    let sib = &instruction.inputs[1 - i];
                    if mask.opcode == OP_AND {
                        width = count_bytes_exec(sib, 0xff);
                    } else if mask.opcode == OP_OR {
                        width = count_bytes_exec(sib, 0x00);
                    }
                }
            },
        }
    }
    candidates(width)
}

/// The ranked candidate type names of a byte width.
fn candidates(w: usize) -> (r: Vec<String>)
    ensures
        char_seqs(r@) == spec_candidates(w as nat),
{
    let mut r: Vec<String> = Vec::new();
    if w == 20 {
        r.push("address".to_owned());
        r.push("uint160".to_owned());
        r.push("int160".to_owned());
        r.push("bytes20".to_owned());
        proof {
            assert(char_seqs(r@) =~= spec_candidates(w as nat));
        }
    } else if w == 1 {
        r.push("bool".to_owned());
        r.push("uint8".to_owned());
        r.push("int8".to_owned());
        r.push("bytes1".to_owned());
        proof {
            assert(char_seqs(r@) =~= spec_candidates(w as nat));
        }
    } else if 1 <= w && w < 32 {
        let bits = dec_string(8 * w);
        let bytes_w = dec_string(w);
        let mut uint_name = "uint".to_owned();
        uint_name.append(bits.as_str());
        let mut int_name = "int".to_owned();
        int_name.append(bits.as_str());
        let mut bytes_name = "bytes".to_owned();
        bytes_name.append(bytes_w.as_str());
        r.push(uint_name);
        r.push(int_name);
        r.push(bytes_name);
        proof {
            assert(char_seqs(r@) =~= spec_candidates(w as nat));
        }
    } else {
        proof {
            assert(char_seqs(r@) =~= spec_candidates(w as nat));
        }
    }
    r
}

/// LAW: an instruction whose mask expression has no operand rooted in a
/// calldata load keeps the native word width, and the inferencer yields the
/// empty default.
pub proof fn lemma_no_calldata_yields_default(instr: Instruction)
    requires
        instr.output_operations@.len() >= 1,
        forall|i: int|
            0 <= i < instr.output_operations@[0].inputs@.len() ==> !is_calldata_expr(
                #[trigger] instr.output_operations@[0].inputs@[i],
            ),
    ensures
        spec_width(instr) == WORD_BYTES as nat,
        spec_infer(instr) == Seq::<Seq<char>>::empty(),
{
    let mask = instr.output_operations@[0];
    lemma_width_upto_no_calldata(mask, instr.inputs@, mask.inputs@.len() as int);
}

/// The scan keeps the native width while no operand qualifies.
proof fn lemma_width_upto_no_calldata(mask: WrappedOpcode, words: Seq<Vec<u8>>, i: int)
    requires
        i <= mask.inputs@.len(),
        forall|j: int|
            0 <= j < mask.inputs@.len() ==> !is_calldata_expr(#[trigger] mask.inputs@[j]),
    ensures
        width_upto(mask, words, i) == WORD_BYTES as nat,
    decreases i,
{
    if i > 0 {
        lemma_width_upto_no_calldata(mask, words, i - 1);
    }
}

/// LAW: a two-operand AND mask whose one operand is rooted in a calldata
/// load and whose raw sibling word holds exactly twenty fully-set bytes
/// yields width twenty, with `address` the top candidate.
pub proof fn lemma_address_mask(instr: Instruction, i: int)
    requires
        instr.output_operations@.len() >= 1,
        instr.output_operations@[0].opcode == OP_AND,
        instr.output_operations@[0].inputs@.len() == 2,
        instr.inputs@.len() == 2,
        0 <= i < 2,
        is_calldata_expr(instr.output_operations@[0].inputs@[i]),
        !is_calldata_expr(instr.output_operations@[0].inputs@[1 - i]),
        count_bytes(instr.inputs@[1 - i]@, 0xff) == 20,
    ensures
        spec_width(instr) == 20,
        spec_infer(instr).len() == 4,
        spec_infer(instr)[0] == "address"@,
{
    let mask = instr.output_operations@[0];
    assert(width_upto(mask, instr.inputs@, 2) == step_width(
        mask,
        instr.inputs@,
        1,
        width_upto(mask, instr.inputs@, 1),
    ));
}

} // verus!
