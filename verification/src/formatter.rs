//! The value renderer: decoded values to human-readable lines, one scalar a
//! line, composites bracketed and indented, byte strings hex-chunked.
//!
//! Lines are plain text; colour and styling belong to the presentation layer
//! around this core.  Nesting is bounded by an explicit depth ceiling, passed
//! as a bounds violation; an integer word of more than 32 bytes is passed as
//! a decode violation.
use vstd::prelude::*;

use crate::error::Error;
use crate::strutil::{be_nat, char_seqs, dec_digits, hex_of, push_char, push_hex};

verus! {

/// The ceiling on value nesting that the renderer will follow.
pub const MAX_DEPTH: u64 = 64;

/// One decoded value, mirroring the type descriptors with concrete data.
/// Integer words are big-endian byte strings of at most 32 bytes.
#[derive(Debug, PartialEq, Eq)]
pub enum DecodedValue {
    Address(Vec<u8>),
    Int(Vec<u8>),
    Uint(Vec<u8>),
    String(String),
    Bool(bool),
    Bytes(Vec<u8>),
    FixedBytes(Vec<u8>),
    Array(Vec<DecodedValue>),
    FixedArray(Vec<DecodedValue>),
    Tuple(Vec<DecodedValue>),
}

/// The hex chunk lines of a byte string: 64 characters a line, the first
/// line tagged and `0x`-prefixed, continuation lines indented to align.
pub open spec fn chunk_lines(hx: Seq<char>, prefix: Seq<char>, first: bool) -> Seq<Seq<char>>
    decreases hx.len(),
{
    if hx.len() == 0 {
        Seq::empty()
    } else {
        let take = if hx.len() < 64 {
            hx.len() as int
        } else {
            64
        };
        let head = if first {
            prefix + "bytes   0x"@ + hx.take(take)
        } else {
            prefix + "          "@ + hx.take(take)
        };
        seq![head] + chunk_lines(hx.skip(take), prefix, false)
    }
}

/// The lines of one decoded value at a given remaining depth.
pub open spec fn render_value(v: DecodedValue, prefix: Seq<char>, depth: nat) -> Result<
    Seq<Seq<char>>,
    Error,
>
    decreases depth, 1int, 0int,
{
    match v {
        DecodedValue::Address(b) => Ok(seq![prefix + "address 0x"@ + hex_of(b@)]),
        DecodedValue::Int(b) => if b@.len() <= 32 {
            Ok(seq![prefix + "int     "@ + dec_digits(be_nat(b@))])
        } else {
            Err(Error::DecodeError)
        },
        DecodedValue::Uint(b) => if b@.len() <= 32 {
            Ok(seq![prefix + "uint    "@ + dec_digits(be_nat(b@))])
        } else {
            Err(Error::DecodeError)
        },
        DecodedValue::String(s) => Ok(seq![prefix + "string  "@ + s@]),
        DecodedValue::Bool(x) => Ok(
            seq![if x {
                prefix + "bool    true"@
            } else {
                prefix + "bool    false"@
            }],
        ),
        DecodedValue::Bytes(b) => Ok(chunk_lines(hex_of(b@), prefix, true)),
        DecodedValue::FixedBytes(b) => Ok(chunk_lines(hex_of(b@), prefix, true)),
        DecodedValue::Array(vs) => render_group(vs@, prefix, depth, '[', ']'),
        DecodedValue::FixedArray(vs) => render_group(vs@, prefix, depth, '[', ']'),
        DecodedValue::Tuple(vs) => render_group(vs@, prefix, depth, '(', ')'),
    }
}

/// The lines of a composite: one `<prefix>XY` line when it is empty, else an
/// opening line, the members indented by three spaces, and a closing line.
pub open spec fn render_group(
    vs: Seq<DecodedValue>,
    prefix: Seq<char>,
    depth: nat,
    open: char,
    close: char,
) -> Result<Seq<Seq<char>>, Error>
    decreases depth, 0int, 0int,
{
    if vs.len() == 0 {
        Ok(seq![prefix + seq![open, close]])
    } else if depth == 0 {
        Err(Error::BoundsError)
    } else {
        match render_values(vs, prefix + "   "@, (depth - 1) as nat) {
            Ok(lines) => Ok(seq![prefix + seq![open]] + lines + seq![prefix + seq![close]]),
            Err(e) => Err(e),
        }
    }
}

/// The lines of a list of values, in order.
pub open spec fn render_values(vs: Seq<DecodedValue>, prefix: Seq<char>, depth: nat) -> Result<
    Seq<Seq<char>>,
    Error,
>
    decreases depth, 2int, vs.len(),
{
    if vs.len() == 0 {
        Ok(Seq::empty())
    } else {
        match render_value(vs[0], prefix, depth) {
            Ok(first) => match render_values(vs.drop_first(), prefix, depth) {
                Ok(rest) => Ok(first + rest),
                Err(e) => Err(e),
            },
            Err(e) => Err(e),
        }
    }
}

/// Renders a list of decoded values as human-readable lines, each starting
/// with the given prefix.
///
/// Pure and order-preserving; the only faults are a value nested past the
/// depth ceiling (a bounds violation) and an integer word of more than 32
/// bytes (a decode violation).
pub fn display(values: &Vec<DecodedValue>, prefix: &str) -> (r: Result<Vec<String>, Error>)
    ensures
        match r {
            Ok(lines) => render_values(values@, prefix@, MAX_DEPTH as nat) == Ok::<
                Seq<Seq<char>>,
                Error,
            >(char_seqs(lines@)),
            Err(e) => render_values(values@, prefix@, MAX_DEPTH as nat) == Err::<
                Seq<Seq<char>>,
                Error,
            >(e),
        },
{
    let p = prefix.to_owned();
    render_values_exec(values, &p, MAX_DEPTH)
}

/// Renders one value.
fn render_value_exec(v: &DecodedValue, prefix: &String, depth: u64) -> (r: Result<
    Vec<String>,
    Error,
>)
    ensures
        match r {
            Ok(lines) => render_value(*v, prefix@, depth as nat) == Ok::<Seq<Seq<char>>, Error>(
                char_seqs(lines@),
            ),
            Err(e) => render_value(*v, prefix@, depth as nat) == Err::<Seq<Seq<char>>, Error>(e),
        },
    decreases depth, 1int,
{
    match v {
        DecodedValue::Address(b) => {
            let mut line = prefix.clone();
            line.append("address 0x");
            push_hex(&mut line, b);
            let mut out: Vec<String> = Vec::new();
            out.push(line);
            proof {
                assert(char_seqs(out@) =~= seq![prefix@ + "address 0x"@ + hex_of(b@)]);
            }
            Ok(out)
        },
        DecodedValue::Int(b) => {
            if b.len() > 32 {
                return Err(Error::DecodeError);
            }
            let mut line = prefix.clone();
            line.append("int     ");
            let ds = u256_decimal(b);
            line.append(ds.as_str());
            let mut out: Vec<String> = Vec::new();
            out.push(line);
            proof {
                assert(char_seqs(out@) =~= seq![prefix@ + "int     "@ + dec_digits(be_nat(b@))]);
            }
            Ok(out)
        },
        DecodedValue::Uint(b) => {
            if b.len() > 32 {
                return Err(Error::DecodeError);
            }
            let mut line = prefix.clone();
            line.append("uint    ");
            let ds = u256_decimal(b);
            line.append(ds.as_str());
            let mut out: Vec<String> = Vec::new();
            out.push(line);
            proof {
                assert(char_seqs(out@) =~= seq![prefix@ + "uint    "@ + dec_digits(be_nat(b@))]);
            }
            Ok(out)
        },
        DecodedValue::String(s) => {
            let mut line = prefix.clone();
            line.append("string  ");
            line.append(s.as_str());
            let mut out: Vec<String> = Vec::new();
            out.push(line);
            proof {
                assert(char_seqs(out@) =~= seq![prefix@ + "string  "@ + s@]);
            }
            Ok(out)
        },
        DecodedValue::Bool(x) => {
            let mut line = prefix.clone();
            if *x {
                line.append("bool    true");
            } else {
                line.append("bool    false");
            }
            let mut out: Vec<String> = Vec::new();
            out.push(line);
            proof {
                assert(char_seqs(out@) =~= seq![
                    if *x {
                        prefix@ + "bool    true"@
                    } else {
                        prefix@ + "bool    false"@
                    },
                ]);
            }
            Ok(out)
        },
        DecodedValue::Bytes(b) => Ok(chunk_exec(b, prefix)),
        DecodedValue::FixedBytes(b) => Ok(chunk_exec(b, prefix)),
        DecodedValue::Array(vs) => render_group_exec(vs, prefix, depth, true),
        DecodedValue::FixedArray(vs) => render_group_exec(vs, prefix, depth, true),
        DecodedValue::Tuple(vs) => render_group_exec(vs, prefix, depth, false),
    }
}

/// The hex chunk lines of a byte string.
fn chunk_exec(b: &Vec<u8>, prefix: &String) -> (lines: Vec<String>)
    ensures
        char_seqs(lines@) == chunk_lines(hex_of(b@), prefix@, true),
{
    let mut hx = String::new();
    push_hex(&mut hx, b);
    let hs = hx.as_str();
    let n = hs.unicode_len();
    let mut out: Vec<String> = Vec::new();
    let mut pos: usize = 0;
    proof {
        assert(hs@.skip(0) =~= hs@);
        assert(char_seqs(out@) + chunk_lines(hs@, prefix@, true) =~= chunk_lines(
            hs@,
            prefix@,
            true,
        ));
    }
    while pos < n
        invariant
            n == hs@.len(),
            pos <= n,
            chunk_lines(hs@, prefix@, true) == char_seqs(out@) + chunk_lines(
                hs@.skip(pos as int),
                prefix@,
                pos == 0,
            ),
        decreases n - pos,
    {
        let ghost old_out = out@;
        let rest = n - pos;
        let take = if rest < 64 {
            rest
        } else {
            64
        };
        let chunk = hs.substring_char(pos, pos + take);
        let mut line = prefix.clone();
        if pos == 0 {
            line.append("bytes   0x");
        } else {
            line.append("          ");
        }
        line.append(chunk);
        out.push(line);
        proof {
            let rem = hs@.skip(pos as int);
            assert(chunk@ =~= rem.take(take as int));
            assert(rem.skip(take as int) =~= hs@.skip(pos + take));
            assert(char_seqs(out@) =~= char_seqs(old_out).push(line@));
            assert(char_seqs(out@) + chunk_lines(hs@.skip(pos + take), prefix@, false)
                =~= char_seqs(old_out) + (seq![line@] + chunk_lines(
                hs@.skip(pos + take),
                prefix@,
                false,
            )));
        }
        pos = pos + take;
    }
    proof {
        assert(hs@.skip(pos as int) =~= Seq::<char>::empty());
        assert(chunk_lines(Seq::<char>::empty(), prefix@, pos == 0) =~= Seq::<Seq<char>>::empty());
        assert(char_seqs(out@) + Seq::<Seq<char>>::empty() =~= char_seqs(out@));
    }
    out
}

/// Renders a composite value.
fn render_group_exec(vs: &Vec<DecodedValue>, prefix: &String, depth: u64, square: bool) -> (r:
    Result<Vec<String>, Error>)
    ensures
        ({
            let spec_r = render_group(
                vs@,
                prefix@,
                depth as nat,
                if square {
                    '['
                } else {
                    '('
                },
                if square {
                    ']'
                } else {
                    ')'
                },
            );
            match r {
                Ok(lines) => spec_r == Ok::<Seq<Seq<char>>, Error>(char_seqs(lines@)),
                Err(e) => spec_r == Err::<Seq<Seq<char>>, Error>(e),
            }
        }),
    decreases depth, 0int,
{
    let open: char = if square {
        '['
    } else {
        '('
    };
    let close: char = if square {
        ']'
    } else {
        ')'
    };
    if vs.len() == 0 {
        let mut line = prefix.clone();
        push_char(&mut line, open);
        push_char(&mut line, close);
        let mut out: Vec<String> = Vec::new();
        out.push(line);
        proof {
            assert(line@ =~= prefix@ + seq![open, close]);
            assert(char_seqs(out@) =~= seq![prefix@ + seq![open, close]]);
        }
        return Ok(out);
    }
    if depth == 0 {
        return Err(Error::BoundsError);
    }
    let mut inner_prefix = prefix.clone();
    inner_prefix.append("   ");
    match render_values_exec(vs, &inner_prefix, depth - 1) {
        Ok(lines) => {
            let mut out: Vec<String> = Vec::new();
            let mut open_line = prefix.clone();
            push_char(&mut open_line, open);
            out.push(open_line);
            let mut lines = lines;
            let ghost inner = char_seqs(lines@);
            out.append(&mut lines);
            let mut close_line = prefix.clone();
            push_char(&mut close_line, close);
            out.push(close_line);
            proof {
                assert(open_line@ =~= prefix@ + seq![open]);
                assert(close_line@ =~= prefix@ + seq![close]);
                assert(char_seqs(out@) =~= seq![prefix@ + seq![open]] + inner + seq![
                    prefix@ + seq![close],
                ]);
            }
            Ok(out)
        },
        Err(e) => Err(e),
    }
}

/// Renders a list of values, in order.
fn render_values_exec(values: &Vec<DecodedValue>, prefix: &String, depth: u64) -> (r: Result<
    Vec<String>,
    Error,
>)
    ensures
        match r {
            Ok(lines) => render_values(values@, prefix@, depth as nat) == Ok::<
                Seq<Seq<char>>,
                Error,
            >(char_seqs(lines@)),
            Err(e) => render_values(values@, prefix@, depth as nat) == Err::<
                Seq<Seq<char>>,
                Error,
            >(e),
        },
    decreases depth, 2int,
{
    let mut out: Vec<String> = Vec::new();
    let n = values.len();
    proof {
        assert(values@.skip(0) =~= values@);
        assert(char_seqs(out@) =~= Seq::<Seq<char>>::empty());
    }
    for i in 0..n
        invariant
            n == values@.len(),
            ({
                let full = render_values(values@, prefix@, depth as nat);
                match render_values(values@.skip(i as int), prefix@, depth as nat) {
                    Ok(rest) => full == Ok::<Seq<Seq<char>>, Error>(char_seqs(out@) + rest),
                    Err(e) => full == Err::<Seq<Seq<char>>, Error>(e),
                }
            }),
    {
        let ghost old_out = out@;
        proof {
            assert(values@.skip(i as int)[0] == values@[i as int]);
            assert(values@.skip(i as int).drop_first() =~= values@.skip(i + 1));
        }
        match render_value_exec(&values[i], prefix, depth) {
            Ok(lines) => {
                let mut lines = lines;
                let ghost head = char_seqs(lines@);
                out.append(&mut lines);
                proof {
                    assert(char_seqs(out@) =~= char_seqs(old_out) + head);
                    if render_values(values@.skip(i + 1), prefix@, depth as nat) is Ok {
                        let rest = render_values(
                            values@.skip(i + 1),
                            prefix@,
                            depth as nat,
                        )->Ok_0;
                        assert((char_seqs(old_out) + head) + rest =~= char_seqs(old_out) + (head
                            + rest));
                    }
                }
            },
            Err(e) => {
                return Err(e);
            },
        }
    }
    proof {
        assert(values@.skip(n as int) =~= Seq::<DecodedValue>::empty());
        assert(char_seqs(out@) + Seq::<Seq<char>>::empty() =~= char_seqs(out@));
    }
    Ok(out)
}

/// LAW: an empty array renders as the single line `<prefix>[]`, for every
/// prefix and at every depth.
pub proof fn lemma_empty_array_line(v: DecodedValue, prefix: Seq<char>, depth: nat)
    requires
        match v {
            DecodedValue::Array(vs) => vs@.len() == 0,
            DecodedValue::FixedArray(vs) => vs@.len() == 0,
            _ => false,
        },
    ensures
        render_value(v, prefix, depth) == Ok::<Seq<Seq<char>>, Error>(seq![prefix + "[]"@]),
{
    reveal_strlit("[]");
    assert(seq!['[', ']'] =~= "[]"@);
}

/// `chunk_lines` makes one line for each 64 characters, the last line
/// holding the remainder.
proof fn lemma_chunk_count(hx: Seq<char>, prefix: Seq<char>, first: bool)
    ensures
        chunk_lines(hx, prefix, first).len() == (hx.len() + 63) / 64,
    decreases hx.len(),
{
    if hx.len() > 0 {
        let take = if hx.len() < 64 {
            hx.len() as int
        } else {
            64
        };
        lemma_chunk_count(hx.skip(take), prefix, false);
    }
}

/// LAW: a byte string renders as one line per 64 hexadecimal characters —
/// one line up to 32 bytes, a continuation line for each further 32 bytes.
pub proof fn lemma_bytes_line_count(v: DecodedValue, prefix: Seq<char>, depth: nat)
    requires
        v is Bytes || v is FixedBytes,
    ensures
        ({
            let b = match v {
                DecodedValue::Bytes(b) => b,
                DecodedValue::FixedBytes(b) => b,
                _ => arbitrary(),
            };
            render_value(v, prefix, depth) == Ok::<Seq<Seq<char>>, Error>(
                chunk_lines(hex_of(b@), prefix, true),
            ) && chunk_lines(hex_of(b@), prefix, true).len() == (2 * b@.len() + 63) / 64
        }),
{
    let b = match v {
        DecodedValue::Bytes(b) => b,
        DecodedValue::FixedBytes(b) => b,
        _ => arbitrary(),
    };
    crate::strutil::lemma_hex_of_len(b@);
    lemma_chunk_count(hex_of(b@), prefix, true);
}

/// The decimal rendering of a big-endian integer word.
///
/// Relies on `ethereum_types::U256`: `from_big_endian` reads at most 32
/// bytes as one big-endian unsigned integer, and `Display` renders it as its
/// decimal digits without leading zeroes.
#[verifier::external_body]
fn u256_decimal(b: &Vec<u8>) -> (r: String)
    requires
        b@.len() <= 32,
    ensures
        r@ == dec_digits(be_nat(b@)),
{
    let n = ethereum_types::U256::from_big_endian(b.as_slice());
    n.to_string()
}

} // verus!
