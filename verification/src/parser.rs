//! The signature grammar parser: a best-effort reading of a function
//! signature string into an ordered list of type descriptors.
//!
//! The grammar is `name(type,type,...)` or a bare `(type,...)`; unrecognized
//! tokens are dropped rather than reported, and an empty result is `None`.
//! Recursion over nested composite types is bounded by an explicit depth
//! ceiling, so adversarial nesting ends in `None` instead of unbounded
//! descent.
use vstd::prelude::*;

use crate::descriptor::TypeDescriptor;
use crate::descriptor::TypeModel;
use crate::descriptor::models_of;
use crate::descriptor::lemma_models_of;
use crate::descriptor::lemma_models_of_push;
use crate::strutil::{
    all_digits, char_seqs, contains_char, dec_val, ends_with_str, find_char, has_char, has_prefix,
    has_suffix, lemma_spec_find, lemma_spec_find_at, lemma_spec_rfind, parse_dec, rfind_char,
    spec_find, spec_rfind,
    starts_with_str, str_chars, str_eq,
};

verus! {

/// The ceiling on nesting depth that the parser will follow.
pub const MAX_DEPTH: u64 = 64;

/// The parameter-list body of a signature: the text after the first `(` if
/// one exists (else the whole string), with one trailing `)` removed.
pub open spec fn param_body(s: Seq<char>) -> Seq<char> {
    let t = match spec_find(s, '(') {
        Some(i) => s.subrange(i + 1, s.len() as int),
        None => s,
    };
    if t.len() > 0 && t.last() == ')' {
        t.drop_last()
    } else {
        t
    }
}

/// The pieces of `s` between commas, in order; a string without commas is
/// one piece, so the empty string is one empty piece.
pub open spec fn split_at_commas(s: Seq<char>) -> Seq<Seq<char>>
    decreases s.len(),
    via split_at_commas_decreases
{
    match spec_find(s, ',') {
        None => seq![s],
        Some(i) => seq![s.subrange(0, i)] + split_at_commas(s.subrange(i + 1, s.len() as int)),
    }
}

#[via_fn]
proof fn split_at_commas_decreases(s: Seq<char>) {
    lemma_spec_find(s, ',');
}

/// The pieces rejoined with commas.
pub open spec fn join_commas(parts: Seq<Seq<char>>) -> Seq<char>
    decreases parts.len(),
{
    if parts.len() == 0 {
        Seq::empty()
    } else if parts.len() == 1 {
        parts[0]
    } else {
        parts[0] + seq![','] + join_commas(parts.drop_first())
    }
}

/// Restores top-level parameter boundaries after the naive comma split: a
/// token containing `(` raises the tuple depth before it is buffered, one
/// containing `)` lowers it after, and when the depth returns to zero the
/// buffered fragments are rejoined with commas as one token.  Tokens seen at
/// depth zero pass through; a buffer still pending at the end is discarded.
pub open spec fn merge_tokens(toks: Seq<Seq<char>>, depth: int, buf: Seq<Seq<char>>) -> Seq<
    Seq<char>,
>
    decreases toks.len(),
{
    if toks.len() == 0 {
        Seq::empty()
    } else {
        let t = toks[0];
        let d1 = if has_char(t, '(') {
            depth + 1
        } else {
            depth
        };
        if d1 > 0 {
            let buf1 = buf.push(t);
            if has_char(t, ')') {
                if d1 - 1 == 0 {
                    seq![join_commas(buf1)] + merge_tokens(toks.drop_first(), 0, Seq::empty())
                } else {
                    merge_tokens(toks.drop_first(), d1 - 1, buf1)
                }
            } else {
                merge_tokens(toks.drop_first(), d1, buf1)
            }
        } else {
            let d2 = if has_char(t, ')') {
                d1 - 1
            } else {
                d1
            };
            seq![t] + merge_tokens(toks.drop_first(), d2, buf)
        }
    }
}

/// The top-level tokens of a signature: body, comma split, re-merge.
pub open spec fn spec_tokens(s: Seq<char>) -> Seq<Seq<char>> {
    merge_tokens(split_at_commas(param_body(s)), 0, Seq::empty())
}

/// A numeric suffix read as a width: its decimal value when it is non-empty,
/// all digits and fits a `usize`, else the default.
pub open spec fn width_or(s: Seq<char>, d: nat) -> nat {
    if s.len() > 0 && all_digits(s) && dec_val(s) <= usize::MAX {
        dec_val(s)
    } else {
        d
    }
}

/// The element type of an array: the single descriptor when there is exactly
/// one, else the descriptors collapsed into one tuple.
pub open spec fn element_of(ds: Seq<TypeModel>) -> TypeModel {
    if ds.len() == 1 {
        ds[0]
    } else {
        TypeModel::Tuple(ds)
    }
}

/// What one top-level token denotes, first match wins; `None` is a token
/// that the grammar drops.
pub open spec fn classify_token(t: Seq<char>, depth: nat) -> Option<TypeModel>
    decreases depth, 0int, 0int,
{
    if depth == 0 {
        None
    } else if t == "address"@ {
        Some(TypeModel::Address)
    } else if t == "bytes"@ {
        Some(TypeModel::Bytes)
    } else if t == "bool"@ {
        Some(TypeModel::Bool)
    } else if t == "string"@ {
        Some(TypeModel::String)
    } else if t.len() > 0 && t[0] == '(' && t.last() != ']' {
        match spec_parse(t, (depth - 1) as nat) {
            Some(ds) => Some(TypeModel::Tuple(ds)),
            None => None,
        }
    } else if has_suffix(t, "[]"@) {
        match spec_parse(t.take(t.len() - 2), (depth - 1) as nat) {
            Some(ds) => Some(TypeModel::Array(Box::new(element_of(ds)))),
            None => None,
        }
    } else if t.len() > 0 && t.last() == ']' {
        match spec_rfind(t, '[') {
            Some(oi) => {
                let digits = t.subrange(oi + 1, t.len() - 1);
                if digits.len() > 0 && all_digits(digits) && dec_val(digits) <= usize::MAX {
                    match spec_parse(t.take(oi), (depth - 1) as nat) {
                        Some(ds) => Some(
                            TypeModel::FixedArray(Box::new(element_of(ds)), dec_val(digits)),
                        ),
                        None => None,
                    }
                } else {
                    None
                }
            },
            None => None,
        }
    } else if has_prefix(t, "int"@) {
        Some(TypeModel::Int(width_or(t.skip(3), 256)))
    } else if has_prefix(t, "uint"@) {
        Some(TypeModel::Uint(width_or(t.skip(4), 256)))
    } else if has_prefix(t, "bytes"@) {
        Some(TypeModel::FixedBytes(width_or(t.skip(5), 32)))
    } else {
        None
    }
}

/// The descriptors of the recognized tokens, in order, dropped tokens left
/// out.
pub open spec fn classify_all(toks: Seq<Seq<char>>, depth: nat) -> Seq<TypeModel>
    decreases depth, 1int, toks.len(),
{
    if toks.len() == 0 {
        Seq::empty()
    } else {
        let rest = classify_all(toks.drop_first(), depth);
        match classify_token(toks[0], depth) {
            Some(d) => seq![d] + rest,
            None => rest,
        }
    }
}

/// What parsing a signature yields at a given remaining depth: the models of
/// its recognized top-level tokens, or `None` when there are none or the
/// depth is spent.
pub open spec fn spec_parse(s: Seq<char>, depth: nat) -> Option<Seq<TypeModel>>
    decreases depth, 2int, 0int,
{
    if depth == 0 {
        None
    } else {
        let ds = classify_all(spec_tokens(s), depth);
        if ds.len() == 0 {
            None
        } else {
            Some(ds)
        }
    }
}

/// Reads a signature string into an ordered list of type descriptors.
///
/// Best effort: unrecognized tokens are dropped, and `None` comes exactly
/// when nothing was recognized — the parameter list was empty, every token
/// was unknown, or nesting ran past the depth ceiling.
pub fn parse_function_parameters(signature: &str) -> (r: Option<Vec<TypeDescriptor>>)
    ensures
        match r {
            Some(ds) => spec_parse(signature@, MAX_DEPTH as nat) == Some(models_of(ds@)),
            None => spec_parse(signature@, MAX_DEPTH as nat) is None,
        },
{
    parse_depth(signature, MAX_DEPTH)
}

/// The parameter-list body of `s`.
fn extract_body<'a>(s: &'a str) -> (r: &'a str)
    ensures
        r@ == param_body(s@),
{
    let n = str_chars(s);
    let t: &str = match find_char(s, '(') {
        Some(i) => {
            proof {
                lemma_spec_find(s@, '(');
            }
            s.substring_char(i + 1, n)
        },
        None => s,
    };
    let tn = str_chars(t);
    if tn > 0 && t.get_char(tn - 1) == ')' {
        let r = t.substring_char(0, tn - 1);
        proof {
            assert(r@ =~= param_body(s@));
        }
        r
    } else {
        proof {
            assert(t@ =~= param_body(s@));
        }
        t
    }
}

/// Splits `s` at every comma.
fn split_commas(s: &str) -> (r: Vec<String>)
    ensures
        char_seqs(r@) == split_at_commas(s@),
    decreases s@.len(),
{
    let n = str_chars(s);
    match find_char(s, ',') {
        None => {
            let mut r: Vec<String> = Vec::new();
            r.push(s.to_owned());
            proof {
                assert(char_seqs(r@) =~~= split_at_commas(s@));
            }
            r
        },
        Some(i) => {
            proof {
                lemma_spec_find(s@, ',');
            }
            let head = s.substring_char(0, i);
            let tail = s.substring_char(i + 1, n);
            let mut r = split_commas(tail);
            r.insert(0, head.to_owned());
            proof {
                assert(char_seqs(r@) =~~= split_at_commas(s@));
            }
            r
        },
    }
}

/// `join_commas` of one more piece at the end.
proof fn lemma_join_push(ps: Seq<Seq<char>>, p: Seq<char>)
    ensures
        join_commas(ps.push(p)) == if ps.len() == 0 {
            p
        } else {
            join_commas(ps) + seq![','] + p
        },
    decreases ps.len(),
{
    if ps.len() == 0 {
        assert(ps.push(p)[0] == p);
        assert(join_commas(ps.push(p)) == p);
    } else {
        assert(ps.push(p).drop_first() =~= ps.drop_first().push(p));
        lemma_join_push(ps.drop_first(), p);
        if ps.len() == 1 {
            assert(join_commas(ps) == ps[0]);
            assert(join_commas(ps.push(p)) =~= ps[0] + seq![','] + p);
        } else {
            assert(join_commas(ps.push(p)) =~= join_commas(ps) + seq![','] + p);
        }
    }
}

/// Rejoins buffered fragments with commas.
fn join_with_commas(parts: &Vec<String>) -> (r: String)
    ensures
        r@ == join_commas(char_seqs(parts@)),
{
    let mut r = String::new();
    let n = parts.len();
    for j in 0..n
        invariant
            n == parts@.len(),
            r@ == join_commas(char_seqs(parts@).take(j as int)),
    {
        if j > 0 {
            r.append(",");
        }
        r.append(parts[j].as_str());
        proof {
            reveal_strlit(",");
            assert(","@ =~= seq![',']);
            let tv = char_seqs(parts@);
            lemma_join_push(tv.take(j as int), tv[j as int]);
            assert(tv.take(j + 1) =~= tv.take(j as int).push(tv[j as int]));
            assert(r@ =~= join_commas(tv.take(j + 1)));
        }
    }
    proof {
        assert(char_seqs(parts@).take(n as int) =~= char_seqs(parts@));
    }
    r
}

/// Re-merges the naive comma split into top-level tokens.
fn merge_complex(raw: &Vec<String>) -> (r: Vec<String>)
    ensures
        char_seqs(r@) == merge_tokens(char_seqs(raw@), 0, Seq::empty()),
{
    let mut out: Vec<String> = Vec::new();
    let mut buf: Vec<String> = Vec::new();
    let mut depth: i128 = 0;
    let n = raw.len();
    let ghost tv = char_seqs(raw@);
    proof {
        assert(char_seqs(out@) =~= Seq::<Seq<char>>::empty());
        assert(char_seqs(buf@) =~= Seq::<Seq<char>>::empty());
        assert(tv.skip(0) =~= tv);
        assert(char_seqs(out@) + merge_tokens(tv, 0, Seq::empty()) =~= merge_tokens(
            tv,
            0,
            Seq::empty(),
        ));
    }
    for idx in 0..n
        invariant
            n == raw@.len(),
            tv == char_seqs(raw@),
            -(idx as int) <= depth <= idx as int,
            merge_tokens(tv, 0, Seq::empty()) == char_seqs(out@) + merge_tokens(
                tv.skip(idx as int),
                depth as int,
                char_seqs(buf@),
            ),
    {
        let ghost old_out = out@;
        let ghost old_buf = buf@;
        let ghost old_depth = depth as int;
        let t = &raw[idx];
        let has_open = contains_char(t.as_str(), '(');
        let has_close = contains_char(t.as_str(), ')');
        let d1: i128 = if has_open {
            depth + 1
        } else {
            depth
        };
        proof {
            assert(tv.skip(idx as int)[0] == tv[idx as int]);
            assert(tv.skip(idx as int).drop_first() =~= tv.skip(idx + 1));
        }
        if d1 > 0 {
            buf.push(t.clone());
            proof {
                assert(char_seqs(buf@) =~= char_seqs(old_buf).push(tv[idx as int]));
            }
            if has_close {
                if d1 - 1 == 0 {
                    let joined = join_with_commas(&buf);
                    out.push(joined);
                    buf = Vec::new();
                    depth = 0;
                    proof {
                        assert(char_seqs(buf@) =~= Seq::<Seq<char>>::empty());
                        assert(char_seqs(out@) =~= char_seqs(old_out).push(
                            join_commas(char_seqs(old_buf).push(tv[idx as int])),
                        ));
                        assert(char_seqs(out@) + merge_tokens(
                            tv.skip(idx + 1),
                            0,
                            Seq::empty(),
                        ) =~= char_seqs(old_out) + merge_tokens(
                            tv.skip(idx as int),
                            old_depth,
                            char_seqs(old_buf),
                        ));
                    }
                } else {
                    depth = d1 - 1;
                }
            } else {
                depth = d1;
            }
        } else {
            out.push(t.clone());
            proof {
                assert(char_seqs(out@) =~= char_seqs(old_out).push(tv[idx as int]));
            }
            if has_close {
                depth = d1 - 1;
            } else {
                depth = d1;
            }
            proof {
                assert(char_seqs(out@) + merge_tokens(
                    tv.skip(idx + 1),
                    depth as int,
                    char_seqs(buf@),
                ) =~= char_seqs(old_out) + (seq![tv[idx as int]] + merge_tokens(
                    tv.skip(idx + 1),
                    depth as int,
                    char_seqs(buf@),
                )));
            }
        }
    }
    proof {
        assert(tv.skip(n as int) =~= Seq::<Seq<char>>::empty());
        assert(char_seqs(out@) + merge_tokens(tv.skip(n as int), depth as int, char_seqs(buf@))
            =~= char_seqs(out@));
    }
    out
}

/// The array element descriptor: the single element, or the list collapsed
/// into one tuple.
fn element_from(v: Vec<TypeDescriptor>) -> (r: TypeDescriptor)
    ensures
        r.model() == element_of(models_of(v@)),
{
    proof {
        lemma_models_of(v@);
    }
    let mut v = v;
    if v.len() == 1 {
        let d = v.remove(0);
        d
    } else {
        TypeDescriptor::Tuple(v)
    }
}

/// A numeric suffix of `t` starting at `p`, or the default.
fn width_from(t: &str, p: usize, d: usize) -> (r: usize)
    requires
        p <= t@.len(),
    ensures
        r as nat == width_or(t@.skip(p as int), d as nat),
{
    let n = str_chars(t);
    let rest = t.substring_char(p, n);
    proof {
        assert(rest@ =~= t@.skip(p as int));
    }
    match parse_dec(rest) {
        Some(v) => v,
        None => d,
    }
}

/// Classifies one top-level token, or drops it.
fn classify(t: &str, depth: u64) -> (r: Option<TypeDescriptor>)
    requires
        depth >= 1,
    ensures
        match r {
            Some(d) => classify_token(t@, depth as nat) == Some(d.model()),
            None => classify_token(t@, depth as nat) is None,
        },
    decreases depth, 0int,
{
    if str_eq(t, "address") {
        return Some(TypeDescriptor::Address);
    }
    if str_eq(t, "bytes") {
        return Some(TypeDescriptor::Bytes);
    }
    if str_eq(t, "bool") {
        return Some(TypeDescriptor::Bool);
    }
    if str_eq(t, "string") {
        return Some(TypeDescriptor::String);
    }
    let n = str_chars(t);
    let starts_open = n > 0 && t.get_char(0) == '(';
    let ends_bracket = n > 0 && t.get_char(n - 1) == ']';
    if starts_open && !ends_bracket {
        return match parse_depth(t, depth - 1) {
            Some(ds) => Some(TypeDescriptor::Tuple(ds)),
            None => None,
        };
    }
    if ends_with_str(t, "[]") {
        proof {
            reveal_strlit("[]");
        }
        let rem = t.substring_char(0, n - 2);
        proof {
            assert(rem@ =~= t@.take(t@.len() - 2));
        }
        return match parse_depth(rem, depth - 1) {
            Some(ds) => Some(TypeDescriptor::Array(Box::new(element_from(ds)))),
            None => None,
        };
    }
    if ends_bracket {
        return match rfind_char(t, '[') {
            Some(oi) => {
                proof {
                    lemma_spec_rfind(t@, '[');
                }
                let digits = t.substring_char(oi + 1, n - 1);
                proof {
                    assert(digits@ =~= t@.subrange(oi + 1, t@.len() - 1));
                }
                match parse_dec(digits) {
                    Some(size) => {
                        let rem = t.substring_char(0, oi);
                        proof {
                            assert(rem@ =~= t@.take(oi as int));
                        }
                        match parse_depth(rem, depth - 1) {
                            Some(ds) => Some(
                                TypeDescriptor::FixedArray(Box::new(element_from(ds)), size),
                            ),
                            None => None,
                        }
                    },
                    None => None,
                }
            },
            None => None,
        };
    }
    if starts_with_str(t, "int") {
        proof {
            reveal_strlit("int");
        }
        return Some(TypeDescriptor::Int(width_from(t, 3, 256)));
    }
    if starts_with_str(t, "uint") {
        proof {
            reveal_strlit("uint");
        }
        return Some(TypeDescriptor::Uint(width_from(t, 4, 256)));
    }
    if starts_with_str(t, "bytes") {
        proof {
            reveal_strlit("bytes");
        }
        return Some(TypeDescriptor::FixedBytes(width_from(t, 5, 32)));
    }
    None
}

/// Parses with an explicit remaining depth.
fn parse_depth(s: &str, depth: u64) -> (r: Option<Vec<TypeDescriptor>>)
    ensures
        match r {
            Some(ds) => spec_parse(s@, depth as nat) == Some(models_of(ds@)),
            None => spec_parse(s@, depth as nat) is None,
        },
    decreases depth, 1int,
{
    if depth == 0 {
        return None;
    }
    let body = extract_body(s);
    let raw = split_commas(body);
    let toks = merge_complex(&raw);
    let ghost tv = char_seqs(toks@);
    proof {
        assert(tv == spec_tokens(s@));
    }
    let mut out: Vec<TypeDescriptor> = Vec::new();
    let m = toks.len();
    proof {
        assert(models_of(out@) =~= Seq::<TypeModel>::empty());
        assert(tv.skip(0) =~= tv);
        assert(models_of(out@) + classify_all(tv, depth as nat) =~= classify_all(
            tv,
            depth as nat,
        ));
    }
    for k in 0..m
        invariant
            m == toks@.len(),
            depth >= 1,
            tv == char_seqs(toks@),
            classify_all(tv, depth as nat) == models_of(out@) + classify_all(
                tv.skip(k as int),
                depth as nat,
            ),
    {
        let ghost old_out = out@;
        proof {
            assert(tv.skip(k as int)[0] == tv[k as int]);
            assert(tv.skip(k as int).drop_first() =~= tv.skip(k + 1));
        }
        let tok = &toks[k];
        match classify(tok.as_str(), depth) {
            Some(d) => {
                proof {
                    lemma_models_of_push(old_out, d);
                }
                out.push(d);
                proof {
                    assert(models_of(out@) + classify_all(tv.skip(k + 1), depth as nat)
                        =~= models_of(old_out) + (seq![d.model()] + classify_all(
                        tv.skip(k + 1),
                        depth as nat,
                    )));
                }
            },
            None => {},
        }
    }
    proof {
        assert(tv.skip(m as int) =~= Seq::<Seq<char>>::empty());
        assert(models_of(out@) + classify_all(tv.skip(m as int), depth as nat) =~= models_of(
            out@,
        ));
    }
    proof {
        lemma_models_of(out@);
    }
    if out.len() == 0 {
        None
    } else {
        Some(out)
    }
}

/// LAW: a parse that yields a list yields a non-empty one; an empty
/// parameter list is `None` instead.
pub proof fn lemma_parse_some_nonempty(s: Seq<char>, depth: nat)
    ensures
        spec_parse(s, depth) is Some ==> spec_parse(s, depth)->Some_0.len() > 0,
{
}

/// A flat primitive token: free of commas, parentheses and brackets, and
/// recognized by the grammar without recursion.
pub open spec fn primitive_token(t: Seq<char>) -> bool {
    &&& !has_char(t, ',')
    &&& !has_char(t, '(')
    &&& !has_char(t, ')')
    &&& !has_char(t, ']')
    &&& classify_token(t, 1) is Some
}

/// A primitive token classifies the same at every positive depth.
proof fn lemma_classify_depth(t: Seq<char>, depth: nat)
    requires
        depth >= 1,
        !has_char(t, '('),
        !has_char(t, ']'),
    ensures
        classify_token(t, depth) == classify_token(t, 1),
{
    if t.len() > 0 && t[0] == '(' {
        assert(has_char(t, '('));
    }
    if t.len() > 0 && t.last() == ']' {
        assert(has_char(t, ']'));
    }
    if has_suffix(t, "[]"@) {
        reveal_strlit("[]");
        assert(t.subrange(t.len() - 2, t.len() as int)[1] == t[t.len() - 1]);
        assert(t.last() == ']');
        assert(has_char(t, ']'));
    }
}

/// Splitting the comma join of comma-free pieces gives the pieces back.
proof fn lemma_split_join(toks: Seq<Seq<char>>)
    requires
        toks.len() >= 1,
        forall|k: int| 0 <= k < toks.len() ==> !has_char(#[trigger] toks[k], ','),
    ensures
        split_at_commas(join_commas(toks)) == toks,
    decreases toks.len(),
{
    let j = join_commas(toks);
    if toks.len() == 1 {
        assert(j == toks[0]);
        assert forall|i: int| 0 <= i < j.len() implies j[i] != ',' by {
            assert(!has_char(toks[0], ','));
        }
        lemma_spec_find(j, ',');
        if spec_find(j, ',') is Some {
            let i = spec_find(j, ',')->Some_0;
            assert(j[i] == ',');
            assert(has_char(toks[0], ','));
        }
        assert(split_at_commas(j) =~= toks);
    } else {
        let t0 = toks[0];
        let rest = toks.drop_first();
        assert(j == t0 + seq![','] + join_commas(rest));
        assert(j[t0.len() as int] == ',');
        assert forall|i: int| 0 <= i < t0.len() implies j[i] != ',' by {
            assert(j[i] == t0[i]);
            assert(!has_char(t0, ','));
        }
        lemma_spec_find_at(j, ',', t0.len() as int);
        assert(j.subrange(0, t0.len() as int) =~= t0);
        assert(j.subrange(t0.len() as int + 1, j.len() as int) =~= join_commas(rest));
        assert forall|k: int| 0 <= k < rest.len() implies !has_char(#[trigger] rest[k], ',') by {
            assert(rest[k] == toks[k + 1]);
        }
        lemma_split_join(rest);
        assert(split_at_commas(j) =~= seq![t0] + rest);
        assert(seq![t0] + rest =~= toks);
    }
}

/// Tokens without parentheses pass through the re-merge unchanged.
proof fn lemma_merge_flat(toks: Seq<Seq<char>>)
    requires
        forall|k: int|
            0 <= k < toks.len() ==> !has_char(#[trigger] toks[k], '(') && !has_char(
                toks[k],
                ')',
            ),
    ensures
        merge_tokens(toks, 0, Seq::empty()) == toks,
    decreases toks.len(),
{
    if toks.len() > 0 {
        assert forall|k: int|
            0 <= k < toks.drop_first().len() implies !has_char(
            #[trigger] toks.drop_first()[k],
            '(',
        ) && !has_char(toks.drop_first()[k], ')') by {
            assert(toks.drop_first()[k] == toks[k + 1]);
        }
        lemma_merge_flat(toks.drop_first());
        assert(merge_tokens(toks, 0, Seq::empty()) =~= seq![toks[0]] + toks.drop_first());
        assert(seq![toks[0]] + toks.drop_first() =~= toks);
    }
}

/// Primitive tokens classify one descriptor each, in order.
proof fn lemma_classify_all_flat(toks: Seq<Seq<char>>, depth: nat)
    requires
        depth >= 1,
        forall|k: int| 0 <= k < toks.len() ==> primitive_token(#[trigger] toks[k]),
    ensures
        classify_all(toks, depth).len() == toks.len(),
        forall|k: int|
            0 <= k < toks.len() ==> #[trigger] classify_all(toks, depth)[k] == classify_token(
                toks[k],
                1,
            )->Some_0,
    decreases toks.len(),
{
    if toks.len() > 0 {
        assert forall|k: int|
            0 <= k < toks.drop_first().len() implies primitive_token(
            #[trigger] toks.drop_first()[k],
        ) by {
            assert(toks.drop_first()[k] == toks[k + 1]);
        }
        lemma_classify_all_flat(toks.drop_first(), depth);
        lemma_classify_depth(toks[0], depth);
        let c0 = classify_token(toks[0], 1)->Some_0;
        assert(classify_all(toks, depth) == seq![c0] + classify_all(toks.drop_first(), depth));
        assert forall|k: int|
            0 <= k < toks.len() implies #[trigger] classify_all(toks, depth)[k] == classify_token(
            toks[k],
            1,
        )->Some_0 by {
            if k > 0 {
                assert(classify_all(toks, depth)[k] == classify_all(toks.drop_first(), depth)[k
                    - 1]);
                assert(toks.drop_first()[k - 1] == toks[k]);
            }
        }
    }
}

/// LAW: for any flat signature `name(t1,...,tn)` of primitive tokens,
/// parsing yields exactly `n` descriptors, in the original order, each the
/// one its token denotes.
pub proof fn lemma_parse_flat(name: Seq<char>, toks: Seq<Seq<char>>, depth: nat)
    requires
        depth >= 1,
        toks.len() >= 1,
        !has_char(name, '('),
        forall|k: int| 0 <= k < toks.len() ==> primitive_token(#[trigger] toks[k]),
    ensures
        ({
            let r = spec_parse(name + seq!['('] + join_commas(toks) + seq![')'], depth);
            &&& r is Some
            &&& r->Some_0.len() == toks.len()
            &&& forall|k: int|
                0 <= k < toks.len() ==> r->Some_0[k] == classify_token(#[trigger] toks[k], 1)->Some_0
        }),
{
    let sig = name + seq!['('] + join_commas(toks) + seq![')'];
    let j = join_commas(toks);

    // the body is the join: the first `(` is the one after the name, and the
    // one trailing `)` comes off again
    assert(sig[name.len() as int] == '(');
    assert forall|i: int| 0 <= i < name.len() implies sig[i] != '(' by {
        assert(sig[i] == name[i]);
        assert(!has_char(name, '('));
    }
    lemma_spec_find_at(sig, '(', name.len() as int);
    let t = sig.subrange(name.len() as int + 1, sig.len() as int);
    assert(t =~= j + seq![')']);
    assert(t.len() > 0 && t.last() == ')');
    assert(t.drop_last() =~= j);
    assert(param_body(sig) == j);

    lemma_split_join(toks);
    lemma_merge_flat(toks);
    assert(spec_tokens(sig) == toks);
    lemma_classify_all_flat(toks, depth);
}

} // verus!
