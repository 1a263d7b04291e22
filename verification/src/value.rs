//! The abstract model of a bencode value and its canonical byte form.
//!
//! Contracts throughout the crate are stated against [`BValue`] and
//! [`encoding`]: an emission appends exactly `encoding(v)` to the output for
//! the value `v` it writes.  [`depth_of`] counts the container levels a value
//! nests, which is what the driver's depth ceiling bounds.

use vstd::prelude::*;

verus! {

/// Token bytes of the wire format.
pub const TOK_INT: u8 = 105;

/// Start of a list token (`l`).
pub const TOK_LIST: u8 = 108;

/// Start of a dictionary token (`d`).
pub const TOK_DICT: u8 = 100;

/// Terminator of integer, list and dictionary tokens (`e`).
pub const TOK_END: u8 = 101;

/// Separator between the length prefix and the bytes of a string (`:`).
pub const TOK_COLON: u8 = 58;

/// Sign of a negative integer (`-`).
pub const TOK_MINUS: u8 = 45;

/// A bencode value in the abstract: raw bytes, an integer, a list, or a
/// dictionary given as a key/value pair sequence.
pub enum BValue {
    Bytes(Seq<u8>),
    Int(int),
    List(Seq<BValue>),
    Dict(Seq<(Seq<u8>, BValue)>),
}

/// The larger of two naturals.
pub open spec fn max_nat(a: nat, b: nat) -> nat {
    if a >= b {
        a
    } else {
        b
    }
}

/// Decimal digits of `n`, most significant first, with no leading zeros
/// (a single `0` for zero itself).
pub open spec fn dec_digits(n: nat) -> Seq<u8>
    decreases n,
{
    if n < 10 {
        seq![(48 + n) as u8]
    } else {
        dec_digits(n / 10) + seq![(48 + n % 10) as u8]
    }
}

/// Decimal digits of `i`, preceded by `-` when `i` is negative.
pub open spec fn int_digits(i: int) -> Seq<u8> {
    if i < 0 {
        seq![TOK_MINUS] + dec_digits((-i) as nat)
    } else {
        dec_digits(i as nat)
    }
}

/// The `<length>:<bytes>` token of a raw byte string.
pub open spec fn byte_str_enc(b: Seq<u8>) -> Seq<u8> {
    dec_digits(b.len()) + seq![TOK_COLON] + b
}

/// The canonical byte form of a value.  Dictionaries are encoded in the pair
/// order given; a value is canonical only when that order is ascending.
pub open spec fn encoding(v: BValue) -> Seq<u8>
    decreases v, 0int,
{
    match v {
        BValue::Bytes(b) => byte_str_enc(b),
        BValue::Int(i) => seq![TOK_INT] + int_digits(i) + seq![TOK_END],
        BValue::List(es) => seq![TOK_LIST] + list_enc(es, 0) + seq![TOK_END],
        BValue::Dict(ps) => seq![TOK_DICT] + dict_enc(ps, 0) + seq![TOK_END],
    }
}

/// Concatenated encodings of the list elements from index `i` on.
pub open spec fn list_enc(es: Seq<BValue>, i: int) -> Seq<u8>
    decreases es, es.len() - i,
{
    if i < 0 || i >= es.len() {
        Seq::empty()
    } else {
        encoding(es[i]) + list_enc(es, i + 1)
    }
}

/// Concatenated `<key><value>` encodings of the pairs from index `i` on.
pub open spec fn dict_enc(ps: Seq<(Seq<u8>, BValue)>, i: int) -> Seq<u8>
    decreases ps, ps.len() - i,
{
    if i < 0 || i >= ps.len() {
        Seq::empty()
    } else {
        byte_str_enc(ps[i].0) + encoding(ps[i].1) + dict_enc(ps, i + 1)
    }
}

/// How many container levels the value nests.  Leaves take none; a list or
/// dictionary takes one more than its deepest child.
pub open spec fn depth_of(v: BValue) -> nat
    decreases v, 0int,
{
    match v {
        BValue::Bytes(_) => 0,
        BValue::Int(_) => 0,
        BValue::List(es) => 1 + list_depth(es, 0),
        BValue::Dict(ps) => 1 + dict_depth(ps, 0),
    }
}

/// Deepest element depth among the list elements from index `i` on.
pub open spec fn list_depth(es: Seq<BValue>, i: int) -> nat
    decreases es, es.len() - i,
{
    if i < 0 || i >= es.len() {
        0
    } else {
        max_nat(depth_of(es[i]), list_depth(es, i + 1))
    }
}

/// Deepest value depth among the pairs from index `i` on.
pub open spec fn dict_depth(ps: Seq<(Seq<u8>, BValue)>, i: int) -> nat
    decreases ps, ps.len() - i,
{
    if i < 0 || i >= ps.len() {
        0
    } else {
        max_nat(depth_of(ps[i].1), dict_depth(ps, i + 1))
    }
}

/// Each element's depth is below the list depth taken from any earlier index.
pub proof fn lemma_list_depth_ge(es: Seq<BValue>, i: int, j: int)
    requires
        0 <= i <= j < es.len(),
    ensures
        depth_of(es[j]) <= list_depth(es, i),
    decreases j - i,
{
    if i < j {
        lemma_list_depth_ge(es, i + 1, j);
    }
}

/// A bound on every element's depth bounds the list depth.
pub proof fn lemma_list_depth_le(es: Seq<BValue>, i: int, k: nat)
    requires
        forall|j: int| i <= j < es.len() ==> depth_of(#[trigger] es[j]) <= k,
    ensures
        list_depth(es, i) <= k,
    decreases es.len() - i,
{
    if 0 <= i && i < es.len() {
        lemma_list_depth_le(es, i + 1, k);
    }
}

/// Each pair's value depth is below the dictionary depth taken from any
/// earlier index.
pub proof fn lemma_dict_depth_ge(ps: Seq<(Seq<u8>, BValue)>, i: int, j: int)
    requires
        0 <= i <= j < ps.len(),
    ensures
        depth_of(ps[j].1) <= dict_depth(ps, i),
    decreases j - i,
{
    if i < j {
        lemma_dict_depth_ge(ps, i + 1, j);
    }
}

/// A bound on every pair's value depth bounds the dictionary depth.
pub proof fn lemma_dict_depth_le(ps: Seq<(Seq<u8>, BValue)>, i: int, k: nat)
    requires
        forall|j: int| i <= j < ps.len() ==> depth_of(#[trigger] ps[j].1) <= k,
    ensures
        dict_depth(ps, i) <= k,
    decreases ps.len() - i,
{
    if 0 <= i && i < ps.len() {
        lemma_dict_depth_le(ps, i + 1, k);
    }
}

} // verus!
