//! One-hot encoding of symbols and sequences, and its inverse.
use vstd::prelude::*;

verus! {

/// Byte values of the recognized symbols, and of the symbol that a chunk with
/// no bit set reads back as.
pub const BASE_A: u8 = 65;
pub const BASE_C: u8 = 67;
pub const BASE_G: u8 = 71;
pub const BASE_T: u8 = 84;
pub const GAP: u8 = 45;
pub const UNKNOWN: u8 = 78;

/// The symbols with a bit of their own: `A`, `C`, `G`, `T` and the gap `-`.
pub open spec fn is_recognized(c: u8) -> bool {
    c == BASE_A || c == BASE_C || c == BASE_G || c == BASE_T || c == GAP
}

/// One-hot pattern of a symbol. Bit `k` is set exactly when the symbol is the
/// `k`-th recognized one; any other symbol encodes to all-false.
pub open spec fn symbol_bits(c: u8) -> Seq<bool> {
    seq![c == BASE_A, c == BASE_C, c == BASE_G, c == BASE_T, c == GAP]
}

/// Concatenation of the patterns of all symbols, in order.
pub open spec fn encode_seq(s: Seq<u8>) -> Seq<bool>
    decreases s.len(),
{
    if s.len() == 0 {
        seq![]
    } else {
        symbol_bits(s[0]) + encode_seq(s.subrange(1, s.len() as int))
    }
}

/// The symbol that a five-bit chunk stands for; `N` where no bit is set.
pub open spec fn chunk_symbol(b: Seq<bool>) -> u8 {
    if b[0] {
        BASE_A
    } else if b[1] {
        BASE_C
    } else if b[2] {
        BASE_G
    } else if b[3] {
        BASE_T
    } else if b[4] {
        GAP
    } else {
        UNKNOWN
    }
}

/// Decoding, chunk by chunk from the front; a trailing partial chunk is ignored.
pub open spec fn decode_bits(v: Seq<bool>) -> Seq<u8>
    decreases v.len(),
{
    if v.len() < 5 {
        seq![]
    } else {
        seq![chunk_symbol(v.subrange(0, 5))] + decode_bits(v.subrange(5, v.len() as int))
    }
}

/// A recognized symbol stands for itself; every other one reads back as `N`.
pub open spec fn normalized(c: u8) -> u8 {
    if is_recognized(c) {
        c
    } else {
        UNKNOWN
    }
}

/// An encoding has five bits per symbol.
pub proof fn lemma_encode_len(s: Seq<u8>)
    ensures
        encode_seq(s).len() == 5 * s.len(),
    decreases s.len(),
{
    if s.len() > 0 {
        lemma_encode_len(s.subrange(1, s.len() as int));
    }
}

/// Decoding an encoding gives back every symbol, with unrecognized symbols
/// read back as `N`.
pub proof fn lemma_decode_encode(s: Seq<u8>)
    ensures
        decode_bits(encode_seq(s)) == s.map_values(|c: u8| normalized(c)),
    decreases s.len(),
{
    if s.len() == 0 {
        assert(decode_bits(encode_seq(s)) =~= s.map_values(|c: u8| normalized(c)));
    } else {
        let rest = s.subrange(1, s.len() as int);
        let e = encode_seq(s);
        lemma_encode_len(rest);
        lemma_decode_encode(rest);
        assert(e.subrange(0, 5) =~= symbol_bits(s[0]));
        assert(e.subrange(5, e.len() as int) =~= encode_seq(rest));
        assert(decode_bits(e) =~= s.map_values(|c: u8| normalized(c)));
    }
}

/// Decoding is a left inverse of encoding on sequences of recognized symbols.
pub proof fn lemma_round_trip(s: Seq<u8>)
    requires
        forall|i: int| 0 <= i < s.len() ==> is_recognized(#[trigger] s[i]),
    ensures
        decode_bits(encode_seq(s)) == s,
{
    lemma_decode_encode(s);
    assert(s.map_values(|c: u8| normalized(c)) =~= s);
}

/// Appends the one-hot pattern of `c` to `out`.
pub fn encode_symbol(c: u8, out: &mut Vec<bool>)
    ensures
        final(out)@ == old(out)@ + symbol_bits(c),
{
    out.push(c == BASE_A);
    out.push(c == BASE_C);
    out.push(c == BASE_G);
    out.push(c == BASE_T);
    out.push(c == GAP);
    assert(final(out)@ =~= old(out)@ + symbol_bits(c));
}

/// Encodes a whole sequence.
pub fn encode(seq: &Vec<u8>) -> (r: Vec<bool>)
    ensures
        r@ == encode_seq(seq@),
{
    let mut out: Vec<bool> = Vec::new();
    let n = seq.len();
    let mut i: usize = 0;
    assert(seq@.subrange(0, n as int) =~= seq@);
    assert(out@ + encode_seq(seq@) =~= encode_seq(seq@));
    while i < n
        invariant
            n == seq@.len(),
            i <= n,
            out@ + encode_seq(seq@.subrange(i as int, n as int)) == encode_seq(seq@),
        decreases n - i,
    {
        let ghost before = out@;
        let ghost rest = seq@.subrange(i as int, n as int);
        assert(rest.subrange(1, rest.len() as int) =~= seq@.subrange(i + 1, n as int));
        encode_symbol(seq[i], &mut out);
        assert(before + encode_seq(rest) =~= out@ + encode_seq(seq@.subrange(i + 1, n as int)));
        i = i + 1;
    }
    assert(seq@.subrange(n as int, n as int) =~= Seq::<u8>::empty());
    assert(out@ + encode_seq(seq@.subrange(n as int, n as int)) =~= out@);
    out
}

fn chunk_to_symbol(v: &Vec<bool>, at: usize) -> (c: u8)
    requires
        at + 5 <= v@.len(),
    ensures
        c == chunk_symbol(v@.subrange(at as int, at + 5)),
{
    let n = v.len();
    assert(at + 5 <= n);
    if v[at] {
        BASE_A
    } else if v[at + 1] {
        BASE_C
    } else if v[at + 2] {
        BASE_G
    } else if v[at + 3] {
        BASE_T
    } else if v[at + 4] {
        GAP
    } else {
        UNKNOWN
    }
}

/// Decodes an encoded vector back into symbols.
pub fn decode(bits: &Vec<bool>) -> (r: Vec<u8>)
    ensures
        r@ == decode_bits(bits@),
{
    let mut out: Vec<u8> = Vec::new();
    let n = bits.len();
    let mut i: usize = 0;
    assert(bits@.subrange(0, n as int) =~= bits@);
    assert(out@ + decode_bits(bits@) =~= decode_bits(bits@));
    while n - i >= 5
        invariant
            n == bits@.len(),
            i <= n,
            out@ + decode_bits(bits@.subrange(i as int, n as int)) == decode_bits(bits@),
        decreases n - i,
    {
        let ghost before = out@;
        let ghost rest = bits@.subrange(i as int, n as int);
        assert(rest.subrange(0, 5) =~= bits@.subrange(i as int, i + 5));
        assert(rest.subrange(5, rest.len() as int) =~= bits@.subrange(i + 5, n as int));
        let c = chunk_to_symbol(bits, i);
        out.push(c);
        assert(before + decode_bits(rest) =~= out@ + decode_bits(bits@.subrange(i + 5, n as int)));
        i = i + 5;
    }
    assert(out@ + decode_bits(bits@.subrange(i as int, n as int)) =~= out@);
    out
}

} // verus!
