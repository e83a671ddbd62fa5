//! Byte-level encodings shared by the object database and the index:
//! big-endian integers, ASCII decimal and octal numerals, and the
//! byte-lexicographic order on paths.

use vstd::prelude::*;

verus! {

// ---------------------------------------------------------------------------
// Byte-lexicographic order on paths
// ---------------------------------------------------------------------------

/// Strict byte-lexicographic order: `a` sorts before `b`.
pub open spec fn lex_lt(a: Seq<u8>, b: Seq<u8>) -> bool
    decreases a.len(),
{
    if b.len() == 0 {
        false
    } else if a.len() == 0 {
        true
    } else if a[0] < b[0] {
        true
    } else if a[0] > b[0] {
        false
    } else {
        lex_lt(a.skip(1), b.skip(1))
    }
}

/// Of two distinct byte sequences, exactly one sorts before the other.
pub proof fn lemma_lex_connected(a: Seq<u8>, b: Seq<u8>)
    ensures
        lex_lt(a, b) || lex_lt(b, a) || a == b,
        lex_lt(a, b) ==> !lex_lt(b, a),
        lex_lt(a, b) ==> a != b,
    decreases a.len(),
{
    if a.len() == 0 || b.len() == 0 {
        if a.len() == 0 && b.len() == 0 {
            assert(a =~= b);
        }
    } else {
        if a[0] == b[0] {
            lemma_lex_connected(a.skip(1), b.skip(1));
            if a.skip(1) == b.skip(1) {
                assert forall|i: int| 1 <= i < a.len() implies a[i] == b[i] by {
                    assert(a[i] == a.skip(1)[i - 1]);
                    assert(b[i] == b.skip(1)[i - 1]);
                }
                assert(a =~= b);
            }
        }
    }
}

/// The order is transitive.
pub proof fn lemma_lex_trans(a: Seq<u8>, b: Seq<u8>, c: Seq<u8>)
    requires
        lex_lt(a, b),
        lex_lt(b, c),
    ensures
        lex_lt(a, c),
    decreases a.len(),
{
    if a.len() == 0 {
    } else {
        // b.len() > 0 because lex_lt(a, b); c.len() > 0 because lex_lt(b, c)
        if a[0] == c[0] {
            assert(a[0] <= b[0] && b[0] <= c[0]);
            lemma_lex_trans(a.skip(1), b.skip(1), c.skip(1));
        }
    }
}

/// Dropping a common prefix does not change the order.
pub proof fn lemma_lex_common_prefix(a: Seq<u8>, b: Seq<u8>, i: int)
    requires
        0 <= i <= a.len(),
        i <= b.len(),
        a.take(i) == b.take(i),
    ensures
        lex_lt(a, b) == lex_lt(a.skip(i), b.skip(i)),
    decreases i,
{
    if i > 0 {
        assert(a.take(i)[0] == b.take(i)[0]);
        assert(a.take(i)[0] == a[0]);
        assert(b.take(i)[0] == b[0]);
        assert(a.skip(1).take(i - 1) =~= b.skip(1).take(i - 1)) by {
            assert(forall|j: int| 0 <= j < i - 1 ==>
                #[trigger] a.skip(1).take(i - 1)[j] == a.take(i)[j + 1]);
            assert(forall|j: int| 0 <= j < i - 1 ==>
                #[trigger] b.skip(1).take(i - 1)[j] == b.take(i)[j + 1]);
        }
        lemma_lex_common_prefix(a.skip(1), b.skip(1), i - 1);
        assert(a.skip(1).skip(i - 1) =~= a.skip(i));
        assert(b.skip(1).skip(i - 1) =~= b.skip(i));
    } else {
        assert(a.skip(0) =~= a);
        assert(b.skip(0) =~= b);
    }
}

/// Executable comparison deciding `lex_lt` on byte vectors.
pub fn lex_less(a: &Vec<u8>, b: &Vec<u8>) -> (r: bool)
    ensures
        r == lex_lt(a@, b@),
{
    let mut i: usize = 0;
    loop
        invariant
            i <= a.len(),
            i <= b.len(),
            a@.take(i as int) == b@.take(i as int),
        decreases a.len() - i,
    {
        proof {
            lemma_lex_common_prefix(a@, b@, i as int);
        }
        if i == a.len() || i == b.len() {
            // one is a prefix of the other
            return i == a.len() && i < b.len();
        }
        if a[i] != b[i] {
            return a[i] < b[i];
        }
        proof {
            assert(a@.take(i + 1) =~= b@.take(i + 1));
        }
        i = i + 1;
    }
}

// ---------------------------------------------------------------------------
// Big-endian integers
// ---------------------------------------------------------------------------

/// The four big-endian bytes of a 32-bit integer.
pub open spec fn be4(x: u32) -> Seq<u8> {
    seq![
        (x >> 24) as u8,
        ((x >> 16) & 0xff) as u8,
        ((x >> 8) & 0xff) as u8,
        (x & 0xff) as u8,
    ]
}

/// The 32-bit value read from four big-endian bytes.
pub open spec fn from_be4(s: Seq<u8>) -> u32
    recommends
        s.len() == 4,
{
    ((s[0] as u32) << 24) | ((s[1] as u32) << 16) | ((s[2] as u32) << 8) | (s[3] as u32)
}

pub proof fn lemma_be4_roundtrip(x: u32)
    ensures
        from_be4(be4(x)) == x,
{
    let b0 = (x >> 24) as u8;
    let b1 = ((x >> 16) & 0xff) as u8;
    let b2 = ((x >> 8) & 0xff) as u8;
    let b3 = (x & 0xff) as u8;
    assert(((b0 as u32) << 24) | ((b1 as u32) << 16) | ((b2 as u32) << 8) | (b3 as u32) == x)
        by (bit_vector)
        requires
            b0 == (x >> 24) as u8,
            b1 == ((x >> 16) & 0xff) as u8,
            b2 == ((x >> 8) & 0xff) as u8,
            b3 == (x & 0xff) as u8,
    ;
}

pub proof fn lemma_be4_of_bytes(s: Seq<u8>)
    requires
        s.len() == 4,
    ensures
        be4(from_be4(s)) == s,
{
    let x = from_be4(s);
    let b0 = s[0];
    let b1 = s[1];
    let b2 = s[2];
    let b3 = s[3];
    assert((x >> 24) as u8 == b0 && ((x >> 16) & 0xff) as u8 == b1
        && ((x >> 8) & 0xff) as u8 == b2 && (x & 0xff) as u8 == b3) by (bit_vector)
        requires
            x == ((b0 as u32) << 24) | ((b1 as u32) << 16) | ((b2 as u32) << 8) | (b3 as u32),
    ;
    assert(be4(x) =~= s);
}

/// Appends the four big-endian bytes of `x` to `out`.
pub fn push_be4(out: &mut Vec<u8>, x: u32)
    ensures
        final(out)@ == old(out)@ + be4(x),
{
    out.push((x >> 24) as u8);
    out.push(((x >> 16) & 0xff) as u8);
    out.push(((x >> 8) & 0xff) as u8);
    out.push((x & 0xff) as u8);
    proof {
        assert(out@ =~= old(out)@ + be4(x));
    }
}

/// Reads a 32-bit big-endian value from `data` at offset `pos`.
pub fn read_be4(data: &Vec<u8>, pos: usize) -> (r: u32)
    requires
        pos + 4 <= data@.len(),
    ensures
        r == from_be4(data@.subrange(pos as int, pos + 4)),
{
    let n = data.len();
    let r = ((data[pos] as u32) << 24) | ((data[pos + 1] as u32) << 16)
        | ((data[pos + 2] as u32) << 8) | (data[pos + 3] as u32);
    proof {
        let s = data@.subrange(pos as int, pos + 4);
        assert(s[0] == data@[pos as int] && s[1] == data@[pos + 1] && s[2] == data@[pos + 2]
            && s[3] == data@[pos + 3]);
    }
    r
}

/// The two big-endian bytes of a 16-bit integer.
pub open spec fn be2(x: u16) -> Seq<u8> {
    seq![(x >> 8) as u8, (x & 0xff) as u8]
}

/// The 16-bit value read from two big-endian bytes.
pub open spec fn from_be2(s: Seq<u8>) -> u16
    recommends
        s.len() == 2,
{
    ((s[0] as u16) << 8) | (s[1] as u16)
}

pub proof fn lemma_be2_roundtrip(x: u16)
    ensures
        from_be2(be2(x)) == x,
{
    let b0 = (x >> 8) as u8;
    let b1 = (x & 0xff) as u8;
    assert(((b0 as u16) << 8) | (b1 as u16) == x) by (bit_vector)
        requires
            b0 == (x >> 8) as u8,
            b1 == (x & 0xff) as u8,
    ;
}

/// Appends the two big-endian bytes of `x` to `out`.
pub fn push_be2(out: &mut Vec<u8>, x: u16)
    ensures
        final(out)@ == old(out)@ + be2(x),
{
    out.push((x >> 8) as u8);
    out.push((x & 0xff) as u8);
    proof {
        assert(out@ =~= old(out)@ + be2(x));
    }
}

/// Reads a 16-bit big-endian value from `data` at offset `pos`.
pub fn read_be2(data: &Vec<u8>, pos: usize) -> (r: u16)
    requires
        pos + 2 <= data@.len(),
    ensures
        r == from_be2(data@.subrange(pos as int, pos + 2)),
{
    let n = data.len();
    let r = ((data[pos] as u16) << 8) | (data[pos + 1] as u16);
    proof {
        let s = data@.subrange(pos as int, pos + 2);
        assert(s[0] == data@[pos as int] && s[1] == data@[pos + 1]);
    }
    r
}

// ---------------------------------------------------------------------------
// ASCII numerals
// ---------------------------------------------------------------------------

/// ASCII decimal digits of `n`, no leading zeros (`0` is `"0"`).
pub open spec fn dec_of(n: nat) -> Seq<u8>
    decreases n,
{
    if n < 10 {
        seq![(48 + n) as u8]
    } else {
        dec_of(n / 10) + seq![(48 + n % 10) as u8]
    }
}

/// ASCII decimal digits of `n` appended to `out`.
pub fn push_dec_u64(out: &mut Vec<u8>, n: u64)
    ensures
        final(out)@ == old(out)@ + dec_of(n as nat),
    decreases n,
{
    if n < 10 {
        out.push(48 + n as u8);
        proof {
            assert(out@ =~= old(out)@ + dec_of(n as nat));
        }
    } else {
        push_dec_u64(out, n / 10);
        out.push(48 + (n % 10) as u8);
        proof {
            assert(out@ =~= old(out)@ + dec_of(n as nat));
        }
    }
}

/// ASCII decimal digits of the signed value `n`: a `-` sign when negative.
pub open spec fn dec_of_int(n: int) -> Seq<u8> {
    if n < 0 {
        seq![45u8] + dec_of((-n) as nat)
    } else {
        dec_of(n as nat)
    }
}

/// ASCII decimal digits of the signed value `n` appended to `out`.
pub fn push_dec_i64(out: &mut Vec<u8>, n: i64)
    requires
        n != i64::MIN,
    ensures
        final(out)@ == old(out)@ + dec_of_int(n as int),
{
    if n < 0 {
        out.push(45);
        push_dec_u64(out, (-n) as u64);
        proof {
            assert(out@ =~= old(out)@ + dec_of_int(n as int));
        }
    } else {
        push_dec_u64(out, n as u64);
    }
}

/// ASCII octal digits of `n`, no leading zeros (`0` is `"0"`).
pub open spec fn oct_of(n: nat) -> Seq<u8>
    decreases n,
{
    if n < 8 {
        seq![(48 + n) as u8]
    } else {
        oct_of(n / 8) + seq![(48 + n % 8) as u8]
    }
}

// ---------------------------------------------------------------------------
// NUL padding
// ---------------------------------------------------------------------------

/// `n` NUL bytes.
pub open spec fn zeros(n: nat) -> Seq<u8> {
    Seq::new(n, |i: int| 0u8)
}

/// `s` with trailing NUL bytes removed.
pub open spec fn trim_end_zeros(s: Seq<u8>) -> Seq<u8>
    decreases s.len(),
{
    if s.len() > 0 && s.last() == 0 {
        trim_end_zeros(s.drop_last())
    } else {
        s
    }
}

/// Trimming never lengthens a sequence.
pub proof fn lemma_trim_end_len(s: Seq<u8>)
    ensures
        trim_end_zeros(s).len() <= s.len(),
    decreases s.len(),
{
    if s.len() > 0 && s.last() == 0 {
        lemma_trim_end_len(s.drop_last());
    }
}

/// `s` with leading NUL bytes removed.
pub open spec fn trim_start_zeros(s: Seq<u8>) -> Seq<u8>
    decreases s.len(),
{
    if s.len() > 0 && s[0] == 0 {
        trim_start_zeros(s.skip(1))
    } else {
        s
    }
}

/// `s` with NUL bytes removed from both ends.
pub open spec fn trim_zeros(s: Seq<u8>) -> Seq<u8> {
    trim_start_zeros(trim_end_zeros(s))
}

/// Trimming NUL padding from a NUL-free sequence gives the sequence back.
pub proof fn lemma_trim_zeros_padded(p: Seq<u8>, n: nat)
    requires
        forall|i: int| 0 <= i < p.len() ==> p[i] != 0,
    ensures
        trim_zeros(p + zeros(n)) == p,
    decreases n,
{
    if n == 0 {
        assert(p + zeros(0) =~= p);
        lemma_trim_zeros_nul_free(p);
    } else {
        let s = p + zeros(n);
        assert(s.last() == 0);
        assert(s.drop_last() =~= p + zeros((n - 1) as nat));
        lemma_trim_zeros_padded(p, (n - 1) as nat);
    }
}

/// A NUL-free sequence is unchanged by trimming.
pub proof fn lemma_trim_zeros_nul_free(p: Seq<u8>)
    requires
        forall|i: int| 0 <= i < p.len() ==> p[i] != 0,
    ensures
        trim_zeros(p) == p,
{
}

/// ASCII octal digits of `n` appended to `out`.
pub fn push_oct_u32(out: &mut Vec<u8>, n: u32)
    ensures
        final(out)@ == old(out)@ + oct_of(n as nat),
    decreases n,
{
    if n < 8 {
        out.push(48 + n as u8);
        proof {
            assert(out@ =~= old(out)@ + oct_of(n as nat));
        }
    } else {
        push_oct_u32(out, n / 8);
        out.push(48 + (n % 8) as u8);
        proof {
            assert(out@ =~= old(out)@ + oct_of(n as nat));
        }
    }
}

} // verus!
