//! Little-endian integer fields of the wire format: their specification,
//! the laws that relate encoding and decoding, and the executable helpers
//! that emit and parse them.
use vstd::prelude::*;

verus! {

/// The value mask a `width`-byte field can carry: the low `8 * width` bits.
pub open spec fn spec_width_mask(width: u64) -> u64 {
    if width >= 8 {
        0xffff_ffff_ffff_ffffu64
    } else {
        ((1u64 << ((8 * width) as u64)) - 1) as u64
    }
}

/// Byte `i` (counting from the least significant) of `v`.
pub open spec fn le_byte(v: u64, i: u64) -> u8 {
    ((v >> ((8 * i) as u64)) & 0xff) as u8
}

/// The low `n` bytes of `v`, least significant first.
pub open spec fn le_bytes(v: u64, n: nat) -> Seq<u8> {
    Seq::new(n, |i: int| le_byte(v, i as u64))
}

/// The value of a little-endian byte field (meaningful for at most 8 bytes).
pub open spec fn le_value(s: Seq<u8>) -> u64
    decreases s.len(),
{
    if s.len() == 0 {
        0
    } else {
        le_value(s.drop_last()) | ((s.last() as u64) << ((8 * (s.len() - 1)) as u64))
    }
}

proof fn lemma_mask_step(v: u64, k: u64)
    requires
        k < 8,
    ensures
        (v & spec_width_mask(k)) | ((((v >> ((8 * k) as u64)) & 0xff) as u8 as u64) << ((8 * k) as u64))
            == v & spec_width_mask((k + 1) as u64),
{
    assert((v & spec_width_mask(k)) | ((((v >> ((8 * k) as u64)) & 0xff) as u8 as u64) << ((8
        * k) as u64)) == v & spec_width_mask((k + 1) as u64)) by (bit_vector)
        requires
            k < 8,
    ;
}

proof fn lemma_bound_step(x: u64, b: u8, k: u64)
    requires
        k < 8,
        x & spec_width_mask(k) == x,
    ensures
        (x | ((b as u64) << ((8 * k) as u64))) & spec_width_mask((k + 1) as u64) == (x | ((b
            as u64) << ((8 * k) as u64))),
{
    assert((x | ((b as u64) << ((8 * k) as u64))) & spec_width_mask((k + 1) as u64) == (x | ((b
        as u64) << ((8 * k) as u64)))) by (bit_vector)
        requires
            k < 8,
            x & spec_width_mask(k) == x,
    ;
}

/// Decoding the low `n` bytes of `v` gives back `v` with all higher bits cleared.
pub proof fn lemma_le_roundtrip(v: u64, n: nat)
    requires
        n <= 8,
    ensures
        le_value(le_bytes(v, n)) == v & spec_width_mask(n as u64),
    decreases n,
{
    if n == 0 {
        assert(v & spec_width_mask(0) == 0) by (bit_vector);
    } else {
        let s = le_bytes(v, n);
        assert(s.drop_last() =~= le_bytes(v, (n - 1) as nat));
        lemma_le_roundtrip(v, (n - 1) as nat);
        lemma_mask_step(v, (n - 1) as u64);
    }
}

/// A little-endian field of at most 8 bytes never carries bits above its width.
pub proof fn lemma_le_value_bounded(s: Seq<u8>)
    requires
        s.len() <= 8,
    ensures
        le_value(s) & spec_width_mask(s.len() as u64) == le_value(s),
    decreases s.len(),
{
    if s.len() == 0 {
        assert(0u64 & spec_width_mask(0) == 0) by (bit_vector);
    } else {
        lemma_le_value_bounded(s.drop_last());
        lemma_bound_step(le_value(s.drop_last()), s.last(), (s.len() - 1) as u64);
    }
}


proof fn lemma_byte_below(x: u64, b: u8, k: u64, i: u64)
    requires
        k < 8,
        i < k,
        x & spec_width_mask(k) == x,
    ensures
        ((((x | ((b as u64) << ((8 * k) as u64))) >> ((8 * i) as u64)) & 0xff) as u8) == (((x >> ((8
            * i) as u64)) & 0xff) as u8),
{
    assert(((((x | ((b as u64) << ((8 * k) as u64))) >> ((8 * i) as u64)) & 0xff) as u8) == (((x
        >> ((8 * i) as u64)) & 0xff) as u8)) by (bit_vector)
        requires
            k < 8,
            i < k,
            x & spec_width_mask(k) == x,
    ;
}

proof fn lemma_byte_top(x: u64, b: u8, k: u64)
    requires
        k < 8,
        x & spec_width_mask(k) == x,
    ensures
        ((((x | ((b as u64) << ((8 * k) as u64))) >> ((8 * k) as u64)) & 0xff) as u8) == b,
{
    assert(((((x | ((b as u64) << ((8 * k) as u64))) >> ((8 * k) as u64)) & 0xff) as u8) == b)
        by (bit_vector)
        requires
            k < 8,
            x & spec_width_mask(k) == x,
    ;
}

/// Encoding the value of a field of at most 8 bytes gives back the field.
pub proof fn lemma_le_bytes_of_value(s: Seq<u8>)
    requires
        s.len() <= 8,
    ensures
        le_bytes(le_value(s), s.len()) == s,
    decreases s.len(),
{
    if s.len() > 0 {
        let k = (s.len() - 1) as u64;
        let x = le_value(s.drop_last());
        let b = s.last();
        lemma_le_bytes_of_value(s.drop_last());
        lemma_le_value_bounded(s.drop_last());
        assert forall|i: int| 0 <= i < s.len() implies #[trigger] le_bytes(le_value(s), s.len())[i]
            == s[i] by {
            if i < k {
                lemma_byte_below(x, b, k, i as u64);
                assert(le_bytes(x, k as nat)[i] == s.drop_last()[i]);
            } else {
                lemma_byte_top(x, b, k);
            }
        }
        assert(le_bytes(le_value(s), s.len()) =~= s);
    }
}

/// A four-byte field decodes to at most `u32::MAX`.
pub proof fn lemma_le_value_u32(s: Seq<u8>)
    requires
        s.len() == 4,
    ensures
        le_value(s) <= 0xffff_ffff,
{
    lemma_le_value_bounded(s);
    let x = le_value(s);
    assert(x & spec_width_mask(4) == x ==> x <= 0xffff_ffff) by (bit_vector);
}

/// Masking twice by the same width is masking once.
pub proof fn lemma_mask_idempotent(v: u64, w: u64)
    ensures
        (v & spec_width_mask(w)) & spec_width_mask(w) == v & spec_width_mask(w),
{
    let m = spec_width_mask(w);
    assert((v & m) & m == v & m) by (bit_vector);
}

/// A value that fits in four bytes survives a four-byte field unchanged.
pub proof fn lemma_le_roundtrip_u32(v: u64)
    requires
        v <= 0xffff_ffff,
    ensures
        le_value(le_bytes(v, 4)) == v,
        le_bytes(v, 4).len() == 4,
{
    lemma_le_roundtrip(v, 4);
    assert(v <= 0xffff_ffff ==> v & spec_width_mask(4) == v) by (bit_vector);
}

/// The value mask a `width`-byte field can carry.
pub fn width_mask(width: usize) -> (r: u64)
    ensures
        r == spec_width_mask(width as u64),
{
    if width >= 8 {
        0xffff_ffff_ffff_ffffu64
    } else {
        let w = width as u64;
        assert(w < 8 ==> (1u64 << ((8 * w) as u64)) >= 1) by (bit_vector);
        (1u64 << (8 * w)) - 1
    }
}

/// Appends the low `n` bytes of `value`, least significant first.
pub fn push_le_bytes(out: &mut Vec<u8>, value: u64, n: usize)
    requires
        n <= 8,
    ensures
        final(out)@ == old(out)@ + le_bytes(value, n as nat),
{
    let ghost start = out@;
    let mut i: usize = 0;
    while i < n
        invariant
            i <= n <= 8,
            out@ == start + le_bytes(value, i as nat),
        decreases n - i,
    {
        let byte = ((value >> (8 * (i as u64))) & 0xff) as u8;
        out.push(byte);
        i = i + 1;
        assert(out@ =~= start + le_bytes(value, i as nat));
    }
}

/// Parses the `n`-byte little-endian field at `bytes[start..start + n]`.
pub fn read_le(bytes: &[u8], start: usize, n: usize) -> (r: u64)
    requires
        n <= 8,
        start + n <= bytes@.len(),
    ensures
        r == le_value(bytes@.subrange(start as int, start + n)),
{
    let ghost field = bytes@.subrange(start as int, start + n);
    let len = bytes.len();
    let mut acc: u64 = 0;
    let mut i: usize = 0;
    while i < n
        invariant
            i <= n <= 8,
            len == bytes@.len(),
            start + n <= bytes@.len(),
            field == bytes@.subrange(start as int, start + n),
            acc == le_value(field.take(i as int)),
        decreases n - i,
    {
        let b = bytes[start + i];
        assert(field.take(i + 1).drop_last() =~= field.take(i as int));
        acc = acc | ((b as u64) << (8 * (i as u64)));
        i = i + 1;
    }
    assert(field.take(n as int) =~= field);
    acc
}

/// Parses the four-byte little-endian length field at the front of `bytes`.
pub fn read_u32_le(bytes: &[u8]) -> (r: usize)
    requires
        bytes@.len() >= 4,
    ensures
        r as u64 == le_value(bytes@.take(4)),
        r <= 0xffff_ffff,
{
    let v = read_le(bytes, 0, 4);
    proof {
        assert(bytes@.subrange(0, 4) =~= bytes@.take(4));
        lemma_le_value_u32(bytes@.take(4));
    }
    v as usize
}

} // verus!
