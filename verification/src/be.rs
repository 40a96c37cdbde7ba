//! Big-endian integers of up to eight bytes, as every format of the server
//! stores them.

use vstd::prelude::*;

verus! {

/// `x` written as `width` big-endian bytes; bits above the width are lost.
pub open spec fn be_bytes(x: nat, width: nat) -> Seq<u8>
    decreases width,
{
    if width == 0 {
        Seq::empty()
    } else {
        be_bytes(x / 256, (width - 1) as nat).push((x % 256) as u8)
    }
}

/// The number that a big-endian byte string stands for.
pub open spec fn be_value(s: Seq<u8>) -> nat
    decreases s.len(),
{
    if s.len() == 0 {
        0
    } else {
        be_value(s.drop_last()) * 256 + s.last() as nat
    }
}

/// How many numbers `width` bytes can hold.
pub open spec fn be_capacity(width: nat) -> nat
    decreases width,
{
    if width == 0 {
        1
    } else {
        256 * be_capacity((width - 1) as nat)
    }
}

pub proof fn lemma_be_capacities()
    ensures
        be_capacity(1) == 0x100,
        be_capacity(2) == 0x1_0000,
        be_capacity(4) == 0x1_0000_0000,
        be_capacity(8) == 0x1_0000_0000_0000_0000,
{
    reveal_with_fuel(be_capacity, 9);
}

pub proof fn lemma_be_capacity_monotone(a: nat, b: nat)
    requires
        a <= b,
    ensures
        be_capacity(a) <= be_capacity(b),
        0 < be_capacity(a),
    decreases b,
{
    if a < b {
        lemma_be_capacity_monotone(a, (b - 1) as nat);
    } else if a > 0 {
        lemma_be_capacity_monotone((a - 1) as nat, (b - 1) as nat);
    }
}

pub broadcast proof fn lemma_be_bytes_len(x: nat, width: nat)
    ensures
        #[trigger] be_bytes(x, width).len() == width,
    decreases width,
{
    if width > 0 {
        lemma_be_bytes_len(x / 256, (width - 1) as nat);
    }
}

pub proof fn lemma_be_value_bound(s: Seq<u8>)
    ensures
        be_value(s) < be_capacity(s.len()),
    decreases s.len(),
{
    if s.len() > 0 {
        lemma_be_value_bound(s.drop_last());
    }
}

/// Reading back what was written gives the number, if it fits the width.
pub proof fn lemma_be_value_of_bytes(x: nat, width: nat)
    requires
        x < be_capacity(width),
    ensures
        be_value(be_bytes(x, width)) == x,
    decreases width,
{
    lemma_be_bytes_len(x, width);
    if width > 0 {
        lemma_be_value_of_bytes(x / 256, (width - 1) as nat);
        assert(be_bytes(x, width).drop_last() =~= be_bytes(x / 256, (width - 1) as nat));
    }
}

/// Writing what was read gives the same bytes.
pub proof fn lemma_be_bytes_of_value(s: Seq<u8>)
    ensures
        be_bytes(be_value(s), s.len()) == s,
    decreases s.len(),
{
    if s.len() > 0 {
        lemma_be_bytes_of_value(s.drop_last());
        assert(be_value(s) / 256 == be_value(s.drop_last()));
        assert(be_value(s) % 256 == s.last() as nat);
        assert(s =~= s.drop_last().push(s.last()));
    }
}

/// Reading a field back out of a byte string that holds it.
pub proof fn lemma_be_field(s: Seq<u8>, at: int, x: nat, width: nat)
    requires
        0 <= at,
        at + width <= s.len(),
        s.subrange(at, at + width) == be_bytes(x, width),
        x < be_capacity(width),
    ensures
        be_value(s.subrange(at, at + width)) == x,
{
    lemma_be_value_of_bytes(x, width);
}

/// The field of a `u16` at `at`.
pub open spec fn field16(s: Seq<u8>, at: int) -> u16 {
    be_value(s.subrange(at, at + 2)) as u16
}

/// The field of a `u32` at `at`.
pub open spec fn field32(s: Seq<u8>, at: int) -> u32 {
    be_value(s.subrange(at, at + 4)) as u32
}

/// The field of a `u64` at `at`.
pub open spec fn field64(s: Seq<u8>, at: int) -> u64 {
    be_value(s.subrange(at, at + 8)) as u64
}

/// A field of `s` survives in any byte string that `s` is the start of.
pub proof fn lemma_field_prefix(s: Seq<u8>, t: Seq<u8>, at: int, width: int)
    requires
        0 <= at,
        0 <= width,
        at + width <= s.len(),
        s.len() <= t.len(),
        t.subrange(0, s.len() as int) == s,
    ensures
        t.subrange(at, at + width) == s.subrange(at, at + width),
{
    assert(t.subrange(0, s.len() as int).subrange(at, at + width) =~= t.subrange(at, at + width));
}

/// A `u16` field read back.
pub proof fn lemma_field16(s: Seq<u8>, at: int, x: u16)
    requires
        0 <= at,
        at + 2 <= s.len(),
        s.subrange(at, at + 2) == be_bytes(x as nat, 2),
    ensures
        field16(s, at) == x,
{
    lemma_be_capacities();
    lemma_be_field(s, at, x as nat, 2);
}

/// A `u32` field read back.
pub proof fn lemma_field32(s: Seq<u8>, at: int, x: u32)
    requires
        0 <= at,
        at + 4 <= s.len(),
        s.subrange(at, at + 4) == be_bytes(x as nat, 4),
    ensures
        field32(s, at) == x,
{
    lemma_be_capacities();
    lemma_be_field(s, at, x as nat, 4);
}

/// A `u64` field read back.
pub proof fn lemma_field64(s: Seq<u8>, at: int, x: u64)
    requires
        0 <= at,
        at + 8 <= s.len(),
        s.subrange(at, at + 8) == be_bytes(x as nat, 8),
    ensures
        field64(s, at) == x,
{
    lemma_be_capacities();
    lemma_be_field(s, at, x as nat, 8);
}

/// Appends the low `width` bytes of `x`, most significant first.
pub fn put_be(buf: &mut Vec<u8>, x: u64, width: usize)
    requires
        width <= 8,
    ensures
        final(buf)@ == old(buf)@ + be_bytes(x as nat, width as nat),
    decreases width,
{
    if width == 0 {
        assert(buf@ =~= old(buf)@ + be_bytes(x as nat, 0));
        return ;
    }
    put_be(buf, x / 256, width - 1);
    buf.push((x % 256) as u8);
    assert(buf@ =~= old(buf)@ + be_bytes(x as nat, width as nat));
}

/// Reads the `width` bytes of `buf` at `from` as one number.
pub fn get_be(buf: &[u8], from: usize, width: usize) -> (x: u64)
    requires
        width <= 8,
        from + width <= buf.len(),
    ensures
        x == be_value(buf@.subrange(from as int, from + width)),
        x < be_capacity(width as nat),
{
    let mut x: u64 = 0;
    let mut i: usize = 0;
    assert(buf@.subrange(from as int, from as int) =~= Seq::<u8>::empty());
    while i < width
        invariant
            i <= width <= 8,
            from + width <= buf.len(),
            x == be_value(buf@.subrange(from as int, from + i)),
        decreases width - i,
    {
        let ghost s = buf@.subrange(from as int, from + i);
        let ghost t = buf@.subrange(from as int, from + i + 1);
        proof {
            assert(t.drop_last() =~= s);
            lemma_be_value_bound(t);
            lemma_be_capacity_monotone(t.len(), 8);
            lemma_be_capacities();
        }
        x = x * 256 + buf[from + i] as u64;
        i = i + 1;
    }
    proof {
        lemma_be_value_bound(buf@.subrange(from as int, from + width));
    }
    x
}

/// Reads the `u16` at `at`.
pub fn get_u16(buf: &[u8], at: usize) -> (x: u16)
    requires
        at + 2 <= buf.len(),
    ensures
        x == field16(buf@, at as int),
        be_value(buf@.subrange(at as int, at + 2)) == x,
{
    proof {
        lemma_be_capacities();
    }
    get_be(buf, at, 2) as u16
}

/// Reads the `u32` at `at`.
pub fn get_u32(buf: &[u8], at: usize) -> (x: u32)
    requires
        at + 4 <= buf.len(),
    ensures
        x == field32(buf@, at as int),
        be_value(buf@.subrange(at as int, at + 4)) == x,
{
    proof {
        lemma_be_capacities();
    }
    get_be(buf, at, 4) as u32
}

/// Reads the `u64` at `at`.
pub fn get_u64(buf: &[u8], at: usize) -> (x: u64)
    requires
        at + 8 <= buf.len(),
    ensures
        x == field64(buf@, at as int),
        be_value(buf@.subrange(at as int, at + 8)) == x,
{
    get_be(buf, at, 8)
}

/// Appends all bytes of a slice.
pub fn put_slice(buf: &mut Vec<u8>, data: &[u8])
    ensures
        final(buf)@ == old(buf)@ + data@,
{
    buf.extend_from_slice(data);
    assert(buf@ =~= old(buf)@ + data@);
}

/// The first byte of a number is its most significant one: it counts for as much as
/// all numbers that the bytes behind it can hold. A number without bytes is zero.
pub proof fn law_most_significant_byte_comes_first(b: u8, rest: Seq<u8>)
    ensures
        be_value(Seq::<u8>::empty()) == 0,
        be_value(seq![b] + rest) == b * be_capacity(rest.len()) + be_value(rest),
    decreases rest.len(),
{
    let s = seq![b] + rest;
    if rest.len() == 0 {
        assert(s.drop_last() =~= Seq::empty());
        assert(b * 1 == b);
    } else {
        let init = rest.drop_last();
        law_most_significant_byte_comes_first(b, init);
        assert(s.drop_last() =~= seq![b] + init);
        let c = be_capacity(init.len());
        assert((b * c) * 256 == b * (256 * c)) by (nonlinear_arith);
    }
}

/// A number that is too large for its field loses its high bits.
pub proof fn law_high_bits_are_lost(x: nat, width: nat)
    ensures
        be_value(be_bytes(x, width)) == x % be_capacity(width),
    decreases width,
{
    lemma_be_capacity_monotone(width, width);
    lemma_be_bytes_len(x, width);
    if width == 0 {
        assert(x % 1 == 0);
    } else {
        let w = (width - 1) as nat;
        law_high_bits_are_lost(x / 256, w);
        lemma_be_capacity_monotone(w, w);
        assert(be_bytes(x, width).drop_last() =~= be_bytes(x / 256, w));
        vstd::arithmetic::div_mod::lemma_mod_breakdown(x as int, 256, be_capacity(w) as int);
        assert(256 * be_capacity(w) == be_capacity(width));
        assert((256 * ((x / 256) % be_capacity(w))) == ((x / 256) % be_capacity(w)) * 256);
    }
}

} // verus!
