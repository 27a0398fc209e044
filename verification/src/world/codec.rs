//! Little-endian fields of byte strings.

use vstd::arithmetic::power::{lemma_pow_positive, pow};
use vstd::prelude::*;

verus! {

/// The `n` lowest bytes of a number, lowest first.
pub open spec fn le_bytes(value: nat, n: nat) -> Seq<u8>
    decreases n,
{
    if n == 0 {
        Seq::empty()
    } else {
        seq![(value % 256) as u8] + le_bytes(value / 256, (n - 1) as nat)
    }
}

/// The number whose bytes, lowest first, are given.
pub open spec fn le_value(bytes: Seq<u8>) -> nat
    decreases bytes.len(),
{
    if bytes.len() == 0 {
        0
    } else {
        bytes[0] as nat + 256 * le_value(bytes.drop_first())
    }
}

/// The field of `n` bytes at an offset.
pub open spec fn field(data: Seq<u8>, at: int, n: nat) -> nat {
    le_value(data.subrange(at, at + n))
}

/// A signed number as the unsigned number with the same bits.
pub open spec fn unsigned(value: i64) -> nat {
    if value < 0 {
        (value + 0x1_0000_0000_0000_0000) as nat
    } else {
        value as nat
    }
}

/// The signed number with the same bits as an unsigned number.
pub open spec fn signed(value: nat) -> int {
    if value >= 0x8000_0000_0000_0000 {
        value - 0x1_0000_0000_0000_0000
    } else {
        value as int
    }
}

/// The field of eight bytes at an offset, as a signed number.
pub open spec fn signed_field(data: Seq<u8>, at: int) -> int {
    signed(field(data, at, 8))
}

/// 256 to the power of `n`.
pub open spec fn span(n: nat) -> int {
    pow(256, n)
}

/// The length of a number's bytes, and that they give the number back.
pub proof fn bytes_give_number_back(value: nat, n: nat)
    ensures
        le_bytes(value, n).len() == n,
        value < span(n) ==> le_value(le_bytes(value, n)) == value,
    decreases n,
{
    reveal(pow);
    if n > 0 {
        bytes_give_number_back(value / 256, (n - 1) as nat);
        let bytes = le_bytes(value, n);
        assert(bytes.drop_first() =~= le_bytes(value / 256, (n - 1) as nat));
        assert(span(n) == 256 * span((n - 1) as nat));
    }
}

/// A number read from `n` bytes is below 256 to the power of `n`, and has them as its
/// bytes.
pub proof fn number_gives_bytes_back(bytes: Seq<u8>)
    ensures
        le_value(bytes) < span(bytes.len()),
        le_bytes(le_value(bytes), bytes.len()) == bytes,
    decreases bytes.len(),
{
    reveal(pow);
    if bytes.len() > 0 {
        let rest = bytes.drop_first();
        number_gives_bytes_back(rest);
        assert(span(bytes.len()) == 256 * span(rest.len()));
        let value = le_value(bytes);
        assert(value % 256 == bytes[0]);
        assert(value / 256 == le_value(rest));
        assert(bytes =~= seq![bytes[0]] + rest);
    }
}

/// The sizes of the fields in use.
pub proof fn lemma_spans()
    ensures
        span(0) == 1,
        span(1) == 0x100,
        span(2) == 0x1_0000,
        span(4) == 0x1_0000_0000,
        span(8) == 0x1_0000_0000_0000_0000,
{
    reveal(pow);
    assert(span(0) == 1);
    assert(span(1) == 256 * span(0));
    assert(span(2) == 256 * span(1));
    assert(span(3) == 256 * span(2));
    assert(span(4) == 256 * span(3));
    assert(span(5) == 256 * span(4));
    assert(span(6) == 256 * span(5));
    assert(span(7) == 256 * span(6));
    assert(span(8) == 256 * span(7));
}

/// Appends the `n` lowest bytes of a number.
pub fn put(out: &mut Vec<u8>, value: u64, n: usize)
    ensures
        final(out)@ == old(out)@ + le_bytes(value as nat, n as nat),
{
    let mut rest: u64 = value;
    let mut i: usize = 0;
    assert(out@ =~= out@ + le_bytes(value as nat, 0));
    while i < n
        invariant
            i <= n,
            out@ + le_bytes(rest as nat, (n - i) as nat) == old(out)@ + le_bytes(
                value as nat,
                n as nat,
            ),
        decreases n - i,
    {
        let ghost had = out@;
        out.push((rest % 256) as u8);
        assert(had + le_bytes(rest as nat, (n - i) as nat) =~= out@ + le_bytes(
            rest as nat / 256,
            (n - i - 1) as nat,
        ));
        rest = rest / 256;
        i += 1;
    }
    assert(out@ + le_bytes(rest as nat, 0) =~= out@);
}

/// Appends a signed number.
pub fn put_signed(out: &mut Vec<u8>, value: i64)
    ensures
        final(out)@ == old(out)@ + le_bytes(unsigned(value), 8),
{
    let bits: u64 = if value < 0 {
        (value + i64::MAX + 1) as u64 + 0x8000_0000_0000_0000
    } else {
        value as u64
    };
    put(out, bits, 8);
}

/// Appends bytes.
pub fn put_bytes(out: &mut Vec<u8>, bytes: &[u8])
    ensures
        final(out)@ == old(out)@ + bytes@,
{
    let mut i: usize = 0;
    while i < bytes.len()
        invariant
            i <= bytes.len(),
            out@ == old(out)@ + bytes@.take(i as int),
        decreases bytes.len() - i,
    {
        out.push(bytes[i]);
        i += 1;
        assert(out@ =~= old(out)@ + bytes@.take(i as int));
    }
    assert(bytes@.take(i as int) =~= bytes@);
}

/// Reads a field of at most eight bytes.
pub fn get(data: &[u8], at: usize, n: usize) -> (r: u64)
    requires
        n <= 8,
        at + n <= data.len(),
    ensures
        r == field(data@, at as int, n as nat),
        r < span(n as nat),
{
    let mut value: u64 = 0;
    let mut i: usize = n;
    let ghost bytes = data@.subrange(at as int, at + n);
    assert(bytes.skip(n as int) =~= Seq::<u8>::empty());
    proof {
        reveal(pow);
        lemma_spans();
        assert(span((n - i) as nat) == 1);
    }
    while i > 0
        invariant
            i <= n <= 8,
            at + n <= data.len(),
            bytes == data@.subrange(at as int, at + n),
            value == le_value(bytes.skip(i as int)),
            value < span((n - i) as nat),
        decreases i,
    {
        i -= 1;
        proof {
            lemma_small_span((n - i) as nat);
            reveal(pow);
            assert(span((n - i) as nat) == 256 * span((n - i - 1) as nat));
            assert(bytes.skip(i as int).drop_first() =~= bytes.skip(i + 1));
        }
        value = data[at + i] as u64 + 256 * value;
    }
    assert(bytes.skip(0) =~= bytes);
    value
}

proof fn lemma_small_span(n: nat)
    requires
        n <= 8,
    ensures
        span(n) <= 0x1_0000_0000_0000_0000,
    decreases 8 - n,
{
    lemma_spans();
    if n < 8 {
        lemma_small_span(n + 1);
        reveal(pow);
        assert(span((n + 1) as nat) == 256 * span(n));
        lemma_pow_positive(256, n);
    }
}

/// Reads a signed number.
pub fn get_signed(data: &[u8], at: usize) -> (r: i64)
    requires
        at + 8 <= data.len(),
    ensures
        r == signed_field(data@, at as int),
{
    proof {
        lemma_spans();
    }
    let bits: u64 = get(data, at, 8);
    if bits >= 0x8000_0000_0000_0000 {
        (bits - 0x8000_0000_0000_0000) as i64 - i64::MAX - 1
    } else {
        bits as i64
    }
}

/// A signed number is given back by its bytes.
pub proof fn signed_numbers_survive(value: i64)
    ensures
        le_bytes(unsigned(value), 8).len() == 8,
        signed(le_value(le_bytes(unsigned(value), 8))) == value,
{
    lemma_spans();
    bytes_give_number_back(unsigned(value), 8);
}

/// The lowest byte of a number comes first, and the others follow as those of a number that
/// is smaller by 256.
pub proof fn low_bytes_come_first(value: nat, n: nat)
    requires
        n > 0,
    ensures
        le_bytes(value, n).len() == n,
        le_bytes(value, n)[0] == value % 256,
        le_bytes(value, n).drop_first() == le_bytes(value / 256, (n - 1) as nat),
    decreases n,
{
    if n > 1 {
        low_bytes_come_first(value / 256, (n - 1) as nat);
    }
    assert(le_bytes(value, n).drop_first() =~= le_bytes(value / 256, (n - 1) as nat));
}

/// Numbers below zero are stored as what they lack to the next power of two.
pub proof fn signs_are_kept_in_the_highest_bit(value: i64)
    ensures
        value >= 0 ==> unsigned(value) == value,
        value < 0 ==> unsigned(value) == 0x1_0000_0000_0000_0000 + value,
        unsigned(value) >= 0x8000_0000_0000_0000 <==> value < 0,
        signed(unsigned(value)) == value,
{
}

} // verus!
