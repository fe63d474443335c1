//! Little-endian numbers in byte sequences.
use vstd::prelude::*;

verus! {

/// The number that `bytes` spell, least significant byte first.
pub open spec fn le(bytes: Seq<u8>) -> nat
    decreases bytes.len(),
{
    if bytes.len() == 0 {
        0
    } else {
        bytes[0] as nat + 256 * le(bytes.drop_first())
    }
}

/// `n` bytes of `value`, least significant first.
pub open spec fn le_bytes(value: nat, n: nat) -> Seq<u8>
    decreases n,
{
    if n == 0 {
        Seq::empty()
    } else {
        seq![(value % 256) as u8] + le_bytes(value / 256, (n - 1) as nat)
    }
}

/// The smallest number that `n` bytes do not hold.
pub open spec fn limit(n: nat) -> nat
    decreases n,
{
    if n == 0 {
        1
    } else {
        256 * limit((n - 1) as nat)
    }
}

pub proof fn lemma_le_limit(bytes: Seq<u8>)
    ensures
        le(bytes) < limit(bytes.len()),
    decreases bytes.len(),
{
    if bytes.len() > 0 {
        lemma_le_limit(bytes.drop_first());
    }
}

pub proof fn lemma_limits()
    ensures
        limit(1) == 0x100,
        limit(2) == 0x1_0000,
        limit(4) == 0x1_0000_0000,
        limit(8) == 0x1_0000_0000_0000_0000,
        forall|n: nat| n <= 8 ==> #[trigger] limit(n) <= 0x1_0000_0000_0000_0000,
{
    reveal_with_fuel(limit, 9);
}

/// Writing a number and reading it back gives the number.
pub proof fn le_bytes_round_trip(value: nat, n: nat)
    requires
        value < limit(n),
    ensures
        le_bytes(value, n).len() == n,
        le(le_bytes(value, n)) == value,
    decreases n,
{
    if n > 0 {
        le_bytes_round_trip(value / 256, (n - 1) as nat);
        let bytes = le_bytes(value, n);
        assert(bytes.drop_first() =~= le_bytes(value / 256, (n - 1) as nat));
    }
}

/// Reading a number and writing it back gives its bytes.
pub proof fn le_round_trip(bytes: Seq<u8>)
    ensures
        le_bytes(le(bytes), bytes.len()) == bytes,
    decreases bytes.len(),
{
    if bytes.len() > 0 {
        let rest = bytes.drop_first();
        le_round_trip(rest);
        assert(le(bytes) % 256 == bytes[0] && le(bytes) / 256 == le(rest));
        assert(seq![bytes[0]] + rest =~= bytes);
    } else {
        assert(le_bytes(le(bytes), bytes.len()) =~= bytes);
    }
}

/// The number in `bytes[at..at + n]`.
pub fn le_at(bytes: &[u8], at: usize, n: usize) -> (r: u64)
    requires
        n <= 8,
        at + n <= bytes@.len(),
    ensures
        r == le(bytes@.subrange(at as int, at + n)),
{
    let len: usize = bytes.len();
    let mut value: u64 = 0;
    let mut i: usize = n;
    assert(bytes@.subrange(at + n, at + n) =~= Seq::<u8>::empty());
    while i > 0
        invariant
            i <= n <= 8,
            at + n <= len,
            len == bytes@.len(),
            value == le(bytes@.subrange(at + i, at + n)),
        decreases i,
    {
        i -= 1;
        proof {
            let whole = bytes@.subrange(at + i, at + n);
            let rest = bytes@.subrange(at + i + 1, at + n);
            assert(whole.drop_first() =~= rest);
            lemma_le_limit(whole);
            lemma_limits();
        }
        value = bytes[at + i] as u64 + 256 * value;
    }
    value
}

/// The four-byte number at `at`.
pub fn u32_at(bytes: &[u8], at: usize) -> (r: u32)
    requires
        at + 4 <= bytes@.len(),
    ensures
        r == le(bytes@.subrange(at as int, at + 4)),
{
    let value = le_at(bytes, at, 4);
    proof {
        lemma_le_limit(bytes@.subrange(at as int, at + 4));
        lemma_limits();
    }
    value as u32
}

/// The eight-byte number at `at`.
pub fn u64_at(bytes: &[u8], at: usize) -> (r: u64)
    requires
        at + 8 <= bytes@.len(),
    ensures
        r == le(bytes@.subrange(at as int, at + 8)),
{
    le_at(bytes, at, 8)
}

/// Write the low `n` bytes of `value` at `at`, and nothing else.
pub fn put_le(bytes: &mut [u8], at: usize, n: usize, value: u64)
    requires
        n <= 8,
        at + n <= old(bytes)@.len(),
    ensures
        final(bytes)@.len() == old(bytes)@.len(),
        final(bytes)@.subrange(at as int, at + n) == le_bytes(value as nat, n as nat),
        forall|k: int|
            0 <= k < old(bytes)@.len() && !(at <= k < at + n) ==> final(bytes)@[k] == old(bytes)@[k],
{
    let len: usize = bytes.len();
    let mut rest: u64 = value;
    let mut i: usize = 0;
    let ghost original = bytes@;
    proof {
        assert(bytes@.subrange(at as int, at as int) + le_bytes(value as nat, n as nat) =~= le_bytes(
            value as nat,
            n as nat,
        ));
    }
    while i < n
        invariant
            i <= n <= 8,
            at + n <= len,
            len == bytes@.len(),
            bytes@.len() == original.len(),
            original == old(bytes)@,
            bytes@.subrange(at as int, at + i) + le_bytes(rest as nat, (n - i) as nat) == le_bytes(
                value as nat,
                n as nat,
            ),
            forall|k: int| 0 <= k < original.len() && !(at <= k < at + n) ==> bytes@[k] == original[k],
        decreases n - i,
    {
        let ghost before = bytes@;
        let ghost tail = le_bytes(rest as nat, (n - i) as nat);
        bytes[at + i] = (rest % 256) as u8;
        proof {
            let head = before.subrange(at as int, at + i);
            let next = le_bytes((rest / 256) as nat, (n - i - 1) as nat);
            assert(tail == seq![(rest % 256) as u8] + next);
            assert(bytes@.subrange(at as int, at + i + 1) + next =~= head + tail);
        }
        rest = rest / 256;
        i += 1;
    }
    proof {
        assert(bytes@.subrange(at as int, at + n) + le_bytes(rest as nat, 0) =~= bytes@.subrange(
            at as int,
            at + n,
        ));
    }
}

pub fn put_u32(bytes: &mut [u8], at: usize, value: u32)
    requires
        at + 4 <= old(bytes)@.len(),
    ensures
        final(bytes)@.len() == old(bytes)@.len(),
        final(bytes)@.subrange(at as int, at + 4) == le_bytes(value as nat, 4),
        forall|k: int|
            0 <= k < old(bytes)@.len() && !(at <= k < at + 4) ==> final(bytes)@[k] == old(bytes)@[k],
{
    put_le(bytes, at, 4, value as u64)
}

pub fn put_u64(bytes: &mut [u8], at: usize, value: u64)
    requires
        at + 8 <= old(bytes)@.len(),
    ensures
        final(bytes)@.len() == old(bytes)@.len(),
        final(bytes)@.subrange(at as int, at + 8) == le_bytes(value as nat, 8),
        forall|k: int|
            0 <= k < old(bytes)@.len() && !(at <= k < at + 8) ==> final(bytes)@[k] == old(bytes)@[k],
{
    put_le(bytes, at, 8, value)
}

/// Every byte is zero.
pub open spec fn blank(bytes: Seq<u8>) -> bool {
    forall|i: int| 0 <= i < bytes.len() ==> #[trigger] bytes[i] == 0
}

/// Whether `bytes[from..to]` are zero.
pub fn zero_between(bytes: &[u8], from: usize, to: usize) -> (r: bool)
    requires
        from <= to <= bytes@.len(),
    ensures
        r == blank(bytes@.subrange(from as int, to as int)),
{
    let mut i: usize = from;
    let ghost part = bytes@.subrange(from as int, to as int);
    while i < to
        invariant
            from <= i <= to <= bytes@.len(),
            part == bytes@.subrange(from as int, to as int),
            forall|k: int| 0 <= k < i - from ==> #[trigger] part[k] == 0,
        decreases to - i,
    {
        if bytes[i] != 0 {
            assert(part[i - from] != 0);
            return false;
        }
        i += 1;
    }
    true
}

/// Write `part` at `at`, and nothing else.
pub fn put_bytes(bytes: &mut Vec<u8>, at: usize, part: &[u8])
    requires
        at + part@.len() <= old(bytes)@.len(),
    ensures
        final(bytes)@.len() == old(bytes)@.len(),
        final(bytes)@.subrange(at as int, at + part@.len()) == part@,
        forall|k: int|
            0 <= k < old(bytes)@.len() && !(at <= k < at + part@.len()) ==> final(bytes)@[k]
                == old(bytes)@[k],
{
    let n: usize = part.len();
    let total: usize = bytes.len();
    let mut i: usize = 0;
    let ghost original = bytes@;
    while i < n
        invariant
            i <= n,
            n == part@.len(),
            at + n <= total,
            bytes@.len() == total,
            original == old(bytes)@,
            original.len() == total,
            forall|k: int| 0 <= k < i ==> bytes@[at + k] == part@[k],
            forall|k: int|
                0 <= k < original.len() && !(at <= k < at + i) ==> bytes@[k] == original[k],
        decreases n - i,
    {
        bytes.set(at + i, part[i]);
        i += 1;
    }
    assert(bytes@.subrange(at as int, at + n) =~= part@);
}

/// The number that a field of `n` bytes at `at` holds.
pub open spec fn field(bytes: Seq<u8>, at: int, n: int) -> nat {
    le(bytes.subrange(at, at + n))
}

/// A field that was written holds its number.
pub proof fn lemma_written(bytes: Seq<u8>, at: int, n: int, value: nat)
    requires
        0 <= at,
        0 <= n,
        at + n <= bytes.len(),
        bytes.subrange(at, at + n) == le_bytes(value, n as nat),
        value < limit(n as nat),
    ensures
        field(bytes, at, n) == value,
{
    le_bytes_round_trip(value, n as nat);
}

/// Zero bytes spell zero.
pub proof fn lemma_le_blank(bytes: Seq<u8>)
    requires
        blank(bytes),
    ensures
        le(bytes) == 0,
    decreases bytes.len(),
{
    if bytes.len() > 0 {
        assert(bytes[0] == 0);
        lemma_le_blank(bytes.drop_first());
    }
}

} // verus!
