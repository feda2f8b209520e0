use vstd::prelude::*;

verus! {

/// The ASCII decimal digits of `n`, most significant first.
pub open spec fn dec_digits(n: nat) -> Seq<u8>
    decreases n,
{
    if n < 10 {
        seq![(0x30 + n) as u8]
    } else {
        dec_digits(n / 10).push((0x30 + n % 10) as u8)
    }
}

/// Decimal digits are the bytes `'0'` to `'9'`; in particular none is a
/// null byte or a space.
pub proof fn lemma_dec_digits_are_digits(n: nat)
    ensures
        forall|i: int| 0 <= i < dec_digits(n).len() ==> 0x30 <= #[trigger] dec_digits(n)[i] <= 0x39,
        dec_digits(n).len() >= 1,
    decreases n,
{
    if n >= 10 {
        lemma_dec_digits_are_digits(n / 10);
    }
}

/// The decimal digits of `n`, as `dec_digits` describes.
pub fn dec_bytes(n: u64) -> (r: Vec<u8>)
    ensures
        r@ == dec_digits(n as nat),
    decreases n,
{
    if n < 10 {
        let mut v: Vec<u8> = Vec::new();
        v.push(0x30 + (n as u8));
        proof {
            assert(v@ =~= dec_digits(n as nat));
        }
        v
    } else {
        let mut v = dec_bytes(n / 10);
        v.push(0x30 + ((n % 10) as u8));
        v
    }
}

/// The ASCII octal digits of `n`, most significant first.
pub open spec fn oct_digits(n: nat) -> Seq<u8>
    decreases n,
{
    if n < 8 {
        seq![(0x30 + n) as u8]
    } else {
        oct_digits(n / 8).push((0x30 + n % 8) as u8)
    }
}

/// Octal digits are the bytes `'0'` to `'7'`.
pub proof fn lemma_oct_digits_are_digits(n: nat)
    ensures
        forall|i: int| 0 <= i < oct_digits(n).len() ==> 0x30 <= #[trigger] oct_digits(n)[i] <= 0x37,
        oct_digits(n).len() >= 1,
    decreases n,
{
    if n >= 8 {
        lemma_oct_digits_are_digits(n / 8);
    }
}

/// The octal digits of `n`, as `oct_digits` describes.
pub fn oct_bytes(n: u32) -> (r: Vec<u8>)
    ensures
        r@ == oct_digits(n as nat),
    decreases n,
{
    if n < 8 {
        let mut v: Vec<u8> = Vec::new();
        v.push(0x30 + (n as u8));
        proof {
            assert(v@ =~= oct_digits(n as nat));
        }
        v
    } else {
        let mut v = oct_bytes(n / 8);
        v.push(0x30 + ((n % 8) as u8));
        v
    }
}

pub open spec fn is_oct_digit(b: u8) -> bool {
    0x30 <= b <= 0x37
}

/// The number that a sequence of octal digit bytes denotes.
pub open spec fn oct_val_of(s: Seq<u8>) -> nat
    decreases s.len(),
{
    if s.len() == 0 {
        0
    } else {
        oct_val_of(s.drop_last()) * 8 + (s.last() - 0x30) as nat
    }
}

/// Formatting a number in octal and reading the digits back returns it.
pub proof fn lemma_oct_round_trip(n: nat)
    ensures
        oct_val_of(oct_digits(n)) == n,
        forall|i: int|
            0 <= i < oct_digits(n).len() ==> is_oct_digit(#[trigger] oct_digits(n)[i]),
    decreases n,
{
    lemma_oct_digits_are_digits(n);
    if n < 8 {
        assert(oct_digits(n).drop_last() =~= Seq::<u8>::empty());
        assert(oct_val_of(oct_digits(n)) == oct_val_of(Seq::<u8>::empty()) * 8 + (oct_digits(
            n,
        ).last() - 0x30) as nat);
        assert(oct_digits(n).last() == (0x30 + n) as u8);
        assert(oct_val_of(oct_digits(n)) == n);
    } else {
        lemma_oct_round_trip(n / 8);
        assert(oct_digits(n).drop_last() =~= oct_digits(n / 8));
        assert(oct_val_of(oct_digits(n)) == oct_val_of(oct_digits(n / 8)) * 8 + (oct_digits(
            n,
        ).last() - 0x30) as nat);
        assert(oct_digits(n).last() == (0x30 + n % 8) as u8);
        assert(oct_val_of(oct_digits(n)) == (n / 8) * 8 + n % 8);
        assert((n / 8) * 8 + n % 8 == n) by (nonlinear_arith);
    }
}

/// Reads a number from octal digit bytes; reports failure on an empty
/// sequence, a byte that is no octal digit, or a value above `u32`.
pub fn parse_oct(s: &[u8]) -> (r: Option<u32>)
    ensures
        match r {
            Some(v) => s@.len() > 0 && (forall|i: int| 0 <= i < s@.len() ==> is_oct_digit(s@[i]))
                && v as nat == oct_val_of(s@),
            None => s@.len() == 0 || (exists|i: int| 0 <= i < s@.len() && !is_oct_digit(s@[i]))
                || oct_val_of(s@) > u32::MAX,
        },
{
    if s.len() == 0 {
        return None;
    }
    let mut acc: u32 = 0;
    let mut i: usize = 0;
    while i < s.len()
        invariant
            0 <= i <= s@.len(),
            forall|j: int| 0 <= j < i ==> is_oct_digit(s@[j]),
            acc as nat == oct_val_of(s@.subrange(0, i as int)),
        decreases s@.len() - i,
    {
        let b = s[i];
        if !(0x30 <= b && b <= 0x37) {
            return None;
        }
        let d = (b - 0x30) as u32;
        if acc > (u32::MAX - d) / 8 {
            proof {
                lemma_oct_prefix_monotone(s@, i as int + 1);
                assert(s@.subrange(0, i as int + 1).drop_last() =~= s@.subrange(0, i as int));
            }
            return None;
        }
        acc = acc * 8 + d;
        i += 1;
        proof {
            assert(s@.subrange(0, i as int).drop_last() =~= s@.subrange(0, i as int - 1));
        }
    }
    proof {
        assert(s@.subrange(0, s@.len() as int) =~= s@);
    }
    Some(acc)
}

/// A longer digit string never denotes a smaller number.
proof fn lemma_oct_prefix_monotone(s: Seq<u8>, i: int)
    requires
        0 <= i <= s.len(),
    ensures
        oct_val_of(s.subrange(0, i)) <= oct_val_of(s),
    decreases s.len() - i,
{
    if i == s.len() {
        assert(s.subrange(0, i) =~= s);
    } else {
        lemma_oct_prefix_monotone(s.drop_last(), i);
        assert(s.drop_last().subrange(0, i) =~= s.subrange(0, i));
    }
}

/// The index of the first `b` in `data`, or the length if there is none.
pub open spec fn first_pos_of(data: Seq<u8>, b: u8) -> int
    decreases data.len(),
{
    if data.len() == 0 {
        0
    } else if data[0] == b {
        0
    } else {
        1 + first_pos_of(data.drop_first(), b)
    }
}

/// Pins `first_pos_of` to a witness: the index of a `b` with none before
/// it, or the length when there is none at all.
pub proof fn lemma_first_pos_at(data: Seq<u8>, b: u8, i: int)
    requires
        0 <= i <= data.len(),
        i < data.len() ==> data[i] == b,
        forall|j: int| 0 <= j < i ==> data[j] != b,
        i == data.len() ==> forall|j: int| 0 <= j < data.len() ==> data[j] != b,
    ensures
        first_pos_of(data, b) == i,
    decreases data.len(),
{
    if data.len() > 0 && data[0] != b {
        lemma_first_pos_at(data.drop_first(), b, i - 1);
    }
}

/// Byte-wise lexicographic order: `a` at or before `b`.
pub open spec fn bytes_le(a: Seq<u8>, b: Seq<u8>) -> bool
    decreases a.len(),
{
    if a.len() == 0 {
        true
    } else if b.len() == 0 {
        false
    } else if a[0] < b[0] {
        true
    } else if a[0] > b[0] {
        false
    } else {
        bytes_le(a.drop_first(), b.drop_first())
    }
}

/// Byte-wise order is total: of any two sequences, one is at or before the
/// other.
pub proof fn lemma_bytes_le_total(a: Seq<u8>, b: Seq<u8>)
    ensures
        bytes_le(a, b) || bytes_le(b, a),
    decreases a.len(),
{
    if a.len() > 0 && b.len() > 0 && a[0] == b[0] {
        lemma_bytes_le_total(a.drop_first(), b.drop_first());
    }
}

/// Byte-wise order is transitive.
pub proof fn lemma_bytes_le_trans(a: Seq<u8>, b: Seq<u8>, c: Seq<u8>)
    requires
        bytes_le(a, b),
        bytes_le(b, c),
    ensures
        bytes_le(a, c),
    decreases a.len(),
{
    if a.len() > 0 && b.len() > 0 && c.len() > 0 && a[0] == b[0] && b[0] == c[0] {
        lemma_bytes_le_trans(a.drop_first(), b.drop_first(), c.drop_first());
    }
}

/// Whether `a` comes at or before `b` in byte-wise order, as `bytes_le`
/// describes.
pub fn bytes_le_exec(a: &[u8], b: &[u8]) -> (r: bool)
    ensures
        r == bytes_le(a@, b@),
{
    let alen = a.len();
    let blen = b.len();
    let mut i: usize = 0;
    proof {
        assert(a@.skip(0) =~= a@);
        assert(b@.skip(0) =~= b@);
    }
    loop
        invariant
            0 <= i <= alen,
            i <= blen,
            alen == a@.len(),
            blen == b@.len(),
            forall|j: int| 0 <= j < i ==> a@[j] == b@[j],
            bytes_le(a@, b@) == bytes_le(a@.skip(i as int), b@.skip(i as int)),
        ensures
            bytes_le(a@, b@) == ({
                if i == alen {
                    true
                } else if i == blen {
                    false
                } else {
                    a@[i as int] < b@[i as int]
                }
            }),
        decreases alen - i,
    {
        if i == alen || i == blen {
            break;
        }
        if a[i] != b[i] {
            proof {
                assert(a@.skip(i as int)[0] == a@[i as int]);
                assert(b@.skip(i as int)[0] == b@[i as int]);
            }
            break;
        }
        proof {
            assert(a@.skip(i as int).drop_first() =~= a@.skip(i as int + 1));
            assert(b@.skip(i as int).drop_first() =~= b@.skip(i as int + 1));
            assert(a@.skip(i as int)[0] == b@.skip(i as int)[0]);
        }
        i += 1;
    }
    if i == alen {
        true
    } else if i == blen {
        false
    } else {
        a[i] < b[i]
    }
}

/// The position of the first `b` in `data` at or after `from`, if any.
pub fn find_byte(data: &[u8], b: u8, from: usize) -> (r: Option<usize>)
    requires
        from <= data@.len(),
    ensures
        match r {
            Some(i) => from <= i < data@.len() && data@[i as int] == b && forall|j: int|
                from <= j < i ==> data@[j] != b,
            None => forall|j: int| from <= j < data@.len() ==> data@[j] != b,
        },
{
    let mut i: usize = from;
    while i < data.len()
        invariant
            from <= i <= data@.len(),
            forall|j: int| from <= j < i ==> data@[j] != b,
        decreases data@.len() - i,
    {
        if data[i] == b {
            return Some(i);
        }
        i += 1;
    }
    None
}

/// Appends a copy of `src` to `dst`.
pub fn push_bytes(dst: &mut Vec<u8>, src: &[u8])
    ensures
        final(dst)@ == old(dst)@ + src@,
{
    let mut i: usize = 0;
    while i < src.len()
        invariant
            0 <= i <= src@.len(),
            dst@ == old(dst)@ + src@.subrange(0, i as int),
        decreases src@.len() - i,
    {
        dst.push(src[i]);
        proof {
            assert(old(dst)@ + src@.subrange(0, i as int + 1) =~= dst@);
        }
        i += 1;
    }
    proof {
        assert(src@.subrange(0, src@.len() as int) =~= src@);
    }
}

/// A copy of `data[from..to]`.
pub fn bytes_range(data: &[u8], from: usize, to: usize) -> (r: Vec<u8>)
    requires
        from <= to <= data@.len(),
    ensures
        r@ == data@.subrange(from as int, to as int),
{
    let s = vstd::slice::slice_subrange(data, from, to);
    vstd::slice::slice_to_vec(s)
}

/// Reads a big-endian `u32` out of four bytes.
pub open spec fn be_u32_of(s: Seq<u8>) -> nat {
    ((s[0] as nat) * 0x1000000 + (s[1] as nat) * 0x10000 + (s[2] as nat) * 0x100 + (
    s[3] as nat))
}

/// The four big-endian bytes of a `u32`, most significant first.
pub open spec fn u32_be_bytes(v: u32) -> Seq<u8> {
    seq![
        (v / 0x1000000 % 0x100) as u8,
        (v / 0x10000 % 0x100) as u8,
        (v / 0x100 % 0x100) as u8,
        (v % 0x100) as u8,
    ]
}

/// Reads a big-endian `u64` out of eight bytes.
pub open spec fn be_u64_of(s: Seq<u8>) -> nat {
    be_u32_of(s.subrange(0, 4)) * 0x100000000 + be_u32_of(s.subrange(4, 8))
}

/// The eight big-endian bytes of a `u64`, most significant first.
pub open spec fn u64_be_bytes(v: u64) -> Seq<u8> {
    u32_be_bytes((v / 0x100000000) as u32) + u32_be_bytes((v % 0x100000000) as u32)
}

/// Appends the four big-endian bytes of `v` to `dst`.
pub fn push_u32_be(dst: &mut Vec<u8>, v: u32)
    ensures
        final(dst)@ == old(dst)@ + u32_be_bytes(v),
{
    dst.push((v >> 24) as u8);
    dst.push((v >> 16) as u8);
    dst.push((v >> 8) as u8);
    dst.push(v as u8);
    proof {
        assert((v >> 24) as u8 == (v / 0x1000000 % 0x100) as u8) by (bit_vector);
        assert((v >> 16) as u8 == (v / 0x10000 % 0x100) as u8) by (bit_vector);
        assert((v >> 8) as u8 == (v / 0x100 % 0x100) as u8) by (bit_vector);
        assert(v as u8 == (v % 0x100) as u8) by (bit_vector);
        assert(dst@ =~= old(dst)@ + u32_be_bytes(v));
    }
}

/// Appends the eight big-endian bytes of `v` to `dst`.
pub fn push_u64_be(dst: &mut Vec<u8>, v: u64)
    ensures
        final(dst)@ == old(dst)@ + u64_be_bytes(v),
{
    let hi = (v >> 32) as u32;
    let lo = v as u32;
    proof {
        assert((v >> 32) as u32 == (v / 0x100000000) as u32) by (bit_vector);
        assert(v as u32 == (v % 0x100000000) as u32) by (bit_vector);
    }
    push_u32_be(dst, hi);
    push_u32_be(dst, lo);
    proof {
        assert(dst@ =~= old(dst)@ + u64_be_bytes(v));
    }
}

/// Reads the big-endian `u32` at `at`, as `be_u32_of` describes.
pub fn read_u32_be(data: &[u8], at: usize) -> (r: u32)
    requires
        at + 4 <= data@.len(),
    ensures
        r as nat == be_u32_of(data@.subrange(at as int, at as int + 4)),
{
    let b0 = data[at] as u32;
    let b1 = data[at + 1] as u32;
    let b2 = data[at + 2] as u32;
    let b3 = data[at + 3] as u32;
    b0 * 0x1000000 + b1 * 0x10000 + b2 * 0x100 + b3
}

/// Reads the big-endian `u64` at `at`, as `be_u64_of` describes.
pub fn read_u64_be(data: &[u8], at: usize) -> (r: u64)
    requires
        at + 8 <= data@.len(),
    ensures
        r as nat == be_u64_of(data@.subrange(at as int, at as int + 8)),
{
    let n = data.len();
    assert(at + 8 <= n);
    let hi = read_u32_be(data, at) as u64;
    let lo = read_u32_be(data, at + 4) as u64;
    proof {
        assert(data@.subrange(at as int, at as int + 8).subrange(0, 4) =~= data@.subrange(
            at as int,
            at as int + 4,
        ));
        assert(data@.subrange(at as int, at as int + 8).subrange(4, 8) =~= data@.subrange(
            at as int + 4,
            at as int + 8,
        ));
    }
    hi * 0x100000000 + lo
}

/// Writing a `u32` big-endian and reading it back returns it.
pub proof fn lemma_u32_be_round_trip(v: u32)
    ensures
        u32_be_bytes(v).len() == 4,
        be_u32_of(u32_be_bytes(v)) == v as nat,
{
}

/// Writing a `u64` big-endian and reading it back returns it.
#[verifier::rlimit(50)]
pub proof fn lemma_u64_be_round_trip(v: u64)
    ensures
        u64_be_bytes(v).len() == 8,
        be_u64_of(u64_be_bytes(v)) == v as nat,
{
    assert(u64_be_bytes(v).subrange(0, 4) =~= u32_be_bytes((v / 0x100000000) as u32));
    assert(u64_be_bytes(v).subrange(4, 8) =~= u32_be_bytes((v % 0x100000000) as u32));
}

} // verus!
