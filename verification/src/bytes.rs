//! Numbers and byte strings as they stand on the wire.
use vstd::prelude::*;

verus! {

// ---- little-endian numbers ----------------------------------------------------------

/// The low `k` bytes of `n`, least significant first.
pub open spec fn le_bytes(n: nat, k: nat) -> Seq<u8>
    decreases k,
{
    if k == 0 {
        Seq::empty()
    } else {
        seq![(n % 256) as u8] + le_bytes(n / 256, (k - 1) as nat)
    }
}

/// The number that `s` writes least significant byte first.
pub open spec fn le_value(s: Seq<u8>) -> nat
    decreases s.len(),
{
    if s.len() == 0 {
        0
    } else {
        (s[0] as nat) + 256 * le_value(s.skip(1))
    }
}

/// `256` to the power `k`.
pub open spec fn pow256(k: nat) -> nat
    decreases k,
{
    if k == 0 {
        1
    } else {
        256 * pow256((k - 1) as nat)
    }
}

/// The powers of 256 that the wire formats need.
pub proof fn lemma_pow256()
    ensures
        pow256(0) == 1,
        pow256(1) == 0x100,
        pow256(2) == 0x1_0000,
        pow256(4) == 0x1_0000_0000,
        pow256(8) == 0x1_0000_0000_0000_0000,
{
    reveal_with_fuel(pow256, 9);
}

/// There are `k` bytes.
pub proof fn lemma_le_bytes_len(n: nat, k: nat)
    ensures
        le_bytes(n, k).len() == k,
    decreases k,
{
    if k > 0 {
        lemma_le_bytes_len(n / 256, (k - 1) as nat);
    }
}

/// Reading `k` bytes gives a number below `256` to the power `k`.
pub proof fn lemma_le_value_bound(s: Seq<u8>)
    ensures
        le_value(s) < pow256(s.len()),
    decreases s.len(),
{
    if s.len() > 0 {
        lemma_le_value_bound(s.skip(1));
    }
}

/// Reading back what was written gives the number, where it fits.
pub proof fn lemma_le_read_back(n: nat, k: nat)
    requires
        n < pow256(k),
    ensures
        le_value(le_bytes(n, k)) == n,
    decreases k,
{
    if k > 0 {
        assert(n / 256 < pow256((k - 1) as nat));
        lemma_le_read_back(n / 256, (k - 1) as nat);
        let s = le_bytes(n, k);
        assert(s.skip(1) == le_bytes(n / 256, (k - 1) as nat));
        assert(s[0] == (n % 256) as u8);
    }
}

/// Appends the low `k` bytes of `n`, least significant first.
pub fn push_le(buf: &mut Vec<u8>, n: u64, k: usize)
    ensures
        final(buf)@ == old(buf)@ + le_bytes(n as nat, k as nat),
{
    let mut rest: u64 = n;
    let mut i: usize = 0;
    assert(buf@ + le_bytes(n as nat, k as nat) == old(buf)@ + le_bytes(n as nat, k as nat));
    while i < k
        invariant
            i <= k,
            buf@ + le_bytes(rest as nat, (k - i) as nat) == old(buf)@ + le_bytes(
                n as nat,
                k as nat,
            ),
        decreases k - i,
    {
        let b: u8 = (rest % 256) as u8;
        assert(le_bytes(rest as nat, (k - i) as nat) == seq![b] + le_bytes(
            (rest / 256) as nat,
            (k - i - 1) as nat,
        ));
        assert(buf@ + (seq![b] + le_bytes((rest / 256) as nat, (k - i - 1) as nat)) == buf@.push(b)
            + le_bytes((rest / 256) as nat, (k - i - 1) as nat));
        buf.push(b);
        rest = rest / 256;
        i = i + 1;
    }
    assert(buf@ + Seq::<u8>::empty() == buf@);
}

/// The number in the eight or fewer bytes of `data` from `a` up to `b`, least significant
/// first.
pub fn le_at(data: &[u8], a: usize, b: usize) -> (r: u64)
    requires
        a <= b <= data.len(),
        b - a <= 8,
    ensures
        r == le_value(data@.subrange(a as int, b as int)),
        r < pow256((b - a) as nat),
{
    let mut r: u64 = 0;
    let mut i: usize = b;
    proof {
        assert(data@.subrange(b as int, b as int).len() == 0);
        lemma_pow256();
    }
    while i > a
        invariant
            a <= i <= b <= data.len(),
            b - a <= 8,
            r == le_value(data@.subrange(i as int, b as int)),
            r < pow256((b - i) as nat),
        decreases i - a,
    {
        proof {
            let t = data@.subrange(i - 1, b as int);
            assert(t.skip(1) == data@.subrange(i as int, b as int));
            assert(t[0] == data@[i - 1]);
            lemma_le_value_bound(t);
            lemma_pow256_mono((b - i + 1) as nat, 8);
            lemma_pow256();
        }
        i = i - 1;
        r = (data[i] as u64) + 256 * r;
    }
    r
}

/// A higher power is not smaller.
pub proof fn lemma_pow256_mono(j: nat, k: nat)
    requires
        j <= k,
    ensures
        pow256(j) <= pow256(k),
    decreases k,
{
    if j < k {
        lemma_pow256_mono(j, (k - 1) as nat);
    }
}

/// A signed 32-bit number as the unsigned number with the same bytes.
pub open spec fn unsigned32(v: int) -> nat {
    if v >= 0 {
        v as nat
    } else {
        (v + 0x1_0000_0000) as nat
    }
}

/// The signed 32-bit number with the bytes of `n`.
pub open spec fn signed32(n: int) -> int {
    if n < 0x8000_0000 {
        n
    } else {
        n - 0x1_0000_0000
    }
}

/// The unsigned number with the bytes of `v`.
pub fn to_unsigned32(v: i32) -> (r: u32)
    ensures
        r == unsigned32(v as int),
{
    if v >= 0 {
        v as u32
    } else {
        (v as i64 + 0x1_0000_0000) as u32
    }
}

/// The signed number with the bytes of `n`.
pub fn to_signed32(n: u32) -> (r: i32)
    ensures
        r == signed32(n as int),
{
    if n < 0x8000_0000 {
        n as i32
    } else {
        (n as i64 - 0x1_0000_0000) as i32
    }
}

/// The bytes of a port number, most significant first.
pub open spec fn be16(n: u16) -> Seq<u8> {
    seq![(n / 256) as u8, (n % 256) as u8]
}

/// Appends the bytes of `n`, most significant first.
pub fn push_be16(buf: &mut Vec<u8>, n: u16)
    ensures
        final(buf)@ == old(buf)@ + be16(n),
{
    buf.push((n / 256) as u8);
    buf.push((n % 256) as u8);
}

/// The number in two bytes, most significant first.
pub open spec fn be16_value(hi: u8, lo: u8) -> u16 {
    (hi * 256 + lo) as u16
}

/// The number in two bytes, most significant first.
pub fn from_be16(hi: u8, lo: u8) -> (r: u16)
    ensures
        r == be16_value(hi, lo),
{
    hi as u16 * 256 + lo as u16
}

// ---- CompactSize ----------------------------------------------------------------------

/// Why a message could not be read.
#[derive(Clone, Copy, Debug, PartialEq, Eq, Structural)]
pub enum WireError {
    /// The bytes end where a CompactSize should begin.
    VarintEof,
    /// The bytes end inside a fixed-size field.
    ReadEof,
    /// A `version` message ends inside its user agent.
    TruncatedUserAgent,
}

impl WireError {
    /// What to tell the user.
    pub fn message(&self) -> (r: &'static str)
        ensures
            r@ == (match *self {
                WireError::VarintEof => "varint: eof"@,
                WireError::ReadEof => "read: eof"@,
                WireError::TruncatedUserAgent => "version: truncated user agent"@,
            }),
    {
        match self {
            WireError::VarintEof => "varint: eof",
            WireError::ReadEof => "read: eof",
            WireError::TruncatedUserAgent => "version: truncated user agent",
        }
    }
}

/// `n` as a CompactSize.
pub open spec fn varint(n: u64) -> Seq<u8> {
    if n < 0xFD {
        seq![n as u8]
    } else if n <= 0xFFFF {
        seq![0xFDu8] + le_bytes(n as nat, 2)
    } else if n <= 0xFFFF_FFFF {
        seq![0xFEu8] + le_bytes(n as nat, 4)
    } else {
        seq![0xFFu8] + le_bytes(n as nat, 8)
    }
}

/// How many bytes follow the first byte of a CompactSize.
pub open spec fn varint_tail(first: u8) -> int {
    if first == 0xFF {
        8
    } else if first == 0xFE {
        4
    } else if first == 0xFD {
        2
    } else {
        0
    }
}

/// The CompactSize that begins at `pos`, with the position after it.
pub open spec fn varint_at(d: Seq<u8>, pos: int) -> Option<(u64, int)> {
    if !(0 <= pos < d.len()) {
        None
    } else {
        let k = varint_tail(d[pos]);
        if k == 0 {
            Some((d[pos] as u64, pos + 1))
        } else if pos + 1 + k > d.len() {
            None
        } else {
            Some((le_value(d.subrange(pos + 1, pos + 1 + k)) as u64, pos + 1 + k))
        }
    }
}

/// Appends `n` as a CompactSize.
pub fn write_varint(buf: &mut Vec<u8>, n: u64)
    ensures
        final(buf)@ == old(buf)@ + varint(n),
{
    let ghost start = buf@;
    if n < 0xFD {
        buf.push(n as u8);
    } else if n <= 0xFFFF {
        buf.push(0xFD);
        push_le(buf, n, 2);
        assert(start.push(0xFDu8) + le_bytes(n as nat, 2) == start + (seq![0xFDu8] + le_bytes(
            n as nat,
            2,
        )));
    } else if n <= 0xFFFF_FFFF {
        buf.push(0xFE);
        push_le(buf, n, 4);
        assert(start.push(0xFEu8) + le_bytes(n as nat, 4) == start + (seq![0xFEu8] + le_bytes(
            n as nat,
            4,
        )));
    } else {
        buf.push(0xFF);
        push_le(buf, n, 8);
        assert(start.push(0xFFu8) + le_bytes(n as nat, 8) == start + (seq![0xFFu8] + le_bytes(
            n as nat,
            8,
        )));
    }
}

/// Reads the CompactSize at `pos` and moves `pos` behind it.
pub fn read_varint(data: &[u8], pos: &mut usize) -> (r: Result<u64, WireError>)
    ensures
        match varint_at(data@, *old(pos) as int) {
            Some((n, p)) => r == Ok::<u64, WireError>(n) && *final(pos) == p && p <= data.len(),
            None => if *old(pos) < data.len() {
                r == Err::<u64, WireError>(WireError::ReadEof) && *final(pos) == *old(pos) + 1
            } else {
                r == Err::<u64, WireError>(WireError::VarintEof) && *final(pos) == *old(pos)
            },
        },
{
    let at: usize = *pos;
    if at >= data.len() {
        return Err(WireError::VarintEof);
    }
    let first: u8 = data[at];
    *pos = at + 1;
    let k: usize = if first == 0xFF {
        8
    } else if first == 0xFE {
        4
    } else if first == 0xFD {
        2
    } else {
        0
    };
    if k == 0 {
        return Ok(first as u64);
    }
    if k > data.len() - (at + 1) {
        return Err(WireError::ReadEof);
    }
    let n = le_at(data, at + 1, at + 1 + k);
    *pos = at + 1 + k;
    Ok(n)
}

/// Reading a CompactSize that was written gives the number back and stops right behind it,
/// whatever stands before and after it.
pub proof fn law_varint_read_back(before: Seq<u8>, n: u64, after: Seq<u8>)
    ensures
        varint_at(before + varint(n) + after, before.len() as int) == Some(
            (n, (before.len() + varint(n).len()) as int),
        ),
{
    let d = before + varint(n) + after;
    let p = before.len() as int;
    lemma_pow256();
    assert(d[p] == varint(n)[0]);
    if n >= 0xFD {
        let k: nat = if n <= 0xFFFF {
            2
        } else if n <= 0xFFFF_FFFF {
            4
        } else {
            8
        };
        lemma_le_bytes_len(n as nat, k);
        lemma_le_read_back(n as nat, k);
        assert(d.subrange(p + 1, p + 1 + k) == le_bytes(n as nat, k));
    }
}

/// Reads `N` bytes at `pos` and moves `pos` behind them.
pub fn read_array<const N: usize>(data: &[u8], pos: &mut usize) -> (r: Result<[u8; N], WireError>)
    ensures
        match r {
            Ok(a) => *old(pos) + N <= data.len() && a@ == data@.subrange(
                *old(pos) as int,
                *old(pos) + N,
            ) && *final(pos) == *old(pos) + N,
            Err(e) => *old(pos) + N > data.len() && e == WireError::ReadEof && *final(pos) == *old(
                pos,
            ),
        },
{
    let at: usize = *pos;
    if at > data.len() || N > data.len() - at {
        return Err(WireError::ReadEof);
    }
    let mut out: [u8; N] = [0u8;N];
    let mut i: usize = 0;
    while i < N
        invariant
            i <= N,
            at + N <= data.len(),
            forall|j: int| 0 <= j < i ==> out@[j] == data@[at + j],
        decreases N - i,
    {
        out[i] = data[at + i];
        i = i + 1;
    }
    assert(out@ == data@.subrange(at as int, at + N));
    *pos = at + N;
    Ok(out)
}

/// The bytes of `data` from `a` up to `b`.
pub fn sub_bytes(data: &[u8], a: usize, b: usize) -> (r: Vec<u8>)
    requires
        a <= b <= data.len(),
    ensures
        r@ == data@.subrange(a as int, b as int),
{
    let mut r: Vec<u8> = Vec::new();
    let mut i: usize = a;
    while i < b
        invariant
            a <= i <= b <= data.len(),
            r@ == data@.subrange(a as int, i as int),
        decreases b - i,
    {
        r.push(data[i]);
        i = i + 1;
        assert(data@.subrange(a as int, i as int) == data@.subrange(a as int, i - 1).push(
            data@[i - 1],
        ));
    }
    r
}

/// Appends `data`.
pub fn push_all(buf: &mut Vec<u8>, data: &[u8])
    ensures
        final(buf)@ == old(buf)@ + data@,
{
    let mut i: usize = 0;
    assert(data@.take(0) == Seq::<u8>::empty());
    assert(buf@ + Seq::<u8>::empty() == buf@);
    while i < data.len()
        invariant
            i <= data.len(),
            buf@ == old(buf)@ + data@.take(i as int),
        decreases data.len() - i,
    {
        buf.push(data[i]);
        i = i + 1;
        assert(data@.take(i as int) == data@.take(i - 1).push(data@[i - 1]));
    }
    assert(data@.take(data@.len() as int) == data@);
}

/// The first 32 bytes of `v` as an array.
pub fn array32(v: &[u8]) -> (r: [u8; 32])
    requires
        v.len() == 32,
    ensures
        r@ == v@,
{
    let mut out: [u8; 32] = [0u8;32];
    let mut i: usize = 0;
    while i < 32
        invariant
            i <= 32,
            v.len() == 32,
            forall|j: int| 0 <= j < i ==> out@[j] == v@[j],
        decreases 32 - i,
    {
        out[i] = v[i];
        i = i + 1;
    }
    assert(out@ == v@);
    out
}

/// Whether two byte slices hold the same bytes.
pub fn same_bytes(a: &[u8], b: &[u8]) -> (r: bool)
    ensures
        r == (a@ == b@),
{
    if a.len() != b.len() {
        return false;
    }
    let mut i: usize = 0;
    while i < a.len()
        invariant
            i <= a.len(),
            a.len() == b.len(),
            forall|j: int| 0 <= j < i ==> a@[j] == b@[j],
        decreases a.len() - i,
    {
        if a[i] != b[i] {
            return false;
        }
        i = i + 1;
    }
    assert(a@ == b@);
    true
}

/// Two bytes in network order are the high one and the low one.
pub proof fn law_network_order(n: u16, hi: u8, lo: u8)
    ensures
        be16_value(hi, lo) == 256 * hi + lo,
        be16(n).len() == 2,
        256 * be16(n)[0] + be16(n)[1] == n,
        be16_value(be16(n)[0], be16(n)[1]) == n,
{
}

/// A number on the wire has its lowest byte first.
pub proof fn law_low_byte_first(a: u8, b: u8, c: u8, d: u8, s: Seq<u8>, n: nat)
    ensures
        le_value(seq![a, b]) == a + 256 * b,
        le_value(seq![a, b, c, d]) == a + 256 * b + 65536 * c + 16777216 * d,
        le_value(seq![a] + s) == a + 256 * le_value(s),
        le_bytes(n, 2) == seq![(n % 256) as u8, (n / 256 % 256) as u8],
        le_bytes(n, 4) == seq![
            (n % 256) as u8,
            (n / 256 % 256) as u8,
            (n / 65536 % 256) as u8,
            (n / 16777216 % 256) as u8,
        ],
{
    reveal_with_fuel(le_value, 5);
    reveal_with_fuel(le_bytes, 5);
    assert((seq![a] + s).skip(1) =~= s);
    assert(seq![a, b].skip(1) =~= seq![b]);
    assert(seq![b].skip(1) =~= Seq::<u8>::empty());
    assert(seq![a, b, c, d].skip(1) =~= seq![b, c, d]);
    assert(seq![b, c, d].skip(1) =~= seq![c, d]);
    assert(seq![c, d].skip(1) =~= seq![d]);
    assert(seq![d].skip(1) =~= Seq::<u8>::empty());
    assert(n / 256 / 256 == n / 65536);
    assert(n / 65536 / 256 == n / 16777216);
    assert(le_bytes(n, 2) =~= seq![(n % 256) as u8, (n / 256 % 256) as u8]);
    assert(le_bytes(n, 4) =~= seq![
        (n % 256) as u8,
        (n / 256 % 256) as u8,
        (n / 65536 % 256) as u8,
        (n / 16777216 % 256) as u8,
    ]);
}

/// A CompactSize is one byte below 253, and above that a mark and two, four or eight bytes, the
/// fewest that hold the number.
pub proof fn law_varint_form(n: u64)
    ensures
        n < 253 ==> varint(n) == seq![n as u8],
        253 <= n < 65536 ==> varint(n).len() == 3 && varint(n)[0] == 253 && varint(n)[1] + 256
            * varint(n)[2] == n,
        65536 <= n < 4294967296 ==> varint(n).len() == 5 && varint(n)[0] == 254 && varint(n)[1]
            + 256 * varint(n)[2] + 65536 * varint(n)[3] + 16777216 * varint(n)[4] == n,
        4294967296 <= n ==> varint(n).len() == 9 && varint(n)[0] == 255 && le_value(
            varint(n).skip(1),
        ) == n,
{
    lemma_pow256();
    lemma_le_bytes_len(n as nat, 2);
    lemma_le_bytes_len(n as nat, 4);
    lemma_le_bytes_len(n as nat, 8);
    law_low_byte_first(0, 0, 0, 0, Seq::empty(), n as nat);
    if n >= 4294967296 {
        lemma_le_read_back(n as nat, 8);
        assert(varint(n).skip(1) =~= le_bytes(n as nat, 8));
    }
}

/// Reading a CompactSize from where it stands.
pub proof fn lemma_varint_at(d: Seq<u8>, pos: int, n: u64, rest: Seq<u8>)
    requires
        0 <= pos <= d.len(),
        d.skip(pos) == varint(n) + rest,
    ensures
        varint_at(d, pos) == Some((n, pos + varint(n).len() as int)),
        d.skip(pos + varint(n).len()) == rest,
        pos + varint(n).len() <= d.len(),
{
    let before = d.take(pos);
    assert(d.skip(pos).len() == d.len() - pos);
    assert(d =~= before + d.skip(pos));
    assert(d =~= before + varint(n) + rest);
    law_varint_read_back(before, n, rest);
    assert(d.skip(pos + varint(n).len()) =~= rest);
}

/// A number with a sign on the wire is its two's complement.
pub proof fn law_signed(v: i32)
    ensures
        0 <= unsigned32(v as int) < 0x1_0000_0000,
        signed32(unsigned32(v as int) as int) == v,
        v >= 0 ==> unsigned32(v as int) == v,
        v == -1 ==> unsigned32(v as int) == 0xffff_ffff,
{
}

} // verus!
