//! Numbers in text: writing them, and reading them out of a longer text.
use vstd::prelude::*;

use crate::text::{code_of, string_of};

verus! {

/// The digit for `d`, lower case above nine.
pub open spec fn digit(d: nat) -> char {
    if d < 10 {
        (48 + d) as char
    } else {
        (87 + d) as char
    }
}

/// What `c` counts as a digit in base `b`, of either case.
pub open spec fn digit_value(c: char, b: nat) -> Option<nat> {
    let n = c as int;
    let d: int = if 48 <= n <= 57 {
        n - 48
    } else if 97 <= n <= 122 {
        n - 87
    } else if 65 <= n <= 90 {
        n - 55
    } else {
        99
    };
    if d < b {
        Some(d as nat)
    } else {
        None
    }
}

/// `n` in base `b`, without leading zeros.
pub open spec fn in_base(n: nat, b: nat) -> Seq<char>
    decreases n,
{
    if b < 2 || n < b {
        seq![digit(n)]
    } else {
        proof {
            assert(n / b < n) by (nonlinear_arith)
                requires
                    n >= b,
                    b >= 2,
            ;
        }
        in_base(n / b, b).push(digit(n % b))
    }
}

/// `n` in decimal.
pub open spec fn decimal(n: nat) -> Seq<char> {
    in_base(n, 10)
}

/// `n` in hexadecimal.
pub open spec fn hexadecimal(n: nat) -> Seq<char> {
    in_base(n, 16)
}

/// `s` with zeros in front of it, up to a width of `w`.
pub open spec fn padded(s: Seq<char>, w: nat) -> Seq<char>
    decreases w - s.len(),
{
    if s.len() >= w {
        s
    } else {
        padded(seq!['0'] + s, w)
    }
}

/// The digit for `d`.
pub fn digit_char(d: u32) -> (r: char)
    requires
        d < 16,
    ensures
        r == digit(d as nat),
{
    if d < 10 {
        (48 + d as u8) as char
    } else {
        (87 + d as u8) as char
    }
}

/// What `c` counts as a digit in base `b`.
pub fn digit_of(c: char, b: u32) -> (r: Option<u32>)
    requires
        b <= 36,
    ensures
        match digit_value(c, b as nat) {
            Some(d) => r == Some(d as u32) && d < b,
            None => r.is_none(),
        },
{
    let n: u32 = code_of(c);
    let d: u32 = if 48 <= n && n <= 57 {
        n - 48
    } else if 97 <= n && n <= 122 {
        n - 87
    } else if 65 <= n && n <= 90 {
        n - 55
    } else {
        99
    };
    if d < b {
        Some(d)
    } else {
        None
    }
}

/// The digits of `n` in base `b`.
pub fn base_chars(n: u64, b: u64) -> (r: Vec<char>)
    requires
        2 <= b <= 16,
    ensures
        r@ == in_base(n as nat, b as nat),
    decreases n,
{
    if n < b {
        let mut r: Vec<char> = Vec::new();
        r.push(digit_char(n as u32));
        assert(r@ == seq![digit(n as nat)]);
        r
    } else {
        assert(n / b < n) by (nonlinear_arith)
            requires
                n >= b,
                b >= 2,
        ;
        assert(n % b < b) by (nonlinear_arith)
            requires
                b >= 2,
        ;
        let mut r = base_chars(n / b, b);
        r.push(digit_char((n % b) as u32));
        r
    }
}

/// `n` in decimal.
pub fn decimal_text(n: u64) -> (r: String)
    ensures
        r@ == decimal(n as nat),
{
    let v = base_chars(n, 10);
    string_of(&v)
}

/// `n` in decimal, with zeros in front of it up to a width of `w`.
pub fn padded_chars(n: u64, w: usize) -> (r: Vec<char>)
    ensures
        r@ == padded(decimal(n as nat), w as nat),
{
    let mut r = base_chars(n, 10);
    while r.len() < w
        invariant
            padded(r@, w as nat) == padded(decimal(n as nat), w as nat),
        decreases w - r.len(),
    {
        let ghost was = r@;
        r.insert(0, '0');
        assert(r@ == seq!['0'] + was);
    }
    r
}

// ---- reading --------------------------------------------------------------------------

/// Where the run of base-`b` digits that begins at `pos` ends.
pub open spec fn run_end(s: Seq<char>, pos: int, b: nat) -> int
    decreases s.len() - pos,
{
    if 0 <= pos < s.len() && digit_value(s[pos], b).is_some() {
        run_end(s, pos + 1, b)
    } else {
        pos
    }
}

/// The number that the digits `s` write in base `b`.
pub open spec fn base_value(s: Seq<char>, b: nat) -> nat
    decreases s.len(),
{
    if s.len() == 0 {
        0
    } else {
        b * base_value(s.drop_last(), b) + digit_value(s.last(), b).unwrap_or(0)
    }
}

/// How a number may be written.
#[derive(Clone, Copy)]
pub struct NumberForm {
    /// Its base.
    pub base: u32,
    /// The most digits it may have; 0 for any number of them.
    pub max_digits: usize,
    /// Whether it may have leading zeros.
    pub zero_prefix: bool,
    /// The largest number.
    pub limit: u64,
}

impl NumberForm {
    /// The bases that the readers here use.
    pub open spec fn small(self) -> bool {
        2 <= self.base <= 16
    }
}

/// The number that begins at `pos`, with the position after its last digit.
pub open spec fn number_at(s: Seq<char>, pos: int, f: NumberForm) -> Option<(nat, int)> {
    let e = run_end(s, pos, f.base as nat);
    let n = base_value(s.subrange(pos, e), f.base as nat);
    if e == pos || (f.max_digits > 0 && e - pos > f.max_digits) || (!f.zero_prefix && e - pos > 1
        && s[pos] == '0') || n > f.limit {
        None
    } else {
        Some((n, e))
    }
}

/// A run of digits ends inside the text and holds digits only.
pub proof fn lemma_run_end(s: Seq<char>, pos: int, b: nat)
    requires
        0 <= pos <= s.len(),
    ensures
        pos <= run_end(s, pos, b) <= s.len(),
        forall|i: int| pos <= i < run_end(s, pos, b) ==> digit_value(#[trigger] s[i], b).is_some(),
        run_end(s, pos, b) < s.len() ==> digit_value(s[run_end(s, pos, b)], b).is_none(),
    decreases s.len() - pos,
{
    if pos < s.len() && digit_value(s[pos], b).is_some() {
        lemma_run_end(s, pos + 1, b);
    }
}

/// The run ends where the digits do.
pub proof fn lemma_run_end_is(s: Seq<char>, pos: int, b: nat, e: int)
    requires
        0 <= pos <= e <= s.len(),
        forall|i: int| pos <= i < e ==> digit_value(#[trigger] s[i], b).is_some(),
        e < s.len() ==> digit_value(s[e], b).is_none(),
    ensures
        run_end(s, pos, b) == e,
    decreases e - pos,
{
    if pos < e {
        assert(digit_value(s[pos], b).is_some());
        lemma_run_end_is(s, pos + 1, b, e);
    }
}

/// More digits do not make a number smaller.
proof fn lemma_base_value_grows(s: Seq<char>, b: nat, k: int)
    requires
        0 <= k <= s.len(),
        b >= 1,
    ensures
        base_value(s.take(k), b) <= base_value(s, b),
    decreases s.len(),
{
    if k < s.len() {
        lemma_base_value_grows(s.drop_last(), b, k);
        assert(s.drop_last().take(k) == s.take(k));
        let v = base_value(s.drop_last(), b);
        assert(b * v >= v) by (nonlinear_arith)
            requires
                b >= 1,
                v >= 0,
        ;
    } else {
        assert(s.take(k) == s);
    }
}

/// Reads the number at `pos`.
pub fn read_number(s: &[char], pos: usize, f: NumberForm) -> (r: Option<(u64, usize)>)
    requires
        pos <= s.len(),
        f.small(),
    ensures
        match number_at(s@, pos as int, f) {
            Some((n, e)) => r == Some((n as u64, e as usize)) && pos <= e <= s.len() && n <= f.limit,
            None => r.is_none(),
        },
{
    let mut e: usize = pos;
    let mut n: u64 = 0;
    proof {
        lemma_run_end(s@, pos as int, f.base as nat);
        assert(s@.subrange(pos as int, pos as int).len() == 0);
    }
    while e < s.len()
        invariant_except_break
            e <= run_end(s@, pos as int, f.base as nat),
        invariant
            f.small(),
            pos <= e <= s.len(),
            run_end(s@, pos as int, f.base as nat) <= s.len(),
            forall|i: int|
                pos <= i < run_end(s@, pos as int, f.base as nat) ==> digit_value(
                    #[trigger] s@[i],
                    f.base as nat,
                ).is_some(),
            run_end(s@, pos as int, f.base as nat) < s.len() ==> digit_value(
                s@[run_end(s@, pos as int, f.base as nat)],
                f.base as nat,
            ).is_none(),
            n == base_value(s@.subrange(pos as int, e as int), f.base as nat),
            n <= f.limit,
        ensures
            e == run_end(s@, pos as int, f.base as nat),
        decreases s.len() - e,
    {
        match digit_of(s[e], f.base) {
            None => {
                break ;
            },
            Some(d) => {
                assert(e < run_end(s@, pos as int, f.base as nat));
                assert(0 <= f.base as u128 * n as u128 <= 16 * 0xFFFF_FFFF_FFFF_FFFF) by (
                    nonlinear_arith)
                    requires
                        f.base <= 16,
                        n <= 0xFFFF_FFFF_FFFF_FFFF,
                ;
                let m: u128 = f.base as u128 * n as u128 + d as u128;
                proof {
                    let t = s@.subrange(pos as int, e + 1);
                    assert(t.drop_last() == s@.subrange(pos as int, e as int));
                    assert(t.last() == s@[e as int]);
                    assert(m == base_value(t, f.base as nat));
                    let all = s@.subrange(pos as int, run_end(s@, pos as int, f.base as nat));
                    assert(all.take(e + 1 - pos) == t);
                    lemma_base_value_grows(all, f.base as nat, e + 1 - pos);
                }
                if m > f.limit as u128 {
                    return None;
                }
                n = m as u64;
                e = e + 1;
            },
        }
    }
    if e == pos || (f.max_digits > 0 && e - pos > f.max_digits) || (!f.zero_prefix && e - pos > 1
        && s[pos] == '0') {
        return None;
    }
    Some((n, e))
}

/// The number that `k` nines write.
spec fn nines(k: nat) -> nat
    decreases k,
{
    if k == 0 {
        0
    } else {
        10 * nines((k - 1) as nat) + 9
    }
}

proof fn lemma_at_most_nines(s: Seq<char>)
    ensures
        base_value(s, 10) <= nines(s.len()),
    decreases s.len(),
{
    if s.len() > 0 {
        lemma_at_most_nines(s.drop_last());
    }
}

/// Eight decimal digits write a number below `10^8`.
pub proof fn lemma_digits_bound(s: Seq<char>)
    requires
        s.len() == 8,
    ensures
        base_value(s, 10) <= 99999999,
{
    lemma_at_most_nines(s);
    reveal_with_fuel(nines, 9);
}

/// The text of a number has a digit, only digits, and no leading zero unless it is zero.
pub proof fn lemma_in_base(n: nat, b: nat)
    requires
        2 <= b <= 16,
    ensures
        in_base(n, b).len() >= 1,
        forall|i: int|
            0 <= i < in_base(n, b).len() ==> digit_value(#[trigger] in_base(n, b)[i], b).is_some(),
        in_base(n, b).len() > 1 ==> in_base(n, b)[0] != '0',
        n > 0 ==> in_base(n, b)[0] != '0',
        base_value(in_base(n, b), b) == n,
    decreases n,
{
    if n < b {
        let s = in_base(n, b);
        assert(s == seq![digit(n)]);
        assert(s.drop_last().len() == 0);
        assert(s.last() == digit(n));
        assert(digit_value(digit(n), b) == Some(n));
        assert(base_value(s.drop_last(), b) == 0);
        assert(b * 0 == 0) by (nonlinear_arith);
    } else {
        assert(n / b < n && n / b >= 1) by (nonlinear_arith)
            requires
                n >= b,
                b >= 2,
        ;
        lemma_in_base(n / b, b);
        let d = n % b;
        assert(d < b) by (nonlinear_arith)
            requires
                b >= 2,
                d == n % b,
        ;
        let s = in_base(n, b);
        assert(s.drop_last() == in_base(n / b, b));
        assert(s.last() == digit(d));
        assert(digit_value(digit(d), b) == Some(d));
        assert(b * (n / b) + d == n) by (nonlinear_arith)
            requires
                b >= 2,
                d == n % b,
        ;
        assert forall|i: int| 0 <= i < s.len() implies digit_value(#[trigger] s[i], b).is_some() by {
            if i < s.len() - 1 {
                assert(s[i] == in_base(n / b, b)[i]);
            }
        }
    }
}

/// A number below a power of the base has no more digits than the exponent.
pub proof fn lemma_in_base_short(n: nat, b: nat)
    requires
        b == 10 || b == 16,
    ensures
        b == 10 && n < 256 ==> in_base(n, b).len() <= 3,
        b == 16 && n < 65536 ==> in_base(n, b).len() <= 4,
{
    reveal_with_fuel(in_base, 5);
}

/// Reading the text of a number out of a longer text gives the number, where what follows is
/// not a digit.
pub proof fn lemma_number_at_text(s: Seq<char>, pos: int, n: nat, f: NumberForm)
    requires
        f.small(),
        0 <= pos,
        pos + in_base(n, f.base as nat).len() <= s.len(),
        s.subrange(pos, pos + in_base(n, f.base as nat).len()) == in_base(n, f.base as nat),
        pos + in_base(n, f.base as nat).len() < s.len() ==> digit_value(
            s[pos + in_base(n, f.base as nat).len()],
            f.base as nat,
        ).is_none(),
        f.max_digits == 0 || in_base(n, f.base as nat).len() <= f.max_digits,
        n <= f.limit,
    ensures
        number_at(s, pos, f) == Some((n, pos + in_base(n, f.base as nat).len())),
{
    let t = in_base(n, f.base as nat);
    lemma_in_base(n, f.base as nat);
    assert forall|i: int| pos <= i < pos + t.len() implies digit_value(
        #[trigger] s[i],
        f.base as nat,
    ).is_some() by {
        assert(t[i - pos] == s[i]);
    }
    lemma_run_end_is(s, pos, f.base as nat, pos + t.len());
    assert(t[0] == s[pos]);
}

// ---- whole texts ------------------------------------------------------------------------

/// A number of any length in base `base`, up to `limit`.
pub open spec fn plain_form(base: u32, limit: u64) -> NumberForm {
    NumberForm { base, max_digits: 0, zero_prefix: true, limit }
}

/// The unsigned number that the whole of `s` writes in base `base`: an optional plus sign and
/// then one or more digits.
pub open spec fn unsigned_of(s: Seq<char>, base: u32, limit: u64) -> Option<nat> {
    let from: int = if s.len() > 0 && s[0] == '+' {
        1
    } else {
        0
    };
    match number_at(s, from, plain_form(base, limit)) {
        Some((n, e)) => if e == s.len() {
            Some(n)
        } else {
            None
        },
        None => None,
    }
}

/// Reads the unsigned number that the whole of `s` writes.
pub fn parse_unsigned(s: &[char], base: u32, limit: u64) -> (r: Option<u64>)
    requires
        2 <= base <= 16,
    ensures
        match unsigned_of(s@, base, limit) {
            Some(n) => r == Some(n as u64) && n <= limit,
            None => r.is_none(),
        },
{
    let from: usize = if s.len() > 0 && s[0] == '+' {
        1
    } else {
        0
    };
    match read_number(
        s,
        from,
        NumberForm { base, max_digits: 0, zero_prefix: true, limit },
    ) {
        Some((n, e)) => if e == s.len() {
            Some(n)
        } else {
            None
        },
        None => None,
    }
}

/// Reading the decimal text of a number gives the number back.
pub proof fn law_decimal_read_back(n: u64, limit: u64)
    requires
        n <= limit,
    ensures
        unsigned_of(decimal(n as nat), 10, limit) == Some(n as nat),
{
    let s = decimal(n as nat);
    lemma_in_base(n as nat, 10);
    assert(digit_value(s[0], 10).is_some());
    assert(s.subrange(0, s.len() as int) == s);
    lemma_number_at_text(s, 0, n as nat, plain_form(10, limit));
}

/// A number that fits in 64 bits with sign.
pub open spec fn fits64(n: int) -> bool {
    i64::MIN <= n <= i64::MAX
}

/// `n` in 64 bits with sign, where it fits.
pub fn narrow(n: i128) -> (r: Option<i64>)
    ensures
        match r {
            Some(m) => m == n && fits64(n as int),
            None => !fits64(n as int),
        },
{
    if -0x8000_0000_0000_0000 <= n && n <= 0x7fff_ffff_ffff_ffff {
        Some(n as i64)
    } else {
        None
    }
}

/// Reading the hexadecimal text of a number gives the number back.
pub proof fn law_hexadecimal_read_back(n: u64, limit: u64)
    requires
        n <= limit,
    ensures
        unsigned_of(hexadecimal(n as nat), 16, limit) == Some(n as nat),
{
    let s = hexadecimal(n as nat);
    lemma_in_base(n as nat, 16);
    assert(digit_value(s[0], 16).is_some());
    assert(s.subrange(0, s.len() as int) == s);
    lemma_number_at_text(s, 0, n as nat, plain_form(16, limit));
}

/// The digits of a base up to 16 are `0` to `9` and `a` to `f`, the letters in either case, each
/// with its value; nothing else is a digit.
pub proof fn law_digits(c: char, b: nat)
    requires
        b == 10 || b == 16,
    ensures
        '0' <= c <= '9' ==> digit_value(c, b) == Some((c as int - 48) as nat),
        b == 16 && 'a' <= c <= 'f' ==> digit_value(c, b) == Some((c as int - 87) as nat),
        b == 16 && 'A' <= c <= 'F' ==> digit_value(c, b) == Some((c as int - 55) as nat),
        digit_value(c, b).is_some() ==> '0' <= c <= '9' || (b == 16 && ('a' <= c <= 'f' || 'A' <= c
            <= 'F')),
{
}

/// The value of digits is ten times, or the base times, that of all but the last, and the last.
pub proof fn law_positional(s: Seq<char>, c: char, n: nat, d: nat)
    requires
        d < 10,
        n > 0,
        '0' <= c <= '9',
    ensures
        base_value(s.push(c), 10) == 10 * base_value(s, 10) + (c as int - 48),
        base_value(s.push(c), 16) == 16 * base_value(s, 16) + (c as int - 48),
        decimal(d) == seq![(48 + d) as char],
        decimal(10 * n + d) == decimal(n).push((48 + d) as char),
{
    assert(s.push(c).drop_last() =~= s);
    assert((10 * n + d) / 10 == n && (10 * n + d) % 10 == d);
}

/// A text with anything but digits in it, an empty one, and one whose value is too large is no
/// number; leading zeros and one plus sign are.
pub proof fn law_no_number(s: Seq<char>, limit: u64, i: int)
    ensures
        s.len() == 0 ==> unsigned_of(s, 10, limit).is_none(),
        0 <= i < s.len() && !('0' <= s[i] <= '9') && (i > 0 || s[0] != '+') ==> unsigned_of(
            s,
            10,
            limit,
        ).is_none(),
        s.len() > 0 && (forall|j: int| 0 <= j < s.len() ==> '0' <= #[trigger] s[j] <= '9')
            ==> unsigned_of(s, 10, limit) == (if base_value(s, 10) <= limit {
            Some(base_value(s, 10))
        } else {
            None
        }),
{
    let from: int = if s.len() > 0 && s[0] == '+' {
        1
    } else {
        0
    };
    lemma_run_end(s, from, 10);
    let e = run_end(s, from, 10);
    if 0 <= i < s.len() && !('0' <= s[i] <= '9') && (i > 0 || s[0] != '+') {
        if e == s.len() {
            assert(digit_value(s[i], 10).is_some());
        }
    }
    if s.len() > 0 && (forall|j: int| 0 <= j < s.len() ==> '0' <= #[trigger] s[j] <= '9') {
        assert('0' <= s[0] <= '9');
        if e < s.len() {
            assert('0' <= s[e] <= '9');
        }
        assert(s.subrange(0, s.len() as int) =~= s);
    }
}

} // verus!
