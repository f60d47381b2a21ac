//! Text as sequences of characters: comparison, search, splitting, replacement, numbers.
use vstd::prelude::*;

verus! {

/// `String::push` appends one character.
pub assume_specification[ String::push ](s: &mut String, c: char)
    ensures
        final(s)@ == old(s)@.push(c),
;

// ---- whole strings --------------------------------------------------------------

/// The characters of `s`.
pub fn chars_of(s: &str) -> (v: Vec<char>)
    ensures
        v@ == s@,
{
    let mut v: Vec<char> = Vec::new();
    for c in it: s.chars()
        invariant
            v@ == s@.take(it.index()),
            it.seq() == s@,
    {
        v.push(c);
    }
    v
}

/// The string made of `v`.
pub fn string_of(v: &[char]) -> (s: String)
    ensures
        s@ == v@,
{
    let mut s: String = String::new();
    let mut i: usize = 0;
    while i < v.len()
        invariant
            i <= v.len(),
            s@ == v@.take(i as int),
        decreases v.len() - i,
    {
        s.push(v[i]);
        i = i + 1;
        assert(v@.take(i as int) == v@.take(i - 1).push(v@[i - 1]));
    }
    assert(v@.take(v@.len() as int) == v@);
    s
}

/// Whether two character slices hold the same characters.
pub fn same_chars(a: &[char], b: &[char]) -> (r: bool)
    ensures
        r == (a@ == b@),
{
    if a.len() != b.len() {
        return false;
    }
    let mut i: usize = 0;
    while i < a.len()
        invariant
            i <= a.len(),
            a.len() == b.len(),
            forall|j: int| 0 <= j < i ==> a@[j] == b@[j],
        decreases a.len() - i,
    {
        if a[i] != b[i] {
            return false;
        }
        i = i + 1;
    }
    assert(a@ == b@);
    true
}

/// Whether two strings are equal.
pub fn same_text(a: &str, b: &str) -> (r: bool)
    ensures
        r == (a@ == b@),
{
    let x = chars_of(a);
    let y = chars_of(b);
    same_chars(&x, &y)
}

/// `a` followed by `b`.
pub fn joined(a: &str, b: &str) -> (r: String)
    ensures
        r@ == a@ + b@,
{
    let mut r: String = a.to_owned();
    r.append(b);
    r
}

// ---- order ------------------------------------------------------------------------

/// Lexicographic order by code point.
pub open spec fn lex_less(a: Seq<char>, b: Seq<char>) -> bool
    decreases a.len(),
{
    if b.len() == 0 {
        false
    } else if a.len() == 0 {
        true
    } else if a[0] != b[0] {
        (a[0] as int) < (b[0] as int)
    } else {
        lex_less(a.skip(1), b.skip(1))
    }
}

/// Each entry of `s` lies strictly below every later one.
pub open spec fn ascending(s: Seq<Seq<char>>) -> bool {
    forall|i: int, j: int| 0 <= i < j < s.len() ==> #[trigger] lex_less(s[i], s[j])
}

/// Nothing lies below itself.
pub proof fn lemma_lex_irreflexive(a: Seq<char>)
    ensures
        !lex_less(a, a),
    decreases a.len(),
{
    if a.len() > 0 {
        lemma_lex_irreflexive(a.skip(1));
    }
}

/// Of two different texts one lies below the other.
pub proof fn lemma_lex_total(a: Seq<char>, b: Seq<char>)
    ensures
        a == b || lex_less(a, b) || lex_less(b, a),
    decreases a.len(),
{
    if a.len() > 0 && b.len() > 0 {
        if a[0] == b[0] {
            lemma_lex_total(a.skip(1), b.skip(1));
            if a.skip(1) == b.skip(1) {
                assert(a == seq![a[0]] + a.skip(1));
                assert(b == seq![b[0]] + b.skip(1));
                assert(a == b);
            }
        } else {
            assert(a[0] as int != b[0] as int);
        }
    } else if a.len() == 0 && b.len() == 0 {
        assert(a == b);
    }
}

/// The order is transitive.
pub proof fn lemma_lex_transitive(a: Seq<char>, b: Seq<char>, c: Seq<char>)
    requires
        lex_less(a, b),
        lex_less(b, c),
    ensures
        lex_less(a, c),
    decreases a.len(),
{
    if a.len() > 0 && b.len() > 0 && c.len() > 0 {
        if a[0] == b[0] && b[0] == c[0] {
            lemma_lex_transitive(a.skip(1), b.skip(1), c.skip(1));
        }
    }
}

/// Neither of two texts lies below the other at once.
pub proof fn lemma_lex_asymmetric(a: Seq<char>, b: Seq<char>)
    ensures
        !(lex_less(a, b) && lex_less(b, a)),
{
    if lex_less(a, b) && lex_less(b, a) {
        lemma_lex_transitive(a, b, a);
        lemma_lex_irreflexive(a);
    }
}

/// The code point of `c`.
pub fn code_of(c: char) -> (r: u32)
    ensures
        r == c as int,
{
    c as u32
}

/// Whether `a` lies below `b`.
pub fn chars_less(a: &[char], b: &[char]) -> (r: bool)
    ensures
        r == lex_less(a@, b@),
{
    let mut i: usize = 0;
    assert(a@.skip(0) == a@);
    assert(b@.skip(0) == b@);
    while i < a.len() && i < b.len()
        invariant
            i <= a.len(),
            i <= b.len(),
            lex_less(a@, b@) == lex_less(a@.skip(i as int), b@.skip(i as int)),
        decreases a.len() - i,
    {
        if a[i] != b[i] {
            return code_of(a[i]) < code_of(b[i]);
        }
        assert(a@.skip(i as int).skip(1) == a@.skip(i + 1));
        assert(b@.skip(i as int).skip(1) == b@.skip(i + 1));
        i = i + 1;
    }
    i < b.len()
}

/// Whether `a` lies below `b`.
pub fn text_less(a: &str, b: &str) -> (r: bool)
    ensures
        r == lex_less(a@, b@),
{
    let x = chars_of(a);
    let y = chars_of(b);
    chars_less(&x, &y)
}

// ---- search -----------------------------------------------------------------------

/// `p` stands in `s` at `i`.
pub open spec fn stands_at(s: Seq<char>, p: Seq<char>, i: int) -> bool {
    0 <= i && i + p.len() <= s.len() && s.subrange(i, i + p.len()) == p
}

/// `p` stands somewhere in `s`.
pub open spec fn has_text(s: Seq<char>, p: Seq<char>) -> bool {
    exists|i: int| stands_at(s, p, i)
}

/// `s` ends in `p`.
pub open spec fn ends_in(s: Seq<char>, p: Seq<char>) -> bool {
    stands_at(s, p, s.len() - p.len())
}

/// Whether `p` stands in `s` at `i`.
pub fn stands_here(s: &[char], p: &[char], i: usize) -> (r: bool)
    requires
        i <= s.len(),
    ensures
        r == stands_at(s@, p@, i as int),
{
    if p.len() > s.len() - i {
        return false;
    }
    let mut j: usize = 0;
    while j < p.len()
        invariant
            j <= p.len(),
            i + p.len() <= s.len(),
            forall|k: int| 0 <= k < j ==> s@[i + k] == p@[k],
        decreases p.len() - j,
    {
        if s[i + j] != p[j] {
            assert(s@.subrange(i as int, i + p.len())[j as int] != p@[j as int]);
            return false;
        }
        j = j + 1;
    }
    assert(s@.subrange(i as int, i + p.len()) == p@);
    true
}

/// Where `p` stands first in `s` at or after `from`.
pub fn find_from(s: &[char], p: &[char], from: usize) -> (r: Option<usize>)
    requires
        from <= s.len(),
    ensures
        match r {
            Some(i) => from <= i <= s.len() && stands_at(s@, p@, i as int)
                && forall|j: int| from <= j < i ==> !stands_at(s@, p@, j),
            None => forall|j: int| from <= j ==> !stands_at(s@, p@, j),
        },
{
    let mut i: usize = from;
    loop
        invariant
            from <= i <= s.len(),
            forall|j: int| from <= j < i ==> !stands_at(s@, p@, j),
        decreases s.len() - i,
    {
        if stands_here(s, p, i) {
            return Some(i);
        }
        if i == s.len() {
            return None;
        }
        i = i + 1;
    }
}

/// Whether `p` stands somewhere in `s`.
pub fn contains_text(s: &str, p: &str) -> (r: bool)
    ensures
        r == has_text(s@, p@),
{
    let x = chars_of(s);
    let y = chars_of(p);
    match find_from(&x, &y, 0) {
        Some(i) => {
            assert(stands_at(s@, p@, i as int));
            true
        },
        None => false,
    }
}

/// Whether `s` ends in `p`.
pub fn ends_with_text(s: &str, p: &str) -> (r: bool)
    ensures
        r == ends_in(s@, p@),
{
    let x = chars_of(s);
    let y = chars_of(p);
    if y.len() > x.len() {
        return false;
    }
    stands_here(&x, &y, x.len() - y.len())
}

/// Whether `s` begins with `p`.
pub fn starts_with_text(s: &str, p: &str) -> (r: bool)
    ensures
        r == stands_at(s@, p@, 0),
{
    let x = chars_of(s);
    let y = chars_of(p);
    stands_here(&x, &y, 0)
}

/// The first position of `c` in `s`, or the length of `s` where it does not occur.
pub open spec fn first_of(s: Seq<char>, c: char) -> int
    decreases s.len(),
{
    if s.len() == 0 || s[0] == c {
        0
    } else {
        1 + first_of(s.skip(1), c)
    }
}

/// `first_of` is a position in `s` or its end, and nothing before it is `c`.
pub proof fn lemma_first_of(s: Seq<char>, c: char)
    ensures
        0 <= first_of(s, c) <= s.len(),
        first_of(s, c) < s.len() ==> s[first_of(s, c)] == c,
        forall|j: int| 0 <= j < first_of(s, c) ==> s[j] != c,
    decreases s.len(),
{
    if s.len() > 0 && s[0] != c {
        lemma_first_of(s.skip(1), c);
        assert forall|j: int| 0 <= j < first_of(s, c) implies s[j] != c by {
            if j > 0 {
                assert(s.skip(1)[j - 1] == s[j]);
            }
        }
    }
}

/// The only position with that property is `first_of`.
pub proof fn lemma_first_of_is(s: Seq<char>, c: char, i: int)
    requires
        0 <= i <= s.len(),
        i < s.len() ==> s[i] == c,
        forall|j: int| 0 <= j < i ==> s[j] != c,
    ensures
        first_of(s, c) == i,
{
    lemma_first_of(s, c);
    let f = first_of(s, c);
    if f < i {
        assert(s[f] != c);
    }
    if i < f {
        assert(s[i] != c);
    }
}

/// Where `c` stands first in `s`; the length of `s` where it does not occur.
pub fn find_char(s: &[char], c: char) -> (r: usize)
    ensures
        r == first_of(s@, c),
        r <= s.len(),
        r < s.len() ==> s@[r as int] == c,
{
    let mut i: usize = 0;
    while i < s.len()
        invariant
            i <= s.len(),
            forall|j: int| 0 <= j < i ==> s@[j] != c,
        decreases s.len() - i,
    {
        if s[i] == c {
            proof {
                lemma_first_of_is(s@, c, i as int);
            }
            return i;
        }
        i = i + 1;
    }
    proof {
        lemma_first_of_is(s@, c, i as int);
    }
    i
}

/// The characters of `v` from `a` up to `b`.
pub fn part(v: &[char], a: usize, b: usize) -> (r: Vec<char>)
    requires
        a <= b <= v.len(),
    ensures
        r@ == v@.subrange(a as int, b as int),
{
    let mut r: Vec<char> = Vec::new();
    let mut i: usize = a;
    while i < b
        invariant
            a <= i <= b <= v.len(),
            r@ == v@.subrange(a as int, i as int),
        decreases b - i,
    {
        r.push(v[i]);
        i = i + 1;
        assert(v@.subrange(a as int, i as int) == v@.subrange(a as int, i - 1).push(v@[i - 1]));
    }
    r
}

// ---- splitting, trimming, replacing -----------------------------------------------

/// The pieces of `s` between the occurrences of `c`.
pub open spec fn pieces(s: Seq<char>, c: char) -> Seq<Seq<char>>
    decreases s.len(),
    via pieces_decreases
{
    let i = first_of(s, c);
    if i < s.len() {
        seq![s.take(i)] + pieces(s.skip(i + 1), c)
    } else {
        seq![s]
    }
}

#[via_fn]
proof fn pieces_decreases(s: Seq<char>, c: char) {
    lemma_first_of(s, c);
}

/// The pieces of `s` between the occurrences of `c`.
pub fn split_on(s: &[char], c: char) -> (r: Vec<Vec<char>>)
    ensures
        r@.len() == pieces(s@, c).len(),
        forall|i: int| 0 <= i < r@.len() ==> (#[trigger] r@[i])@ == pieces(s@, c)[i],
        r@.len() > 0,
{
    let mut r: Vec<Vec<char>> = Vec::new();
    let mut start: usize = 0;
    let ghost done: Seq<Seq<char>> = Seq::empty();
    assert(s@.skip(0) == s@);
    loop
        invariant
            start <= s.len(),
            r@.len() == done.len(),
            forall|i: int| 0 <= i < r@.len() ==> (#[trigger] r@[i])@ == done[i],
            pieces(s@, c) == done + pieces(s@.skip(start as int), c),
        decreases s.len() - start,
    {
        let rest = part(s, start, s.len());
        assert(rest@ == s@.skip(start as int));
        let i = find_char(&rest, c);
        let piece = part(&rest, 0, i);
        proof {
            lemma_first_of(rest@, c);
        }
        assert(piece@ == rest@.take(i as int));
        let ghost before = done;
        r.push(piece);
        proof {
            done = before.push(piece@);
        }
        if i < rest.len() {
            assert(rest@.skip(i + 1) == s@.skip(start + i + 1));
            assert(before + (seq![rest@.take(i as int)] + pieces(s@.skip(start + i + 1), c))
                == done + pieces(s@.skip(start + i + 1), c));
            start = start + i + 1;
        } else {
            assert(piece@ == rest@);
            assert(before + seq![rest@] == done);
            return r;
        }
    }
}

/// Unicode's `White_Space` characters.
pub open spec fn is_space(c: char) -> bool {
    let n = c as u32;
    ||| 0x09 <= n <= 0x0d
    ||| n == 0x20
    ||| n == 0x85
    ||| n == 0xa0
    ||| n == 0x1680
    ||| 0x2000 <= n <= 0x200a
    ||| n == 0x2028
    ||| n == 0x2029
    ||| n == 0x202f
    ||| n == 0x205f
    ||| n == 0x3000
}

/// Whether `c` is white space.
pub fn space_char(c: char) -> (r: bool)
    ensures
        r == is_space(c),
{
    let n: u32 = c as u32;
    (0x09 <= n && n <= 0x0d) || n == 0x20 || n == 0x85 || n == 0xa0 || n == 0x1680 || (0x2000 <= n
        && n <= 0x200a) || n == 0x2028 || n == 0x2029 || n == 0x202f || n == 0x205f || n == 0x3000
}

/// `s` without leading white space.
pub open spec fn trim_front(s: Seq<char>) -> Seq<char>
    decreases s.len(),
{
    if s.len() > 0 && is_space(s[0]) {
        trim_front(s.skip(1))
    } else {
        s
    }
}

/// `s` without trailing white space.
pub open spec fn trim_back(s: Seq<char>) -> Seq<char>
    decreases s.len(),
{
    if s.len() > 0 && is_space(s.last()) {
        trim_back(s.drop_last())
    } else {
        s
    }
}

/// `s` without white space at its two ends.
pub open spec fn trim(s: Seq<char>) -> Seq<char> {
    trim_back(trim_front(s))
}

/// `s` without white space at its two ends.
pub fn trimmed(s: &[char]) -> (r: Vec<char>)
    ensures
        r@ == trim(s@),
{
    let mut a: usize = 0;
    assert(s@.skip(0) == s@);
    while a < s.len() && space_char(s[a])
        invariant
            a <= s.len(),
            trim_front(s@) == trim_front(s@.skip(a as int)),
        decreases s.len() - a,
    {
        assert(s@.skip(a as int).skip(1) == s@.skip(a + 1));
        a = a + 1;
    }
    assert(trim_front(s@) == s@.skip(a as int));
    let mut b: usize = s.len();
    assert(s@.subrange(a as int, b as int) == s@.skip(a as int));
    while a < b && space_char(s[b - 1])
        invariant
            a <= b <= s.len(),
            trim(s@) == trim_back(s@.subrange(a as int, b as int)),
        decreases b - a,
    {
        assert(s@.subrange(a as int, b as int).drop_last() == s@.subrange(a as int, b - 1));
        b = b - 1;
    }
    part(s, a, b)
}

/// `s` with each occurrence of `from`, taken from the left and without overlap, replaced by
/// `to`; `from` is not empty.
pub open spec fn replaced(s: Seq<char>, from: Seq<char>, to: Seq<char>) -> Seq<char>
    decreases s.len(),
{
    if from.len() == 0 || s.len() == 0 {
        s
    } else if stands_at(s, from, 0) {
        to + replaced(s.skip(from.len() as int), from, to)
    } else {
        seq![s[0]] + replaced(s.skip(1), from, to)
    }
}

/// `s` with each occurrence of `from` replaced by `to`.
pub fn replace_text(s: &str, from: &str, to: &str) -> (r: String)
    requires
        from@.len() > 0,
    ensures
        r@ == replaced(s@, from@, to@),
{
    let x = chars_of(s);
    let y = chars_of(from);
    let mut r: String = String::new();
    let mut i: usize = 0;
    assert(x@.skip(0) == x@);
    while i < x.len()
        invariant
            i <= x.len(),
            x@ == s@,
            y@ == from@,
            from@.len() > 0,
            replaced(s@, from@, to@) == r@ + replaced(x@.skip(i as int), from@, to@),
        decreases x.len() - i,
    {
        let ghost rest = x@.skip(i as int);
        let here = stands_here(&x, &y, i);
        proof {
            if i + y@.len() <= x@.len() {
                assert(x@.subrange(i as int, i + y@.len()) == rest.subrange(0, y@.len() as int));
            }
            assert(here == stands_at(rest, from@, 0));
        }
        if here {
            assert(rest.skip(y@.len() as int) == x@.skip(i + y@.len()));
            assert(r@ + (to@ + replaced(x@.skip(i + y@.len()), from@, to@)) == (r@ + to@)
                + replaced(x@.skip(i + y@.len()), from@, to@));
            r.append(to);
            i = i + y.len();
        } else {
            assert(rest.skip(1) == x@.skip(i + 1));
            assert(r@ + (seq![x@[i as int]] + replaced(x@.skip(i + 1), from@, to@)) == r@.push(
                x@[i as int],
            ) + replaced(x@.skip(i + 1), from@, to@));
            r.push(x[i]);
            i = i + 1;
        }
    }
    assert(r@ + Seq::<char>::empty() == r@);
    r
}

/// The last position of `c` in `s`, or -1 where it does not occur.
pub open spec fn last_of(s: Seq<char>, c: char) -> int
    decreases s.len(),
{
    if s.len() == 0 {
        -1
    } else if s.last() == c {
        s.len() - 1
    } else {
        last_of(s.drop_last(), c)
    }
}

/// The only position of `c` that has no other behind it is `last_of`.
pub proof fn lemma_last_of_is(s: Seq<char>, c: char, i: int)
    requires
        -1 <= i < s.len(),
        i >= 0 ==> s[i] == c,
        forall|j: int| i < j < s.len() ==> s[j] != c,
    ensures
        last_of(s, c) == i,
    decreases s.len(),
{
    if s.len() > 0 && i < s.len() - 1 {
        assert(s.last() != c);
        lemma_last_of_is(s.drop_last(), c, i);
    }
}

/// Where `c` stands last in `s`.
pub fn rfind_char(s: &[char], c: char) -> (r: Option<usize>)
    ensures
        match r {
            Some(i) => i == last_of(s@, c) && i < s.len() && s@[i as int] == c,
            None => last_of(s@, c) == -1,
        },
{
    let mut i: usize = s.len();
    while i > 0
        invariant
            i <= s.len(),
            forall|j: int| i <= j < s.len() ==> s@[j] != c,
        decreases i,
    {
        i = i - 1;
        if s[i] == c {
            proof {
                lemma_last_of_is(s@, c, i as int);
            }
            return Some(i);
        }
    }
    proof {
        lemma_last_of_is(s@, c, -1);
    }
    None
}

/// The first place at or after `from` where `p` stands in `s`, or -1 where there is none.
pub open spec fn place_of(s: Seq<char>, p: Seq<char>, from: int) -> int
    decreases s.len() + 1 - from,
{
    if from > s.len() || from < 0 {
        -1
    } else if stands_at(s, p, from) {
        from
    } else {
        place_of(s, p, from + 1)
    }
}

/// `place_of` is the only place with no other before it.
pub proof fn lemma_place_of(s: Seq<char>, p: Seq<char>, from: int)
    requires
        0 <= from,
    ensures
        place_of(s, p, from) >= 0 ==> from <= place_of(s, p, from) && stands_at(
            s,
            p,
            place_of(s, p, from),
        ),
        forall|j: int|
            from <= j && (j < place_of(s, p, from) || place_of(s, p, from) < 0) ==> !stands_at(
                s,
                p,
                j,
            ),
    decreases s.len() + 1 - from,
{
    if from <= s.len() && !stands_at(s, p, from) {
        lemma_place_of(s, p, from + 1);
    }
}

/// Where `p` stands first in `s`.
pub fn find_text(s: &[char], p: &[char]) -> (r: Option<usize>)
    ensures
        match r {
            Some(i) => i == place_of(s@, p@, 0) && i + p@.len() <= s@.len(),
            None => place_of(s@, p@, 0) < 0,
        },
        place_of(s@, p@, 0) >= 0 <==> has_text(s@, p@),
{
    proof {
        lemma_place_of(s@, p@, 0);
        if has_text(s@, p@) {
            let k = choose|k: int| stands_at(s@, p@, k);
        }
    }
    let r = find_from(s, p, 0);
    proof {
        if let Some(i) = r {
            let f = place_of(s@, p@, 0);
            if f < 0 || i < f {
                assert(!stands_at(s@, p@, i as int));
            }
            if 0 <= f < i {
                assert(!stands_at(s@, p@, f));
            }
        }
    }
    r
}

/// A text that may be missing, once more.
pub fn copy_text(s: &Option<String>) -> (r: Option<String>)
    ensures
        r == *s,
{
    match s {
        Some(t) => Some(t.clone()),
        None => None,
    }
}

/// A text stands in another exactly where that is something, the text, and something else.
pub proof fn law_has_text(s: Seq<char>, p: Seq<char>)
    ensures
        has_text(s, p) <==> exists|a: Seq<char>, b: Seq<char>| s == #[trigger] (a + p + b),
{
    if has_text(s, p) {
        let i = choose|i: int| stands_at(s, p, i);
        let a = s.take(i);
        let b = s.skip(i + p.len());
        assert(s =~= a + p + b);
    }
    if exists|a: Seq<char>, b: Seq<char>| s == #[trigger] (a + p + b) {
        let (a, b) = choose|a: Seq<char>, b: Seq<char>| s == #[trigger] (a + p + b);
        assert(s.subrange(a.len() as int, a.len() as int + p.len()) =~= p);
        assert(stands_at(s, p, a.len() as int));
    }
}

/// A text stands at the front of another exactly where that goes on behind it, and at its end
/// exactly where that leads up to it.
pub proof fn law_text_at_the_ends(s: Seq<char>, p: Seq<char>)
    ensures
        stands_at(s, p, 0) <==> exists|b: Seq<char>| s == #[trigger] (p + b),
        ends_in(s, p) <==> exists|a: Seq<char>| s == #[trigger] (a + p),
{
    if stands_at(s, p, 0) {
        assert(s =~= p + s.skip(p.len() as int));
    }
    if exists|b: Seq<char>| s == #[trigger] (p + b) {
        let b = choose|b: Seq<char>| s == #[trigger] (p + b);
        assert(s.subrange(0, p.len() as int) =~= p);
    }
    if ends_in(s, p) {
        assert(s =~= s.take(s.len() - p.len()) + p);
    }
    if exists|a: Seq<char>| s == #[trigger] (a + p) {
        let a = choose|a: Seq<char>| s == #[trigger] (a + p);
        assert(s.subrange(a.len() as int, s.len() as int) =~= p);
    }
}

/// Spaces around a text go, and what neither begins nor ends with one stays.
pub proof fn law_trim(a: Seq<char>, s: Seq<char>, b: Seq<char>)
    requires
        forall|i: int| 0 <= i < a.len() ==> #[trigger] a[i] == ' ',
        forall|i: int| 0 <= i < b.len() ==> #[trigger] b[i] == ' ',
        s.len() > 0 ==> !is_space(s[0]) && !is_space(s.last()),
    ensures
        trim(a + s + b) == s,
{
    lemma_trim_front(a, s + b);
    assert(a + s + b =~= a + (s + b));
    if s.len() > 0 {
        assert((s + b)[0] == s[0]);
        assert(trim_front(s + b) == s + b);
        lemma_trim_back(s, b);
    } else {
        assert(s =~= Seq::<char>::empty());
        lemma_trim_front(b, Seq::empty());
        assert(s + b =~= b + Seq::<char>::empty());
    }
}

proof fn lemma_trim_front(a: Seq<char>, s: Seq<char>)
    requires
        forall|i: int| 0 <= i < a.len() ==> #[trigger] a[i] == ' ',
    ensures
        trim_front(a + s) == trim_front(s),
    decreases a.len(),
{
    if a.len() > 0 {
        assert((a + s)[0] == a[0]);
        assert((a + s).skip(1) =~= a.skip(1) + s);
        lemma_trim_front(a.skip(1), s);
    } else {
        assert(a + s =~= s);
    }
}

proof fn lemma_trim_back(s: Seq<char>, b: Seq<char>)
    requires
        forall|i: int| 0 <= i < b.len() ==> #[trigger] b[i] == ' ',
        s.len() > 0,
        !is_space(s.last()),
    ensures
        trim_back(s + b) == s,
    decreases b.len(),
{
    if b.len() > 0 {
        assert((s + b).last() == b.last());
        assert((s + b).drop_last() =~= s + b.drop_last());
        lemma_trim_back(s, b.drop_last());
    } else {
        assert(s + b =~= s);
    }
}

/// Replacing leaves a text alone in which the mark does not stand, and puts the new text in the
/// place of a mark in front of which none begins.
pub proof fn law_replaced(a: Seq<char>, from: Seq<char>, to: Seq<char>, b: Seq<char>)
    requires
        from.len() > 0,
        forall|i: int| 0 <= i < a.len() ==> !stands_at(#[trigger] (a + from + b), from, i),
    ensures
        replaced(a + from + b, from, to) == a + to + replaced(b, from, to),
        !has_text(b, from) ==> replaced(b, from, to) == b,
    decreases a.len(),
{
    let s = a + from + b;
    if a.len() == 0 {
        assert(s.subrange(0, from.len() as int) =~= from);
        assert(s.skip(from.len() as int) =~= b);
        assert(a + to + replaced(b, from, to) =~= to + replaced(b, from, to));
    } else {
        let r = a.skip(1);
        let u = r + from + b;
        assert(s.skip(1) =~= u);
        assert forall|i: int| 0 <= i < r.len() implies !stands_at(#[trigger] (r + from + b), from, i)
            by {
            assert(!stands_at(s, from, i + 1));
            if stands_at(u, from, i) {
                assert(s.subrange(i + 1, i + 1 + from.len()) =~= u.subrange(i, i + from.len()));
            }
        }
        law_replaced(r, from, to, b);
        assert(!stands_at(s, from, 0));
        assert(seq![s[0]] + (r + to + replaced(b, from, to)) =~= a + to + replaced(b, from, to));
    }
    if !has_text(b, from) {
        lemma_replaced_none(b, from, to);
    }
}

proof fn lemma_replaced_none(s: Seq<char>, from: Seq<char>, to: Seq<char>)
    requires
        !has_text(s, from),
    ensures
        replaced(s, from, to) == s,
    decreases s.len(),
{
    if s.len() > 0 && from.len() > 0 {
        let r = s.skip(1);
        assert(!stands_at(s, from, 0));
        if has_text(r, from) {
            let i = choose|i: int| stands_at(r, from, i);
            assert(s.subrange(i + 1, i + 1 + from.len()) =~= r.subrange(i, i + from.len()));
            assert(stands_at(s, from, i + 1));
        }
        lemma_replaced_none(r, from, to);
        assert(seq![s[0]] + r =~= s);
    }
}

/// Texts are ordered by the first character in which they differ, and a text comes before what goes
/// on behind it.
pub proof fn law_text_order(p: Seq<char>, a: char, s: Seq<char>, b: char, t: Seq<char>)
    requires
        a < b,
    ensures
        lex_less(p + (seq![a] + s), p + (seq![b] + t)),
        !lex_less(p + (seq![b] + t), p + (seq![a] + s)),
        lex_less(p, p + (seq![a] + s)),
        !lex_less(p, p),
    decreases p.len(),
{
    let x = p + (seq![a] + s);
    let y = p + (seq![b] + t);
    if p.len() > 0 {
        let q = p.skip(1);
        law_text_order(q, a, s, b, t);
        assert(x.skip(1) =~= q + (seq![a] + s));
        assert(y.skip(1) =~= q + (seq![b] + t));
        assert(x[0] == p[0] && y[0] == p[0]);
    } else {
        assert(x[0] == a && y[0] == b);
    }
    lemma_lex_irreflexive(p);
}

/// Texts that are joined are split again where they were joined.
pub proof fn law_pieces(a: Seq<char>, c: char, rest: Seq<char>)
    requires
        !a.contains(c),
    ensures
        pieces(a, c) == seq![a],
        pieces(a + (seq![c] + rest), c) == seq![a] + pieces(rest, c),
{
    let s = a + (seq![c] + rest);
    let n = a.len() as int;
    assert forall|j: int| 0 <= j < n implies s[j] != c && a[j] != c by {
        assert(s[j] == a[j]);
        assert(a.contains(a[j]));
    }
    assert(s[n] == c);
    lemma_first_of_is(s, c, n);
    lemma_first_of_is(a, c, n);
    assert(s.take(n) =~= a);
    assert(s.skip(n + 1) =~= rest);
}

} // verus!
