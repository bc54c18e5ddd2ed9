//! Character-level text helpers shared by the header and query parsers.
use vstd::prelude::*;

verus! {

/// The characters of `s`, in order.
pub fn chars_of(s: &str) -> (v: Vec<char>)
    ensures
        v@ == s@,
{
    let mut v: Vec<char> = Vec::new();
    for c in it: s.chars()
        invariant
            v@ == it.seq().take(it.index()),
    {
        v.push(c);
    }
    v
}


/// The pieces of `s` between occurrences of `sep`, as `str::split` yields
/// them: there is always at least one piece, and empty pieces are kept.
pub open spec fn split_on(s: Seq<char>, sep: char) -> Seq<Seq<char>>
    decreases s.len(),
{
    if s.len() == 0 {
        seq![Seq::<char>::empty()]
    } else if s.last() == sep {
        split_on(s.drop_last(), sep).push(Seq::<char>::empty())
    } else {
        let p = split_on(s.drop_last(), sep);
        p.update(p.len() - 1, p.last().push(s.last()))
    }
}

pub proof fn lemma_split_on_nonempty(s: Seq<char>, sep: char)
    ensures
        split_on(s, sep).len() >= 1,
    decreases s.len(),
{
    if s.len() > 0 {
        lemma_split_on_nonempty(s.drop_last(), sep);
    }
}

/// The character ranges of `v` that `split_on` yields, in order.
pub fn split_ranges(v: &Vec<char>, sep: char) -> (r: Vec<(usize, usize)>)
    ensures
        r@.len() == split_on(v@, sep).len(),
        forall|j: int| 0 <= j < r@.len() ==> (#[trigger] r@[j]).0 <= r@[j].1 <= v@.len(),
        forall|j: int|
            0 <= j < r@.len() ==> #[trigger] split_on(v@, sep)[j] == v@.subrange(
                r@[j].0 as int,
                r@[j].1 as int,
            ),
{
    let n = v.len();
    let mut r: Vec<(usize, usize)> = Vec::new();
    let mut start: usize = 0;
    let mut i: usize = 0;
    let ghost mut ps = split_on(v@.take(0), sep);
    proof {
        assert(v@.take(0) =~= Seq::<char>::empty());
    }
    while i < n
        invariant
            n == v@.len(),
            start <= i <= n,
            ps == split_on(v@.take(i as int), sep),
            r@.len() + 1 == ps.len(),
            forall|j: int| 0 <= j < r@.len() ==> (#[trigger] r@[j]).0 <= r@[j].1 <= i,
            forall|j: int|
                0 <= j < r@.len() ==> #[trigger] ps[j] == v@.subrange(
                    r@[j].0 as int,
                    r@[j].1 as int,
                ),
            ps.last() == v@.subrange(start as int, i as int),
        decreases n - i,
    {
        let ghost prev = ps;
        let ghost prev_r = r@;
        proof {
            assert(v@.take(i + 1 as int).drop_last() =~= v@.take(i as int));
            assert(v@.take(i + 1 as int).last() == v@[i as int]);
            ps = split_on(v@.take(i + 1 as int), sep);
        }
        if v[i] == sep {
            let ghost old_start = start;
            r.push((start, i));
            start = i + 1;
            proof {
                assert(ps == prev.push(Seq::<char>::empty()));
                assert(v@.subrange(start as int, i + 1 as int) =~= Seq::<char>::empty());
                assert forall|j: int| 0 <= j < r@.len() implies #[trigger] ps[j] == v@.subrange(
                    r@[j].0 as int,
                    r@[j].1 as int,
                ) by {
                    assert(ps[j] == prev[j]);
                    if j < r@.len() - 1 {
                        assert(r@[j] == prev_r[j]);
                    } else {
                        assert(r@[j] == (old_start, i));
                    }
                }
                assert forall|j: int| 0 <= j < r@.len() implies (#[trigger] r@[j]).0 <= r@[j].1
                    <= i + 1 by {
                    if j < r@.len() - 1 {
                        assert(r@[j] == prev_r[j]);
                    }
                }
            }
        } else {
            proof {
                assert(ps == prev.update(prev.len() - 1, prev.last().push(v@[i as int])));
                assert(v@.subrange(start as int, i + 1 as int) =~= v@.subrange(
                    start as int,
                    i as int,
                ).push(v@[i as int]));
                assert forall|j: int| 0 <= j < r@.len() implies #[trigger] ps[j] == v@.subrange(
                    r@[j].0 as int,
                    r@[j].1 as int,
                ) by {
                    assert(ps[j] == prev[j]);
                }
            }
        }
        i = i + 1;
    }
    proof {
        assert(v@.take(n as int) =~= v@);
    }
    let ghost before = r@;
    r.push((start, n));
    proof {
        assert forall|j: int| 0 <= j < r@.len() implies #[trigger] split_on(v@, sep)[j]
            == v@.subrange(r@[j].0 as int, r@[j].1 as int) by {
            assert(split_on(v@, sep)[j] == ps[j]);
            if j < before.len() {
                assert(r@[j] == before[j]);
            }
        }
        assert forall|j: int| 0 <= j < r@.len() implies (#[trigger] r@[j]).0 <= r@[j].1
            <= v@.len() by {
            if j < before.len() {
                assert(r@[j] == before[j]);
            }
        }
    }
    r
}

/// `char::is_whitespace`: the characters with the Unicode White_Space
/// property.
pub open spec fn is_ws(c: char) -> bool {
    let u = c as u32;
    (9 <= u <= 13) || u == 32 || u == 0x85 || u == 0xA0 || u == 0x1680 || (0x2000 <= u <= 0x200A)
        || u == 0x2028 || u == 0x2029 || u == 0x202F || u == 0x205F || u == 0x3000
}

pub fn char_is_ws(c: char) -> (r: bool)
    ensures
        r == is_ws(c),
{
    let u = c as u32;
    (9 <= u && u <= 13) || u == 32 || u == 0x85 || u == 0xA0 || u == 0x1680 || (0x2000 <= u && u
        <= 0x200A) || u == 0x2028 || u == 0x2029 || u == 0x202F || u == 0x205F || u == 0x3000
}

/// `str::trim`: `s` without its leading and trailing whitespace.
pub open spec fn trim_ws(s: Seq<char>) -> Seq<char>
    decreases s.len(),
{
    if s.len() > 0 && is_ws(s[0]) {
        trim_ws(s.drop_first())
    } else if s.len() > 0 && is_ws(s.last()) {
        trim_ws(s.drop_last())
    } else {
        s
    }
}

/// The range of `v[a..b]` that remains after trimming whitespace.
pub fn trim_range(v: &Vec<char>, a: usize, b: usize) -> (r: (usize, usize))
    requires
        a <= b <= v@.len(),
    ensures
        a <= r.0 <= r.1 <= b,
        v@.subrange(r.0 as int, r.1 as int) == trim_ws(v@.subrange(a as int, b as int)),
{
    let mut lo = a;
    while lo < b && char_is_ws(v[lo])
        invariant
            a <= lo <= b <= v@.len(),
            trim_ws(v@.subrange(a as int, b as int)) == trim_ws(v@.subrange(lo as int, b as int)),
        decreases b - lo,
    {
        assert(v@.subrange(lo as int, b as int).drop_first() =~= v@.subrange(
            lo + 1 as int,
            b as int,
        ));
        lo = lo + 1;
    }
    let mut hi = b;
    while hi > lo && char_is_ws(v[hi - 1])
        invariant
            a <= lo <= hi <= b <= v@.len(),
            lo < hi ==> !is_ws(v@[lo as int]),
            trim_ws(v@.subrange(a as int, b as int)) == trim_ws(v@.subrange(lo as int, hi as int)),
        decreases hi - lo,
    {
        assert(v@.subrange(lo as int, hi as int).drop_last() =~= v@.subrange(
            lo as int,
            hi - 1 as int,
        ));
        assert(v@.subrange(lo as int, hi as int)[0] == v@[lo as int]);
        hi = hi - 1;
    }
    proof {
        let t = v@.subrange(lo as int, hi as int);
        if t.len() > 0 {
            assert(t[0] == v@[lo as int]);
            assert(t.last() == v@[hi - 1]);
        }
    }
    (lo, hi)
}

/// The value of a sequence of decimal digits.
pub open spec fn digits_value(d: Seq<char>) -> nat
    decreases d.len(),
{
    if d.len() == 0 {
        0
    } else {
        digits_value(d.drop_last()) * 10 + ((d.last() as u32) - ('0' as u32)) as nat
    }
}

pub open spec fn all_digits(d: Seq<char>) -> bool {
    forall|i: int| 0 <= i < d.len() ==> '0' <= #[trigger] d[i] <= '9'
}

/// `u64::from_str`: an optional `+`, then one or more decimal digits whose
/// value fits in a `u64`.
pub open spec fn parse_u64(s: Seq<char>) -> Option<u64> {
    let d = if s.len() > 0 && s[0] == '+' {
        s.drop_first()
    } else {
        s
    };
    if d.len() == 0 || !all_digits(d) || digits_value(d) > u64::MAX {
        None
    } else {
        Some(digits_value(d) as u64)
    }
}

proof fn lemma_digits_value_prefix(d: Seq<char>, j: int)
    requires
        0 <= j <= d.len(),
        all_digits(d),
    ensures
        digits_value(d.take(j)) <= digits_value(d),
    decreases d.len(),
{
    if j < d.len() {
        assert(d.drop_last().take(j) =~= d.take(j));
        lemma_digits_value_prefix(d.drop_last(), j);
    } else {
        assert(d.take(j) =~= d);
    }
}

/// Parses `v[a..b]` as `u64::from_str` does.
pub fn parse_u64_range(v: &Vec<char>, a: usize, b: usize) -> (r: Option<u64>)
    requires
        a <= b <= v@.len(),
    ensures
        r == parse_u64(v@.subrange(a as int, b as int)),
{
    let ghost s = v@.subrange(a as int, b as int);
    let mut lo = a;
    if lo < b && v[lo] == '+' {
        lo = lo + 1;
    }
    let ghost d = v@.subrange(lo as int, b as int);
    proof {
        if a < b {
            assert(s[0] == v@[a as int]);
        }
        if s.len() > 0 && s[0] == '+' {
            assert(d =~= s.drop_first());
        } else {
            assert(d =~= s);
        }
    }
    if lo == b {
        return None;
    }
    let mut acc: u64 = 0;
    let mut i = lo;
    proof {
        assert(d.take(0) =~= Seq::<char>::empty());
    }
    while i < b
        invariant
            lo <= i <= b <= v@.len(),
            d == v@.subrange(lo as int, b as int),
            parse_u64(v@.subrange(a as int, b as int)) == (if !all_digits(d) || digits_value(d)
                > u64::MAX {
                None
            } else {
                Some(digits_value(d) as u64)
            }),
            all_digits(d.take(i - lo)),
            acc == digits_value(d.take(i - lo)),
        decreases b - i,
    {
        let c = v[i];
        assert(d.take(i + 1 - lo).drop_last() =~= d.take(i - lo));
        assert(d.take(i + 1 - lo).last() == c);
        if !('0' <= c && c <= '9') {
            assert(!all_digits(d)) by {
                assert(d[i - lo] == c);
            }
            return None;
        }
        let digit = (c as u32 - '0' as u32) as u64;
        let ghost next = digits_value(d.take(i + 1 - lo));
        assert(next == acc * 10 + digit);
        assert(all_digits(d.take(i + 1 - lo))) by {
            assert forall|k: int| 0 <= k < i + 1 - lo implies '0' <= #[trigger] d.take(
                i + 1 - lo,
            )[k] <= '9' by {
                if k < i - lo {
                    assert(d.take(i + 1 - lo)[k] == d.take(i - lo)[k]);
                }
            }
        }
        match acc.checked_mul(10) {
            None => {
                proof {
                    lemma_too_big(d, i + 1 - lo);
                }
                return None;
            },
            Some(t) => match t.checked_add(digit) {
                None => {
                    proof {
                        lemma_too_big(d, i + 1 - lo);
                    }
                    return None;
                },
                Some(u) => {
                    acc = u;
                },
            },
        }
        i = i + 1;
    }
    assert(d.take(b - lo) =~= d);
    Some(acc)
}

/// Once a prefix of all-digit text is too large, so is the whole, or the
/// whole is not all digits.
proof fn lemma_too_big(d: Seq<char>, j: int)
    requires
        0 <= j <= d.len(),
        digits_value(d.take(j)) > u64::MAX,
    ensures
        !all_digits(d) || digits_value(d) > u64::MAX,
{
    if all_digits(d) {
        lemma_digits_value_prefix(d, j);
    }
}

/// `pat` occurs in `s` starting at position `i`.
pub open spec fn occurs_at(s: Seq<char>, pat: Seq<char>, i: int) -> bool {
    0 <= i && i + pat.len() <= s.len() && s.subrange(i, i + pat.len()) == pat
}

/// `str::contains` with a string pattern.
pub open spec fn contains_seq(s: Seq<char>, pat: Seq<char>) -> bool {
    exists|i: int| occurs_at(s, pat, i)
}

/// Whether `pat` occurs in `s`.
pub fn has_substring(s: &Vec<char>, pat: &Vec<char>) -> (r: bool)
    ensures
        r == contains_seq(s@, pat@),
{
    let n = s.len();
    let m = pat.len();
    if m > n {
        assert forall|i: int| !occurs_at(s@, pat@, i) by {}
        return false;
    }
    let mut i: usize = 0;
    while i <= n - m
        invariant
            m <= n,
            n == s@.len(),
            m == pat@.len(),
            forall|k: int| 0 <= k < i ==> !occurs_at(s@, pat@, k),
        decreases n - m + 1 - i,
    {
        let mut j: usize = 0;
        let mut same = true;
        while j < m
            invariant
                j <= m,
                i + m <= n,
                n == s@.len(),
                m == pat@.len(),
                same == (forall|k: int| 0 <= k < j ==> s@[i + k] == pat@[k]),
            decreases m - j,
        {
            if s[i + j] != pat[j] {
                same = false;
            }
            j = j + 1;
        }
        if same {
            assert(s@.subrange(i as int, i + m as int) =~= pat@);
            assert(occurs_at(s@, pat@, i as int));
            return true;
        }
        assert(!occurs_at(s@, pat@, i as int)) by {
            if s@.subrange(i as int, i + m as int) == pat@ {
                assert forall|k: int| 0 <= k < m implies s@[i + k] == pat@[k] by {
                    assert(s@.subrange(i as int, i + m as int)[k] == s@[i + k]);
                }
            }
        }
        i = i + 1;
    }
    assert forall|k: int| !occurs_at(s@, pat@, k) by {
        if k > n - m {
        }
    }
    false
}

/// `s` starts with `pre`.
pub open spec fn starts_with(s: Seq<char>, pre: Seq<char>) -> bool {
    pre.len() <= s.len() && s.take(pre.len() as int) == pre
}

/// Whether `v[a..b]` equals `lit`.
pub fn range_equals(v: &Vec<char>, a: usize, b: usize, lit: &Vec<char>) -> (r: bool)
    requires
        a <= b <= v@.len(),
    ensures
        r == (v@.subrange(a as int, b as int) == lit@),
{
    if b - a != lit.len() {
        return false;
    }
    range_starts_with(v, a, b, lit)
}

/// Whether `v[a..b]` starts with `lit`.
pub fn range_starts_with(v: &Vec<char>, a: usize, b: usize, lit: &Vec<char>) -> (r: bool)
    requires
        a <= b <= v@.len(),
    ensures
        r == starts_with(v@.subrange(a as int, b as int), lit@),
        lit@.len() == b - a ==> r == (v@.subrange(a as int, b as int) == lit@),
{
    let m = lit.len();
    if m > b - a {
        return false;
    }
    let mut j: usize = 0;
    while j < m
        invariant
            j <= m <= b - a,
            a <= b <= v@.len(),
            m == lit@.len(),
            forall|k: int| 0 <= k < j ==> v@[a + k] == lit@[k],
        decreases m - j,
    {
        if v[a + j] != lit[j] {
            assert(v@.subrange(a as int, b as int).take(m as int)[j as int] == v@[a + j]);
            return false;
        }
        j = j + 1;
    }
    assert(v@.subrange(a as int, b as int).take(m as int) =~= lit@);
    proof {
        if m == b - a {
            assert(v@.subrange(a as int, b as int).take(m as int) =~= v@.subrange(
                a as int,
                b as int,
            ));
        }
    }
    true
}

/// Lexicographic order by code point. For UTF-8 text this is the order
/// `str`'s `Ord` gives, which compares bytes.
pub open spec fn lex_lt(a: Seq<char>, b: Seq<char>) -> bool
    decreases a.len(),
{
    if a.len() == 0 {
        b.len() > 0
    } else if b.len() == 0 {
        false
    } else if a[0] != b[0] {
        (a[0] as int) < (b[0] as int)
    } else {
        lex_lt(a.drop_first(), b.drop_first())
    }
}

pub proof fn lemma_lex_irreflexive(a: Seq<char>)
    ensures
        !lex_lt(a, a),
    decreases a.len(),
{
    if a.len() > 0 {
        lemma_lex_irreflexive(a.drop_first());
    }
}

pub proof fn lemma_lex_asymmetric(a: Seq<char>, b: Seq<char>)
    ensures
        lex_lt(a, b) ==> !lex_lt(b, a),
    decreases a.len(),
{
    if a.len() > 0 && b.len() > 0 && a[0] == b[0] {
        lemma_lex_asymmetric(a.drop_first(), b.drop_first());
    }
}

pub proof fn lemma_lex_transitive(a: Seq<char>, b: Seq<char>, c: Seq<char>)
    requires
        lex_lt(a, b),
        lex_lt(b, c),
    ensures
        lex_lt(a, c),
    decreases a.len(),
{
    if a.len() > 0 {
        if a[0] == b[0] && b[0] == c[0] {
            lemma_lex_transitive(a.drop_first(), b.drop_first(), c.drop_first());
        }
    }
}

proof fn lemma_lex_common_prefix(a: Seq<char>, b: Seq<char>, i: int)
    requires
        0 <= i <= a.len(),
        i <= b.len(),
        forall|k: int| 0 <= k < i ==> a[k] == b[k],
    ensures
        lex_lt(a, b) == lex_lt(a.skip(i), b.skip(i)),
    decreases i,
{
    if i == 0 {
        assert(a.skip(0) =~= a);
        assert(b.skip(0) =~= b);
    } else {
        assert(a[0] == b[0]);
        lemma_lex_common_prefix(a.drop_first(), b.drop_first(), i - 1);
        assert(a.drop_first().skip(i - 1) =~= a.skip(i));
        assert(b.drop_first().skip(i - 1) =~= b.skip(i));
    }
}

/// The outcome of comparing two pieces of text.
#[derive(Debug, Clone, Copy, PartialEq, Eq)]
pub enum LexOrder {
    Less,
    Equal,
    Greater,
}

/// Compares `v[a0..a1]` with `v[b0..b1]` by code point.
pub fn lex_order(v: &Vec<char>, a0: usize, a1: usize, b0: usize, b1: usize) -> (r: LexOrder)
    requires
        a0 <= a1 <= v@.len(),
        b0 <= b1 <= v@.len(),
    ensures
        ({
            let x = v@.subrange(a0 as int, a1 as int);
            let y = v@.subrange(b0 as int, b1 as int);
            match r {
                LexOrder::Less => lex_lt(x, y) && !lex_lt(y, x) && x != y,
                LexOrder::Equal => x == y && !lex_lt(x, y) && !lex_lt(y, x),
                LexOrder::Greater => lex_lt(y, x) && !lex_lt(x, y) && x != y,
            }
        }),
{
    let ghost x = v@.subrange(a0 as int, a1 as int);
    let ghost y = v@.subrange(b0 as int, b1 as int);
    let la = a1 - a0;
    let lb = b1 - b0;
    let mut i: usize = 0;
    while i < la && i < lb
        invariant
            a0 <= a1 <= v@.len(),
            b0 <= b1 <= v@.len(),
            la == a1 - a0,
            lb == b1 - b0,
            x == v@.subrange(a0 as int, a1 as int),
            y == v@.subrange(b0 as int, b1 as int),
            i <= la,
            i <= lb,
            forall|k: int| 0 <= k < i ==> x[k] == y[k],
        decreases la - i,
    {
        let c = v[a0 + i];
        let d = v[b0 + i];
        if c != d {
            proof {
                lemma_lex_common_prefix(x, y, i as int);
                lemma_lex_common_prefix(y, x, i as int);
                assert(x.skip(i as int)[0] == c);
                assert(y.skip(i as int)[0] == d);
                assert(x[i as int] != y[i as int]);
            }
            if c < d {
                return LexOrder::Less;
            } else {
                return LexOrder::Greater;
            }
        }
        i = i + 1;
    }
    proof {
        lemma_lex_common_prefix(x, y, i as int);
        lemma_lex_common_prefix(y, x, i as int);
        lemma_lex_irreflexive(x);
    }
    if la == lb {
        assert(x =~= y);
        LexOrder::Equal
    } else if la < lb {
        assert(x.skip(i as int).len() == 0);
        assert(x.len() != y.len());
        LexOrder::Less
    } else {
        assert(y.skip(i as int).len() == 0);
        assert(x.len() != y.len());
        LexOrder::Greater
    }
}

/// The first position of `c` in `s`, or -1 where it does not occur.
pub open spec fn index_of(s: Seq<char>, c: char) -> int
    decreases s.len(),
{
    if s.len() == 0 {
        -1
    } else if s[0] == c {
        0
    } else if index_of(s.drop_first(), c) < 0 {
        -1
    } else {
        index_of(s.drop_first(), c) + 1
    }
}

proof fn lemma_index_of(s: Seq<char>, c: char, i: int)
    requires
        0 <= i <= s.len(),
        forall|k: int| 0 <= k < i ==> s[k] != c,
    ensures
        i < s.len() && s[i] == c ==> index_of(s, c) == i,
        i == s.len() ==> index_of(s, c) == -1,
    decreases i,
{
    if i > 0 {
        lemma_index_of(s.drop_first(), c, i - 1);
    } else if s.len() > 0 {
    }
}

/// The position of the first `c` in `v[a..b]`, relative to `a`.
pub fn find_char(v: &Vec<char>, a: usize, b: usize, c: char) -> (r: Option<usize>)
    requires
        a <= b <= v@.len(),
    ensures
        match r {
            Some(e) => a <= e < b && index_of(v@.subrange(a as int, b as int), c) == e - a,
            None => index_of(v@.subrange(a as int, b as int), c) == -1,
        },
{
    let ghost s = v@.subrange(a as int, b as int);
    let mut i = a;
    while i < b
        invariant
            a <= i <= b <= v@.len(),
            s == v@.subrange(a as int, b as int),
            forall|k: int| 0 <= k < i - a ==> s[k] != c,
        decreases b - i,
    {
        if v[i] == c {
            proof {
                lemma_index_of(s, c, i - a);
            }
            return Some(i);
        }
        i = i + 1;
    }
    proof {
        lemma_index_of(s, c, i - a);
    }
    None
}
} // verus!
