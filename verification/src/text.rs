//! Character-level building blocks: strings as sequences of `char`, trimming,
//! decimal numbers and literal comparisons.

use vstd::prelude::*;

verus! {

/// Whether `c` has the Unicode `White_Space` property (what `char::is_whitespace` tests).
pub open spec fn is_ws(c: char) -> bool {
    ||| ('\u{9}' <= c && c <= '\u{d}')
    ||| c == ' '
    ||| c == '\u{85}'
    ||| c == '\u{a0}'
    ||| c == '\u{1680}'
    ||| ('\u{2000}' <= c && c <= '\u{200a}')
    ||| c == '\u{2028}'
    ||| c == '\u{2029}'
    ||| c == '\u{202f}'
    ||| c == '\u{205f}'
    ||| c == '\u{3000}'
}

pub fn is_whitespace(c: char) -> (r: bool)
    ensures
        r == is_ws(c),
{
    ('\u{9}' <= c && c <= '\u{d}') || c == ' ' || c == '\u{85}' || c == '\u{a0}' || c == '\u{1680}'
        || ('\u{2000}' <= c && c <= '\u{200a}') || c == '\u{2028}' || c == '\u{2029}' || c
        == '\u{202f}' || c == '\u{205f}' || c == '\u{3000}'
}

/// `s` without its leading whitespace.
pub open spec fn trim_start(s: Seq<char>) -> Seq<char>
    decreases s.len(),
{
    if s.len() > 0 && is_ws(s[0]) {
        trim_start(s.drop_first())
    } else {
        s
    }
}

/// `s` without its trailing whitespace.
pub open spec fn trim_end(s: Seq<char>) -> Seq<char>
    decreases s.len(),
{
    if s.len() > 0 && is_ws(s.last()) {
        trim_end(s.drop_last())
    } else {
        s
    }
}

/// `s` without leading and trailing whitespace (what `str::trim` returns).
pub open spec fn trim(s: Seq<char>) -> Seq<char> {
    trim_end(trim_start(s))
}

/// `String::push`: appends one character at the end of the string.
#[verifier::external_body]
pub(crate) fn push_char(s: &mut String, c: char)
    ensures
        final(s)@ == old(s)@.push(c),
{
    s.push(c);
}

/// The characters of `s`, in order.
pub fn chars_of(s: &str) -> (v: Vec<char>)
    ensures
        v@ == s@,
{
    let n: usize = s.unicode_len();
    let mut v: Vec<char> = Vec::new();
    let mut i: usize = 0;
    while i < n
        invariant
            n == s@.len(),
            i <= n,
            v@ == s@.subrange(0, i as int),
        decreases n - i,
    {
        v.push(s.get_char(i));
        i = i + 1;
        assert(v@ =~= s@.subrange(0, i as int));
    }
    assert(v@ =~= s@);
    v
}

/// Appends `v[lo..hi]` to `s`.
pub fn push_range(s: &mut String, v: &Vec<char>, lo: usize, hi: usize)
    requires
        lo <= hi <= v@.len(),
    ensures
        final(s)@ == old(s)@ + v@.subrange(lo as int, hi as int),
{
    let mut i: usize = lo;
    while i < hi
        invariant
            lo <= i <= hi <= v@.len(),
            s@ == old(s)@ + v@.subrange(lo as int, i as int),
        decreases hi - i,
    {
        push_char(s, v[i]);
        i = i + 1;
        assert(s@ =~= old(s)@ + v@.subrange(lo as int, i as int));
    }
}

/// The string made of `v[lo..hi]`.
pub fn string_of(v: &Vec<char>, lo: usize, hi: usize) -> (s: String)
    requires
        lo <= hi <= v@.len(),
    ensures
        s@ == v@.subrange(lo as int, hi as int),
{
    let mut s = String::new();
    push_range(&mut s, v, lo, hi);
    assert(s@ =~= v@.subrange(lo as int, hi as int));
    s
}

/// Whether `v[lo..hi]` is exactly the text `lit`.
pub fn range_is(v: &Vec<char>, lo: usize, hi: usize, lit: &str) -> (r: bool)
    requires
        lo <= hi <= v@.len(),
    ensures
        r == (v@.subrange(lo as int, hi as int) == lit@),
{
    let n: usize = lit.unicode_len();
    if hi - lo != n {
        return false;
    }
    let mut i: usize = 0;
    while i < n
        invariant
            n == lit@.len(),
            hi - lo == n,
            lo <= hi <= v@.len(),
            i <= n,
            forall|j: int| 0 <= j < i ==> v@[lo + j] == lit@[j],
        decreases n - i,
    {
        if v[lo + i] != lit.get_char(i) {
            assert(v@.subrange(lo as int, hi as int)[i as int] != lit@[i as int]);
            return false;
        }
        i = i + 1;
    }
    assert(v@.subrange(lo as int, hi as int) =~= lit@);
    true
}

/// Whether the characters `v` are exactly the text `lit`.
pub fn chars_are(v: &Vec<char>, lit: &str) -> (r: bool)
    ensures
        r == (v@ == lit@),
{
    let r = range_is(v, 0, v.len(), lit);
    assert(v@.subrange(0, v@.len() as int) =~= v@);
    r
}

/// Whether `v[lo..hi]` begins with the text `lit`.
pub fn range_starts_with(v: &Vec<char>, lo: usize, hi: usize, lit: &str) -> (r: bool)
    requires
        lo <= hi <= v@.len(),
    ensures
        r == (lit@.len() <= hi - lo && v@.subrange(lo as int, lo + lit@.len()) == lit@),
{
    let n: usize = lit.unicode_len();
    if n > hi - lo {
        return false;
    }
    range_is(v, lo, lo + n, lit)
}

/// Whether `s[lo..hi]` equals `t`.
pub fn range_eq(s: &Vec<char>, lo: usize, hi: usize, t: &Vec<char>) -> (r: bool)
    requires
        lo <= hi <= s@.len(),
    ensures
        r == (s@.subrange(lo as int, hi as int) == t@),
{
    if hi - lo != t.len() {
        return false;
    }
    let mut i: usize = 0;
    while i < t.len()
        invariant
            hi - lo == t@.len(),
            lo <= hi <= s@.len(),
            i <= t@.len(),
            forall|j: int| 0 <= j < i ==> s@[lo + j] == t@[j],
        decreases t@.len() - i,
    {
        if s[lo + i] != t[i] {
            assert(s@.subrange(lo as int, hi as int)[i as int] != t@[i as int]);
            return false;
        }
        i = i + 1;
    }
    assert(s@.subrange(lo as int, hi as int) =~= t@);
    true
}

/// Whether two character sequences are equal.
pub fn chars_eq(s: &Vec<char>, t: &Vec<char>) -> (r: bool)
    ensures
        r == (s@ == t@),
{
    let r = range_eq(s, 0, s.len(), t);
    assert(s@.subrange(0, s@.len() as int) =~= s@);
    r
}

proof fn lemma_trim_start_step(v: Seq<char>, a: int, hi: int)
    requires
        0 <= a < hi <= v.len(),
        is_ws(v[a]),
    ensures
        trim_start(v.subrange(a, hi)) == trim_start(v.subrange(a + 1, hi)),
{
    assert(v.subrange(a, hi).drop_first() =~= v.subrange(a + 1, hi));
}

proof fn lemma_trim_end_step(v: Seq<char>, a: int, b: int)
    requires
        0 <= a < b <= v.len(),
        is_ws(v[b - 1]),
    ensures
        trim_end(v.subrange(a, b)) == trim_end(v.subrange(a, b - 1)),
{
    assert(v.subrange(a, b).drop_last() =~= v.subrange(a, b - 1));
}

/// The bounds of `v[lo..hi]` once whitespace is trimmed from both ends.
pub fn trim_range(v: &Vec<char>, lo: usize, hi: usize) -> (r: (usize, usize))
    requires
        lo <= hi <= v@.len(),
    ensures
        lo <= r.0 <= r.1 <= hi,
        v@.subrange(r.0 as int, r.1 as int) == trim(v@.subrange(lo as int, hi as int)),
{
    let mut a: usize = lo;
    while a < hi && is_whitespace(v[a])
        invariant
            lo <= a <= hi <= v@.len(),
            trim_start(v@.subrange(lo as int, hi as int)) == trim_start(
                v@.subrange(a as int, hi as int),
            ),
        decreases hi - a,
    {
        proof {
            lemma_trim_start_step(v@, a as int, hi as int);
        }
        a = a + 1;
    }
    assert(trim_start(v@.subrange(a as int, hi as int)) == v@.subrange(a as int, hi as int));
    let mut b: usize = hi;
    while b > a && is_whitespace(v[b - 1])
        invariant
            lo <= a <= b <= hi <= v@.len(),
            trim_end(v@.subrange(a as int, hi as int)) == trim_end(
                v@.subrange(a as int, b as int),
            ),
        decreases b - a,
    {
        proof {
            lemma_trim_end_step(v@, a as int, b as int);
        }
        b = b - 1;
    }
    assert(trim_end(v@.subrange(a as int, b as int)) == v@.subrange(a as int, b as int));
    (a, b)
}

/// The character of the decimal digit `d`.
pub open spec fn digit_char(d: nat) -> char {
    if d == 0 {
        '0'
    } else if d == 1 {
        '1'
    } else if d == 2 {
        '2'
    } else if d == 3 {
        '3'
    } else if d == 4 {
        '4'
    } else if d == 5 {
        '5'
    } else if d == 6 {
        '6'
    } else if d == 7 {
        '7'
    } else if d == 8 {
        '8'
    } else {
        '9'
    }
}

/// `n` written in decimal, without leading zeros.
pub open spec fn decimal(n: nat) -> Seq<char>
    decreases n,
{
    if n < 10 {
        seq![digit_char(n)]
    } else {
        decimal(n / 10).push(digit_char(n % 10))
    }
}

fn digit_of(d: u64) -> (c: char)
    requires
        d < 10,
    ensures
        c == digit_char(d as nat),
{
    if d == 0 {
        '0'
    } else if d == 1 {
        '1'
    } else if d == 2 {
        '2'
    } else if d == 3 {
        '3'
    } else if d == 4 {
        '4'
    } else if d == 5 {
        '5'
    } else if d == 6 {
        '6'
    } else if d == 7 {
        '7'
    } else if d == 8 {
        '8'
    } else {
        '9'
    }
}

/// Appends `n` in decimal to `s`.
pub fn push_decimal(s: &mut String, n: u64)
    ensures
        final(s)@ == old(s)@ + decimal(n as nat),
    decreases n,
{
    if n >= 10 {
        push_decimal(s, n / 10);
    }
    push_char(s, digit_of(n % 10));
    assert(s@ =~= old(s)@ + decimal(n as nat));
}

/// Appends the text `t` to `s`.
pub fn push_str(s: &mut String, t: &str)
    ensures
        final(s)@ == old(s)@ + t@,
{
    s.append(t);
}

/// Whether `c` is an ASCII decimal digit.
pub open spec fn is_digit(c: char) -> bool {
    '0' <= c && c <= '9'
}

/// The value of the ASCII digit `c`.
pub open spec fn digit_value(c: char) -> nat {
    (c as int - '0' as int) as nat
}

/// The number written by the digits `s` (most significant first).
pub open spec fn digits_value(s: Seq<char>) -> nat
    decreases s.len(),
{
    if s.len() == 0 {
        0
    } else {
        digits_value(s.drop_last()) * 10 + digit_value(s.last())
    }
}

/// `s` without one leading `+`, the sign that unsigned integer parsing accepts.
pub open spec fn unsigned_body(s: Seq<char>) -> Seq<char> {
    if s.len() > 0 && s[0] == '+' {
        s.drop_first()
    } else {
        s
    }
}

/// The value of `s` read as an unsigned decimal integer the way `str::parse` reads one:
/// an optional `+`, then at least one ASCII digit and nothing else.
pub open spec fn parse_unsigned(s: Seq<char>) -> Option<nat> {
    let b = unsigned_body(s);
    if b.len() > 0 && (forall|i: int| 0 <= i < b.len() ==> is_digit(#[trigger] b[i])) {
        Some(digits_value(b))
    } else {
        None
    }
}

proof fn lemma_digits_prefix_le(s: Seq<char>, k: int)
    requires
        0 <= k <= s.len(),
    ensures
        digits_value(s.subrange(0, k)) <= digits_value(s),
    decreases s.len() - k,
{
    if k < s.len() {
        lemma_digits_prefix_le(s, k + 1);
        assert(s.subrange(0, k + 1).drop_last() =~= s.subrange(0, k));
    } else {
        assert(s.subrange(0, k) =~= s);
    }
}

/// Reads `v[lo..hi]` as an unsigned decimal integer no greater than `max`.
pub fn parse_unsigned_range(v: &Vec<char>, lo: usize, hi: usize, max: u64) -> (r: Option<u64>)
    requires
        lo <= hi <= v@.len(),
        max <= 0xffff_ffff,
    ensures
        match r {
            Some(x) => parse_unsigned(v@.subrange(lo as int, hi as int)) == Some(x as nat) && x
                <= max,
            None => match parse_unsigned(v@.subrange(lo as int, hi as int)) {
                Some(x) => x > max,
                None => true,
            },
        },
{
    let ghost s = v@.subrange(lo as int, hi as int);
    let mut start: usize = lo;
    if lo < hi && v[lo] == '+' {
        start = lo + 1;
    }
    let ghost b = v@.subrange(start as int, hi as int);
    assert(b =~= unsigned_body(s));
    if start == hi {
        return None;
    }
    let mut acc: u64 = 0;
    let mut i: usize = start;
    while i < hi
        invariant
            lo <= start < hi <= v@.len(),
            start <= i <= hi,
            b == v@.subrange(start as int, hi as int),
            s == v@.subrange(lo as int, hi as int),
            b == unsigned_body(s),
            acc <= max,
            max <= 0xffff_ffff,
            forall|j: int| start <= j < i ==> is_digit(#[trigger] v@[j]),
            acc == digits_value(b.subrange(0, i - start)),
        decreases hi - i,
    {
        let c: char = v[i];
        if !('0' <= c && c <= '9') {
            assert(!is_digit(b[i - start]));
            return None;
        }
        let d: u64 = (c as u32 - '0' as u32) as u64;
        assert(b.subrange(0, i - start + 1).drop_last() =~= b.subrange(0, i - start));
        acc = acc * 10 + d;
        i = i + 1;
        if acc > max {
            proof {
                lemma_digits_prefix_le(b, i - start);
            }
            return None;
        }
    }
    assert(b.subrange(0, i - start) =~= b);
    Some(acc)
}

/// The code of `c` with ASCII capitals lowered, what `eq_ignore_ascii_case` compares.
pub open spec fn ascii_folded(c: char) -> u32 {
    let x = c as u32;
    if 65 <= x <= 90 {
        (x + 32) as u32
    } else {
        x
    }
}

/// Whether `a` and `b` are equal once ASCII capitals are lowered on both sides.
pub open spec fn eq_ignore_ascii_case(a: Seq<char>, b: Seq<char>) -> bool {
    a.len() == b.len() && forall|i: int| 0 <= i < a.len() ==> ascii_folded(a[i]) == ascii_folded(b[i])
}

fn fold_ascii(c: char) -> (x: u32)
    ensures
        x == ascii_folded(c),
{
    let x: u32 = c as u32;
    if x >= 65 && x <= 90 {
        x + 32
    } else {
        x
    }
}

/// Whether `a` and `b` are equal up to the case of ASCII letters.
pub fn chars_eq_ignore_ascii_case(a: &Vec<char>, b: &Vec<char>) -> (r: bool)
    ensures
        r == eq_ignore_ascii_case(a@, b@),
{
    if a.len() != b.len() {
        return false;
    }
    let mut i: usize = 0;
    while i < a.len()
        invariant
            a@.len() == b@.len(),
            i <= a@.len(),
            forall|j: int| 0 <= j < i ==> ascii_folded(a@[j]) == ascii_folded(b@[j]),
        decreases a@.len() - i,
    {
        if fold_ascii(a[i]) != fold_ascii(b[i]) {
            return false;
        }
        i = i + 1;
    }
    true
}

/// The pieces of `s` between its `sep` characters, in order (what `str::split`
/// gives: one more piece than there are separators, empty ones included).
pub open spec fn pieces(s: Seq<char>, sep: char) -> Seq<Seq<char>>
    decreases s.len(),
{
    if s.len() == 0 {
        seq![seq![]]
    } else {
        let rest = pieces(s.drop_first(), sep);
        if s[0] == sep {
            seq![seq![]] + rest
        } else {
            rest.update(0, seq![s[0]] + rest[0])
        }
    }
}

/// Splitting at the first separator, at `q`: the piece before it, then the pieces
/// of what follows it.
pub proof fn lemma_pieces_step(s: Seq<char>, sep: char, q: int)
    requires
        0 <= q <= s.len(),
        forall|i: int| 0 <= i < q ==> s[i] != sep,
        q == s.len() || s[q] == sep,
    ensures
        q == s.len() ==> pieces(s, sep) == seq![s],
        q < s.len() ==> pieces(s, sep) == seq![s.subrange(0, q)] + pieces(
            s.subrange(q + 1, s.len() as int),
            sep,
        ),
    decreases q,
{
    if q == 0 {
        if s.len() == 0 {
            assert(s =~= Seq::<char>::empty());
            assert(pieces(s, sep) =~= seq![s]);
        } else {
            assert(s.drop_first() =~= s.subrange(1, s.len() as int));
            assert(s.subrange(0, 0) =~= Seq::<char>::empty());
        }
    } else {
        let t = s.drop_first();
        assert forall|i: int| 0 <= i < q - 1 implies t[i] != sep by {
            assert(t[i] == s[i + 1]);
        }
        lemma_pieces_step(t, sep, q - 1);
        let rest = pieces(t, sep);
        if q == s.len() {
            assert(rest == seq![t]);
            assert(seq![s[0]] + t =~= s);
            assert(rest.update(0, seq![s[0]] + rest[0]) =~= seq![s]);
        } else {
            assert(t.subrange(q, t.len() as int) =~= s.subrange(q + 1, s.len() as int));
            assert(seq![s[0]] + t.subrange(0, q - 1) =~= s.subrange(0, q));
            assert(rest.update(0, seq![s[0]] + rest[0]) =~= seq![s.subrange(0, q)] + pieces(
                s.subrange(q + 1, s.len() as int),
                sep,
            ));
        }
    }
}

/// Where the piece that starts at `p` ends: the next `sep`, or the end.
pub fn piece_end(v: &Vec<char>, p: usize, sep: char) -> (q: usize)
    requires
        p <= v@.len(),
    ensures
        p <= q <= v@.len(),
        forall|i: int| p <= i < q ==> v@[i] != sep,
        q == v@.len() || v@[q as int] == sep,
{
    let mut q: usize = p;
    while q < v.len() && v[q] != sep
        invariant
            p <= q <= v@.len(),
            forall|i: int| p <= i < q ==> v@[i] != sep,
        decreases v@.len() - q,
    {
        q = q + 1;
    }
    q
}

/// The step from the piece at `p` to the rest: the pieces of `v[p..]` are
/// `v[p..q]`, then, when `q` is a separator, the pieces of `v[q + 1..]`.
pub proof fn lemma_pieces_from(v: Seq<char>, sep: char, p: int, q: int)
    requires
        0 <= p <= q <= v.len(),
        forall|i: int| p <= i < q ==> v[i] != sep,
        q == v.len() || v[q] == sep,
    ensures
        q == v.len() ==> pieces(v.subrange(p, v.len() as int), sep) == seq![v.subrange(p, q)],
        q < v.len() ==> pieces(v.subrange(p, v.len() as int), sep) == seq![v.subrange(p, q)]
            + pieces(v.subrange(q + 1, v.len() as int), sep),
{
    let rest = v.subrange(p, v.len() as int);
    assert forall|i: int| 0 <= i < q - p implies rest[i] != sep by {
        assert(rest[i] == v[p + i]);
    }
    lemma_pieces_step(rest, sep, q - p);
    assert(rest.subrange(0, q - p) =~= v.subrange(p, q));
    if q < v.len() {
        assert(rest.subrange(q - p + 1, rest.len() as int) =~= v.subrange(q + 1, v.len() as int));
    }
}

/// There is always at least one piece.
pub proof fn lemma_pieces_nonempty(s: Seq<char>, sep: char)
    ensures
        pieces(s, sep).len() >= 1,
    decreases s.len(),
{
    if s.len() > 0 {
        lemma_pieces_nonempty(s.drop_first(), sep);
    }
}

/// A text without separator is a single piece.
pub proof fn lemma_pieces_single(s: Seq<char>, sep: char)
    requires
        forall|i: int| 0 <= i < s.len() ==> s[i] != sep,
    ensures
        pieces(s, sep) == seq![s],
{
    lemma_pieces_step(s, sep, s.len() as int);
}

/// Splitting two texts joined by a separator gives the pieces of the first, then
/// the pieces of the second.
pub proof fn lemma_pieces_join(s: Seq<char>, sep: char, t: Seq<char>)
    ensures
        pieces(s + seq![sep] + t, sep) == pieces(s, sep) + pieces(t, sep),
    decreases s.len(),
{
    let w = s + seq![sep] + t;
    if s.len() == 0 {
        assert(w.drop_first() =~= t);
        assert(w[0] == sep);
        assert(pieces(s, sep) =~= seq![Seq::<char>::empty()]);
        assert(pieces(w, sep) =~= pieces(s, sep) + pieces(t, sep));
    } else {
        let s1 = s.drop_first();
        assert(w.drop_first() =~= s1 + seq![sep] + t);
        assert(w[0] == s[0]);
        lemma_pieces_join(s1, sep, t);
        lemma_pieces_nonempty(s1, sep);
        let a = pieces(s1, sep);
        let b = pieces(t, sep);
        if s[0] == sep {
            assert(pieces(w, sep) =~= pieces(s, sep) + b);
        } else {
            assert((a + b).update(0, seq![s[0]] + (a + b)[0]) =~= a.update(0, seq![s[0]] + a[0])
                + b);
            assert(pieces(w, sep) =~= pieces(s, sep) + b);
        }
    }
}

} // verus!
