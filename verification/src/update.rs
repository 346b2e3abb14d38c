//! Version comparison and the update notice. The latest release tag is fetched
//! from GitHub by the caller and handed over.

use vstd::prelude::*;

use crate::inspect::opt_view;
use crate::text::{
    chars_of, digit_value, digits_value, is_digit, lemma_pieces_from, lemma_pieces_join, lemma_pieces_single,
    parse_unsigned, parse_unsigned_range, piece_end, pieces, push_str, string_of, unsigned_body,
};

verus! {

/// The GitHub repository whose releases are checked.
pub fn github_repo() -> (r: &'static str)
    ensures
        r@ == "AymericChaverot/wrath"@,
{
    "AymericChaverot/wrath"
}

/// The number written by `word`, if it is an unsigned decimal number that fits in
/// 32 bits (what `str::parse::<u32>` accepts).
pub open spec fn u32_in(word: Seq<char>) -> Option<u32> {
    match parse_unsigned(word) {
        Some(v) => if v <= u32::MAX {
            Some(v as u32)
        } else {
            None
        },
        None => None,
    }
}

/// The numbers among `parts`, in order; the parts that are not numbers are left out.
pub open spec fn numbers(parts: Seq<Seq<char>>) -> Seq<u32>
    decreases parts.len(),
{
    if parts.len() == 0 {
        seq![]
    } else {
        match u32_in(parts[0]) {
            Some(v) => seq![v] + numbers(parts.drop_first()),
            None => numbers(parts.drop_first()),
        }
    }
}

/// The components of a version: its dot-separated parts that are numbers.
pub open spec fn version_numbers(v: Seq<char>) -> Seq<u32> {
    numbers(pieces(v, '.'))
}

/// Component `i` of a version, 0 past its end.
pub open spec fn part_at(s: Seq<u32>, i: int) -> u32 {
    if 0 <= i < s.len() {
        s[i]
    } else {
        0
    }
}

/// Whether `l` is greater than `c` from component `i` on, both padded with zeros.
pub open spec fn newer_from(l: Seq<u32>, c: Seq<u32>, i: int) -> bool
    decreases l.len() + c.len() - i,
{
    if i < 0 || (i >= l.len() && i >= c.len()) {
        false
    } else if part_at(l, i) > part_at(c, i) {
        true
    } else if part_at(l, i) < part_at(c, i) {
        false
    } else {
        newer_from(l, c, i + 1)
    }
}

/// Whether the version `latest` is newer than `current`: their numeric components,
/// compared in order, the shorter padded with zeros.
pub open spec fn version_newer(latest: Seq<char>, current: Seq<char>) -> bool {
    newer_from(version_numbers(latest), version_numbers(current), 0)
}

/// The numeric components of a version.
fn parse_version(v: &str) -> (r: Vec<u32>)
    ensures
        r@ == version_numbers(v@),
{
    let chars = chars_of(v);
    let n = chars.len();
    let mut r: Vec<u32> = Vec::new();
    let mut p: usize = 0;
    assert(chars@.subrange(0, n as int) =~= v@);
    loop
        invariant
            n == chars@.len(),
            chars@ == v@,
            p <= n,
            version_numbers(v@) == r@ + numbers(pieces(chars@.subrange(p as int, n as int), '.')),
        decreases n - p,
    {
        let q = piece_end(&chars, p, '.');
        let part = parse_unsigned_range(&chars, p, q, 0xffff_ffff);
        let ghost before = r@;
        proof {
            lemma_pieces_from(chars@, '.', p as int, q as int);
        }
        let ghost piece = chars@.subrange(p as int, q as int);
        let ghost tail = if q < n {
            pieces(chars@.subrange(q + 1, n as int), '.')
        } else {
            Seq::<Seq<char>>::empty()
        };
        proof {
            assert(pieces(chars@.subrange(p as int, n as int), '.') =~= seq![piece] + tail);
            assert((seq![piece] + tail).drop_first() =~= tail);
            assert((seq![piece] + tail)[0] == piece);
        }
        match part {
            Some(x) => {
                r.push(x as u32);
                assert(before + numbers(seq![piece] + tail) =~= r@ + numbers(tail));
            },
            None => {},
        }
        if q == n {
            assert(r@ + numbers(tail) =~= r@);
            return r;
        }
        p = q + 1;
    }
}

/// Compare two semver-like version strings.
/// Returns true if `latest` is newer than `current`.
pub fn is_newer(latest: &str, current: &str) -> (r: bool)
    ensures
        r == version_newer(latest@, current@),
{
    let l = parse_version(latest);
    let c = parse_version(current);
    let n: usize = if l.len() > c.len() {
        l.len()
    } else {
        c.len()
    };
    let mut i: usize = 0;
    while i < n
        invariant
            n == if l@.len() > c@.len() {
                l@.len()
            } else {
                c@.len()
            },
            i <= n,
            version_newer(latest@, current@) == newer_from(l@, c@, i as int),
        decreases n - i,
    {
        let a: u32 = if i < l.len() {
            l[i]
        } else {
            0
        };
        let b: u32 = if i < c.len() {
            c[i]
        } else {
            0
        };
        if a > b {
            return true;
        }
        if a < b {
            return false;
        }
        i = i + 1;
    }
    false
}

proof fn lemma_newer_irreflexive(l: Seq<u32>, i: int)
    ensures
        !newer_from(l, l, i),
    decreases l.len() + l.len() - i,
{
    if i >= 0 && i < l.len() {
        lemma_newer_irreflexive(l, i + 1);
    }
}

proof fn lemma_exhausted_never_newer(l: Seq<u32>, c: Seq<u32>, i: int)
    requires
        i >= l.len(),
    ensures
        !newer_from(l, c, i),
    decreases l.len() + c.len() - i,
{
    if i >= 0 && i < c.len() {
        lemma_exhausted_never_newer(l, c, i + 1);
    }
}

proof fn lemma_newer_asymmetric(a: Seq<u32>, b: Seq<u32>, i: int)
    requires
        newer_from(a, b, i),
    ensures
        !newer_from(b, a, i),
    decreases a.len() + b.len() - i,
{
    if part_at(a, i) == part_at(b, i) {
        lemma_newer_asymmetric(a, b, i + 1);
    }
}

proof fn lemma_newer_transitive(a: Seq<u32>, b: Seq<u32>, c: Seq<u32>, i: int)
    requires
        newer_from(a, b, i),
        newer_from(b, c, i),
    ensures
        newer_from(a, c, i),
    decreases a.len() + b.len() - i,
{
    if part_at(a, i) == part_at(b, i) && part_at(b, i) == part_at(c, i) {
        lemma_newer_transitive(a, b, c, i + 1);
        if i >= a.len() {
            lemma_exhausted_never_newer(a, b, i + 1);
        }
    }
}

/// No version is newer than itself.
pub proof fn is_newer_irreflexive(v: Seq<char>)
    ensures
        !version_newer(v, v),
{
    lemma_newer_irreflexive(version_numbers(v), 0);
}

/// Of two versions, at most one is newer than the other.
pub proof fn is_newer_asymmetric(a: Seq<char>, b: Seq<char>)
    requires
        version_newer(a, b),
    ensures
        !version_newer(b, a),
{
    lemma_newer_asymmetric(version_numbers(a), version_numbers(b), 0);
}

/// A version newer than one that is newer than a third is newer than the third.
pub proof fn is_newer_transitive(a: Seq<char>, b: Seq<char>, c: Seq<char>)
    requires
        version_newer(a, b),
        version_newer(b, c),
    ensures
        version_newer(a, c),
{
    lemma_newer_transitive(version_numbers(a), version_numbers(b), version_numbers(c), 0);
}

proof fn lemma_numbers_join(x: Seq<Seq<char>>, y: Seq<Seq<char>>)
    ensures
        numbers(x + y) == numbers(x) + numbers(y),
    decreases x.len(),
{
    if x.len() == 0 {
        assert(x + y =~= y);
        assert(numbers(x) + numbers(y) =~= numbers(y));
    } else {
        lemma_numbers_join(x.drop_first(), y);
        assert((x + y).drop_first() =~= x.drop_first() + y);
        assert((x + y)[0] == x[0]);
        match u32_in(x[0]) {
            Some(v) => {
                assert(seq![v] + (numbers(x.drop_first()) + numbers(y)) =~= numbers(x) + numbers(
                    y,
                ));
            },
            None => {},
        }
    }
}

/// Appending ".0" to a version appends a zero component.
proof fn lemma_version_padded(a: Seq<char>)
    ensures
        version_numbers(a + ".0"@) == version_numbers(a).push(0),
{
    reveal_strlit(".0");
    let zero = seq!['0'];
    assert(a + ".0"@ =~= a + seq!['.'] + zero);
    lemma_pieces_join(a, '.', zero);
    lemma_pieces_single(zero, '.');
    assert(u32_in(zero) == Some(0u32)) by {
        assert(unsigned_body(zero) == zero);
        assert(forall|i: int| 0 <= i < zero.len() ==> is_digit(#[trigger] zero[i]));
        assert(zero.drop_last() =~= Seq::<char>::empty());
        assert(digits_value(Seq::<char>::empty()) == 0);
        assert(zero.last() == '0');
        assert(digit_value('0') == 0);
        assert(digits_value(zero) == digits_value(zero.drop_last()) * 10 + digit_value(zero.last()));
        assert(digits_value(zero) == 0);
        assert(parse_unsigned(zero) == Some(0nat));
    }
    lemma_numbers_join(pieces(a, '.'), seq![zero]);
    assert(seq![zero].drop_first() =~= Seq::<Seq<char>>::empty());
    assert(seq![zero][0] == zero);
    assert(numbers(seq![zero]) =~= seq![0u32] + numbers(Seq::<Seq<char>>::empty()));
    assert(numbers(seq![zero]) =~= seq![0u32]);
    assert(version_numbers(a) + seq![0u32] =~= version_numbers(a).push(0));
}

proof fn lemma_newer_left_eq(x: Seq<u32>, y: Seq<u32>, c: Seq<u32>, i: int)
    requires
        forall|j: int| part_at(x, j) == part_at(y, j),
    ensures
        newer_from(x, c, i) == newer_from(y, c, i),
    decreases x.len() + y.len() + c.len() - i,
{
    assert(part_at(x, i) == part_at(y, i));
    if i >= 0 && (i < x.len() || i < y.len() || i < c.len()) {
        lemma_newer_left_eq(x, y, c, i + 1);
    }
}

proof fn lemma_newer_right_eq(l: Seq<u32>, x: Seq<u32>, y: Seq<u32>, i: int)
    requires
        forall|j: int| part_at(x, j) == part_at(y, j),
    ensures
        newer_from(l, x, i) == newer_from(l, y, i),
    decreases l.len() + x.len() + y.len() - i,
{
    assert(part_at(x, i) == part_at(y, i));
    if i >= 0 && (i < x.len() || i < y.len() || i < l.len()) {
        lemma_newer_right_eq(l, x, y, i + 1);
    }
}

/// Missing components count as zero: appending a ".0" component to either version
/// never changes whether one is newer than the other. In particular a version is
/// never newer than the same version with a trailing ".0", nor the other way round.
pub proof fn is_newer_ignores_trailing_zeros(a: Seq<char>, b: Seq<char>)
    ensures
        version_newer(a + ".0"@, b) == version_newer(a, b),
        version_newer(a, b + ".0"@) == version_newer(a, b),
        !version_newer(a + ".0"@, a),
        !version_newer(a, a + ".0"@),
{
    lemma_version_padded(a);
    lemma_version_padded(b);
    let na = version_numbers(a);
    let nb = version_numbers(b);
    assert forall|j: int| part_at(na.push(0), j) == part_at(na, j) by {}
    assert forall|j: int| part_at(nb.push(0), j) == part_at(nb, j) by {}
    lemma_newer_left_eq(na.push(0), na, nb, 0);
    lemma_newer_right_eq(na, nb.push(0), nb, 0);
    lemma_newer_left_eq(na.push(0), na, na, 0);
    lemma_newer_right_eq(na, na.push(0), na, 0);
    lemma_newer_irreflexive(na, 0);
}

/// `s` without one leading `v`.
pub open spec fn without_v(s: Seq<char>) -> Seq<char> {
    if s.len() > 0 && s[0] == 'v' {
        s.drop_first()
    } else {
        s
    }
}

/// The version to announce when the latest release is tagged `latest` and this is
/// version `current`: the latest one, without its `v`, when it is newer.
pub open spec fn update_for(current: Seq<char>, latest: Seq<char>) -> Option<Seq<char>> {
    if version_newer(without_v(latest), without_v(current)) {
        Some(without_v(latest))
    } else {
        None
    }
}

/// `s` without one leading `v`.
fn strip_v(s: &str) -> (r: String)
    ensures
        r@ == without_v(s@),
{
    let chars = chars_of(s);
    if chars.len() > 0 && chars[0] == 'v' {
        let r = string_of(&chars, 1, chars.len());
        assert(r@ =~= without_v(s@));
        r
    } else {
        s.to_string()
    }
}

/// Check whether a newer version of wrath is available, given this version and the
/// tag of the latest release on GitHub, or why it could not be fetched.
///
/// Returns `Some(latest_version)` if a newer version exists,
/// or `None` if the current version is up to date or the check failed.
pub fn check_for_update(current_version: &str, latest: Result<String, String>) -> (r: Option<
    String,
>)
    ensures
        match latest {
            Ok(tag) => opt_view(r) == update_for(current_version@, tag@),
            Err(_) => r is None,
        },
{
    let tag = match latest {
        Ok(tag) => tag,
        Err(_) => return None,
    };
    let latest_clean = strip_v(tag.as_str());
    let current_clean = strip_v(current_version);
    if is_newer(latest_clean.as_str(), current_clean.as_str()) {
        Some(latest_clean)
    } else {
        None
    }
}

/// The update notification.
pub open spec fn update_text(current: Seq<char>, latest: Seq<char>) -> Seq<char> {
    "\n[i] Update available: "@ + current + " -> "@ + latest
        + "\n    Run the install script again to update, or visit:\n    https://github.com/"@
        + "AymericChaverot/wrath"@ + "/releases/latest\n"@
}

/// Format the update notification message.
pub fn update_message(current: &str, latest: &str) -> (s: String)
    ensures
        s@ == update_text(current@, latest@),
{
    let mut s = String::new();
    push_str(&mut s, "\n[i] Update available: ");
    push_str(&mut s, current);
    push_str(&mut s, " -> ");
    push_str(&mut s, latest);
    push_str(&mut s, "\n    Run the install script again to update, or visit:\n    https://github.com/");
    push_str(&mut s, github_repo());
    push_str(&mut s, "/releases/latest\n");
    assert(s@ =~= update_text(current@, latest@));
    s
}

/// The GitHub API address of the latest release.
pub open spec fn latest_release_url_text() -> Seq<char> {
    "https://api.github.com/repos"@ + "/"@ + "AymericChaverot/wrath"@ + "/releases/latest"@
}

/// The GitHub API address of the latest release.
pub fn latest_release_url() -> (s: String)
    ensures
        s@ == latest_release_url_text(),
{
    let mut s = String::new();
    push_str(&mut s, "https://api.github.com/repos");
    push_str(&mut s, "/");
    push_str(&mut s, github_repo());
    push_str(&mut s, "/releases/latest");
    assert(s@ =~= latest_release_url_text());
    s
}

} // verus!
