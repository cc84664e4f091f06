//! Character-sequence helpers shared by the source model and the rules.
use vstd::prelude::*;

verus! {

/// Unicode `White_Space`, the set that `char::is_whitespace` and `str::trim` use.
pub open spec fn is_whitespace_char(c: char) -> bool {
    ||| c == ' '
    ||| ('\u{9}' <= c && c <= '\u{d}')
    ||| c == '\u{85}'
    ||| c == '\u{a0}'
    ||| c == '\u{1680}'
    ||| ('\u{2000}' <= c && c <= '\u{200a}')
    ||| c == '\u{2028}'
    ||| c == '\u{2029}'
    ||| c == '\u{202f}'
    ||| c == '\u{205f}'
    ||| c == '\u{3000}'
}

/// `s.trim().is_empty()`: the sequence holds nothing but whitespace.
pub open spec fn is_blank(s: Seq<char>) -> bool {
    forall|i: int| 0 <= i < s.len() ==> is_whitespace_char(#[trigger] s[i])
}

/// Number of leading whitespace characters.
pub open spec fn leading_whitespace(s: Seq<char>) -> nat
    decreases s.len(),
{
    if s.len() > 0 && is_whitespace_char(s[0]) {
        1 + leading_whitespace(s.drop_first())
    } else {
        0
    }
}

/// Number of trailing whitespace characters.
pub open spec fn trailing_whitespace(s: Seq<char>) -> nat
    decreases s.len(),
{
    if s.len() > 0 && is_whitespace_char(s.last()) {
        1 + trailing_whitespace(s.drop_last())
    } else {
        0
    }
}

/// `str::trim`: the sequence without leading and trailing whitespace.
pub open spec fn trim(s: Seq<char>) -> Seq<char> {
    let front = s.skip(leading_whitespace(s) as int);
    front.take(front.len() - trailing_whitespace(front))
}

/// `haystack` holds `needle` as a contiguous subsequence starting at `at`.
pub open spec fn occurs_at(haystack: Seq<char>, needle: Seq<char>, at: int) -> bool {
    0 <= at && at + needle.len() <= haystack.len() && haystack.subrange(at, at + needle.len())
        == needle
}

/// `str::contains` with a string pattern.
pub open spec fn contains_seq(haystack: Seq<char>, needle: Seq<char>) -> bool {
    exists|at: int| occurs_at(haystack, needle, at)
}

/// The two markers that open an ordinary comment.
pub open spec fn has_comment_marker(s: Seq<char>) -> bool {
    contains_seq(s, seq!['/', '/']) || contains_seq(s, seq!['/', '*'])
}

/// Lexicographic order of two character sequences, as `String`'s `Ord` orders them
/// (UTF-8 byte order equals code point order).
pub open spec fn seq_lt(a: Seq<char>, b: Seq<char>) -> bool
    decreases a.len(),
{
    if a.len() == 0 {
        b.len() > 0
    } else if b.len() == 0 {
        false
    } else if a[0] != b[0] {
        a[0] < b[0]
    } else {
        seq_lt(a.drop_first(), b.drop_first())
    }
}

/// Joins the sequences with a separator between each adjacent pair.
pub open spec fn join(parts: Seq<Seq<char>>, separator: Seq<char>) -> Seq<char>
    decreases parts.len(),
{
    if parts.len() == 0 {
        Seq::empty()
    } else if parts.len() == 1 {
        parts[0]
    } else {
        join(parts.drop_last(), separator) + separator + parts.last()
    }
}

pub fn is_whitespace(c: char) -> (result: bool)
    ensures
        result == is_whitespace_char(c),
{
    c == ' ' || ('\u{9}' <= c && c <= '\u{d}') || c == '\u{85}' || c == '\u{a0}' || c == '\u{1680}'
        || ('\u{2000}' <= c && c <= '\u{200a}') || c == '\u{2028}' || c == '\u{2029}' || c
        == '\u{202f}' || c == '\u{205f}' || c == '\u{3000}'
}

/// The characters of a string slice.
pub fn chars_of(s: &str) -> (chars: Vec<char>)
    ensures
        chars@ == s@,
{
    let mut chars: Vec<char> = Vec::new();
    for c in iter: s.chars()
        invariant
            chars@ == iter.seq().take(iter.index() as int),
    {
        chars.push(c);
    }
    chars
}

/// `String::push`: appends one character.
#[verifier::external_body]
fn push_char(s: &mut String, c: char)
    ensures
        final(s)@ == old(s)@.push(c),
{
    s.push(c);
}

/// Appends `chars[start..end]` to `out`.
pub fn push_range(out: &mut String, chars: &Vec<char>, start: usize, end: usize)
    requires
        start <= end <= chars@.len(),
    ensures
        final(out)@ == old(out)@ + chars@.subrange(start as int, end as int),
{
    let mut i: usize = start;
    while i < end
        invariant
            start <= i <= end <= chars@.len(),
            out@ == old(out)@ + chars@.subrange(start as int, i as int),
        decreases end - i,
    {
        push_char(out, chars[i]);
        assert(chars@.subrange(start as int, i + 1) == chars@.subrange(start as int, i as int).push(
            chars@[i as int],
        ));
        i = i + 1;
    }
}

/// Appends a whole string slice.
pub fn push_str(out: &mut String, s: &str)
    ensures
        final(out)@ == old(out)@ + s@,
{
    let chars = chars_of(s);
    push_range(out, &chars, 0, chars.len());
    assert(chars@.subrange(0, chars@.len() as int) == chars@);
}

/// Builds a string from a range of characters.
pub fn string_from_range(chars: &Vec<char>, start: usize, end: usize) -> (s: String)
    requires
        start <= end <= chars@.len(),
    ensures
        s@ == chars@.subrange(start as int, end as int),
{
    let mut s = String::new();
    push_range(&mut s, chars, start, end);
    s
}

/// `s[start..end].trim().is_empty()`.
pub fn range_is_blank(chars: &Vec<char>, start: usize, end: usize) -> (result: bool)
    requires
        start <= end <= chars@.len(),
    ensures
        result == is_blank(chars@.subrange(start as int, end as int)),
{
    let mut i: usize = start;
    while i < end
        invariant
            start <= i <= end <= chars@.len(),
            is_blank(chars@.subrange(start as int, i as int)),
        decreases end - i,
    {
        if !is_whitespace(chars[i]) {
            assert(chars@.subrange(start as int, end as int)[i - start] == chars@[i as int]);
            return false;
        }
        i = i + 1;
        assert forall|k: int| 0 <= k < i - start implies is_whitespace_char(
            #[trigger] chars@.subrange(start as int, i as int)[k],
        ) by {
            if k < i - 1 - start {
                assert(chars@.subrange(start as int, i as int)[k] == chars@.subrange(
                    start as int,
                    i - 1,
                )[k]);
            }
        }
    }
    true
}

/// `s.trim()` is empty or a lone comma: whitespace, then at most one `,`, then
/// whitespace.
pub open spec fn is_blank_or_comma(s: Seq<char>) -> bool {
    ||| is_blank(s)
    ||| exists|k: int|
        0 <= k < s.len() && s[k] == ',' && is_blank(#[trigger] s.take(k)) && is_blank(s.skip(k + 1))
}

/// `s[start..end].trim()` is empty or `","`.
pub fn range_is_blank_or_comma(chars: &Vec<char>, start: usize, end: usize) -> (result: bool)
    requires
        start <= end <= chars@.len(),
    ensures
        result == is_blank_or_comma(chars@.subrange(start as int, end as int)),
{
    let ghost s = chars@.subrange(start as int, end as int);
    let mut i: usize = start;
    while i < end && is_whitespace(chars[i])
        invariant
            start <= i <= end <= chars@.len(),
            s == chars@.subrange(start as int, end as int),
            is_blank(s.take(i - start)),
        decreases end - i,
    {
        proof {
            assert forall|k: int| 0 <= k < i + 1 - start implies is_whitespace_char(#[trigger] s.take(i + 1 - start)[k]) by {
                if k < i - start {
                    assert(s.take(i + 1 - start)[k] == s.take(i - start)[k]);
                } else {
                    assert(s[k] == chars@[i as int]);
                }
            }
        }
        i = i + 1;
    }
    let ghost k0 = i - start;
    if i == end {
        assert(s.take(k0) =~= s);
        return true;
    }
    assert(s[k0] == chars@[i as int]);
    assert(!is_whitespace_char(s[k0]));
    if chars[i] != ',' {
        proof {
            assert(!is_blank(s));
            assert forall|k: int| 0 <= k < s.len() && s[k] == ',' implies !(is_blank(#[trigger] s.take(k)) && is_blank(s.skip(k + 1))) by {
                if k < k0 {
                    assert(s.take(k0)[k] == s[k]);
                } else if k > k0 {
                    assert(s.take(k)[k0] == s[k0]);
                }
            }
        }
        return false;
    }
    let rest = range_is_blank(chars, i + 1, end);
    proof {
        assert(s.skip(k0 + 1) =~= chars@.subrange(i + 1, end as int));
        if !rest {
            assert(!is_blank(s)) by {
                assert(s[k0] == ',');
            }
            assert forall|k: int| 0 <= k < s.len() && s[k] == ',' implies !(is_blank(#[trigger] s.take(k)) && is_blank(s.skip(k + 1))) by {
                if k < k0 {
                    assert(s.take(k0)[k] == s[k]);
                } else if k > k0 {
                    assert(s.take(k)[k0] == s[k0]);
                }
            }
        } else {
            assert(s.take(k0) == s.take(k0));
        }
    }
    rest
}

/// Whether `chars[at..]` starts with the two characters `a`, `b`.
fn pair_at(chars: &Vec<char>, at: usize, end: usize, a: char, b: char) -> (result: bool)
    requires
        at < end <= chars@.len(),
    ensures
        result == (at + 1 < end && chars@[at as int] == a && chars@[at + 1] == b),
{
    at + 1 < end && chars[at] == a && chars[at + 1] == b
}

/// `s[start..end]` contains `//` or `/*`.
pub fn range_has_comment_marker(chars: &Vec<char>, start: usize, end: usize) -> (result: bool)
    requires
        start <= end <= chars@.len(),
    ensures
        result == has_comment_marker(chars@.subrange(start as int, end as int)),
{
    let ghost s = chars@.subrange(start as int, end as int);
    let mut i: usize = start;
    while i < end
        invariant
            start <= i <= end <= chars@.len(),
            s == chars@.subrange(start as int, end as int),
            forall|at: int|
                0 <= at < i - start ==> !occurs_at(s, seq!['/', '/'], at) && !occurs_at(
                    s,
                    seq!['/', '*'],
                    at,
                ),
        decreases end - i,
    {
        if pair_at(chars, i, end, '/', '/') || pair_at(chars, i, end, '/', '*') {
            let ghost at = i - start;
            if pair_at(chars, i, end, '/', '/') {
                assert(s.subrange(at, at + 2) =~= seq!['/', '/']);
                assert(occurs_at(s, seq!['/', '/'], at));
            } else {
                assert(s.subrange(at, at + 2) =~= seq!['/', '*']);
                assert(occurs_at(s, seq!['/', '*'], at));
            }
            return true;
        }
        proof {
            let at = i - start;
            if occurs_at(s, seq!['/', '/'], at) {
                assert(s.subrange(at, at + 2)[0] == s[at]);
                assert(s.subrange(at, at + 2)[1] == s[at + 1]);
            }
            if occurs_at(s, seq!['/', '*'], at) {
                assert(s.subrange(at, at + 2)[0] == s[at]);
                assert(s.subrange(at, at + 2)[1] == s[at + 1]);
            }
        }
        i = i + 1;
    }
    proof {
        assert forall|at: int| !occurs_at(s, seq!['/', '/'], at) by {}
        assert forall|at: int| !occurs_at(s, seq!['/', '*'], at) by {}
    }
    false
}

/// Equality of two character sequences.
pub fn chars_eq(a: &Vec<char>, b: &Vec<char>) -> (result: bool)
    ensures
        result == (a@ == b@),
{
    if a.len() != b.len() {
        return false;
    }
    let mut i: usize = 0;
    while i < a.len()
        invariant
            a@.len() == b@.len(),
            0 <= i <= a@.len(),
            forall|k: int| 0 <= k < i ==> a@[k] == b@[k],
        decreases a@.len() - i,
    {
        if a[i] != b[i] {
            return false;
        }
        i = i + 1;
    }
    assert(a@ =~= b@);
    true
}

/// Equality of two string slices.
pub fn str_eq(a: &str, b: &str) -> (result: bool)
    ensures
        result == (a@ == b@),
{
    let ca = chars_of(a);
    let cb = chars_of(b);
    chars_eq(&ca, &cb)
}

/// A string holding the characters of a slice.
pub fn string_of(s: &str) -> (result: String)
    ensures
        result@ == s@,
{
    let mut result = String::new();
    push_str(&mut result, s);
    result
}

/// The decimal digit `d`.
pub open spec fn digit(d: nat) -> char {
    if d == 0 { '0' }
    else if d == 1 { '1' }
    else if d == 2 { '2' }
    else if d == 3 { '3' }
    else if d == 4 { '4' }
    else if d == 5 { '5' }
    else if d == 6 { '6' }
    else if d == 7 { '7' }
    else if d == 8 { '8' }
    else { '9' }
}

/// `n` written in decimal, as `Display` writes an integer.
pub open spec fn decimal(n: nat) -> Seq<char>
    decreases n,
{
    if n < 10 {
        seq![digit(n)]
    } else {
        decimal(n / 10).push(digit(n % 10))
    }
}

fn digit_char(d: usize) -> (c: char)
    requires
        d < 10,
    ensures
        c == digit(d as nat),
{
    if d == 0 { '0' }
    else if d == 1 { '1' }
    else if d == 2 { '2' }
    else if d == 3 { '3' }
    else if d == 4 { '4' }
    else if d == 5 { '5' }
    else if d == 6 { '6' }
    else if d == 7 { '7' }
    else if d == 8 { '8' }
    else { '9' }
}

/// Appends `n` in decimal.
pub fn push_decimal(out: &mut String, n: usize)
    ensures
        final(out)@ == old(out)@ + decimal(n as nat),
{
    let mut q: usize = n;
    let mut suffix: Vec<char> = Vec::new();
    while q >= 10
        invariant
            decimal(n as nat) == decimal(q as nat) + suffix@,
        decreases q,
    {
        let ghost before = suffix@;
        suffix.insert(0, digit_char(q % 10));
        assert(decimal(q as nat) == decimal((q / 10) as nat).push(digit((q % 10) as nat)));
        assert(decimal((q / 10) as nat).push(digit((q % 10) as nat)) + before =~= decimal((q / 10) as nat)
            + suffix@);
        q = q / 10;
    }
    push_char(out, digit_char(q));
    push_range(out, &suffix, 0, suffix.len());
    assert(suffix@.subrange(0, suffix@.len() as int) =~= suffix@);
    assert(decimal(q as nat) =~= seq![digit(q as nat)]);
}

/// Appends the parts joined by the separator.
pub fn push_joined(out: &mut String, parts: &Vec<String>, separator: &str)
    ensures
        final(out)@ == old(out)@ + join(parts@.map_values(|p: String| p@), separator@),
{
    let ghost all = parts@.map_values(|p: String| p@);
    let ghost start = out@;
    let mut i: usize = 0;
    while i < parts.len()
        invariant
            all == parts@.map_values(|p: String| p@),
            0 <= i <= parts@.len(),
            out@ == start + join(all.take(i as int), separator@),
        decreases parts@.len() - i,
    {
        let ghost before = out@;
        if i > 0 {
            push_str(out, separator);
        }
        push_str(out, parts[i].as_str());
        proof {
            let next = all.take(i + 1);
            assert(next.drop_last() =~= all.take(i as int));
            assert(next.last() == parts@[i as int]@);
            if i == 0 {
                assert(join(next, separator@) == next[0]);
                assert(all.take(0) =~= Seq::<Seq<char>>::empty());
                assert(out@ =~= start + join(next, separator@));
            } else {
                assert(out@ =~= start + join(next, separator@));
            }
        }
        i = i + 1;
    }
    assert(all.take(i as int) =~= all);
}

} // verus!
