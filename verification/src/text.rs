//! Character-level text helpers shared by the rule and pattern parsers.
//!
//! Text is handled as a sequence of `char`s; every helper states its result
//! over the `Seq<char>` view of its input.
use vstd::prelude::*;

verus! {

/// The characters of a string slice, in order.
pub fn chars_of(s: &str) -> (v: Vec<char>)
    ensures
        v@ == s@,
{
    let mut v: Vec<char> = Vec::new();
    for c in it: s.chars()
        invariant
            v@ == it.seq().take(it.index() as int),
    {
        v.push(c);
    }
    v
}

/// Appends one character to a string.
///
/// Calls `String::push`, which the standard library documents as appending
/// the given `char` to the end of the string.
#[verifier::external_body]
pub fn push_char(s: &mut String, c: char)
    ensures
        final(s)@ == old(s)@.push(c),
{
    s.push(c);
}

/// Unicode `White_Space`: the characters that `char::is_whitespace` accepts.
pub open spec fn is_white_space(c: char) -> bool {
    ||| '\u{9}' <= c <= '\u{d}'
    ||| c == ' '
    ||| c == '\u{85}'
    ||| c == '\u{a0}'
    ||| c == '\u{1680}'
    ||| '\u{2000}' <= c <= '\u{200a}'
    ||| c == '\u{2028}'
    ||| c == '\u{2029}'
    ||| c == '\u{202f}'
    ||| c == '\u{205f}'
    ||| c == '\u{3000}'
}

/// Whether `c` is white space in the sense of Unicode (and of `char::is_whitespace`).
pub fn is_whitespace(c: char) -> (b: bool)
    ensures
        b == is_white_space(c),
{
    ('\u{9}' <= c && c <= '\u{d}') || c == ' ' || c == '\u{85}' || c == '\u{a0}' || c
        == '\u{1680}' || ('\u{2000}' <= c && c <= '\u{200a}') || c == '\u{2028}' || c
        == '\u{2029}' || c == '\u{202f}' || c == '\u{205f}' || c == '\u{3000}'
}

/// An ASCII decimal digit.
pub open spec fn is_digit(c: char) -> bool {
    '0' <= c <= '9'
}

/// The value of an ASCII decimal digit.
pub open spec fn digit_of(c: char) -> int {
    c as int - '0' as int
}

/// The character of a decimal digit `0..=9`.
pub open spec fn digit_char(n: int) -> char {
    (n + '0' as int) as char
}

/// `s` without its leading white space.
pub open spec fn trim_start(s: Seq<char>) -> Seq<char>
    decreases s.len(),
{
    if s.len() > 0 && is_white_space(s[0]) {
        trim_start(s.drop_first())
    } else {
        s
    }
}

/// `s` without its trailing white space.
pub open spec fn trim_end(s: Seq<char>) -> Seq<char>
    decreases s.len(),
{
    if s.len() > 0 && is_white_space(s.last()) {
        trim_end(s.drop_last())
    } else {
        s
    }
}

/// `s` without leading and trailing white space, as `str::trim` gives it.
pub open spec fn trim(s: Seq<char>) -> Seq<char> {
    trim_end(trim_start(s))
}

/// ASCII upper case of one character; every other character is kept.
pub open spec fn upper_char(c: char) -> char {
    if 'a' <= c <= 'z' {
        (c as int - 32) as char
    } else {
        c
    }
}

/// ASCII upper case of a text, as `str::to_ascii_uppercase` gives it.
pub open spec fn upper(s: Seq<char>) -> Seq<char> {
    s.map_values(|c: char| upper_char(c))
}

/// How many times `c` occurs in `s`.
pub open spec fn count_of(s: Seq<char>, c: char) -> nat
    decreases s.len(),
{
    if s.len() == 0 {
        0
    } else {
        count_of(s.drop_last(), c) + if s.last() == c {
            1nat
        } else {
            0nat
        }
    }
}

/// The index of the first `c` in `s`, or the length of `s` when there is none.
pub open spec fn first_index_of(s: Seq<char>, c: char) -> int
    decreases s.len(),
{
    if s.len() == 0 {
        0
    } else if s[0] == c {
        0
    } else {
        1 + first_index_of(s.drop_first(), c)
    }
}

/// The two pieces of `s` around its one separator `sep`, as `split(sep)` gives
/// them when it yields exactly two pieces; `None` when `sep` does not occur
/// exactly once.
pub open spec fn split_in_two(s: Seq<char>, sep: char) -> Option<(Seq<char>, Seq<char>)> {
    if count_of(s, sep) == 1 {
        let i = first_index_of(s, sep);
        Some((s.take(i), s.skip(i + 1)))
    } else {
        None
    }
}

/// `s` without a leading `c`, or `s` itself when it does not start with `c`.
pub open spec fn strip_char(s: Seq<char>, c: char) -> Seq<char> {
    if s.len() > 0 && s[0] == c {
        s.drop_first()
    } else {
        s
    }
}

/// The index range `[lo, hi)` of `s` that remains after trimming white space.
pub fn trim_range(s: &[char]) -> (r: (usize, usize))
    ensures
        r.0 <= r.1 <= s@.len(),
        s@.subrange(r.0 as int, r.1 as int) == trim(s@),
{
    let mut lo: usize = 0;
    assert(s@.skip(0) == s@);
    while lo < s.len() && is_whitespace(s[lo])
        invariant
            lo <= s.len(),
            trim_start(s@.skip(lo as int)) == trim_start(s@),
        decreases s.len() - lo,
    {
        assert(s@.skip(lo as int).drop_first() == s@.skip(lo + 1));
        lo = lo + 1;
    }
    let mut hi: usize = s.len();
    assert(s@.skip(lo as int) == s@.subrange(lo as int, hi as int));
    while hi > lo && is_whitespace(s[hi - 1])
        invariant
            lo <= hi <= s.len(),
            trim_start(s@) == s@.skip(lo as int),
            trim_end(s@.subrange(lo as int, hi as int)) == trim(s@),
        decreases hi,
    {
        assert(s@.subrange(lo as int, hi as int).drop_last() == s@.subrange(lo as int, hi - 1));
        hi = hi - 1;
    }
    (lo, hi)
}

/// The ASCII upper case of a text.
pub fn to_upper(s: &[char]) -> (u: Vec<char>)
    ensures
        u@ == upper(s@),
{
    let mut u: Vec<char> = Vec::new();
    let mut i: usize = 0;
    while i < s.len()
        invariant
            i <= s.len(),
            u@ == upper(s@.take(i as int)),
        decreases s.len() - i,
    {
        let c = s[i];
        let d = if 'a' <= c && c <= 'z' {
            ((c as u32) - 32) as u8 as char
        } else {
            c
        };
        u.push(d);
        i = i + 1;
        assert(upper(s@.take(i as int)) == upper(s@.take(i - 1)).push(upper_char(c)));
    }
    assert(s@.take(s.len() as int) == s@);
    u
}

/// The pieces of `s` around `sep` when `sep` occurs exactly once.
pub fn split_two(s: &[char], sep: char) -> (r: Option<(&[char], &[char])>)
    ensures
        match r {
            Some((a, b)) => split_in_two(s@, sep) == Some((a@, b@)),
            None => split_in_two(s@, sep) is None,
        },
{
    let mut count: usize = 0;
    let mut first: usize = s.len();
    let mut i: usize = 0;
    assert(s@.skip(0) == s@);
    while i < s.len()
        invariant
            i <= s.len(),
            count == count_of(s@.take(i as int), sep),
            count <= i,
            count == 0 ==> first == s.len(),
            count == 0 ==> first_index_of(s@, sep) == i + first_index_of(s@.skip(i as int), sep),
            count > 0 ==> first < i && first == first_index_of(s@, sep),
        decreases s.len() - i,
    {
        assert(s@.take(i + 1).drop_last() == s@.take(i as int));
        if s[i] == sep {
            if count == 0 {
                first = i;
            }
            count = count + 1;
        } else {
            assert(s@.skip(i as int).drop_first() == s@.skip(i + 1));
        }
        i = i + 1;
    }
    assert(s@.take(s.len() as int) == s@);
    if count == 1 {
        let a = &s[0..first];
        let b = &s[first + 1..s.len()];
        assert(a@ == s@.take(first as int));
        assert(b@ == s@.skip(first + 1));
        Some((a, b))
    } else {
        None
    }
}

/// `s` without a leading `c`, or `s` itself.
pub fn strip_prefix_char(s: &[char], c: char) -> (r: &[char])
    ensures
        r@ == strip_char(s@, c),
{
    if s.len() > 0 && s[0] == c {
        let r = &s[1..s.len()];
        assert(r@ == s@.drop_first());
        r
    } else {
        s
    }
}

/// Counting occurrences distributes over concatenation.
pub proof fn lemma_count_of_concat(x: Seq<char>, y: Seq<char>, c: char)
    ensures
        count_of(x + y, c) == count_of(x, c) + count_of(y, c),
    decreases y.len(),
{
    if y.len() == 0 {
        assert(x + y =~= x);
    } else {
        lemma_count_of_concat(x, y.drop_last(), c);
        assert((x + y).drop_last() =~= x + y.drop_last());
    }
}

/// A text in which `c` does not occur has no occurrence of `c` to count.
pub proof fn lemma_count_of_absent(x: Seq<char>, c: char)
    requires
        forall|i: int| 0 <= i < x.len() ==> x[i] != c,
    ensures
        count_of(x, c) == 0,
    decreases x.len(),
{
    if x.len() > 0 {
        lemma_count_of_absent(x.drop_last(), c);
    }
}

/// The first `c` of `x + y`, when `c` does not occur in `x`, is the first `c` of `y`.
pub proof fn lemma_first_index_of_concat(x: Seq<char>, y: Seq<char>, c: char)
    requires
        forall|i: int| 0 <= i < x.len() ==> x[i] != c,
    ensures
        first_index_of(x + y, c) == x.len() + first_index_of(y, c),
    decreases x.len(),
{
    if x.len() == 0 {
        assert(x + y =~= y);
    } else {
        lemma_first_index_of_concat(x.drop_first(), y, c);
        assert((x + y).drop_first() =~= x.drop_first() + y);
    }
}

/// Trimming leaves a text alone whose first and last characters are not white space.
pub proof fn lemma_trim_noop(s: Seq<char>)
    requires
        s.len() > 0,
        !is_white_space(s[0]),
        !is_white_space(s.last()),
    ensures
        trim(s) == s,
{
}

/// Upper-casing leaves a text alone that has no ASCII lower-case letter.
pub proof fn lemma_upper_noop(s: Seq<char>)
    requires
        forall|i: int| 0 <= i < s.len() ==> !('a' <= #[trigger] s[i] <= 'z'),
    ensures
        upper(s) == s,
{
    assert(upper(s) =~= s);
}

} // verus!
