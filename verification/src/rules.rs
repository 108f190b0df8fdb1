//! Life-like cellular automaton rules in B/S notation.
use crate::text::{
    chars_of, count_of, digit_char, digit_of, first_index_of, is_digit, is_white_space,
    lemma_count_of_absent, lemma_count_of_concat, lemma_first_index_of_concat, lemma_trim_noop,
    lemma_upper_noop, push_char, split_in_two, split_two, strip_char, strip_prefix_char, to_upper,
    trim, trim_range, upper,
};
use vstd::prelude::*;

verus! {

/// A Life-like rule, encoded as two bit masks over neighbour counts:
/// bit `n` of `birth` set means a dead cell with `n` live neighbours becomes
/// alive; bit `n` of `survive` set means a live cell with `n` live neighbours
/// stays alive.
#[derive(Clone, Copy, Debug, Default, PartialEq, Eq, Structural)]
pub struct Rule {
    pub birth: u32,
    pub survive: u32,
}

/// The mask with bit `n` set for every `n` in `ns` (and no other bit).
pub open spec fn mask_of(ns: Seq<u8>) -> u32
    decreases ns.len(),
{
    if ns.len() == 0 {
        0
    } else {
        mask_of(ns.drop_last()) | (1u32 << ns.last())
    }
}

/// Whether bit `n` of `m` is set.
pub open spec fn has_bit(m: u32, n: u32) -> bool {
    (m >> n) & 1 == 1
}

/// The rule whose birth counts are `b` and whose survival counts are `s`.
pub open spec fn rule_of(b: Seq<u8>, s: Seq<u8>) -> Rule {
    Rule { birth: mask_of(b), survive: mask_of(s) }
}

/// The values of the ASCII digits of `s`, in order; other characters are skipped.
pub open spec fn digit_values(s: Seq<char>) -> Seq<u8>
    decreases s.len(),
{
    if s.len() == 0 {
        Seq::empty()
    } else if is_digit(s.last()) {
        digit_values(s.drop_last()).push(digit_of(s.last()) as u8)
    } else {
        digit_values(s.drop_last())
    }
}

/// The digits `n` in `0..k` whose bit is set in `m`, in increasing order.
pub open spec fn mask_chars(m: u32, k: nat) -> Seq<char>
    decreases k,
{
    if k == 0 {
        Seq::empty()
    } else if has_bit(m, (k - 1) as u32) {
        mask_chars(m, (k - 1) as nat).push(digit_char(k - 1))
    } else {
        mask_chars(m, (k - 1) as nat)
    }
}

/// The text `B<birth digits>/S<survival digits>` of a rule, over the counts 0 to 8.
pub open spec fn format_spec(r: Rule) -> Seq<char> {
    seq!['B'] + mask_chars(r.birth, 9) + seq!['/', 'S'] + mask_chars(r.survive, 9)
}

/// What `Rule::parse` gives for a text.
///
/// After trimming white space the text is read, in this order of preference, as
/// `B<birth>/S<survival>` (the `S` optional, letters in either case), as
/// `S<survival>/B<birth>` (the `B` optional), or as `<survival>/<birth>`.
/// Only the digits of each part count. An empty text, or one in which `/`
/// does not occur exactly once, is no rule.
pub open spec fn parse_spec(text: Seq<char>) -> Option<Rule> {
    let t = trim(text);
    let u = upper(t);
    if t.len() == 0 {
        None
    } else if u[0] == 'B' && split_in_two(u.drop_first(), '/') is Some {
        let (p0, p1) = split_in_two(u.drop_first(), '/').unwrap();
        Some(rule_of(digit_values(p0), digit_values(strip_char(p1, 'S'))))
    } else if u[0] == 'S' && split_in_two(u.drop_first(), '/') is Some {
        let (p0, p1) = split_in_two(u.drop_first(), '/').unwrap();
        Some(rule_of(digit_values(strip_char(p1, 'B')), digit_values(p0)))
    } else if split_in_two(t, '/') is Some {
        let (p0, p1) = split_in_two(t, '/').unwrap();
        Some(rule_of(digit_values(p1), digit_values(p0)))
    } else {
        None
    }
}

/// Every count in `ns` is a valid shift for a 32-bit mask.
pub open spec fn counts_fit(ns: Seq<u8>) -> bool {
    forall|i: int| 0 <= i < ns.len() ==> #[trigger] ns[i] < 32
}

/// The mask of a sequence of counts.
fn mask_from(ns: &[u8]) -> (m: u32)
    requires
        counts_fit(ns@),
    ensures
        m == mask_of(ns@),
{
    let mut m: u32 = 0;
    let mut i: usize = 0;
    while i < ns.len()
        invariant
            i <= ns.len(),
            counts_fit(ns@),
            m == mask_of(ns@.take(i as int)),
        decreases ns.len() - i,
    {
        let n = ns[i];
        assert(ns@.take(i + 1).drop_last() == ns@.take(i as int));
        m = m | (1u32 << n);
        i = i + 1;
    }
    assert(ns@.take(ns.len() as int) == ns@);
    m
}

impl Rule {
    /// The rule with the given masks.
    pub fn new(birth: u32, survive: u32) -> (r: Self)
        ensures
            r.birth == birth,
            r.survive == survive,
    {
        Rule { birth, survive }
    }

    /// The rule whose birth counts are `b` and whose survival counts are `s`.
    pub fn from_bs(b: &[u8], s: &[u8]) -> (r: Self)
        requires
            counts_fit(b@),
            counts_fit(s@),
        ensures
            r == rule_of(b@, s@),
    {
        let birth = mask_from(b);
        let survive = mask_from(s);
        Rule { birth, survive }
    }
}

/// The values of the ASCII digits of `s`, in order.
pub fn digits_in(s: &[char]) -> (v: Vec<u8>)
    ensures
        v@ == digit_values(s@),
        forall|i: int| 0 <= i < v@.len() ==> #[trigger] v@[i] < 10,
{
    let mut v: Vec<u8> = Vec::new();
    let mut i: usize = 0;
    while i < s.len()
        invariant
            i <= s.len(),
            v@ == digit_values(s@.take(i as int)),
            forall|j: int| 0 <= j < v@.len() ==> #[trigger] v@[j] < 10,
        decreases s.len() - i,
    {
        let c = s[i];
        assert(s@.take(i + 1).drop_last() == s@.take(i as int));
        if '0' <= c && c <= '9' {
            let d = (c as u32 - '0' as u32) as u8;
            v.push(d);
        }
        i = i + 1;
    }
    assert(s@.take(s.len() as int) == s@);
    v
}

/// The values of the ASCII digits of `s`, in order.
pub fn digits(s: &str) -> (v: Vec<u8>)
    ensures
        v@ == digit_values(s@),
        forall|i: int| 0 <= i < v@.len() ==> #[trigger] v@[i] < 10,
{
    let cs = chars_of(s);
    digits_in(cs.as_slice())
}

/// The digits `n` in `0..=8` whose bit is set in `mask`, in increasing order.
pub fn mask_digits(mask: u32) -> (t: String)
    ensures
        t@ == mask_chars(mask, 9),
{
    let mut t = String::new();
    let mut n: u32 = 0;
    while n < 9
        invariant
            n <= 9,
            t@ == mask_chars(mask, n as nat),
        decreases 9 - n,
    {
        if (mask >> n) & 1 != 0 {
            assert((mask >> n) & 1 != 0 ==> (mask >> n) & 1 == 1) by (bit_vector);
            let c = ('0' as u8 + n as u8) as char;
            push_char(&mut t, c);
        }
        n = n + 1;
    }
    t
}

/// The rule that a digit-only reading of `bs` and `ss` gives.
fn rule_from_digit_texts(bs: &[char], ss: &[char]) -> (r: Rule)
    ensures
        r == rule_of(digit_values(bs@), digit_values(ss@)),
{
    let b = digits_in(bs);
    let s = digits_in(ss);
    Rule::from_bs(b.as_slice(), s.as_slice())
}

impl Rule {
    /// Reads a rule written as `B3/S23`, `S23/B3` or `23/3` (survival first).
    pub fn parse(text: &str) -> (r: Option<Self>)
        ensures
            r == parse_spec(text@),
    {
        let all = chars_of(text);
        let (lo, hi) = trim_range(all.as_slice());
        let trimmed = &all.as_slice()[lo..hi];
        if trimmed.len() == 0 {
            return None;
        }
        let upper_text = to_upper(trimmed);
        let u = upper_text.as_slice();
        let rest = &u[1..u.len()];
        assert(rest@ == upper(trimmed@).drop_first());
        if u[0] == 'B' {
            if let Some((p0, p1)) = split_two(rest, '/') {
                let s_part = strip_prefix_char(p1, 'S');
                return Some(rule_from_digit_texts(p0, s_part));
            }
        }
        if u[0] == 'S' {
            if let Some((p0, p1)) = split_two(rest, '/') {
                let b_part = strip_prefix_char(p1, 'B');
                return Some(rule_from_digit_texts(b_part, p0));
            }
        }
        if let Some((p0, p1)) = split_two(trimmed, '/') {
            return Some(rule_from_digit_texts(p1, p0));
        }
        None
    }

    /// The rule as text, `B<birth digits>/S<survival digits>`, over the counts 0 to 8.
    pub fn format(&self) -> (t: String)
        ensures
            t@ == format_spec(*self),
    {
        let mut t = String::new();
        push_char(&mut t, 'B');
        let b = mask_digits(self.birth);
        let bs = chars_of(b.as_str());
        let mut i: usize = 0;
        while i < bs.len()
            invariant
                i <= bs.len(),
                bs@ == mask_chars(self.birth, 9),
                t@ == seq!['B'] + bs@.take(i as int),
            decreases bs.len() - i,
        {
            push_char(&mut t, bs[i]);
            i = i + 1;
            assert(bs@.take(i as int) == bs@.take(i - 1).push(bs@[i - 1]));
        }
        assert(bs@.take(bs.len() as int) == bs@);
        push_char(&mut t, '/');
        push_char(&mut t, 'S');
        let s = mask_digits(self.survive);
        let ss = chars_of(s.as_str());
        let ghost prefix = t@;
        let mut j: usize = 0;
        while j < ss.len()
            invariant
                j <= ss.len(),
                ss@ == mask_chars(self.survive, 9),
                t@ == prefix + ss@.take(j as int),
            decreases ss.len() - j,
        {
            push_char(&mut t, ss[j]);
            j = j + 1;
            assert(ss@.take(j as int) == ss@.take(j - 1).push(ss@[j - 1]));
        }
        assert(ss@.take(ss.len() as int) == ss@);
        t
    }
}

/// Every character of `mask_chars(m, k)` is a digit below `k`.
pub proof fn lemma_mask_chars_digits(m: u32, k: nat)
    requires
        k <= 10,
    ensures
        forall|i: int|
            0 <= i < mask_chars(m, k).len() ==> #[trigger] is_digit(mask_chars(m, k)[i])
                && digit_of(mask_chars(m, k)[i]) < k,
    decreases k,
{
    if k > 0 {
        let j = (k - 1) as nat;
        lemma_mask_chars_digits(m, j);
        let c = digit_char(j as int);
        assert(c as int == j + '0' as int);
        let prev = mask_chars(m, j);
        assert forall|i: int|
            0 <= i < mask_chars(m, k).len() implies #[trigger] is_digit(mask_chars(m, k)[i])
                && digit_of(mask_chars(m, k)[i]) < k by {
            if i < prev.len() {
                assert(mask_chars(m, k)[i] == prev[i]);
                assert(is_digit(prev[i]));
            }
        }
    }
}

/// Adding one count to a sequence sets its bit in the mask.
pub proof fn lemma_mask_of_push(ns: Seq<u8>, n: u8)
    ensures
        mask_of(ns.push(n)) == mask_of(ns) | (1u32 << n),
{
    assert(ns.push(n).drop_last() =~= ns);
}

/// Reading back the digits of `mask_chars(m, k)` gives the low `k` bits of `m`.
pub proof fn lemma_mask_chars_roundtrip(m: u32, k: u32)
    requires
        k <= 9,
    ensures
        mask_of(digit_values(mask_chars(m, k as nat))) == m & ((1u32 << k) - 1) as u32,
    decreases k,
{
    if k == 0 {
        assert(m & ((1u32 << 0u32) - 1) as u32 == 0) by (bit_vector);
    } else {
        let j = (k - 1) as u32;
        lemma_mask_chars_roundtrip(m, j);
        let prev = mask_chars(m, j as nat);
        if has_bit(m, j) {
            let c = digit_char(j as int);
            assert(mask_chars(m, k as nat) == prev.push(c));
            assert(prev.push(c).drop_last() =~= prev);
            assert(digit_values(prev.push(c)) == digit_values(prev).push(j as u8));
            lemma_mask_of_push(digit_values(prev), j as u8);
            assert(j < 9 ==> (m >> j) & 1 == 1 ==> (m & ((1u32 << j) - 1) as u32) | (1u32
                << (j as u8)) == m & ((1u32 << (j + 1) as u32) - 1) as u32) by (bit_vector);
        } else {
            assert(j < 9 ==> (m >> j) & 1 != 1 ==> m & ((1u32 << j) - 1) as u32 == m & ((1u32
                << (j + 1) as u32) - 1) as u32) by (bit_vector);
        }
    }
}

/// Reading a rule back from its text gives the rule, over the counts 0 to 8
/// that the text can hold: `parse(format(r))` is `r` with every bit above 8
/// cleared.
pub proof fn lemma_parse_format(r: Rule)
    ensures
        parse_spec(format_spec(r)) == Some(
            Rule { birth: r.birth & 0x1ff, survive: r.survive & 0x1ff },
        ),
{
    let mb = mask_chars(r.birth, 9);
    let ms = mask_chars(r.survive, 9);
    let f = format_spec(r);
    lemma_mask_chars_digits(r.birth, 9);
    lemma_mask_chars_digits(r.survive, 9);
    assert(f.len() == mb.len() + ms.len() + 3);
    assert(f[0] == 'B');
    assert forall|i: int| 0 <= i < f.len() implies {
        ||| is_digit(#[trigger] f[i])
        ||| f[i] == 'B'
        ||| f[i] == '/'
        ||| f[i] == 'S'
    } by {
        if 1 <= i < 1 + mb.len() {
            assert(f[i] == mb[i - 1]);
        } else if i >= 3 + mb.len() {
            assert(f[i] == ms[i - 3 - mb.len()]);
        }
    }
    lemma_trim_noop(f);
    lemma_upper_noop(f);
    let rest = mb + seq!['/', 'S'] + ms;
    assert(f.drop_first() =~= rest);
    assert(rest =~= mb + (seq!['/', 'S'] + ms));
    assert forall|i: int| 0 <= i < mb.len() implies mb[i] != '/' by {
        assert(is_digit(mb[i]));
    }
    assert forall|i: int| 0 <= i < ms.len() implies ms[i] != '/' by {
        assert(is_digit(ms[i]));
    }
    lemma_count_of_absent(mb, '/');
    lemma_count_of_absent(ms, '/');
    lemma_count_of_concat(mb, seq!['/', 'S'] + ms, '/');
    lemma_count_of_concat(seq!['/', 'S'], ms, '/');
    assert(seq!['/', 'S'].drop_last() =~= seq!['/']);
    assert(seq!['/'].drop_last() =~= Seq::<char>::empty());
    assert(count_of(Seq::<char>::empty(), '/') == 0);
    assert(count_of(seq!['/'], '/') == 1);
    assert(count_of(seq!['/', 'S'], '/') == 1);
    lemma_first_index_of_concat(mb, seq!['/', 'S'] + ms, '/');
    assert(first_index_of(seq!['/', 'S'] + ms, '/') == 0);
    assert(rest.take(mb.len() as int) =~= mb);
    assert(rest.skip(mb.len() as int + 1) =~= seq!['S'] + ms);
    assert(strip_char(seq!['S'] + ms, 'S') =~= ms);
    lemma_mask_chars_roundtrip(r.birth, 9);
    lemma_mask_chars_roundtrip(r.survive, 9);
    assert(((1u32 << 9u32) - 1) as u32 == 0x1ff) by (bit_vector);
}

/// A text made of ASCII digits only.
pub open spec fn all_digits(s: Seq<char>) -> bool {
    forall|i: int| 0 <= i < s.len() ==> #[trigger] is_digit(s[i])
}

/// Splitting `x/y` at its one `/` gives back `x` and `y`.
pub proof fn lemma_split_around_slash(x: Seq<char>, y: Seq<char>)
    requires
        forall|i: int| 0 <= i < x.len() ==> x[i] != '/',
        forall|i: int| 0 <= i < y.len() ==> y[i] != '/',
    ensures
        split_in_two(x + seq!['/'] + y, '/') == Some((x, y)),
{
    let t = x + seq!['/'] + y;
    assert(t =~= x + (seq!['/'] + y));
    lemma_count_of_absent(x, '/');
    lemma_count_of_absent(y, '/');
    lemma_count_of_concat(x, seq!['/'] + y, '/');
    lemma_count_of_concat(seq!['/'], y, '/');
    assert(seq!['/'].drop_last() =~= Seq::<char>::empty());
    assert(count_of(Seq::<char>::empty(), '/') == 0);
    assert(count_of(seq!['/'], '/') == 1);
    lemma_first_index_of_concat(x, seq!['/'] + y, '/');
    assert(first_index_of(seq!['/'] + y, '/') == 0);
    assert(t.take(x.len() as int) =~= x);
    assert(t.skip(x.len() as int + 1) =~= y);
}

/// The three notations name the same rule: for digit strings `b` and `s`,
/// `B<b>/S<s>`, `S<s>/B<b>` and `<s>/<b>` all read as the rule with birth
/// counts `b` and survival counts `s`.
pub proof fn lemma_notations_agree(b: Seq<char>, s: Seq<char>)
    requires
        all_digits(b),
        all_digits(s),
    ensures
        parse_spec(seq!['B'] + b + seq!['/', 'S'] + s) == Some(
            rule_of(digit_values(b), digit_values(s)),
        ),
        parse_spec(seq!['S'] + s + seq!['/', 'B'] + b) == Some(
            rule_of(digit_values(b), digit_values(s)),
        ),
        parse_spec(s + seq!['/'] + b) == Some(rule_of(digit_values(b), digit_values(s))),
{
    assert forall|i: int| 0 <= i < b.len() implies b[i] != '/' && !('a' <= b[i] <= 'z')
        && !is_white_space(b[i]) by {
        assert(is_digit(b[i]));
    }
    assert forall|i: int| 0 <= i < s.len() implies s[i] != '/' && !('a' <= s[i] <= 'z')
        && !is_white_space(s[i]) by {
        assert(is_digit(s[i]));
    }
    // B<b>/S<s>
    let f1 = seq!['B'] + b + seq!['/', 'S'] + s;
    assert(f1[0] == 'B');
    assert forall|i: int| 0 <= i < f1.len() implies !('a' <= #[trigger] f1[i] <= 'z')
        && (i == f1.len() - 1 ==> !is_white_space(f1[i])) by {
        if 1 <= i < 1 + b.len() {
            assert(f1[i] == b[i - 1]);
        } else if i >= 3 + b.len() {
            assert(f1[i] == s[i - 3 - b.len()]);
        }
    }
    lemma_trim_noop(f1);
    lemma_upper_noop(f1);
    let sy = seq!['S'] + s;
    assert forall|i: int| 0 <= i < sy.len() implies sy[i] != '/' by {
        if i > 0 {
            assert(sy[i] == s[i - 1]);
        }
    }
    assert(f1.drop_first() =~= b + seq!['/'] + sy);
    lemma_split_around_slash(b, sy);
    assert(strip_char(sy, 'S') =~= s);
    // S<s>/B<b>
    let f2 = seq!['S'] + s + seq!['/', 'B'] + b;
    assert(f2[0] == 'S');
    assert forall|i: int| 0 <= i < f2.len() implies !('a' <= #[trigger] f2[i] <= 'z')
        && (i == f2.len() - 1 ==> !is_white_space(f2[i])) by {
        if 1 <= i < 1 + s.len() {
            assert(f2[i] == s[i - 1]);
        } else if i >= 3 + s.len() {
            assert(f2[i] == b[i - 3 - s.len()]);
        }
    }
    lemma_trim_noop(f2);
    lemma_upper_noop(f2);
    let by_ = seq!['B'] + b;
    assert forall|i: int| 0 <= i < by_.len() implies by_[i] != '/' by {
        if i > 0 {
            assert(by_[i] == b[i - 1]);
        }
    }
    assert(f2.drop_first() =~= s + seq!['/'] + by_);
    lemma_split_around_slash(s, by_);
    assert(strip_char(by_, 'B') =~= b);
    // <s>/<b>
    let f3 = s + seq!['/'] + b;
    assert forall|i: int| 0 <= i < f3.len() implies !is_white_space(#[trigger] f3[i]) && f3[i]
        != 'B' && f3[i] != 'S' && !('a' <= f3[i] <= 'z') by {
        if i < s.len() {
            assert(f3[i] == s[i]);
            assert(is_digit(s[i]));
        } else if i > s.len() {
            assert(f3[i] == b[i - 1 - s.len()]);
            assert(is_digit(b[i - 1 - s.len()]));
        }
    }
    lemma_trim_noop(f3);
    lemma_upper_noop(f3);
    lemma_split_around_slash(s, b);
}

/// Bit `n` of the mask of `ns` is set exactly when `n` is one of the counts.
pub proof fn lemma_mask_of_bits(ns: Seq<u8>, n: u32)
    requires
        counts_fit(ns),
        n < 32,
    ensures
        has_bit(mask_of(ns), n) <==> ns.contains(n as u8),
    decreases ns.len(),
{
    if ns.len() == 0 {
        assert((0u32 >> n) & 1 != 1) by (bit_vector);
    } else {
        let init = ns.drop_last();
        let k = ns.last();
        lemma_mask_of_bits(init, n);
        let a = mask_of(init);
        assert(k < 32 && n < 32 ==> (((a | (1u32 << k)) >> n) & 1 == 1 <==> ((a >> n) & 1 == 1
            || k as u32 == n))) by (bit_vector);
        assert(ns =~= init.push(k));
        if init.contains(n as u8) {
            let j = choose|j: int| 0 <= j < init.len() && init[j] == n as u8;
            assert(ns[j] == n as u8);
        }
        if ns.contains(n as u8) {
            let j = choose|j: int| 0 <= j < ns.len() && ns[j] == n as u8;
            if j < init.len() {
                assert(init[j] == n as u8);
            }
        }
    }
}

impl Rule {
    /// Conway's Game of Life, B3/S23.
    pub fn conway() -> (r: Self)
        ensures
            r == rule_of(seq![3u8], seq![2u8, 3u8]),
    {
        let b: [u8; 1] = [3];
        let s: [u8; 2] = [2, 3];
        proof {
            assert(b@ == seq![3u8]);
            assert(s@ == seq![2u8, 3u8]);
        }
        Rule::from_bs(&b, &s)
    }

    /// HighLife, B36/S23.
    pub fn highlife() -> (r: Self)
        ensures
            r == rule_of(seq![3u8, 6u8], seq![2u8, 3u8]),
    {
        let b: [u8; 2] = [3, 6];
        let s: [u8; 2] = [2, 3];
        proof {
            assert(b@ == seq![3u8, 6u8]);
            assert(s@ == seq![2u8, 3u8]);
        }
        Rule::from_bs(&b, &s)
    }

    /// Day & Night, B3678/S34678.
    pub fn day_and_night() -> (r: Self)
        ensures
            r == rule_of(seq![3u8, 6u8, 7u8, 8u8], seq![3u8, 4u8, 6u8, 7u8, 8u8]),
    {
        let b: [u8; 4] = [3, 6, 7, 8];
        let s: [u8; 5] = [3, 4, 6, 7, 8];
        proof {
            assert(b@ == seq![3u8, 6u8, 7u8, 8u8]);
            assert(s@ == seq![3u8, 4u8, 6u8, 7u8, 8u8]);
        }
        Rule::from_bs(&b, &s)
    }

    /// Seeds, B2/S.
    pub fn seeds() -> (r: Self)
        ensures
            r == rule_of(seq![2u8], Seq::<u8>::empty()),
    {
        let b: [u8; 1] = [2];
        let s: [u8; 0] = [];
        proof {
            assert(b@ == seq![2u8]);
            assert(s@ == Seq::<u8>::empty());
        }
        Rule::from_bs(&b, &s)
    }

    /// Life without Death, B3/S012345678.
    pub fn life_without_death() -> (r: Self)
        ensures
            r == rule_of(seq![3u8], seq![0u8, 1u8, 2u8, 3u8, 4u8, 5u8, 6u8, 7u8, 8u8]),
    {
        let b: [u8; 1] = [3];
        let s: [u8; 9] = [0, 1, 2, 3, 4, 5, 6, 7, 8];
        proof {
            assert(b@ == seq![3u8]);
            assert(s@ == seq![0u8, 1u8, 2u8, 3u8, 4u8, 5u8, 6u8, 7u8, 8u8]);
        }
        Rule::from_bs(&b, &s)
    }

    /// Diamoeba, B35678/S5678.
    pub fn diamoeba() -> (r: Self)
        ensures
            r == rule_of(seq![3u8, 5u8, 6u8, 7u8, 8u8], seq![5u8, 6u8, 7u8, 8u8]),
    {
        let b: [u8; 5] = [3, 5, 6, 7, 8];
        let s: [u8; 4] = [5, 6, 7, 8];
        proof {
            assert(b@ == seq![3u8, 5u8, 6u8, 7u8, 8u8]);
            assert(s@ == seq![5u8, 6u8, 7u8, 8u8]);
        }
        Rule::from_bs(&b, &s)
    }

    /// Anneal, B4678/S35678.
    pub fn anneal() -> (r: Self)
        ensures
            r == rule_of(seq![4u8, 6u8, 7u8, 8u8], seq![3u8, 5u8, 6u8, 7u8, 8u8]),
    {
        let b: [u8; 4] = [4, 6, 7, 8];
        let s: [u8; 5] = [3, 5, 6, 7, 8];
        proof {
            assert(b@ == seq![4u8, 6u8, 7u8, 8u8]);
            assert(s@ == seq![3u8, 5u8, 6u8, 7u8, 8u8]);
        }
        Rule::from_bs(&b, &s)
    }

    /// Gnarl, B1/S1.
    pub fn gnarl() -> (r: Self)
        ensures
            r == rule_of(seq![1u8], seq![1u8]),
    {
        let b: [u8; 1] = [1];
        let s: [u8; 1] = [1];
        proof {
            assert(b@ == seq![1u8]);
            assert(s@ == seq![1u8]);
        }
        Rule::from_bs(&b, &s)
    }

    /// MorAnneal, B468/S357.
    pub fn mor_anneal() -> (r: Self)
        ensures
            r == rule_of(seq![4u8, 6u8, 8u8], seq![3u8, 5u8, 7u8]),
    {
        let b: [u8; 3] = [4, 6, 8];
        let s: [u8; 3] = [3, 5, 7];
        proof {
            assert(b@ == seq![4u8, 6u8, 8u8]);
            assert(s@ == seq![3u8, 5u8, 7u8]);
        }
        Rule::from_bs(&b, &s)
    }
}

} // verus!
