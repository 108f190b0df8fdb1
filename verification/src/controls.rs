//! The integer decisions behind the keyboard and menu controls.
use crate::patterns::decimal_value;
use crate::text::{digit_char, digit_of, is_digit, push_char};
use vstd::arithmetic::div_mod::lemma_fundamental_div_mod_converse;
use vstd::prelude::*;

verus! {

/// The most generations run per frame.
pub const MAX_STEPS_PER_FRAME: usize = 20;

/// One more generation per frame, up to 20.
pub fn steps_up(steps: usize) -> (s: usize)
    requires
        steps < usize::MAX,
    ensures
        s == if steps + 1 < 20 {
            steps + 1
        } else {
            20
        },
{
    let s = steps + 1;
    if s < MAX_STEPS_PER_FRAME {
        s
    } else {
        MAX_STEPS_PER_FRAME
    }
}

/// One generation fewer per frame, down to 1.
pub fn steps_down(steps: usize) -> (s: usize)
    ensures
        s == if steps >= 2 {
            steps - 1
        } else {
            1
        },
{
    let s = if steps > 0 {
        steps - 1
    } else {
        0
    };
    if s > 1 {
        s
    } else {
        1
    }
}

/// The next (`forward`) or previous entry of a cyclic list of `n` entries.
pub fn cycle_index(idx: usize, n: usize, forward: bool) -> (r: usize)
    requires
        n > 0,
        idx + (if forward {
            1
        } else {
            n - 1
        }) <= usize::MAX,
    ensures
        r == (idx + (if forward {
            1
        } else {
            n - 1
        })) % n as int,
        r < n,
{
    let delta = if forward {
        1
    } else {
        n - 1
    };
    (idx + delta) % n
}

/// Moving forward and then back through a cyclic list returns to the start.
pub proof fn lemma_cycle_back_and_forth(idx: int, n: int)
    requires
        n > 0,
        0 <= idx < n,
    ensures
        (((idx + 1) % n) + (n - 1)) % n == idx,
{
    if idx + 1 < n {
        lemma_fundamental_div_mod_converse(idx + 1, n, 0, idx + 1);
        lemma_fundamental_div_mod_converse(idx + 1 + (n - 1), n, 1, idx);
    } else {
        lemma_fundamental_div_mod_converse(idx + 1, n, 1, 0);
        lemma_fundamental_div_mod_converse(n - 1, n, 0, n - 1);
    }
}

/// The index of the first of `names` equal to `name`, if any.
pub fn find_name(names: &[String], name: &String) -> (r: Option<usize>)
    ensures
        match r {
            Some(i) => i < names@.len() && names@[i as int]@ == name@ && forall|j: int|
                0 <= j < i ==> #[trigger] names@[j]@ != name@,
            None => forall|j: int| 0 <= j < names@.len() ==> #[trigger] names@[j]@ != name@,
        },
{
    let mut i: usize = 0;
    while i < names.len()
        invariant
            i <= names.len(),
            forall|j: int| 0 <= j < i ==> #[trigger] names@[j]@ != name@,
        decreases names.len() - i,
    {
        if names[i] == *name {
            return Some(i);
        }
        i = i + 1;
    }
    None
}

/// The decimal digits of `n`, most significant first, without leading zeros.
pub open spec fn decimal_text(n: nat) -> Seq<char>
    decreases n,
{
    if n < 10 {
        seq![digit_char(n as int)]
    } else {
        decimal_text(n / 10).push(digit_char((n % 10) as int))
    }
}

/// The decimal numeral of `n`: it is made of ASCII digits only, it does not
/// start with `0` unless `n` is 0, and reading its digits back (most
/// significant first) gives `n`.
pub proof fn lemma_decimal_text(n: nat)
    ensures
        decimal_text(n).len() > 0,
        forall|i: int| 0 <= i < decimal_text(n).len() ==> #[trigger] is_digit(decimal_text(n)[i]),
        decimal_text(n)[0] == '0' ==> n == 0,
        decimal_value(decimal_text(n)) == n,
    decreases n,
{
    let t = decimal_text(n);
    if n < 10 {
        let c = digit_char(n as int);
        assert(c as int == n + '0' as int);
        assert(t.drop_last() =~= Seq::<char>::empty());
        assert(digit_of(c) == n);
        assert(t.last() == c);
        assert(decimal_value(Seq::<char>::empty()) == 0);
        assert(decimal_value(t) == decimal_value(t.drop_last()) * 10 + digit_of(t.last()));
    } else {
        let q = n / 10;
        let r = n % 10;
        lemma_decimal_text(q);
        let head = decimal_text(q);
        let c = digit_char(r as int);
        assert(c as int == r + '0' as int);
        assert(t == head.push(c));
        assert(t.drop_last() =~= head);
        assert(digit_of(c) == r);
        assert(t.last() == c);
        assert(decimal_value(t) == decimal_value(t.drop_last()) * 10 + digit_of(t.last()));
        assert(q * 10 + r == n) by (nonlinear_arith)
            requires
                q == n / 10,
                r == n % 10,
        ;
        assert forall|i: int| 0 <= i < t.len() implies #[trigger] is_digit(t[i]) by {
            if i < head.len() {
                assert(t[i] == head[i]);
            }
        }
        assert(t[0] == head[0]);
        assert(q >= 1);
    }
}

/// `n` in decimal.
pub fn decimal_string(n: u32) -> (s: String)
    ensures
        s@ == decimal_text(n as nat),
        s@.len() > 0,
        forall|i: int| 0 <= i < s@.len() ==> #[trigger] is_digit(s@[i]),
        s@[0] == '0' ==> n == 0,
        decimal_value(s@) == n,
{
    proof {
        lemma_decimal_text(n as nat);
    }
    let mut rev: Vec<char> = Vec::new();
    let mut m = n;
    let ghost mut ms: Seq<nat> = seq![n as nat];
    while m >= 10
        invariant
            rev@.len() + 1 == ms.len(),
            ms[0] == n,
            ms.last() == m,
            forall|k: int| 0 <= k < ms.len() - 1 ==> #[trigger] ms[k] >= 10 && ms[k + 1] == ms[k] / 10,
            forall|k: int|
                0 <= k < rev@.len() ==> #[trigger] rev@[k] == digit_char((ms[k] % 10) as int),
        decreases m,
    {
        rev.push(((m % 10) as u8 + 48u8) as char);
        m = m / 10;
        proof {
            ms = ms.push(m as nat);
        }
    }
    let mut s = String::new();
    push_char(&mut s, ((m as u8) + 48u8) as char);
    let mut k: usize = rev.len();
    while k > 0
        invariant
            k <= rev@.len(),
            rev@.len() + 1 == ms.len(),
            ms[0] == n,
            ms.last() == m,
            m < 10,
            forall|j: int| 0 <= j < ms.len() - 1 ==> #[trigger] ms[j] >= 10 && ms[j + 1] == ms[j] / 10,
            forall|j: int|
                0 <= j < rev@.len() ==> #[trigger] rev@[j] == digit_char((ms[j] % 10) as int),
            s@ == decimal_text(ms[k as int]),
        decreases k,
    {
        k = k - 1;
        assert(ms[k as int] >= 10 && ms[k + 1] == ms[k as int] / 10);
        push_char(&mut s, rev[k]);
    }
    s
}

/// The file name of the `n`-th exported image: `gol_img_<n>.png`.
pub open spec fn export_name(n: nat) -> Seq<char> {
    seq!['g', 'o', 'l', '_', 'i', 'm', 'g', '_'] + decimal_text(n) + seq!['.', 'p', 'n', 'g']
}

/// The file name of the `n`-th exported image.
pub fn export_file_name(n: u32) -> (s: String)
    ensures
        s@ == export_name(n as nat),
{
    let mut s = String::new();
    let prefix = ['g', 'o', 'l', '_', 'i', 'm', 'g', '_'];
    let mut i: usize = 0;
    while i < 8
        invariant
            i <= 8,
            prefix@ == seq!['g', 'o', 'l', '_', 'i', 'm', 'g', '_'],
            s@ == prefix@.take(i as int),
        decreases 8 - i,
    {
        push_char(&mut s, prefix[i]);
        i = i + 1;
        assert(prefix@.take(i as int) == prefix@.take(i - 1).push(prefix@[i - 1]));
    }
    assert(prefix@.take(8) == prefix@);
    let digits = decimal_string(n);
    let ghost head = s@;
    let ds = crate::text::chars_of(digits.as_str());
    let mut j: usize = 0;
    while j < ds.len()
        invariant
            j <= ds.len(),
            ds@ == decimal_text(n as nat),
            s@ == head + ds@.take(j as int),
        decreases ds.len() - j,
    {
        push_char(&mut s, ds[j]);
        j = j + 1;
        assert(ds@.take(j as int) == ds@.take(j - 1).push(ds@[j - 1]));
    }
    assert(ds@.take(ds.len() as int) == ds@);
    push_char(&mut s, '.');
    push_char(&mut s, 'p');
    push_char(&mut s, 'n');
    push_char(&mut s, 'g');
    s
}

} // verus!
