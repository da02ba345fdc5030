//! Characters and strings: the character classes the lexers use, conversions
//! between `str`, `String` and `Vec<char>`, trimming, and decimal numerals.
use vstd::prelude::*;

verus! {

/// The Unicode `White_Space` property (the set `char::is_whitespace` tests).
pub open spec fn is_space_char(c: char) -> bool {
    ||| ('\u{9}' <= c && c <= '\u{d}')
    ||| c == ' '
    ||| c == '\u{85}'
    ||| c == '\u{a0}'
    ||| c == '\u{1680}'
    ||| ('\u{2000}' <= c && c <= '\u{200a}')
    ||| c == '\u{2028}'
    ||| c == '\u{2029}'
    ||| c == '\u{202f}'
    ||| c == '\u{205f}'
    ||| c == '\u{3000}'
}

pub open spec fn is_digit_char(c: char) -> bool {
    '0' <= c && c <= '9'
}

pub open spec fn is_alpha_char(c: char) -> bool {
    ('a' <= c && c <= 'z') || ('A' <= c && c <= 'Z')
}

/// Whether `c` is white space in the sense of Unicode's `White_Space`.
pub fn is_whitespace(c: char) -> (r: bool)
    ensures
        r == is_space_char(c),
{
    ('\u{9}' <= c && c <= '\u{d}') || c == ' ' || c == '\u{85}' || c == '\u{a0}' || c
        == '\u{1680}' || ('\u{2000}' <= c && c <= '\u{200a}') || c == '\u{2028}' || c
        == '\u{2029}' || c == '\u{202f}' || c == '\u{205f}' || c == '\u{3000}'
}

/// Whether `c` is an ASCII decimal digit.
pub fn is_digit(c: char) -> (r: bool)
    ensures
        r == is_digit_char(c),
{
    '0' <= c && c <= '9'
}

/// Whether `c` is an ASCII letter.
pub fn is_alpha(c: char) -> (r: bool)
    ensures
        r == is_alpha_char(c),
{
    ('a' <= c && c <= 'z') || ('A' <= c && c <= 'Z')
}

/// The characters of `s`, in order.
pub fn chars_of(s: &str) -> (r: Vec<char>)
    ensures
        r@ == s@,
{
    let mut v: Vec<char> = Vec::new();
    for c in it: s.chars()
        invariant
            it.seq() == s@,
            v@ == it.seq().take(it.index() as int),
    {
        v.push(c);
    }
    v
}

/// Appends `c` to `s` with `String::push`. Trusted: the text of `s`
/// afterwards is its text before with `c` at the end.
#[verifier::external_body]
pub(crate) fn push_char(s: &mut String, c: char)
    ensures
        final(s)@ == old(s)@.push(c),
{
    s.push(c);
}

/// A fresh `String` holding a copy of the text of `s`.
pub fn string_of(s: &str) -> (r: String)
    ensures
        r@ == s@,
{
    String::from_str(s)
}

/// The string made of `cs[lo..hi]`.
pub fn string_from_range(cs: &Vec<char>, lo: usize, hi: usize) -> (r: String)
    requires
        lo <= hi <= cs@.len(),
    ensures
        r@ == cs@.subrange(lo as int, hi as int),
{
    let mut s = String::new();
    let mut i = lo;
    while i < hi
        invariant
            lo <= i <= hi <= cs@.len(),
            s@ == cs@.subrange(lo as int, i as int),
        decreases hi - i,
    {
        push_char(&mut s, cs[i]);
        i = i + 1;
        assert(s@ =~= cs@.subrange(lo as int, i as int));
    }
    s
}

/// Appends `t` to `s`.
pub fn append_string(s: &mut String, t: &String)
    ensures
        final(s)@ == old(s)@ + t@,
{
    s.append(t.as_str());
}

/// Appends the text of `t` to `s`.
pub fn append_str(s: &mut String, t: &str)
    ensures
        final(s)@ == old(s)@ + t@,
{
    s.append(t);
}

/// Index of the first character at or after `i` that is not white space.
pub open spec fn skip_space(s: Seq<char>, i: int) -> int
    decreases s.len() - i,
{
    if i < 0 || i >= s.len() {
        i
    } else if is_space_char(s[i]) {
        skip_space(s, i + 1)
    } else {
        i
    }
}

/// One past the last character before `j` that is not white space.
pub open spec fn skip_space_back(s: Seq<char>, j: int) -> int
    decreases j,
{
    if j <= 0 || j > s.len() {
        if j > s.len() { j } else { 0 }
    } else if is_space_char(s[j - 1]) {
        skip_space_back(s, j - 1)
    } else {
        j
    }
}

/// `s` without its leading and trailing white space (`str::trim`).
pub open spec fn trim(s: Seq<char>) -> Seq<char> {
    let lo = skip_space(s, 0);
    if lo >= s.len() {
        Seq::empty()
    } else {
        s.subrange(lo, skip_space_back(s, s.len() as int))
    }
}

pub proof fn lemma_skip_space_bounds(s: Seq<char>, i: int)
    requires
        0 <= i <= s.len(),
    ensures
        i <= skip_space(s, i) <= s.len(),
        skip_space(s, i) < s.len() ==> !is_space_char(s[skip_space(s, i)]),
        forall|k: int| i <= k < skip_space(s, i) ==> is_space_char(#[trigger] s[k]),
    decreases s.len() - i,
{
    if i < s.len() && is_space_char(s[i]) {
        lemma_skip_space_bounds(s, i + 1);
    }
}

pub proof fn lemma_skip_space_back_bounds(s: Seq<char>, j: int)
    requires
        0 <= j <= s.len(),
    ensures
        0 <= skip_space_back(s, j) <= j,
        skip_space_back(s, j) > 0 ==> !is_space_char(s[skip_space_back(s, j) - 1]),
        forall|k: int| skip_space_back(s, j) <= k < j ==> is_space_char(#[trigger] s[k]),
    decreases j,
{
    if j > 0 && is_space_char(s[j - 1]) {
        lemma_skip_space_back_bounds(s, j - 1);
    }
}

/// If some character of `s` is not white space, scanning back from the end
/// stops after the first such character.
pub proof fn lemma_trim_bounds(s: Seq<char>)
    ensures
        skip_space(s, 0) < s.len() ==> skip_space(s, 0) < skip_space_back(s, s.len() as int)
            <= s.len(),
{
    lemma_skip_space_bounds(s, 0);
    lemma_skip_space_back_bounds(s, s.len() as int);
    let lo = skip_space(s, 0);
    if lo < s.len() {
        if skip_space_back(s, s.len() as int) <= lo {
            assert(is_space_char(s[lo]));
        }
    }
}

/// Bounds of the trimmed part of `cs[lo..hi]`: the result `(a, b)` is such that
/// `cs[a..b]` is `trim(cs[lo..hi])`.
pub fn trim_range(cs: &Vec<char>, lo: usize, hi: usize) -> (r: (usize, usize))
    requires
        lo <= hi <= cs@.len(),
    ensures
        lo <= r.0 <= r.1 <= hi,
        cs@.subrange(r.0 as int, r.1 as int) == trim(cs@.subrange(lo as int, hi as int)),
        r.0 < r.1 ==> !is_space_char(cs@[r.0 as int]) && !is_space_char(cs@[r.1 - 1]),
{
    let ghost s = cs@.subrange(lo as int, hi as int);
    let mut a = lo;
    while a < hi && is_whitespace(cs[a])
        invariant
            lo <= a <= hi <= cs@.len(),
            s == cs@.subrange(lo as int, hi as int),
            skip_space(s, 0) == skip_space(s, a - lo),
        decreases hi - a,
    {
        a = a + 1;
    }
    proof {
        lemma_skip_space_bounds(s, 0);
    }
    if a == hi {
        return (hi, hi);
    }
    let mut b = hi;
    assert(skip_space(s, a - lo) == a - lo);
    while b > a + 1 && is_whitespace(cs[b - 1])
        invariant
            lo <= a < hi,
            a < b <= hi <= cs@.len(),
            s == cs@.subrange(lo as int, hi as int),
            !is_space_char(s[a - lo]),
            !is_space_char(cs@[a as int]),
            skip_space_back(s, s.len() as int) == skip_space_back(s, b - lo),
        decreases b,
    {
        b = b - 1;
    }
    assert(skip_space_back(s, b - lo) == b - lo);
    proof {
        lemma_trim_bounds(s);
        assert(cs@.subrange(a as int, b as int) =~= s.subrange(a - lo, b - lo));
    }
    (a, b)
}

/// The ASCII digit for `d < 10`.
pub open spec fn digit_char(d: nat) -> char {
    if d == 0 { '0' }
    else if d == 1 { '1' }
    else if d == 2 { '2' }
    else if d == 3 { '3' }
    else if d == 4 { '4' }
    else if d == 5 { '5' }
    else if d == 6 { '6' }
    else if d == 7 { '7' }
    else if d == 8 { '8' }
    else { '9' }
}

/// The value of an ASCII digit.
pub open spec fn digit_value(c: char) -> nat {
    (c as int - '0' as int) as nat
}

/// Decimal numeral of `n`, without leading zeros.
pub open spec fn nat_text(n: nat) -> Seq<char>
    decreases n,
{
    if n < 10 {
        seq![digit_char(n)]
    } else {
        nat_text(n / 10).push(digit_char(n % 10))
    }
}

/// Decimal numeral of `v`, with a leading `-` when it is negative (`Display`
/// of the integer types).
pub open spec fn int_text(v: int) -> Seq<char> {
    if v < 0 {
        seq!['-'] + nat_text((-v) as nat)
    } else {
        nat_text(v as nat)
    }
}

/// Value of a sequence of ASCII digits, read as a decimal numeral.
pub open spec fn digits_value(s: Seq<char>) -> nat
    decreases s.len(),
{
    if s.len() == 0 {
        0
    } else {
        10 * digits_value(s.drop_last()) + digit_value(s.last())
    }
}

fn digit_of(d: u128) -> (c: char)
    requires
        d < 10,
    ensures
        c == digit_char(d as nat),
{
    if d == 0 { '0' }
    else if d == 1 { '1' }
    else if d == 2 { '2' }
    else if d == 3 { '3' }
    else if d == 4 { '4' }
    else if d == 5 { '5' }
    else if d == 6 { '6' }
    else if d == 7 { '7' }
    else if d == 8 { '8' }
    else { '9' }
}

/// Appends the decimal numeral of `n` to `s`.
pub fn push_nat_text(s: &mut String, n: u128)
    ensures
        final(s)@ == old(s)@ + nat_text(n as nat),
    decreases n,
{
    if n < 10 {
        push_char(s, digit_of(n));
        assert(nat_text(n as nat) =~= seq![digit_char(n as nat)]);
    } else {
        push_nat_text(s, n / 10);
        push_char(s, digit_of(n % 10));
        assert(nat_text(n as nat) == nat_text((n / 10) as nat).push(digit_char((n % 10) as nat)));
    }
}

/// Appends the decimal numeral of `v` to `s`.
pub fn push_int_text(s: &mut String, v: i128)
    requires
        v > i128::MIN,
    ensures
        final(s)@ == old(s)@ + int_text(v as int),
{
    if v < 0 {
        push_char(s, '-');
        let m: i128 = -v;
        push_nat_text(s, m as u128);
        assert(old(s)@ + int_text(v as int) =~= old(s)@.push('-') + nat_text(m as nat));
    } else {
        push_nat_text(s, v as u128);
    }
}

/// Whether the text `s` is `t`.
pub fn chars_equal(s: &Vec<char>, lo: usize, hi: usize, t: &str) -> (r: bool)
    requires
        lo <= hi <= s@.len(),
    ensures
        r == (s@.subrange(lo as int, hi as int) == t@),
{
    let tc = chars_of(t);
    if hi - lo != tc.len() {
        return false;
    }
    let mut i: usize = 0;
    while i < tc.len()
        invariant
            lo <= hi <= s@.len(),
            hi - lo == tc@.len(),
            tc@ == t@,
            i <= tc@.len(),
            forall|k: int| 0 <= k < i ==> s@[lo + k] == tc@[k],
        decreases tc.len() - i,
    {
        if s[lo + i] != tc[i] {
            return false;
        }
        i = i + 1;
    }
    assert(s@.subrange(lo as int, hi as int) =~= t@);
    true
}


/// Strict lexicographic order of character sequences, comparing characters by
/// code point: the order of `String` (whose bytes are UTF-8, an encoding that
/// keeps code point order).
pub open spec fn seq_lt(a: Seq<char>, b: Seq<char>) -> bool
    decreases a.len(),
{
    if a.len() == 0 {
        b.len() > 0
    } else if b.len() == 0 {
        false
    } else if a[0] != b[0] {
        a[0] < b[0]
    } else {
        seq_lt(a.drop_first(), b.drop_first())
    }
}

pub proof fn lemma_seq_lt_irreflexive(a: Seq<char>)
    ensures
        !seq_lt(a, a),
    decreases a.len(),
{
    if a.len() > 0 {
        lemma_seq_lt_irreflexive(a.drop_first());
    }
}

pub proof fn lemma_seq_lt_transitive(a: Seq<char>, b: Seq<char>, c: Seq<char>)
    requires
        seq_lt(a, b),
        seq_lt(b, c),
    ensures
        seq_lt(a, c),
    decreases a.len(),
{
    if a.len() > 0 && b.len() > 0 && c.len() > 0 {
        if a[0] == b[0] && b[0] == c[0] {
            lemma_seq_lt_transitive(a.drop_first(), b.drop_first(), c.drop_first());
        }
    }
}

pub proof fn lemma_seq_lt_total(a: Seq<char>, b: Seq<char>)
    ensures
        seq_lt(a, b) || seq_lt(b, a) || a == b,
    decreases a.len(),
{
    if a.len() > 0 && b.len() > 0 {
        if a[0] == b[0] {
            lemma_seq_lt_total(a.drop_first(), b.drop_first());
            if a.drop_first() == b.drop_first() {
                assert(a =~= seq![a[0]] + a.drop_first());
                assert(b =~= seq![b[0]] + b.drop_first());
            }
        }
    } else if a.len() == 0 && b.len() == 0 {
        assert(a =~= b);
    }
}

pub proof fn lemma_seq_lt_asymmetric(a: Seq<char>, b: Seq<char>)
    requires
        seq_lt(a, b),
    ensures
        !seq_lt(b, a),
{
    if seq_lt(b, a) {
        lemma_seq_lt_transitive(a, b, a);
        lemma_seq_lt_irreflexive(a);
    }
}

/// Whether `a` comes before `b` in the order of strings.
pub fn string_less(a: &String, b: &String) -> (r: bool)
    ensures
        r == seq_lt(a@, b@),
{
    let x = chars_of(a.as_str());
    let y = chars_of(b.as_str());
    let mut i: usize = 0;
    assert(a@.skip(0) =~= a@);
    assert(b@.skip(0) =~= b@);
    while i < x.len() && i < y.len() && x[i] == y[i]
        invariant
            x@ == a@,
            y@ == b@,
            i <= x@.len(),
            i <= y@.len(),
            seq_lt(a@, b@) == seq_lt(a@.skip(i as int), b@.skip(i as int)),
        decreases x.len() - i,
    {
        proof {
            assert(a@.skip(i as int).drop_first() =~= a@.skip(i + 1));
            assert(b@.skip(i as int).drop_first() =~= b@.skip(i + 1));
        }
        i = i + 1;
    }
    if i == x.len() {
        i < y.len()
    } else if i == y.len() {
        false
    } else {
        x[i] < y[i]
    }
}

/// The texts of a sequence of strings.
pub open spec fn texts(v: Seq<String>) -> Seq<Seq<char>> {
    v.map_values(|s: String| s@)
}

/// Strictly increasing in the order of strings, hence free of duplicates.
pub open spec fn strictly_sorted(v: Seq<Seq<char>>) -> bool {
    forall|i: int, j: int| 0 <= i < j < v.len() ==> seq_lt(#[trigger] v[i], #[trigger] v[j])
}

/// Inserts `x` into the sorted names `v`, unless it is there already.
pub fn sorted_insert(v: &mut Vec<String>, x: String)
    requires
        strictly_sorted(texts(old(v)@)),
    ensures
        strictly_sorted(texts(final(v)@)),
        texts(final(v)@).to_set() == texts(old(v)@).to_set().insert(x@),
{
    let ghost old_t = texts(v@);
    let mut k: usize = 0;
    while k < v.len() && string_less(&v[k], &x)
        invariant
            0 <= k <= v@.len(),
            v@ == old(v)@,
            old_t == texts(v@),
            strictly_sorted(old_t),
            forall|i: int| 0 <= i < k ==> seq_lt(#[trigger] old_t[i], x@),
        decreases v.len() - k,
    {
        k = k + 1;
    }
    if k < v.len() && v[k] == x {
        assert(old_t.to_set().insert(x@) =~= old_t.to_set()) by {
            assert(old_t[k as int] == x@);
        }
        return;
    }
    proof {
        if k < v@.len() {
            lemma_seq_lt_total(old_t[k as int], x@);
            assert(seq_lt(x@, old_t[k as int]));
        }
        assert forall|j: int| k <= j < old_t.len() implies seq_lt(x@, #[trigger] old_t[j]) by {
            if j > k {
                lemma_seq_lt_transitive(x@, old_t[k as int], old_t[j]);
            }
        }
    }
    v.insert(k, x);
    let ghost new_t = texts(v@);
    assert(new_t =~= old_t.insert(k as int, x@));
    assert forall|i: int, j: int| 0 <= i < j < new_t.len() implies seq_lt(
        #[trigger] new_t[i],
        #[trigger] new_t[j],
    ) by {
        if j == k {
            assert(new_t[i] == old_t[i]);
        } else if i == k {
            assert(new_t[j] == old_t[j - 1]);
        } else if i < k && j > k {
            assert(new_t[j] == old_t[j - 1]);
            lemma_seq_lt_transitive(old_t[i], x@, old_t[j - 1]);
        } else if i > k {
            assert(new_t[j] == old_t[j - 1]);
            assert(new_t[i] == old_t[i - 1]);
        } else {
            assert(new_t[j] == old_t[j]);
            assert(new_t[i] == old_t[i]);
        }
    }
    assert(new_t.to_set() =~= old_t.to_set().insert(x@)) by {
        assert forall|y: Seq<char>| new_t.to_set().contains(y) implies old_t.to_set().insert(
            x@,
        ).contains(y) by {
            let i = choose|i: int| 0 <= i < new_t.len() && new_t[i] == y;
            if i < k {
                assert(old_t[i] == y);
            } else if i > k {
                assert(old_t[i - 1] == y);
            }
        }
        assert forall|y: Seq<char>| old_t.to_set().insert(x@).contains(y) implies new_t.to_set().contains(
            y,
        ) by {
            if y == x@ {
                assert(new_t[k as int] == y);
            } else {
                let i = choose|i: int| 0 <= i < old_t.len() && old_t[i] == y;
                if i < k {
                    assert(new_t[i] == y);
                } else {
                    assert(new_t[i + 1] == y);
                }
            }
        }
    }
}

/// Removes `x` from the sorted names `v`, if it is there.
pub fn sorted_remove(v: &mut Vec<String>, x: &String)
    requires
        strictly_sorted(texts(old(v)@)),
    ensures
        strictly_sorted(texts(final(v)@)),
        texts(final(v)@).to_set() == texts(old(v)@).to_set().remove(x@),
{
    let ghost old_t = texts(v@);
    let mut k: usize = 0;
    while k < v.len()
        invariant
            0 <= k <= v@.len(),
            v@ == old(v)@,
            old_t == texts(v@),
            strictly_sorted(old_t),
            forall|i: int| 0 <= i < k ==> old_t[i] != x@,
        decreases v.len() - k,
    {
        if v[k] == *x {
            v.remove(k);
            let ghost new_t = texts(v@);
            assert(new_t =~= old_t.remove(k as int));
            assert forall|i: int, j: int| 0 <= i < j < new_t.len() implies seq_lt(
                #[trigger] new_t[i],
                #[trigger] new_t[j],
            ) by {
                if i < k {
                    assert(new_t[i] == old_t[i]);
                } else {
                    assert(new_t[i] == old_t[i + 1]);
                }
                if j < k {
                    assert(new_t[j] == old_t[j]);
                } else {
                    assert(new_t[j] == old_t[j + 1]);
                }
            }
            assert(new_t.to_set() =~= old_t.to_set().remove(x@)) by {
                assert forall|y: Seq<char>| new_t.to_set().contains(y) implies old_t.to_set().remove(
                    x@,
                ).contains(y) by {
                    let i = choose|i: int| 0 <= i < new_t.len() && new_t[i] == y;
                    if i < k {
                        assert(old_t[i] == y);
                    } else {
                        assert(old_t[i + 1] == y);
                        lemma_seq_lt_irreflexive(x@);
                        assert(seq_lt(old_t[k as int], old_t[i + 1]));
                    }
                }
                assert forall|y: Seq<char>| old_t.to_set().remove(x@).contains(y) implies new_t.to_set().contains(
                    y,
                ) by {
                    let i = choose|i: int| 0 <= i < old_t.len() && old_t[i] == y;
                    if i < k {
                        assert(new_t[i] == y);
                    } else {
                        assert(new_t[i - 1] == y);
                    }
                }
            }
            return;
        }
        k = k + 1;
    }
    assert(old_t.to_set().remove(x@) =~= old_t.to_set());
}


/// Whether the text of `s` is `t`.
pub fn text_is(s: &String, t: &str) -> (r: bool)
    ensures
        r == (s@ == t@),
{
    let cs = chars_of(s.as_str());
    assert(cs@.subrange(0, cs@.len() as int) =~= cs@);
    chars_equal(&cs, 0, cs.len(), t)
}

/// Two strictly sorted sequences with the same elements are equal.
pub proof fn lemma_sorted_unique(a: Seq<Seq<char>>, b: Seq<Seq<char>>)
    requires
        strictly_sorted(a),
        strictly_sorted(b),
        a.to_set() == b.to_set(),
    ensures
        a == b,
    decreases a.len(),
{
    if a.len() == 0 {
        if b.len() > 0 {
            assert(b.to_set().contains(b[0]));
        }
        assert(a =~= b);
    } else {
        assert(a.to_set().contains(a[0]));
        assert(b.to_set().contains(a[0]));
        let k = choose|k: int| 0 <= k < b.len() && b[k] == a[0];
        assert(a.to_set().contains(b[0]));
        let j = choose|j: int| 0 <= j < a.len() && a[j] == b[0];
        if k > 0 && j > 0 {
            assert(seq_lt(b[0], b[k]));
            assert(seq_lt(a[0], a[j]));
            lemma_seq_lt_asymmetric(a[0], b[0]);
        } else if k > 0 {
            assert(seq_lt(b[0], b[k]));
            lemma_seq_lt_irreflexive(a[0]);
        } else if j > 0 {
            assert(seq_lt(a[0], a[j]));
            lemma_seq_lt_irreflexive(b[0]);
        }
        assert(a[0] == b[0]);
        let a1 = a.drop_first();
        let b1 = b.drop_first();
        assert forall|x: Seq<char>| a1.to_set().contains(x) implies b1.to_set().contains(x) by {
            let i = choose|i: int| 0 <= i < a1.len() && a1[i] == x;
            assert(seq_lt(a[0], a[i + 1]));
            assert(b.to_set().contains(x));
            let m = choose|m: int| 0 <= m < b.len() && b[m] == x;
            if m == 0 {
                lemma_seq_lt_irreflexive(x);
            }
            assert(b1[m - 1] == x);
        }
        assert forall|x: Seq<char>| b1.to_set().contains(x) implies a1.to_set().contains(x) by {
            let i = choose|i: int| 0 <= i < b1.len() && b1[i] == x;
            assert(seq_lt(b[0], b[i + 1]));
            assert(a.to_set().contains(x));
            let m = choose|m: int| 0 <= m < a.len() && a[m] == x;
            if m == 0 {
                lemma_seq_lt_irreflexive(x);
            }
            assert(a1[m - 1] == x);
        }
        assert(a1.to_set() =~= b1.to_set());
        lemma_sorted_unique(a1, b1);
        assert(a =~= seq![a[0]] + a1);
        assert(b =~= seq![b[0]] + b1);
    }
}

/// The elements of the finite set `s` in increasing string order.
pub open spec fn sorted_elements(s: Set<Seq<char>>) -> Seq<Seq<char>> {
    choose|v: Seq<Seq<char>>| strictly_sorted(v) && v.to_set() == s
}

/// A strictly sorted sequence is the sorted sequence of its elements.
pub proof fn lemma_sorted_elements(v: Seq<Seq<char>>)
    requires
        strictly_sorted(v),
    ensures
        sorted_elements(v.to_set()) == v,
{
    let w = sorted_elements(v.to_set());
    assert(strictly_sorted(w) && w.to_set() == v.to_set());
    lemma_sorted_unique(v, w);
}


/// Inserting `x`, absent from the strictly sorted `v`, at the position where
/// it belongs.
pub open spec fn insert_sorted(v: Seq<Seq<char>>, x: Seq<char>) -> Seq<Seq<char>>
    decreases v.len(),
{
    if v.len() == 0 {
        seq![x]
    } else if seq_lt(v.last(), x) {
        v.push(x)
    } else {
        insert_sorted(v.drop_last(), x).push(v.last())
    }
}

proof fn lemma_insert_sorted(v: Seq<Seq<char>>, x: Seq<char>)
    requires
        strictly_sorted(v),
        !v.to_set().contains(x),
    ensures
        strictly_sorted(insert_sorted(v, x)),
        insert_sorted(v, x).to_set() == v.to_set().insert(x),
        forall|i: int| 0 <= i < insert_sorted(v, x).len() ==> (#[trigger] insert_sorted(v, x)[i] == x
            || v.to_set().contains(insert_sorted(v, x)[i])),
    decreases v.len(),
{
    if v.len() == 0 {
        assert(seq![x].to_set() =~= Set::<Seq<char>>::empty().insert(x)) by {
            assert(seq![x][0] == x);
        }
        assert(v.to_set() =~= Set::<Seq<char>>::empty());
    } else {
        let w = v.drop_last();
        let l = v.last();
        assert(v =~= w.push(l));
        w.lemma_push_to_set_commute(l);
        if seq_lt(l, x) {
            let r = v.push(x);
            assert forall|i: int, j: int| 0 <= i < j < r.len() implies seq_lt(
                #[trigger] r[i],
                #[trigger] r[j],
            ) by {
                if j == r.len() - 1 && i < v.len() - 1 {
                    assert(seq_lt(v[i], l));
                    lemma_seq_lt_transitive(v[i], l, x);
                }
            }
            v.lemma_push_to_set_commute(x);
        } else {
            assert(strictly_sorted(w));
            assert(!w.to_set().contains(x));
            lemma_insert_sorted(w, x);
            let m = insert_sorted(w, x);
            let r = m.push(l);
            lemma_seq_lt_total(l, x);
            assert(l != x) by {
                assert(v.to_set().contains(l));
            }
            assert(seq_lt(x, l));
            assert forall|i: int, j: int| 0 <= i < j < r.len() implies seq_lt(
                #[trigger] r[i],
                #[trigger] r[j],
            ) by {
                if j == r.len() - 1 {
                    if m[i] != x {
                        assert(w.to_set().contains(m[i]));
                        let k = choose|k: int| 0 <= k < w.len() && w[k] == m[i];
                        assert(seq_lt(v[k], v[v.len() - 1]));
                    }
                } else {
                    assert(r[i] == m[i] && r[j] == m[j]);
                }
            }
            m.lemma_push_to_set_commute(l);
            assert(r.to_set() =~= v.to_set().insert(x));
            assert forall|i: int| 0 <= i < r.len() implies (#[trigger] r[i] == x
                || v.to_set().contains(r[i])) by {
                if i < m.len() {
                    assert(r[i] == m[i]);
                    if m[i] != x {
                        assert(w.to_set().contains(m[i]));
                    }
                }
            }
        }
    }
}

/// Every finite set of names has a sorted sequence of its elements.
pub proof fn lemma_sorted_elements_exist(s: Set<Seq<char>>)
    requires
        s.finite(),
    ensures
        strictly_sorted(sorted_elements(s)),
        sorted_elements(s).to_set() == s,
    decreases s.len(),
{
    if s.len() == 0 {
        let v = Seq::<Seq<char>>::empty();
        assert(v.to_set() =~= s);
        assert(strictly_sorted(v) && v.to_set() == s);
    } else {
        let x = s.choose();
        let s1 = s.remove(x);
        lemma_sorted_elements_exist(s1);
        let v1 = sorted_elements(s1);
        lemma_insert_sorted(v1, x);
        let v = insert_sorted(v1, x);
        assert(v.to_set() =~= s);
        assert(strictly_sorted(v) && v.to_set() == s);
    }
}


/// Index of the first `'\n'` at or after `i`, or the length of `s`.
pub open spec fn next_newline(s: Seq<char>, i: int) -> int
    decreases s.len() - i,
{
    if i < 0 || i >= s.len() {
        i
    } else if s[i] == '\n' {
        i
    } else {
        next_newline(s, i + 1)
    }
}

proof fn lemma_next_newline(s: Seq<char>, i: int)
    requires
        0 <= i <= s.len(),
    ensures
        i <= next_newline(s, i) <= s.len(),
        next_newline(s, i) < s.len() ==> s[next_newline(s, i)] == '\n',
    decreases s.len() - i,
{
    if i < s.len() && s[i] != '\n' {
        lemma_next_newline(s, i + 1);
    }
}

/// `line` without one trailing carriage return.
pub open spec fn strip_cr(line: Seq<char>) -> Seq<char> {
    if line.len() > 0 && line.last() == '\r' {
        line.drop_last()
    } else {
        line
    }
}

/// The lines of `s` from position `i` on (`str::lines`): split at `\n`, with a
/// `\r` just before the `\n` removed; the final line ending is optional.
pub open spec fn lines_from(s: Seq<char>, i: int) -> Seq<Seq<char>>
    decreases s.len() - i,
{
    if i < 0 || i >= s.len() {
        Seq::empty()
    } else {
        let j = next_newline(s, i);
        if i <= j < s.len() {
            seq![strip_cr(s.subrange(i, j))] + lines_from(s, j + 1)
        } else {
            seq![s.subrange(i, s.len() as int)]
        }
    }
}

/// The lines of `s` (`str::lines`).
pub open spec fn lines_spec(s: Seq<char>) -> Seq<Seq<char>> {
    lines_from(s, 0)
}

/// The lines of `contents`, as `str::lines` splits them.
pub fn lines_of(contents: &str) -> (r: Vec<String>)
    ensures
        texts(r@) == lines_spec(contents@),
{
    let cs = chars_of(contents);
    let ghost s = cs@;
    let mut r: Vec<String> = Vec::new();
    let mut i: usize = 0;
    while i < cs.len()
        invariant
            s == cs@,
            s == contents@,
            0 <= i <= s.len(),
            lines_spec(s) == texts(r@) + lines_from(s, i as int),
        decreases cs.len() - i,
    {
        let mut j = i;
        proof {
            lemma_next_newline(s, i as int);
        }
        while j < cs.len() && cs[j] != '\n'
            invariant
                s == cs@,
                i <= j <= s.len(),
                next_newline(s, i as int) == next_newline(s, j as int),
            decreases cs.len() - j,
        {
            j = j + 1;
        }
        let ghost r0 = texts(r@);
        if j < cs.len() {
            let end = if j > i && cs[j - 1] == '\r' { j - 1 } else { j };
            let line = string_from_range(&cs, i, end);
            assert(line@ == strip_cr(s.subrange(i as int, j as int)));
            r.push(line);
            assert(texts(r@) =~= r0.push(line@));
            assert(r0 + lines_from(s, i as int) =~= texts(r@) + lines_from(s, j + 1));
            i = j + 1;
        } else {
            let line = string_from_range(&cs, i, j);
            r.push(line);
            assert(texts(r@) =~= r0.push(line@));
            assert(r0 + lines_from(s, i as int) =~= texts(r@) + lines_from(s, j as int));
            i = j;
        }
    }
    assert(texts(r@) + lines_from(s, i as int) =~= texts(r@));
    r
}


/// Trimming trimmed text changes nothing.
pub proof fn lemma_trim_idempotent(s: Seq<char>)
    requires
        s.len() > 0,
        !is_space_char(s[0]),
        !is_space_char(s.last()),
    ensures
        trim(s) == s,
{
    assert(skip_space(s, 0) == 0);
    assert(skip_space_back(s, s.len() as int) == s.len());
    assert(s.subrange(0, s.len() as int) =~= s);
}

/// Adds every name of `src` to the sorted names `acc`.
pub fn sorted_union(acc: &mut Vec<String>, src: &Vec<String>)
    requires
        strictly_sorted(texts(old(acc)@)),
    ensures
        strictly_sorted(texts(final(acc)@)),
        texts(final(acc)@).to_set() == texts(old(acc)@).to_set().union(texts(src@).to_set()),
{
    let mut i: usize = 0;
    while i < src.len()
        invariant
            0 <= i <= src@.len(),
            strictly_sorted(texts(acc@)),
            texts(acc@).to_set() == texts(old(acc)@).to_set().union(
                texts(src@).take(i as int).to_set(),
            ),
        decreases src.len() - i,
    {
        let ghost before = texts(acc@).to_set();
        sorted_insert(acc, src[i].clone());
        assert(texts(src@).take(i + 1) =~= texts(src@).take(i as int).push(src@[i as int]@));
        proof {
            texts(src@).take(i as int).lemma_push_to_set_commute(src@[i as int]@);
        }
        i = i + 1;
    }
    assert(texts(src@).take(src@.len() as int) =~= texts(src@));
}

/// Whether `name` is one of `v`.
pub fn contains_text(v: &Vec<String>, name: &String) -> (r: bool)
    ensures
        r == texts(v@).contains(name@),
{
    let mut i: usize = 0;
    while i < v.len()
        invariant
            0 <= i <= v@.len(),
            forall|k: int| 0 <= k < i ==> v@[k]@ != name@,
        decreases v.len() - i,
    {
        if v[i] == *name {
            assert(texts(v@)[i as int] == name@);
            return true;
        }
        i = i + 1;
    }
    assert forall|k: int| 0 <= k < texts(v@).len() implies texts(v@)[k] != name@ by {
        assert(texts(v@)[k] == v@[k]@);
    }
    false
}

} // verus!
