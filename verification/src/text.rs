//! Character-level text helpers shared by the scanner and the shortener:
//! trimming, splitting, prefix and suffix tests, and decimal rendering,
//! each with the mathematical statement of what it computes.
use vstd::prelude::*;

verus! {

broadcast use vstd::string::group_string_axioms;

// ---------------------------------------------------------------------------
// Specifications
// ---------------------------------------------------------------------------

/// The Unicode `White_Space` property, the set that `char::is_whitespace` documents.
pub open spec fn is_white_space(c: char) -> bool {
    let x = c as u32;
    ||| 9 <= x <= 13
    ||| x == 32
    ||| x == 0x85
    ||| x == 0xa0
    ||| x == 0x1680
    ||| 0x2000 <= x <= 0x200a
    ||| x == 0x2028
    ||| x == 0x2029
    ||| x == 0x202f
    ||| x == 0x205f
    ||| x == 0x3000
}

/// `s` with its leading white space removed.
pub open spec fn trim_start(s: Seq<char>) -> Seq<char>
    decreases s.len(),
{
    if s.len() > 0 && is_white_space(s[0]) {
        trim_start(s.drop_first())
    } else {
        s
    }
}

/// `s` with its trailing white space removed.
pub open spec fn trim_end(s: Seq<char>) -> Seq<char>
    decreases s.len(),
{
    if s.len() > 0 && is_white_space(s.last()) {
        trim_end(s.drop_last())
    } else {
        s
    }
}

/// `s` with leading and trailing white space removed, as `str::trim` does.
pub open spec fn trim(s: Seq<char>) -> Seq<char> {
    trim_end(trim_start(s))
}

/// The pieces of `s` between occurrences of `sep`, as `str::split` with a
/// character pattern yields them (an empty `s` gives one empty piece).
pub open spec fn split_on(s: Seq<char>, sep: char) -> Seq<Seq<char>>
    decreases s.len(),
{
    if s.len() == 0 {
        seq![Seq::<char>::empty()]
    } else {
        let rest = split_on(s.drop_last(), sep);
        if s.last() == sep {
            rest.push(Seq::<char>::empty())
        } else {
            rest.update(rest.len() - 1, rest.last().push(s.last()))
        }
    }
}

/// The first index below `n` at which `pred` holds, if any.
pub open spec fn first_index(n: nat, pred: spec_fn(int) -> bool) -> Option<int>
    decreases n,
{
    if n == 0 {
        None
    } else {
        match first_index((n - 1) as nat, pred) {
            Some(i) => Some(i),
            None => if pred(n - 1) {
                Some(n - 1)
            } else {
                None
            },
        }
    }
}

/// The character of the decimal digit `d` (below ten).
pub open spec fn digit_char(d: nat) -> char {
    ((48 + d) as u8) as char
}

/// The decimal representation of `n`, without leading zeros ("0" for zero).
pub open spec fn decimal(n: nat) -> Seq<char>
    decreases n,
{
    if n < 10 {
        seq![digit_char(n)]
    } else {
        decimal(n / 10).push(digit_char(n % 10))
    }
}

/// `count` zero characters.
pub open spec fn zeros(count: nat) -> Seq<char> {
    Seq::new(count, |i: int| '0')
}

/// The decimal representation of `n`, left-padded with zeros to at least
/// `width` characters, as the format specification `{:0width}` renders it.
pub open spec fn zero_padded(n: nat, width: nat) -> Seq<char> {
    let d = decimal(n);
    if d.len() < width {
        zeros((width - d.len()) as nat) + d
    } else {
        d
    }
}

// ---------------------------------------------------------------------------
// Lemmas
// ---------------------------------------------------------------------------

/// Once a first index is found below `n`, it stays the first index below any larger bound.
pub proof fn lemma_first_index_stable(n: nat, m: nat, pred: spec_fn(int) -> bool)
    requires
        n <= m,
        first_index(n, pred) is Some,
    ensures
        first_index(m, pred) == first_index(n, pred),
    decreases m - n,
{
    if n < m {
        lemma_first_index_stable(n, (m - 1) as nat, pred);
    }
}

/// `first_index` is `None` exactly when `pred` fails everywhere below `n`.
pub proof fn lemma_first_index_none(n: nat, pred: spec_fn(int) -> bool)
    ensures
        first_index(n, pred) is None <==> (forall|j: int| 0 <= j < n ==> !#[trigger] pred(j)),
    decreases n,
{
    if n > 0 {
        lemma_first_index_none((n - 1) as nat, pred);
    }
}

/// `first_index` is `Some(i)` exactly when `pred(i)` holds and fails below `i`.
pub proof fn lemma_first_index_some(n: nat, pred: spec_fn(int) -> bool, i: int)
    requires
        0 <= i < n,
        pred(i),
        forall|j: int| 0 <= j < i ==> !#[trigger] pred(j),
    ensures
        first_index(n, pred) == Some(i),
{
    lemma_first_index_none(i as nat, pred);
    assert(first_index((i + 1) as nat, pred) == Some(i));
    lemma_first_index_stable((i + 1) as nat, n, pred);
}

/// What `first_index` returns satisfies the predicate and is the first to do so.
pub proof fn lemma_first_index_found(n: nat, pred: spec_fn(int) -> bool)
    requires
        first_index(n, pred) is Some,
    ensures
        0 <= first_index(n, pred)->0 < n,
        pred(first_index(n, pred)->0),
        forall|j: int| 0 <= j < first_index(n, pred)->0 ==> !#[trigger] pred(j),
    decreases n,
{
    if first_index((n - 1) as nat, pred) is Some {
        lemma_first_index_found((n - 1) as nat, pred);
    } else {
        lemma_first_index_none((n - 1) as nat, pred);
    }
}

/// Removing the leading white space of a sequence whose first `k` characters
/// are white space gives the same as removing it from the rest.
proof fn lemma_trim_start_skip(s: Seq<char>, k: int)
    requires
        0 <= k <= s.len(),
        forall|j: int| 0 <= j < k ==> is_white_space(s[j]),
    ensures
        trim_start(s) == trim_start(s.skip(k)),
    decreases k,
{
    if k > 0 {
        assert(s.drop_first().skip(k - 1) =~= s.skip(k));
        lemma_trim_start_skip(s.drop_first(), k - 1);
    } else {
        assert(s.skip(0) =~= s);
    }
}

/// The mirror image of `lemma_trim_start_skip` for trailing white space.
proof fn lemma_trim_end_take(s: Seq<char>, k: int)
    requires
        0 <= k <= s.len(),
        forall|j: int| k <= j < s.len() ==> is_white_space(s[j]),
    ensures
        trim_end(s) == trim_end(s.take(k)),
    decreases s.len() - k,
{
    if k < s.len() {
        assert(s.drop_last().take(k) =~= s.take(k));
        lemma_trim_end_take(s.drop_last(), k);
    } else {
        assert(s.take(k) =~= s);
    }
}

/// The trimmed text of `s` is the slice between the first and the last
/// characters that are not white space.
pub proof fn lemma_trim_bounds(s: Seq<char>, lo: int, hi: int)
    requires
        0 <= lo <= hi <= s.len(),
        forall|j: int| 0 <= j < lo ==> is_white_space(s[j]),
        forall|j: int| hi <= j < s.len() ==> is_white_space(s[j]),
        lo < hi ==> !is_white_space(s[lo]) && !is_white_space(s[hi - 1]),
        lo == hi ==> hi == s.len(),
    ensures
        trim(s) == s.subrange(lo, hi),
{
    lemma_trim_start_skip(s, lo);
    let t = s.skip(lo);
    if lo < hi {
        assert(trim_start(t) == t);
        lemma_trim_end_take(t, hi - lo);
        assert(t.take(hi - lo) =~= s.subrange(lo, hi));
        let u = t.take(hi - lo);
        assert(u.last() == s[hi - 1]);
    } else {
        assert(t =~= Seq::<char>::empty());
        assert(trim_start(t) == t);
        assert(s.subrange(lo, hi) =~= Seq::<char>::empty());
    }
}

/// A sequence that neither starts nor ends with white space is its own trim.
pub proof fn lemma_trim_unchanged(s: Seq<char>)
    requires
        s.len() > 0 ==> !is_white_space(s[0]) && !is_white_space(s.last()),
    ensures
        trim(s) == s,
{
    if s.len() > 0 {
        lemma_trim_bounds(s, 0, s.len() as int);
    } else {
        lemma_trim_bounds(s, 0, 0);
    }
    assert(s.subrange(0, s.len() as int) =~= s);
}

/// Trimming twice is the same as trimming once.
pub proof fn lemma_trim_idempotent(s: Seq<char>)
    ensures
        trim(trim(s)) == trim(s),
{
    let (lo, hi) = trim_bounds(s);
    lemma_trim_bounds(s, lo, hi);
    lemma_trim_unchanged(trim(s));
}

/// A non-empty trimmed text neither starts nor ends with white space.
pub proof fn lemma_trim_ends(s: Seq<char>)
    ensures
        trim(s).len() > 0 ==> !is_white_space(trim(s)[0]) && !is_white_space(trim(s).last()),
{
    let (lo, hi) = trim_bounds(s);
    lemma_trim_bounds(s, lo, hi);
}

/// Positions of the first and past the last non-white-space characters.
proof fn trim_bounds(s: Seq<char>) -> (r: (int, int))
    ensures
        0 <= r.0 <= r.1 <= s.len(),
        forall|j: int| 0 <= j < r.0 ==> is_white_space(s[j]),
        forall|j: int| r.1 <= j < s.len() ==> is_white_space(s[j]),
        r.0 < r.1 ==> !is_white_space(s[r.0]) && !is_white_space(s[r.1 - 1]),
        r.0 == r.1 ==> r.1 == s.len(),
{
    let pred = |j: int| !is_white_space(s[j]);
    match first_index(s.len(), pred) {
        None => {
            lemma_first_index_none(s.len(), pred);
            assert forall|j: int| 0 <= j < s.len() implies is_white_space(s[j]) by {
                assert(!pred(j));
            }
            (s.len() as int, s.len() as int)
        },
        Some(lo) => {
            lemma_first_index_found(s.len(), pred);
            assert forall|j: int| 0 <= j < lo implies is_white_space(s[j]) by {
                assert(!pred(j));
            }
            let rev = |j: int| !is_white_space(s[s.len() - 1 - j]);
            assert(rev(s.len() - 1 - lo));
            lemma_first_index_none(s.len(), rev);
            lemma_first_index_found(s.len(), rev);
            let k = first_index(s.len(), rev)->0;
            let hi = s.len() - k;
            assert forall|j: int| hi <= j < s.len() implies is_white_space(s[j]) by {
                assert(!rev(s.len() - 1 - j));
            }
            (lo, hi)
        },
    }
}

/// Splitting a sequence one character longer adds that character to the last piece,
/// or starts a new piece where it is the separator.
pub proof fn lemma_split_push(s: Seq<char>, c: char, sep: char)
    ensures
        split_on(s.push(c), sep) == (if c == sep {
            split_on(s, sep).push(Seq::<char>::empty())
        } else {
            let r = split_on(s, sep);
            r.update(r.len() - 1, r.last().push(c))
        }),
{
    assert(s.push(c).drop_last() =~= s);
}

/// Splitting a text with no separator in it yields the text itself.
pub proof fn lemma_split_single(s: Seq<char>, sep: char)
    requires
        !s.contains(sep),
    ensures
        split_on(s, sep) == seq![s],
    decreases s.len(),
{
    if s.len() > 0 {
        let t = s.drop_last();
        assert(!t.contains(sep)) by {
            if t.contains(sep) {
                let k = choose|k: int| 0 <= k < t.len() && t[k] == sep;
                assert(s[k] == sep);
            }
        }
        lemma_split_single(t, sep);
        assert(s[s.len() - 1] == s.last());
        assert(s.last() != sep);
        assert(t.push(s.last()) =~= s);
        assert(seq![t].update(0, t.push(s.last())) =~= seq![s]);
    } else {
        assert(s =~= Seq::<char>::empty());
    }
}

/// Splitting two texts joined by a separator yields the pieces of the first
/// followed by the pieces of the second.
pub proof fn lemma_split_join(a: Seq<char>, b: Seq<char>, sep: char)
    ensures
        split_on(a + seq![sep] + b, sep) == split_on(a, sep) + split_on(b, sep),
    decreases b.len(),
{
    let j = a + seq![sep];
    if b.len() == 0 {
        assert(j + b =~= a.push(sep));
        lemma_split_push(a, sep, sep);
        assert(split_on(a, sep).push(Seq::<char>::empty()) =~= split_on(a, sep) + split_on(b, sep));
    } else {
        let b1 = b.drop_last();
        let c = b.last();
        lemma_split_join(a, b1, sep);
        assert(j + b =~= (j + b1).push(c));
        assert(b =~= b1.push(c));
        lemma_split_push(j + b1, c, sep);
        lemma_split_push(b1, c, sep);
        lemma_split_nonempty(b1, sep);
        let sa = split_on(a, sep);
        let sb = split_on(b1, sep);
        if c == sep {
            assert((sa + sb).push(Seq::<char>::empty()) =~= sa + sb.push(Seq::<char>::empty()));
        } else {
            let r = sa + sb;
            assert(r.last() == sb.last());
            assert(r.update(r.len() - 1, r.last().push(c)) =~= sa + sb.update(
                sb.len() - 1,
                sb.last().push(c),
            ));
        }
    }
}

/// Splitting never yields an empty list of pieces.
pub proof fn lemma_split_nonempty(s: Seq<char>, sep: char)
    ensures
        split_on(s, sep).len() >= 1,
    decreases s.len(),
{
    if s.len() > 0 {
        lemma_split_nonempty(s.drop_last(), sep);
    }
}

/// Decimal representations are never empty.
pub proof fn lemma_decimal_nonempty(n: nat)
    ensures
        decimal(n).len() >= 1,
    decreases n,
{
    if n >= 10 {
        lemma_decimal_nonempty(n / 10);
    }
}

/// Strict lexicographic order of texts by character code; on ASCII texts
/// this is the order of their bytes.
pub open spec fn lex_less(a: Seq<char>, b: Seq<char>) -> bool {
    exists|k: int|
        0 <= k <= a.len() && k <= b.len() && #[trigger] a.take(k) == b.take(k) && ((k < a.len()
            && k < b.len() && (a[k] as u32) < (b[k] as u32)) || (k == a.len() && k < b.len()))
}

/// Ten to the power `w`.
pub open spec fn pow10(w: nat) -> nat
    decreases w,
{
    if w == 0 {
        1
    } else {
        10 * pow10((w - 1) as nat)
    }
}

/// The last `w` decimal digits of `n`, most significant first.
pub open spec fn fixed_digits(n: nat, w: nat) -> Seq<char>
    decreases w,
{
    if w == 0 {
        Seq::empty()
    } else {
        fixed_digits(n / 10, (w - 1) as nat).push(digit_char(n % 10))
    }
}

/// Texts of equal length keep their order when anything is appended to each.
pub proof fn lemma_lex_append(a1: Seq<char>, b1: Seq<char>, a2: Seq<char>, b2: Seq<char>)
    requires
        a1.len() == b1.len(),
        lex_less(a1, b1),
    ensures
        lex_less(a1 + a2, b1 + b2),
{
    let k = choose|k: int|
        0 <= k <= a1.len() && k <= b1.len() && #[trigger] a1.take(k) == b1.take(k) && ((k
            < a1.len() && k < b1.len() && (a1[k] as u32) < (b1[k] as u32)) || (k == a1.len()
            && k < b1.len()));
    assert((a1 + a2).take(k) =~= a1.take(k));
    assert((b1 + b2).take(k) =~= b1.take(k));
    assert((a1 + a2)[k] == a1[k]);
    assert((b1 + b2)[k] == b1[k]);
}

/// A common prefix keeps the order of two texts.
pub proof fn lemma_lex_prefix(p: Seq<char>, a: Seq<char>, b: Seq<char>)
    requires
        lex_less(a, b),
    ensures
        lex_less(p + a, p + b),
{
    let k = choose|k: int|
        0 <= k <= a.len() && k <= b.len() && #[trigger] a.take(k) == b.take(k) && ((k < a.len()
            && k < b.len() && (a[k] as u32) < (b[k] as u32)) || (k == a.len() && k < b.len()));
    let j = p.len() + k;
    assert((p + a).take(j) =~= p + a.take(k));
    assert((p + b).take(j) =~= p + b.take(k));
    if k < a.len() && k < b.len() {
        assert((p + a)[j] == a[k]);
        assert((p + b)[j] == b[k]);
    } else {
        assert((p + b)[j] == b[k]);
    }
}

/// `fixed_digits` has `w` characters.
pub proof fn lemma_fixed_digits_len(n: nat, w: nat)
    ensures
        fixed_digits(n, w).len() == w,
    decreases w,
{
    if w > 0 {
        lemma_fixed_digits_len(n / 10, (w - 1) as nat);
    }
}

/// The digits of zero are zeros.
proof fn lemma_fixed_digits_zero(w: nat)
    ensures
        fixed_digits(0, w) == zeros(w),
    decreases w,
{
    if w > 0 {
        lemma_fixed_digits_zero((w - 1) as nat);
        assert(zeros((w - 1) as nat).push('0') =~= zeros(w));
    }
}

/// A number below ten to the `w` (with `w` at least one) is rendered with
/// zero padding as exactly its last `w` digits.
pub proof fn lemma_zero_padded_fixed(n: nat, w: nat)
    requires
        w >= 1,
        n < pow10(w),
    ensures
        zero_padded(n, w) == fixed_digits(n, w),
    decreases n,
{
    if n < 10 {
        lemma_fixed_digits_zero((w - 1) as nat);
        assert(n / 10 == 0 && n % 10 == n);
        assert(zeros((w - 1) as nat).push(digit_char(n)) =~= zeros((w - 1) as nat) + seq![
            digit_char(n),
        ]);
    } else {
        assert(w >= 2) by {
            if w == 1 {
                assert(pow10(1) == 10 * pow10(0));
            }
        }
        let w1 = (w - 1) as nat;
        assert(n / 10 < pow10(w1)) by (nonlinear_arith)
            requires
                n < pow10(w),
                pow10(w) == 10 * pow10(w1),
        ;
        lemma_zero_padded_fixed(n / 10, w1);
        lemma_fixed_digits_len(n / 10, w1);
        let d = decimal(n / 10);
        assert(decimal(n) == d.push(digit_char(n % 10)));
        if d.len() < w1 {
            assert(zeros((w - decimal(n).len()) as nat) + decimal(n) =~= (zeros(
                (w1 - d.len()) as nat,
            ) + d).push(digit_char(n % 10)));
        } else {
            assert(zero_padded(n / 10, w1) == d);
        }
    }
}

/// Fixed-width digit texts compare as the numbers do.
pub proof fn lemma_fixed_digits_order(n: nat, m: nat, w: nat)
    requires
        n < m < pow10(w),
    ensures
        lex_less(fixed_digits(n, w), fixed_digits(m, w)),
    decreases w,
{
    if w == 0 {
        assert(false);
    } else {
        let w1 = (w - 1) as nat;
        assert(m / 10 < pow10(w1)) by (nonlinear_arith)
            requires
                m < pow10(w),
                pow10(w) == 10 * pow10(w1),
        ;
        assert(n / 10 <= m / 10) by (nonlinear_arith)
            requires
                n < m,
        ;
        lemma_fixed_digits_len(n / 10, w1);
        lemma_fixed_digits_len(m / 10, w1);
        let a = fixed_digits(n / 10, w1);
        let b = fixed_digits(m / 10, w1);
        let dn = digit_char(n % 10);
        let dm = digit_char(m % 10);
        assert(a.push(dn) =~= a + seq![dn]);
        assert(b.push(dm) =~= b + seq![dm]);
        if n / 10 < m / 10 {
            lemma_fixed_digits_order(n / 10, m / 10, w1);
            lemma_lex_append(a, b, seq![dn], seq![dm]);
        } else {
            assert(n % 10 < m % 10) by (nonlinear_arith)
                requires
                    n < m,
                    n / 10 == m / 10,
            ;
            assert((dn as u32) < (dm as u32));
            let k = w1 as int;
            assert((a + seq![dn]).take(k) =~= a);
            assert((b + seq![dm]).take(k) =~= b);
            assert(lex_less(a + seq![dn], b + seq![dm]));
        }
    }
}

/// Zero-padded numbers below ten to the `w` have `w` characters, and compare
/// as the numbers do.
pub proof fn lemma_zero_padded_order(n: nat, m: nat, w: nat)
    requires
        w >= 1,
        n <= m < pow10(w),
    ensures
        zero_padded(n, w).len() == w,
        zero_padded(m, w).len() == w,
        n < m ==> lex_less(zero_padded(n, w), zero_padded(m, w)),
{
    lemma_zero_padded_fixed(n, w);
    lemma_zero_padded_fixed(m, w);
    lemma_fixed_digits_len(n, w);
    lemma_fixed_digits_len(m, w);
    if n < m {
        lemma_fixed_digits_order(n, m, w);
    }
}

// ---------------------------------------------------------------------------
// Executable helpers
// ---------------------------------------------------------------------------

/// Appends one character to a string.
/// Trusted: `String::push`, which std documents as appending the given char
/// to the end of the string.
#[verifier::external_body]
pub(crate) fn push_char(s: &mut String, c: char)
    ensures
        final(s)@ == old(s)@.push(c),
{
    s.push(c);
}

/// Whether `c` is white space: a character with the Unicode `White_Space`
/// property, as `char::is_whitespace` decides it.
pub fn char_is_whitespace(c: char) -> (b: bool)
    ensures
        b == is_white_space(c),
{
    let x = c as u32;
    (9 <= x && x <= 13) || x == 32 || x == 0x85 || x == 0xa0 || x == 0x1680 || (0x2000 <= x && x
        <= 0x200a) || x == 0x2028 || x == 0x2029 || x == 0x202f || x == 0x205f || x == 0x3000
}

/// The name of the text that `str::to_lowercase` gives for a text (the
/// Unicode lowercase mapping of each character, with the final-sigma rule).
pub uninterp spec fn lowercase(s: Seq<char>) -> Seq<char>;

/// The lowercase form of `s`.
/// Trusted: `str::to_lowercase`; its result is named `lowercase`, which
/// depends on the text alone. Nothing more is stated of it.
#[verifier::external_body]
pub(crate) fn to_lowercase(s: &str) -> (r: String)
    ensures
        r@ == lowercase(s@),
{
    s.to_lowercase()
}

/// The characters of `s`, in order, as a vector.
pub fn chars_of(s: &str) -> (v: Vec<char>)
    ensures
        v@ == s@,
{
    let mut v: Vec<char> = Vec::new();
    for c in it: s.chars()
        invariant
            it.seq() == s@,
            v@ == it.seq().take(it.index() as int),
    {
        v.push(c);
    }
    v
}

/// The string made of the characters `cs`.
pub fn string_of(cs: &[char]) -> (s: String)
    ensures
        s@ == cs@,
{
    let mut s = String::new();
    let n = cs.len();
    for i in 0..n
        invariant
            n == cs@.len(),
            s@ == cs@.take(i as int),
    {
        push_char(&mut s, cs[i]);
        assert(cs@.take(i + 1) =~= cs@.take(i as int).push(cs@[i as int]));
    }
    assert(cs@.take(n as int) =~= cs@);
    s
}

/// Appends the characters `cs` to `s`.
pub fn push_chars(s: &mut String, cs: &[char])
    ensures
        final(s)@ == old(s)@ + cs@,
{
    let ghost start = s@;
    let n = cs.len();
    for i in 0..n
        invariant
            n == cs@.len(),
            s@ == start + cs@.take(i as int),
    {
        push_char(s, cs[i]);
        assert(cs@.take(i + 1) =~= cs@.take(i as int).push(cs@[i as int]));
    }
    assert(cs@.take(n as int) =~= cs@);
}

/// Whether the two character sequences are equal.
pub fn same_chars(a: &[char], b: &[char]) -> (r: bool)
    ensures
        r == (a@ == b@),
{
    if a.len() != b.len() {
        return false;
    }
    let n = a.len();
    for i in 0..n
        invariant
            n == a@.len(),
            n == b@.len(),
            forall|j: int| 0 <= j < i ==> a@[j] == b@[j],
    {
        if a[i] != b[i] {
            return false;
        }
    }
    assert(a@ =~= b@);
    true
}

/// Whether `p` is a prefix of `s`.
pub fn has_prefix(s: &[char], p: &[char]) -> (r: bool)
    ensures
        r == p@.is_prefix_of(s@),
{
    if p.len() > s.len() {
        return false;
    }
    let n = p.len();
    for i in 0..n
        invariant
            n == p@.len(),
            n <= s@.len(),
            forall|j: int| 0 <= j < i ==> p@[j] == s@[j],
    {
        if p[i] != s[i] {
            assert(p@[i as int] != s@.subrange(0, n as int)[i as int]);
            return false;
        }
    }
    assert(p@ =~= s@.subrange(0, n as int));
    true
}

/// Whether `p` is a suffix of `s`.
pub fn has_suffix(s: &[char], p: &[char]) -> (r: bool)
    ensures
        r == p@.is_suffix_of(s@),
{
    if p.len() > s.len() {
        return false;
    }
    let n = p.len();
    let off = s.len() - n;
    for i in 0..n
        invariant
            n == p@.len(),
            off + n == s@.len(),
            off + n == s.len(),
            forall|j: int| 0 <= j < i ==> p@[j] == s@[off + j],
    {
        if p[i] != s[off + i] {
            assert(p@[i as int] != s@.subrange(off as int, s@.len() as int)[i as int]);
            return false;
        }
    }
    assert(p@ =~= s@.subrange(off as int, s@.len() as int));
    true
}

/// Whether `c` occurs in `s`.
pub fn contains_char(s: &[char], c: char) -> (r: bool)
    ensures
        r == s@.contains(c),
{
    let n = s.len();
    for i in 0..n
        invariant
            n == s@.len(),
            forall|j: int| 0 <= j < i ==> s@[j] != c,
    {
        if s[i] == c {
            return true;
        }
    }
    false
}

/// `s` with leading and trailing white space removed.
pub fn trim_chars(s: &[char]) -> (t: Vec<char>)
    ensures
        t@ == trim(s@),
{
    let n = s.len();
    let mut lo: usize = 0;
    while lo < n && char_is_whitespace(s[lo])
        invariant
            n == s@.len(),
            lo <= n,
            forall|j: int| 0 <= j < lo ==> is_white_space(s@[j]),
        decreases n - lo,
    {
        lo = lo + 1;
    }
    let mut hi: usize = n;
    while hi > lo && char_is_whitespace(s[hi - 1])
        invariant
            n == s@.len(),
            lo <= hi <= n,
            forall|j: int| hi <= j < n ==> is_white_space(s@[j]),
        decreases hi,
    {
        hi = hi - 1;
    }
    proof {
        lemma_trim_bounds(s@, lo as int, hi as int);
    }
    let mut t: Vec<char> = Vec::new();
    let mut i = lo;
    while i < hi
        invariant
            lo <= i <= hi <= n,
            n == s@.len(),
            t@ == s@.subrange(lo as int, i as int),
        decreases hi - i,
    {
        t.push(s[i]);
        assert(s@.subrange(lo as int, i + 1) =~= s@.subrange(lo as int, i as int).push(s@[i as int]));
        i = i + 1;
    }
    t
}

/// The pieces of `s` between occurrences of `sep`.
pub fn split_chars(s: &[char], sep: char) -> (parts: Vec<Vec<char>>)
    ensures
        parts@.len() == split_on(s@, sep).len(),
        forall|k: int| 0 <= k < parts@.len() ==> #[trigger] parts@[k]@ == split_on(s@, sep)[k],
{
    let mut parts: Vec<Vec<char>> = Vec::new();
    let mut current: Vec<char> = Vec::new();
    let n = s.len();
    let ghost mut pieces: Seq<Seq<char>> = seq![Seq::<char>::empty()];
    assert(s@.take(0) =~= Seq::<char>::empty());
    for i in 0..n
        invariant
            n == s@.len(),
            pieces == split_on(s@.take(i as int), sep),
            pieces.len() == parts@.len() + 1,
            forall|k: int| 0 <= k < parts@.len() ==> #[trigger] parts@[k]@ == pieces[k],
            current@ == pieces.last(),
    {
        let c = s[i];
        proof {
            lemma_split_push(s@.take(i as int), c, sep);
            assert(s@.take(i as int).push(c) =~= s@.take(i + 1));
        }
        if c == sep {
            let done = current;
            parts.push(done);
            current = Vec::new();
            proof {
                pieces = pieces.push(Seq::<char>::empty());
            }
        } else {
            current.push(c);
            proof {
                pieces = pieces.update(pieces.len() - 1, pieces.last().push(c));
            }
        }
    }
    assert(s@.take(n as int) =~= s@);
    parts.push(current);
    parts
}

/// The character of the decimal digit `d`.
fn digit(d: u64) -> (c: char)
    requires
        d < 10,
    ensures
        c == digit_char(d as nat),
{
    ((48 + d) as u8) as char
}

/// Appends the decimal representation of `n` to `s`.
pub fn push_decimal(s: &mut String, n: u64)
    ensures
        final(s)@ == old(s)@ + decimal(n as nat),
    decreases n,
{
    if n >= 10 {
        push_decimal(s, n / 10);
    }
    push_char(s, digit(n % 10));
    proof {
        if n >= 10 {
            assert(old(s)@ + decimal((n / 10) as nat) + seq![digit_char((n % 10) as nat)] =~= old(s)@ + decimal(n as nat));
        } else {
            assert(old(s)@.push(digit_char(n as nat)) =~= old(s)@ + decimal(n as nat));
        }
    }
}

/// Appends the decimal representation of `n`, padded with zeros to `width` characters.
pub fn push_padded(s: &mut String, n: u64, width: usize)
    ensures
        final(s)@ == old(s)@ + zero_padded(n as nat, width as nat),
{
    let mut digits = String::new();
    push_decimal(&mut digits, n);
    let len = digits.as_str().unicode_len();
    assert(digits@ =~= decimal(n as nat));
    if len < width {
        let ghost start = s@;
        let mut k: usize = 0;
        while k < width - len
            invariant
                len < width,
                k <= width - len,
                s@ == start + zeros(k as nat),
            decreases width - len - k,
        {
            push_char(s, '0');
            assert(zeros((k + 1) as nat) =~= zeros(k as nat).push('0'));
            k = k + 1;
        }
    }
    s.append(digits.as_str());
    assert(s@ =~= old(s)@ + zero_padded(n as nat, width as nat));
}

/// Whether `p` occurs in `s` starting at position `i`.
pub fn starts_at(s: &[char], i: usize, p: &[char]) -> (r: bool)
    requires
        i <= s@.len(),
    ensures
        r == p@.is_prefix_of(s@.skip(i as int)),
{
    if p.len() > s.len() - i {
        return false;
    }
    let n = p.len();
    for k in 0..n
        invariant
            n == p@.len(),
            i + n <= s@.len(),
            i + n <= s.len(),
            forall|j: int| 0 <= j < k ==> p@[j] == s@[i + j],
    {
        if p[k] != s[i + k] {
            assert(p@[k as int] != s@.skip(i as int).subrange(0, n as int)[k as int]);
            return false;
        }
    }
    assert(p@ =~= s@.skip(i as int).subrange(0, n as int));
    true
}

/// The characters of `s` from position `k` on.
pub fn skip_chars(s: &[char], k: usize) -> (v: Vec<char>)
    requires
        k <= s@.len(),
    ensures
        v@ == s@.skip(k as int),
{
    let mut v: Vec<char> = Vec::new();
    let n = s.len();
    let mut i = k;
    while i < n
        invariant
            k <= i <= n,
            n == s@.len(),
            v@ == s@.subrange(k as int, i as int),
        decreases n - i,
    {
        v.push(s[i]);
        assert(s@.subrange(k as int, i + 1) =~= s@.subrange(k as int, i as int).push(s@[i as int]));
        i = i + 1;
    }
    assert(s@.subrange(k as int, n as int) =~= s@.skip(k as int));
    v
}

/// The first `k` characters of `s`.
pub fn take_chars(s: &[char], k: usize) -> (v: Vec<char>)
    requires
        k <= s@.len(),
    ensures
        v@ == s@.take(k as int),
{
    let mut v: Vec<char> = Vec::new();
    for i in 0..k
        invariant
            k <= s@.len(),
            v@ == s@.take(i as int),
    {
        v.push(s[i]);
        assert(s@.take(i + 1) =~= s@.take(i as int).push(s@[i as int]));
    }
    v
}

} // verus!
