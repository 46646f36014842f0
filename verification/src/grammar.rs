//! The name grammar: zero-padded register numbers (`NNNN`), slugs, and the
//! `NNNN-slug` name form, plus the numeral test shared by checker and generator.
use vstd::prelude::*;
use crate::ext::{string_from_chars, to_uppercase, spec_to_uppercase};
use crate::roman::{is_canonical_roman, spec_canonical_roman};
use crate::text::{
    all_digits, decimal, digit_char, digits_value, is_ascii_digit, is_ascii_lowercase, split,
    split_chars, chars_of, push_decimal, is_digit_char, views,
};

verus! {

/// Zero-padded width for the monotonic registers (milestones, decisions).
pub const PAD_WIDTH: usize = 4;

/// `n` in decimal, zero-padded on the left to at least `PAD_WIDTH` digits.
pub open spec fn spec_format_number(n: nat) -> Seq<char> {
    let d = decimal(n);
    if d.len() < PAD_WIDTH {
        Seq::new((PAD_WIDTH - d.len()) as nat, |i: int| '0') + d
    } else {
        d
    }
}

/// A valid number: ASCII digits, exactly `PAD_WIDTH` of them, or more than that
/// with no leading zero.
pub open spec fn spec_valid_number(s: Seq<char>) -> bool {
    &&& s.len() > 0
    &&& all_digits(s)
    &&& (s.len() == PAD_WIDTH || (s.len() > PAD_WIDTH && s[0] != '0'))
}

pub open spec fn is_slug_char(c: char) -> bool {
    is_ascii_lowercase(c) || is_ascii_digit(c) || c == '-'
}

/// Some position holds two hyphens in a row.
pub open spec fn has_double_hyphen(s: Seq<char>) -> bool {
    exists|i: int| 0 <= i < s.len() - 1 && #[trigger] s[i] == '-' && s[i + 1] == '-'
}

/// A slug: lowercase letters, digits and single internal hyphens; non-empty, with
/// no leading, trailing or doubled hyphen.
pub open spec fn spec_valid_slug(s: Seq<char>) -> bool {
    &&& s.len() > 0
    &&& s[0] != '-'
    &&& s.last() != '-'
    &&& !has_double_hyphen(s)
    &&& forall|i: int| 0 <= i < s.len() ==> is_slug_char(#[trigger] s[i])
}

/// A valid name: a register number, a hyphen, then a slug.
pub open spec fn spec_valid_name(s: Seq<char>) -> bool {
    exists|k: int|
        0 <= k < s.len() && #[trigger] s[k] == '-' && spec_valid_number(s.take(k))
            && spec_valid_slug(s.skip(k + 1))
}

/// An Arabic numeral: at most one dot, with digits on each side of it.
pub open spec fn spec_arabic_numeral(s: Seq<char>) -> bool {
    let parts = split(s, '.');
    parts.len() <= 2 && forall|i: int|
        0 <= i < parts.len() ==> #[trigger] parts[i].len() > 0 && all_digits(parts[i])
}

/// A numeral: an Arabic integer or single decimal, or a token whose uppercase form
/// is a canonical Roman numeral.
pub open spec fn spec_is_numeral(s: Seq<char>) -> bool {
    s.len() > 0 && (spec_arabic_numeral(s) || spec_canonical_roman(spec_to_uppercase(s)))
}

/// Format a register number as a zero-padded string: `1` -> `"0001"`.
pub fn format_number(n: u32) -> (res: String)
    ensures
        res@ == spec_format_number(n as nat),
{
    let mut digits: Vec<char> = Vec::new();
    push_decimal(n as u64, &mut digits);
    assert(digits@ =~= decimal(n as nat));
    let mut out: Vec<char> = Vec::new();
    let mut k: usize = digits.len();
    while k < PAD_WIDTH
        invariant
            digits@.len() <= k <= PAD_WIDTH || (k == digits@.len() && k >= PAD_WIDTH),
            out@ == Seq::new((k - digits@.len()) as nat, |i: int| '0'),
        decreases PAD_WIDTH - k,
    {
        out.push('0');
        k = k + 1;
        assert(out@ =~= Seq::new((k - digits@.len()) as nat, |i: int| '0'));
    }
    crate::text::push_chars(&mut out, digits.as_slice());
    assert(out@ =~= spec_format_number(n as nat));
    string_from_chars(out.as_slice())
}

/// A valid number is the form `format_number` emits.
fn is_valid_number(num: &[char]) -> (res: bool)
    ensures
        res == spec_valid_number(num@),
{
    if num.len() == 0 {
        return false;
    }
    let mut i: usize = 0;
    while i < num.len()
        invariant
            i <= num@.len(),
            forall|j: int| 0 <= j < i ==> is_ascii_digit(#[trigger] num@[j]),
        decreases num.len() - i,
    {
        if !is_digit_char(num[i]) {
            return false;
        }
        i = i + 1;
    }
    if num.len() < PAD_WIDTH {
        false
    } else if num.len() == PAD_WIDTH {
        true
    } else {
        num[0] != '0'
    }
}

fn is_valid_slug_chars(slug: &[char]) -> (res: bool)
    ensures
        res == spec_valid_slug(slug@),
{
    let n = slug.len();
    if n == 0 || slug[0] == '-' || slug[n - 1] == '-' {
        return false;
    }
    let mut i: usize = 0;
    while i < n
        invariant
            n == slug@.len(),
            i <= n,
            forall|j: int| 0 <= j < i ==> is_slug_char(#[trigger] slug@[j]),
            forall|j: int| 0 <= j < i && j < n - 1 ==> !(#[trigger] slug@[j] == '-' && slug@[j + 1] == '-'),
        decreases n - i,
    {
        let c = slug[i];
        if !(('a' <= c && c <= 'z') || is_digit_char(c) || c == '-') {
            return false;
        }
        if i + 1 < n && c == '-' && slug[i + 1] == '-' {
            return false;
        }
        i = i + 1;
    }
    true
}

/// A slug is lowercase letters, digits, and single internal hyphens: non-empty,
/// no leading/trailing hyphen, no doubled hyphen.
pub fn is_valid_slug(slug: &str) -> (res: bool)
    ensures
        res == spec_valid_slug(slug@),
{
    let cs = chars_of(slug);
    is_valid_slug_chars(cs.as_slice())
}

fn copy_range(s: &[char], from: usize, to: usize) -> (res: Vec<char>)
    requires
        from <= to <= s@.len(),
    ensures
        res@ == s@.subrange(from as int, to as int),
{
    let mut out: Vec<char> = Vec::new();
    let mut i: usize = from;
    while i < to
        invariant
            from <= i <= to <= s@.len(),
            out@ == s@.subrange(from as int, i as int),
        decreases to - i,
    {
        out.push(s[i]);
        i = i + 1;
        assert(out@ =~= s@.subrange(from as int, i as int));
    }
    out
}

/// A valid name is `NNNN-slug`: a register number, a hyphen, then a slug.
pub fn is_valid_name(name: &str) -> (res: bool)
    ensures
        res == spec_valid_name(name@),
{
    let s = chars_of(name);
    let n = s.len();
    let mut k: usize = 0;
    while k < n && s[k] != '-'
        invariant
            n == s@.len(),
            k <= n,
            forall|j: int| 0 <= j < k ==> #[trigger] s@[j] != '-',
        decreases n - k,
    {
        k = k + 1;
    }
    if k == n {
        return false;
    }
    let num = copy_range(s.as_slice(), 0, k);
    let slug = copy_range(s.as_slice(), k + 1, n);
    assert(num@ =~= s@.take(k as int));
    assert(slug@ =~= s@.skip(k + 1));
    let res = is_valid_number(num.as_slice()) && is_valid_slug_chars(slug.as_slice());
    proof {
        if !res && spec_valid_name(s@) {
            let w = choose|w: int|
                0 <= w < s@.len() && #[trigger] s@[w] == '-' && spec_valid_number(s@.take(w))
                    && spec_valid_slug(s@.skip(w + 1));
            if w > k {
                assert(s@.take(w)[k as int] == '-');
            }
        }
    }
    res
}

/// Whether a token reads as a numeral: an Arabic integer (`"5"`) or single decimal
/// (`"5.5"`), where a version-like form with two or more dots (`"1.2.3"`) is not,
/// or a canonical Roman numeral (`"II"`, `"IV"`) in any letter case.
pub fn is_numeral(word: &str) -> (res: bool)
    ensures
        res == spec_is_numeral(word@),
{
    let w = chars_of(word);
    if w.len() == 0 {
        return false;
    }
    let parts = split_chars(w.as_slice(), '.');
    let mut arabic = parts.len() <= 2;
    if arabic {
        let mut i: usize = 0;
        while i < parts.len()
            invariant
                i <= parts@.len(),
                views(parts@) == split(w@, '.'),
                parts@.len() <= 2,
                arabic == forall|j: int| 0 <= j < i ==> #[trigger] split(w@, '.')[j].len() > 0 && all_digits(split(w@, '.')[j]),
            decreases parts.len() - i,
        {
            assert(views(parts@)[i as int] == parts@[i as int]@);
            let p = &parts[i];
            let mut ok = p.len() > 0;
            let mut j: usize = 0;
            while j < p.len()
                invariant
                    j <= p@.len(),
                    ok == (p@.len() > 0 && forall|q: int| 0 <= q < j ==> is_ascii_digit(#[trigger] p@[q])),
                decreases p.len() - j,
            {
                ok = ok && is_digit_char(p[j]);
                j = j + 1;
            }
            arabic = arabic && ok;
            i = i + 1;
        }
    }
    if arabic {
        return true;
    }
    let upper = to_uppercase(w.as_slice());
    is_canonical_roman(upper.as_slice())
}

proof fn lemma_decimal_digits(n: nat)
    ensures
        decimal(n).len() >= 1,
        all_digits(decimal(n)),
        n >= 10 ==> decimal(n)[0] != '0',
        n < 10 ==> decimal(n).len() == 1,
    decreases n,
{
    if n >= 10 {
        lemma_decimal_digits(n / 10);
        let d = decimal(n / 10);
        assert(decimal(n) == d.push(digit_char((n % 10) as int)));
        if n / 10 < 10 {
            assert(n / 10 >= 1);
        }
        assert forall|i: int| 0 <= i < decimal(n).len() implies is_ascii_digit(
            #[trigger] decimal(n)[i],
        ) by {
            if i < d.len() {
                assert(decimal(n)[i] == d[i]);
            }
        }
    }
}

/// What the generator emits, the checker accepts: every formatted register
/// number is a valid number.
pub proof fn lemma_format_number_is_valid(n: u32)
    ensures
        spec_valid_number(spec_format_number(n as nat)),
{
    lemma_decimal_digits(n as nat);
    let d = decimal(n as nat);
    let f = spec_format_number(n as nat);
    if d.len() < PAD_WIDTH {
        let z = Seq::new((PAD_WIDTH - d.len()) as nat, |i: int| '0');
        assert(f == z + d);
        assert forall|i: int| 0 <= i < f.len() implies is_ascii_digit(#[trigger] f[i]) by {
            if i >= z.len() {
                assert(f[i] == d[i - z.len()]);
            }
        }
    } else if d.len() > PAD_WIDTH {
        assert(n >= 10);
    }
}

/// A slug is exactly a non-empty run of ASCII lowercase letters, ASCII digits and
/// hyphens that neither starts nor ends with a hyphen and never holds two hyphens
/// in a row; letters and digits may stand anywhere, first place included.
pub proof fn lemma_slug_characterization(s: Seq<char>)
    ensures
        spec_valid_slug(s) <==> {
            &&& s.len() > 0
            &&& forall|i: int|
                0 <= i < s.len() ==> ('a' <= #[trigger] s[i] <= 'z') || ('0' <= s[i] <= '9') || s[i]
                    == '-'
            &&& s[0] != '-'
            &&& s[s.len() - 1] != '-'
            &&& forall|i: int| 0 <= i < s.len() - 1 ==> !(#[trigger] s[i] == '-' && s[i + 1] == '-')
        },
{
}

/// Slugs join and split at single hyphens: `a-b` is a valid slug exactly when
/// both `a` and `b` are.
pub proof fn lemma_slug_join(a: Seq<char>, b: Seq<char>)
    ensures
        spec_valid_slug(a + seq!['-'] + b) <==> spec_valid_slug(a) && spec_valid_slug(b),
{
    let s = a + seq!['-'] + b;
    let k = a.len() as int;
    assert(s.len() == a.len() + 1 + b.len());
    assert forall|i: int| 0 <= i < a.len() implies #[trigger] s[i] == a[i] by {}
    assert(s[k] == '-');
    assert forall|i: int| 0 <= i < b.len() implies #[trigger] s[k + 1 + i] == b[i] by {}
    if spec_valid_slug(s) {
        assert(a.len() > 0) by {
            if a.len() == 0 {
                assert(s[0] == '-');
            }
        }
        assert(b.len() > 0) by {
            if b.len() == 0 {
                assert(s.last() == '-');
            }
        }
        assert(a.last() != '-') by {
            if a.last() == '-' {
                assert(s[k - 1] == '-' && s[k] == '-');
            }
        }
        assert(b[0] != '-') by {
            if b[0] == '-' {
                assert(s[k] == '-' && s[k + 1] == '-');
            }
        }
        assert(a[0] == s[0]);
        assert(b.last() == s[k + b.len()]);
        assert(!has_double_hyphen(a)) by {
            if has_double_hyphen(a) {
                let i = choose|i: int| 0 <= i < a.len() - 1 && #[trigger] a[i] == '-' && a[i + 1] == '-';
                assert(s[i] == '-' && s[i + 1] == '-');
            }
        }
        assert(!has_double_hyphen(b)) by {
            if has_double_hyphen(b) {
                let i = choose|i: int| 0 <= i < b.len() - 1 && #[trigger] b[i] == '-' && b[i + 1] == '-';
                assert(s[k + 1 + i] == '-' && s[k + 1 + i + 1] == '-');
            }
        }
        assert forall|i: int| 0 <= i < a.len() implies is_slug_char(#[trigger] a[i]) by {
            assert(is_slug_char(s[i]));
        }
        assert forall|i: int| 0 <= i < b.len() implies is_slug_char(#[trigger] b[i]) by {
            assert(is_slug_char(s[k + 1 + i]));
        }
    }
    if spec_valid_slug(a) && spec_valid_slug(b) {
        assert(s[0] == a[0]);
        assert(s.last() == b[b.len() - 1]);
        assert forall|i: int| 0 <= i < s.len() implies is_slug_char(#[trigger] s[i]) by {
            if i < k {
                assert(s[i] == a[i]);
            } else if i > k {
                assert(s[i] == b[i - k - 1]);
            }
        }
        assert(!has_double_hyphen(s)) by {
            if has_double_hyphen(s) {
                let i = choose|i: int| 0 <= i < s.len() - 1 && #[trigger] s[i] == '-' && s[i + 1] == '-';
                if i + 1 < k {
                    assert(a[i] == '-' && a[i + 1] == '-');
                } else if i + 1 == k {
                    assert(a[k - 1] == '-');
                } else if i == k {
                    assert(b[0] == '-');
                } else {
                    assert(b[i - k - 1] == '-' && b[i - k] == '-');
                }
            }
        }
    }
}

/// Every character of a valid name is an ASCII digit, an ASCII lowercase letter
/// or a hyphen: no uppercase letter, underscore or other character is ever accepted.
pub proof fn lemma_valid_name_chars(s: Seq<char>)
    requires
        spec_valid_name(s),
    ensures
        forall|i: int|
            0 <= i < s.len() ==> ('0' <= #[trigger] s[i] <= '9') || ('a' <= s[i] <= 'z') || s[i] == '-',
{
    let k = choose|k: int|
        0 <= k < s.len() && #[trigger] s[k] == '-' && spec_valid_number(s.take(k)) && spec_valid_slug(
            s.skip(k + 1),
        );
    assert forall|i: int| 0 <= i < s.len() implies ('0' <= #[trigger] s[i] <= '9') || ('a' <= s[i]
        <= 'z') || s[i] == '-' by {
        if i < k {
            assert(s.take(k)[i] == s[i]);
            assert(is_ascii_digit(s.take(k)[i]));
        } else if i > k {
            assert(s.skip(k + 1)[i - k - 1] == s[i]);
            assert(is_slug_char(s.skip(k + 1)[i - k - 1]));
        }
    }
}

/// A name is valid exactly when the text before its first hyphen is a valid number
/// and the text after that hyphen is a valid slug.
pub proof fn lemma_valid_name_first_hyphen(s: Seq<char>)
    ensures
        spec_valid_name(s) <==> exists|k: int|
            0 <= k < s.len() && #[trigger] s[k] == '-' && (forall|j: int| 0 <= j < k ==> s[j] != '-')
                && spec_valid_number(s.take(k)) && spec_valid_slug(s.skip(k + 1)),
{
    if spec_valid_name(s) {
        let k = choose|k: int|
            0 <= k < s.len() && #[trigger] s[k] == '-' && spec_valid_number(s.take(k))
                && spec_valid_slug(s.skip(k + 1));
        assert forall|j: int| 0 <= j < k implies s[j] != '-' by {
            assert(s.take(k)[j] == s[j]);
            assert(is_ascii_digit(s.take(k)[j]));
        }
    }
}

/// What the generator emits, the checker accepts: a formatted number, a hyphen
/// and any valid slug form a valid name.
pub proof fn lemma_name_round_trip(n: u32, slug: Seq<char>)
    requires
        spec_valid_slug(slug),
    ensures
        spec_valid_name(spec_format_number(n as nat) + seq!['-'] + slug),
{
    lemma_format_number_is_valid(n);
    let f = spec_format_number(n as nat);
    let s = f + seq!['-'] + slug;
    let k = f.len() as int;
    assert(s[k] == '-');
    assert(s.take(k) =~= f);
    assert(s.skip(k + 1) =~= slug);
}

proof fn lemma_digits_value_nonzero(s: Seq<char>)
    requires
        s.len() > 0,
        all_digits(s),
        s[0] != '0',
    ensures
        digits_value(s) >= 1,
    decreases s.len(),
{
    if s.len() > 1 {
        lemma_digits_value_nonzero(s.drop_last());
    }
}

proof fn lemma_decimal_of_value(s: Seq<char>)
    requires
        s.len() > 0,
        all_digits(s),
        s[0] != '0',
    ensures
        decimal(digits_value(s)) == s,
    decreases s.len(),
{
    let v = digits_value(s);
    let d = (s.last() as int - 48) as nat;
    if s.len() == 1 {
        assert(s.drop_last().len() == 0);
        assert(digits_value(s.drop_last()) == 0);
        assert(v == d);
        assert(d < 10);
        assert(decimal(v) =~= s);
    } else {
        let p = s.drop_last();
        lemma_decimal_of_value(p);
        lemma_digits_value_nonzero(p);
        assert(v == digits_value(p) * 10 + d);
        assert(v / 10 == digits_value(p));
        assert(v % 10 == d);
        assert(decimal(v) == decimal(v / 10).push(digit_char((v % 10) as int)));
        assert(decimal(v) =~= s);
    }
}

proof fn lemma_leading_zeros_value(z: nat, t: Seq<char>)
    ensures
        digits_value(Seq::new(z, |i: int| '0') + t) == digits_value(t),
    decreases t.len(), z,
{
    let zs = Seq::new(z, |i: int| '0');
    if t.len() == 0 {
        assert(zs + t =~= zs);
        if z > 0 {
            lemma_leading_zeros_value((z - 1) as nat, t);
            assert(zs.drop_last() =~= Seq::new((z - 1) as nat, |i: int| '0'));
            assert(Seq::new((z - 1) as nat, |i: int| '0') + t =~= Seq::new(
                (z - 1) as nat,
                |i: int| '0',
            ));
        }
    } else {
        lemma_leading_zeros_value(z, t.drop_last());
        assert((zs + t).drop_last() =~= zs + t.drop_last());
        assert((zs + t).last() == t.last());
    }
}

/// The checker accepts exactly what the generator can emit: a valid number whose
/// value fits in `u32` is the formatting of that value. (Longer valid numbers, such
/// as `"99999999999"`, are accepted but lie beyond what a `u32` can produce.)
pub proof fn lemma_valid_number_is_produced(s: Seq<char>)
    requires
        spec_valid_number(s),
        digits_value(s) <= u32::MAX,
    ensures
        spec_format_number(digits_value(s)) == s,
{
    let v = digits_value(s);
    if s[0] != '0' {
        lemma_decimal_of_value(s);
    } else {
        let z = leading_zeros(s);
        lemma_leading_zeros(s);
        let t = s.skip(z as int);
        let zs = Seq::new(z, |i: int| '0');
        assert(s =~= zs + t);
        lemma_leading_zeros_value(z, t);
        if t.len() == 0 {
            assert(v == 0);
            assert(decimal(0) == seq!['0']);
            assert(spec_format_number(0) =~= s);
        } else {
            assert(all_digits(t)) by {
                assert forall|i: int| 0 <= i < t.len() implies is_ascii_digit(#[trigger] t[i]) by {
                    assert(t[i] == s[i + z]);
                }
            }
            lemma_decimal_of_value(t);
            assert(spec_format_number(v) =~= s);
        }
    }
}

/// The number of `'0'` characters that open `s`.
pub open spec fn leading_zeros(s: Seq<char>) -> nat
    decreases s.len(),
{
    if s.len() > 0 && s[0] == '0' {
        1 + leading_zeros(s.drop_first())
    } else {
        0
    }
}

proof fn lemma_leading_zeros(s: Seq<char>)
    ensures
        leading_zeros(s) <= s.len(),
        forall|i: int| 0 <= i < leading_zeros(s) ==> #[trigger] s[i] == '0',
        leading_zeros(s) < s.len() ==> s[leading_zeros(s) as int] != '0',
    decreases s.len(),
{
    if s.len() > 0 && s[0] == '0' {
        lemma_leading_zeros(s.drop_first());
        assert forall|i: int| 0 <= i < leading_zeros(s) implies #[trigger] s[i] == '0' by {
            if i > 0 {
                assert(s[i] == s.drop_first()[i - 1]);
            }
        }
    }
}

} // verus!
