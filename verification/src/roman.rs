//! Canonical Roman numerals: rendering in standard subtractive form and
//! recognising exactly the renderings of 1..=3999.
use vstd::prelude::*;

verus! {

/// The value of the `i`-th entry of the greedy table (largest first).
pub open spec fn roman_val(i: int) -> nat {
    if i == 0 {
        1000
    } else if i == 1 {
        900
    } else if i == 2 {
        500
    } else if i == 3 {
        400
    } else if i == 4 {
        100
    } else if i == 5 {
        90
    } else if i == 6 {
        50
    } else if i == 7 {
        40
    } else if i == 8 {
        10
    } else if i == 9 {
        9
    } else if i == 10 {
        5
    } else if i == 11 {
        4
    } else {
        1
    }
}

/// The symbol of the `i`-th entry of the greedy table.
pub open spec fn roman_sym(i: int) -> Seq<char> {
    if i == 0 {
        seq!['M']
    } else if i == 1 {
        seq!['C', 'M']
    } else if i == 2 {
        seq!['D']
    } else if i == 3 {
        seq!['C', 'D']
    } else if i == 4 {
        seq!['C']
    } else if i == 5 {
        seq!['X', 'C']
    } else if i == 6 {
        seq!['L']
    } else if i == 7 {
        seq!['X', 'L']
    } else if i == 8 {
        seq!['X']
    } else if i == 9 {
        seq!['I', 'X']
    } else if i == 10 {
        seq!['V']
    } else if i == 11 {
        seq!['I', 'V']
    } else {
        seq!['I']
    }
}

/// Greedy rendering of `n` using the table from entry `i` on.
pub open spec fn roman_from(n: nat, i: nat) -> Seq<char>
    decreases 13 - i, n,
{
    if i >= 13 {
        Seq::empty()
    } else if n >= roman_val(i as int) {
        roman_sym(i as int) + roman_from((n - roman_val(i as int)) as nat, i)
    } else {
        roman_from(n, i + 1)
    }
}

/// The standard subtractive Roman rendering of `n`.
pub open spec fn spec_to_roman(n: nat) -> Seq<char> {
    roman_from(n, 0)
}

/// A canonical Roman numeral: the rendering of some value in 1..=3999.
pub open spec fn spec_canonical_roman(s: Seq<char>) -> bool {
    exists|n: nat| 1 <= n <= 3999 && #[trigger] spec_to_roman(n) == s
}

/// The value of one Roman letter, 0 for any other character.
pub open spec fn letter_val(c: char) -> int {
    if c == 'I' {
        1
    } else if c == 'V' {
        5
    } else if c == 'X' {
        10
    } else if c == 'L' {
        50
    } else if c == 'C' {
        100
    } else if c == 'D' {
        500
    } else if c == 'M' {
        1000
    } else {
        0
    }
}

/// The contribution of position `i`: subtracted when a larger letter follows.
pub open spec fn signed_letter(s: Seq<char>, i: int) -> int {
    if i + 1 < s.len() && letter_val(s[i]) < letter_val(s[i + 1]) {
        -letter_val(s[i])
    } else {
        letter_val(s[i])
    }
}

/// The subtractive-rule total of the letters from position `i` on.
pub open spec fn letters_total(s: Seq<char>, i: int) -> int
    decreases s.len() - i,
{
    if i < 0 || i >= s.len() {
        0
    } else {
        signed_letter(s, i) + letters_total(s, i + 1)
    }
}

proof fn lemma_total_shift(a: Seq<char>, b: Seq<char>, j: int)
    requires
        0 <= j,
    ensures
        letters_total(a + b, a.len() + j) == letters_total(b, j),
    decreases b.len() - j,
{
    if j < b.len() {
        lemma_total_shift(a, b, j + 1);
        assert((a + b)[a.len() + j] == b[j]);
        if j + 1 < b.len() {
            assert((a + b)[a.len() + j + 1] == b[j + 1]);
        }
    }
}

proof fn lemma_total_bound(s: Seq<char>, i: int)
    requires
        0 <= i <= s.len(),
    ensures
        -1000 * (s.len() - i) <= letters_total(s, i) <= 1000 * (s.len() - i),
    decreases s.len() - i,
{
    if i < s.len() {
        lemma_total_bound(s, i + 1);
    }
}

proof fn lemma_first_letter_bound(n: nat, i: nat)
    requires
        i <= 13,
    ensures
        roman_from(n, i).len() > 0 ==> letter_val(roman_from(n, i)[0]) <= roman_val(i as int) && (
        i < 13),
    decreases 13 - i, n,
{
    if i < 13 {
        if n >= roman_val(i as int) {
        } else {
            lemma_first_letter_bound(n, i + 1);
        }
    }
}

proof fn lemma_symbol_then_rest(k: int, rest: Seq<char>)
    requires
        0 <= k < 13,
        rest.len() > 0 ==> letter_val(rest[0]) <= roman_val(k),
    ensures
        letters_total(roman_sym(k) + rest, 0) == roman_val(k) + letters_total(rest, 0),
{
    let t = roman_sym(k) + rest;
    let a = roman_sym(k);
    if a.len() == 1 {
        lemma_total_shift(a, rest, 0);
        assert(letters_total(t, 1) == letters_total(rest, 0));
        if rest.len() > 0 {
            assert(t[1] == rest[0]);
        }
    } else {
        lemma_total_shift(a, rest, 0);
        assert(letters_total(t, 2) == letters_total(rest, 0));
        assert(t[0] == a[0]);
        assert(t[1] == a[1]);
        if rest.len() > 0 {
            assert(t[2] == rest[0]);
        }
        assert(letters_total(t, 1) == signed_letter(t, 1) + letters_total(t, 2));
    }
}

proof fn lemma_roman_from_total(n: nat, i: nat)
    requires
        i <= 13,
        i == 13 ==> n == 0,
    ensures
        letters_total(roman_from(n, i), 0) == n,
    decreases 13 - i, n,
{
    if i < 13 {
        if n >= roman_val(i as int) {
            let m = (n - roman_val(i as int)) as nat;
            lemma_roman_from_total(m, i);
            lemma_first_letter_bound(m, i);
            lemma_symbol_then_rest(i as int, roman_from(m, i));
        } else {
            lemma_roman_from_total(n, i + 1);
        }
    }
}

proof fn lemma_symbol_letters(k: int, j: int)
    requires
        0 <= k < 13,
        0 <= j < roman_sym(k).len(),
    ensures
        letter_val(roman_sym(k)[j]) > 0,
{
}

proof fn lemma_roman_from_letters(n: nat, i: nat)
    requires
        i <= 13,
    ensures
        forall|j: int|
            0 <= j < roman_from(n, i).len() ==> letter_val(#[trigger] roman_from(n, i)[j]) > 0,
    decreases 13 - i, n,
{
    if i < 13 {
        if n >= roman_val(i as int) {
            let m = (n - roman_val(i as int)) as nat;
            lemma_roman_from_letters(m, i);
            let a = roman_sym(i as int);
            let r = roman_from(m, i);
            assert(roman_from(n, i) == a + r);
            assert forall|j: int| 0 <= j < (a + r).len() implies letter_val(#[trigger] (a + r)[j])
                > 0 by {
                if j >= a.len() {
                    assert((a + r)[j] == r[j - a.len()]);
                } else {
                    assert((a + r)[j] == a[j]);
                    lemma_symbol_letters(i as int, j);
                }
            }
        } else {
            lemma_roman_from_letters(n, i + 1);
            assert(roman_from(n, i) == roman_from(n, i + 1));
        }
    }
}

/// A rendered numeral reads back as the value it renders: the subtractive total
/// of `spec_to_roman(n)` is `n`, and every character is a Roman letter.
pub proof fn lemma_roman_reads_back(n: nat)
    ensures
        letters_total(spec_to_roman(n), 0) == n,
        forall|j: int|
            0 <= j < spec_to_roman(n).len() ==> letter_val(#[trigger] spec_to_roman(n)[j]) > 0,
{
    lemma_roman_from_total(n, 0);
    lemma_roman_from_letters(n, 0);
}

/// `k` copies of the letter `c`.
pub open spec fn repeat_letter(c: char, k: nat) -> Seq<char>
    decreases k,
{
    if k == 0 {
        Seq::empty()
    } else {
        seq![c] + repeat_letter(c, (k - 1) as nat)
    }
}

/// The numeral of one decimal digit `d` written with the letters worth one, five
/// and ten of its place: 4 and 9 are subtractive pairs, and no letter repeats
/// more than three times.
pub open spec fn digit_numeral(d: nat, one: char, five: char, ten: char) -> Seq<char> {
    if d == 9 {
        seq![one, ten]
    } else if d >= 5 {
        seq![five] + repeat_letter(one, (d - 5) as nat)
    } else if d == 4 {
        seq![one, five]
    } else {
        repeat_letter(one, d)
    }
}

proof fn lemma_repeat_entry(i: nat, u: nat, one: char, q: nat, r: nat)
    requires
        i < 13,
        u > 0,
        roman_val(i as int) == u,
        roman_sym(i as int) == seq![one],
        r < u,
    ensures
        roman_from(q * u + r, i) == repeat_letter(one, q) + roman_from(r, i + 1),
    decreases q,
{
    if q == 0 {
        assert(q * u + r == r);
        assert(repeat_letter(one, q) + roman_from(r, i + 1) =~= roman_from(r, i + 1));
    } else {
        let p = (q - 1) as nat;
        assert(q * u + r == p * u + r + u) by (nonlinear_arith)
            requires
                p == q - 1,
        ;
        lemma_repeat_entry(i, u, one, p, r);
        assert(((q * u + r) - u) as nat == p * u + r);
        assert(roman_from(q * u + r, i) == seq![one] + roman_from(p * u + r, i));
        assert(repeat_letter(one, q) + roman_from(r, i + 1) =~= seq![one] + (repeat_letter(one, p)
            + roman_from(r, i + 1)));
    }
}

proof fn lemma_digit_group(a: nat, u: nat, one: char, five: char, ten: char, d: nat, r: nat)
    requires
        a + 4 <= 13,
        u > 0,
        roman_val(a as int) == 9 * u,
        roman_sym(a as int) == seq![one, ten],
        roman_val((a + 1) as int) == 5 * u,
        roman_sym((a + 1) as int) == seq![five],
        roman_val((a + 2) as int) == 4 * u,
        roman_sym((a + 2) as int) == seq![one, five],
        roman_val((a + 3) as int) == u,
        roman_sym((a + 3) as int) == seq![one],
        d < 10,
        r < u,
    ensures
        roman_from(d * u + r, a) == digit_numeral(d, one, five, ten) + roman_from(r, a + 4),
{
    let m = d * u + r;
    lemma_repeat_entry(a + 3, u, one, 0, r);
    assert(0 * u + r == r);
    assert(roman_from(r, (a + 3) as nat) == roman_from(r, a + 4)) by {
        assert(repeat_letter(one, 0) + roman_from(r, a + 4) =~= roman_from(r, a + 4));
    }
    if d == 9 {
        assert(m == 9 * u + r) by (nonlinear_arith)
            requires
                m == d * u + r,
                d == 9,
        ;
        assert(roman_from(m, a) == seq![one, ten] + roman_from(r, a));
        assert(roman_from(r, a) == roman_from(r, a + 1));
        assert(roman_from(r, a + 1) == roman_from(r, (a + 2) as nat));
        assert(roman_from(r, (a + 2) as nat) == roman_from(r, (a + 3) as nat));
    } else if d >= 5 {
        let q = (d - 5) as nat;
        assert(m == q * u + r + 5 * u && m < 9 * u && q * u + r < 4 * u) by (nonlinear_arith)
            requires
                m == d * u + r,
                5 <= d <= 8,
                q == d - 5,
                r < u,
        ;
        assert(roman_from(m, a) == roman_from(m, a + 1));
        assert((m - 5 * u) as nat == q * u + r);
        assert(roman_from(m, a + 1) == seq![five] + roman_from(q * u + r, a + 1));
        assert(roman_from(q * u + r, a + 1) == roman_from(q * u + r, (a + 2) as nat));
        assert(roman_from(q * u + r, (a + 2) as nat) == roman_from(q * u + r, (a + 3) as nat));
        lemma_repeat_entry(a + 3, u, one, q, r);
        assert(digit_numeral(d, one, five, ten) + roman_from(r, a + 4) =~= seq![five] + (
        repeat_letter(one, q) + roman_from(r, a + 4)));
    } else if d == 4 {
        assert(m == 4 * u + r) by (nonlinear_arith)
            requires
                m == d * u + r,
                d == 4,
        ;
        assert(roman_from(m, a) == roman_from(m, a + 1));
        assert(roman_from(m, a + 1) == roman_from(m, (a + 2) as nat));
        assert(roman_from(m, (a + 2) as nat) == seq![one, five] + roman_from(r, (a + 2) as nat));
        assert(roman_from(r, (a + 2) as nat) == roman_from(r, (a + 3) as nat));
    } else {
        assert(m < 4 * u) by (nonlinear_arith)
            requires
                m == d * u + r,
                d <= 3,
                r < u,
        ;
        assert(roman_from(m, a) == roman_from(m, a + 1));
        assert(roman_from(m, a + 1) == roman_from(m, (a + 2) as nat));
        assert(roman_from(m, (a + 2) as nat) == roman_from(m, (a + 3) as nat));
        lemma_repeat_entry(a + 3, u, one, d, r);
    }
}

/// The rendering is the standard decimal one, independent of the greedy table:
/// as many `M` as there are thousands, then the hundreds, tens and units digits,
/// each written with its place's letters (`C`/`D`/`M`, `X`/`L`/`C`, `I`/`V`/`X`)
/// as 1-3 repeats, a subtractive pair for 4 and 9, or the five-letter followed by
/// up to three repeats.
pub proof fn lemma_roman_digits(n: nat)
    ensures
        spec_to_roman(n) == repeat_letter('M', n / 1000) + digit_numeral(
            (n / 100) % 10,
            'C',
            'D',
            'M',
        ) + digit_numeral((n / 10) % 10, 'X', 'L', 'C') + digit_numeral(n % 10, 'I', 'V', 'X'),
{
    let t = n / 1000;
    let h = (n / 100) % 10;
    let x = (n / 10) % 10;
    let e = n % 10;
    let r1 = n % 1000;
    let r2 = n % 100;
    assert(n == t * 1000 + r1);
    assert(n == (n / 100) * 100 + r2);
    assert(n / 100 == (n / 100 / 10) * 10 + h);
    assert(n == (n / 10) * 10 + e);
    assert(n / 10 == (n / 10 / 10) * 10 + x);
    assert(r1 == h * 100 + r2 && r2 == x * 10 + e && h < 10 && x < 10 && e < 10) by {
        vstd::arithmetic::div_mod::lemma_fundamental_div_mod_converse(
            n as int,
            1000,
            t as int,
            r1 as int,
        );
        assert(r2 == (r2 / 10) * 10 + r2 % 10);
        vstd::arithmetic::div_mod::lemma_fundamental_div_mod_converse(
            n as int,
            100,
            (n / 100) as int,
            r2 as int,
        );
        vstd::arithmetic::div_mod::lemma_fundamental_div_mod_converse(
            (n / 100) as int,
            10,
            (n / 100 / 10) as int,
            h as int,
        );
        vstd::arithmetic::div_mod::lemma_fundamental_div_mod_converse(
            n as int,
            1000,
            (n / 100 / 10) as int,
            (h * 100 + r2) as int,
        );
        vstd::arithmetic::div_mod::lemma_fundamental_div_mod_converse(
            n as int,
            100,
            (n / 10 / 10) as int,
            (x * 10 + e) as int,
        );
    }
    lemma_repeat_entry(0, 1000, 'M', t, r1);
    lemma_digit_group(1, 100, 'C', 'D', 'M', h, r2);
    lemma_digit_group(5, 10, 'X', 'L', 'C', x, e);
    lemma_digit_group(9, 1, 'I', 'V', 'X', e, 0);
    assert(e * 1 + 0 == e);
    assert(roman_from(0, 13) == Seq::<char>::empty());
    assert(digit_numeral(e, 'I', 'V', 'X') + roman_from(0, 13) =~= digit_numeral(
        e,
        'I',
        'V',
        'X',
    ));
    assert(spec_to_roman(n) =~= repeat_letter('M', t) + digit_numeral(h, 'C', 'D', 'M')
        + digit_numeral(x, 'X', 'L', 'C') + digit_numeral(e, 'I', 'V', 'X'));
}

/// Every numeral written digit by digit in standard subtractive form, for a value
/// in 1..=3999, is canonical (and so accepted by `is_canonical_roman`).
pub proof fn lemma_standard_numerals_canonical(n: nat)
    requires
        1 <= n <= 3999,
    ensures
        spec_canonical_roman(
            repeat_letter('M', n / 1000) + digit_numeral((n / 100) % 10, 'C', 'D', 'M')
                + digit_numeral((n / 10) % 10, 'X', 'L', 'C') + digit_numeral(n % 10, 'I', 'V', 'X'),
        ),
{
    lemma_roman_digits(n);
}

fn table_val(i: usize) -> (res: u32)
    requires
        i < 13,
    ensures
        res == roman_val(i as int),
{
    if i == 0 {
        1000
    } else if i == 1 {
        900
    } else if i == 2 {
        500
    } else if i == 3 {
        400
    } else if i == 4 {
        100
    } else if i == 5 {
        90
    } else if i == 6 {
        50
    } else if i == 7 {
        40
    } else if i == 8 {
        10
    } else if i == 9 {
        9
    } else if i == 10 {
        5
    } else if i == 11 {
        4
    } else {
        1
    }
}

fn push_symbol(out: &mut Vec<char>, i: usize)
    requires
        i < 13,
    ensures
        final(out)@ == old(out)@ + roman_sym(i as int),
{
    if i == 0 {
        out.push('M');
    } else if i == 1 {
        out.push('C');
        out.push('M');
    } else if i == 2 {
        out.push('D');
    } else if i == 3 {
        out.push('C');
        out.push('D');
    } else if i == 4 {
        out.push('C');
    } else if i == 5 {
        out.push('X');
        out.push('C');
    } else if i == 6 {
        out.push('L');
    } else if i == 7 {
        out.push('X');
        out.push('L');
    } else if i == 8 {
        out.push('X');
    } else if i == 9 {
        out.push('I');
        out.push('X');
    } else if i == 10 {
        out.push('V');
    } else if i == 11 {
        out.push('I');
        out.push('V');
    } else {
        out.push('I');
    }
    assert(final(out)@ =~= old(out)@ + roman_sym(i as int));
}

/// Renders `n` as a Roman numeral in standard subtractive form (meant for 1..=3999).
pub fn to_roman(n: u32) -> (res: Vec<char>)
    ensures
        res@ == spec_to_roman(n as nat),
{
    let mut out: Vec<char> = Vec::new();
    let mut m: u32 = n;
    let mut i: usize = 0;
    while i < 13
        invariant
            i <= 13,
            spec_to_roman(n as nat) == out@ + roman_from(m as nat, i as nat),
        decreases 13 - i,
    {
        let v = table_val(i);
        while m >= v
            invariant
                i < 13,
                v == roman_val(i as int),
                spec_to_roman(n as nat) == out@ + roman_from(m as nat, i as nat),
            decreases m,
        {
            push_symbol(&mut out, i);
            m = m - v;
            assert(spec_to_roman(n as nat) =~= out@ + roman_from(m as nat, i as nat));
        }
        i = i + 1;
    }
    assert(out@ + roman_from(m as nat, 13) =~= out@);
    out
}

fn letter_value(c: char) -> (res: u32)
    ensures
        res == letter_val(c),
{
    if c == 'I' {
        1
    } else if c == 'V' {
        5
    } else if c == 'X' {
        10
    } else if c == 'L' {
        50
    } else if c == 'C' {
        100
    } else if c == 'D' {
        500
    } else if c == 'M' {
        1000
    } else {
        0
    }
}

/// A canonical Roman numeral, validated by round trip: the subtractive total of the
/// letters must lie in 1..=3999 and render back to exactly `s`.
pub fn is_canonical_roman(s: &[char]) -> (res: bool)
    ensures
        res == spec_canonical_roman(s@),
{
    if s.len() == 0 {
        proof {
            if spec_canonical_roman(s@) {
                let n = choose|n: nat| 1 <= n <= 3999 && #[trigger] spec_to_roman(n) == s@;
                lemma_roman_reads_back(n);
            }
        }
        return false;
    }
    let mut vals: Vec<u32> = Vec::new();
    let mut i: usize = 0;
    while i < s.len()
        invariant
            i <= s@.len(),
            vals@.len() == i,
            forall|j: int| 0 <= j < i ==> vals@[j] == letter_val(#[trigger] s@[j]),
        decreases s.len() - i,
    {
        vals.push(letter_value(s[i]));
        i = i + 1;
    }
    let mut k: usize = 0;
    while k < vals.len()
        invariant
            k <= vals@.len(),
            vals@.len() == s@.len(),
            forall|j: int| 0 <= j < s@.len() ==> vals@[j] == letter_val(#[trigger] s@[j]),
            forall|j: int| 0 <= j < k ==> letter_val(#[trigger] s@[j]) != 0,
        decreases vals.len() - k,
    {
        if vals[k] == 0 {
            proof {
                if spec_canonical_roman(s@) {
                    let n = choose|n: nat| 1 <= n <= 3999 && #[trigger] spec_to_roman(n) == s@;
                    lemma_roman_reads_back(n);
                    assert(letter_val(s@[k as int]) > 0);
                }
            }
            return false;
        }
        k = k + 1;
    }
    let mut total: i128 = 0;
    let mut j: usize = 0;
    proof {
        lemma_total_bound(s@, 0);
    }
    while j < vals.len()
        invariant
            j <= vals@.len(),
            vals@.len() == s@.len(),
            forall|q: int| 0 <= q < s@.len() ==> vals@[q] == letter_val(#[trigger] s@[q]),
            total == letters_total(s@, 0) - letters_total(s@, j as int),
            -1000 * j <= total <= 1000 * j,
        decreases vals.len() - j,
    {
        let ghost jj = j as int;
        assert(letters_total(s@, jj) == signed_letter(s@, jj) + letters_total(s@, jj + 1));
        if j + 1 < vals.len() && vals[j] < vals[j + 1] {
            total = total - vals[j] as i128;
        } else {
            total = total + vals[j] as i128;
        }
        j = j + 1;
    }
    if !(1 <= total && total <= 3999) {
        proof {
            if spec_canonical_roman(s@) {
                let n = choose|n: nat| 1 <= n <= 3999 && #[trigger] spec_to_roman(n) == s@;
                lemma_roman_reads_back(n);
            }
        }
        return false;
    }
    let back = to_roman(total as u32);
    let res = crate::text::chars_eq(back.as_slice(), s);
    proof {
        if res {
            assert(spec_to_roman(total as nat) == s@);
        }
        if spec_canonical_roman(s@) {
            let n = choose|n: nat| 1 <= n <= 3999 && #[trigger] spec_to_roman(n) == s@;
            lemma_roman_reads_back(n);
            assert(n == total);
        }
    }
    res
}

} // verus!
