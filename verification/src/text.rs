//! Character runs, decimal numerals, and small string utilities shared by
//! the tokenizer, the selector, and the pretty-printer.

use vstd::prelude::*;
use crate::chars::{char_alphabetic, char_numeric, char_whitespace};

verus! {

/// The character classes over which the scanner captures greedy runs.
#[derive(Clone, Copy)]
pub enum RunClass {
    /// Numeric characters and `.`: the body of a numeric literal.
    NumericOrDot,
    /// Alphanumeric characters and `_`: the tail of a word.
    WordContinue,
    /// Whitespace characters.
    Space,
    /// Everything but a newline: the body of a line comment.
    NotNewline,
    /// Everything but `]`: the body of a selector's bracket group.
    NotCloseBracket,
    /// Everything but `"`: the body of a string literal.
    NotQuote,
    /// Everything but `,`: one item of a selector body.
    NotComma,
    /// Everything but `=`: one segment of a selector item.
    NotEquals,
    /// The bracket characters `[` and `]` trimmed off a selector body.
    Bracket,
}

pub open spec fn run_class_holds(k: RunClass, c: char) -> bool {
    match k {
        RunClass::NumericOrDot => char_numeric(c) || c == '.',
        RunClass::WordContinue => char_alphabetic(c) || char_numeric(c) || c == '_',
        RunClass::Space => char_whitespace(c),
        RunClass::NotNewline => c != '\n',
        RunClass::NotCloseBracket => c != ']',
        RunClass::NotQuote => c != '"',
        RunClass::NotComma => c != ',',
        RunClass::NotEquals => c != '=',
        RunClass::Bracket => c == '[' || c == ']',
    }
}

/// Length of the longest run of characters of class `k` in `s` starting at `i`.
pub open spec fn run_len(s: Seq<char>, i: int, k: RunClass) -> nat
    decreases s.len() - i,
{
    if 0 <= i < s.len() && run_class_holds(k, s[i]) {
        1 + run_len(s, i + 1, k)
    } else {
        0
    }
}

/// Length of the longest run of characters of class `k` ending just before `i`.
pub open spec fn back_run_len(s: Seq<char>, i: int, k: RunClass) -> nat
    decreases i,
{
    if 0 < i <= s.len() && run_class_holds(k, s[i - 1]) {
        1 + back_run_len(s, i - 1, k)
    } else {
        0
    }
}

pub proof fn lemma_run_len_le(s: Seq<char>, i: int, k: RunClass)
    requires
        0 <= i <= s.len(),
    ensures
        run_len(s, i, k) <= s.len() - i,
    decreases s.len() - i,
{
    if i < s.len() && run_class_holds(k, s[i]) {
        lemma_run_len_le(s, i + 1, k);
    }
}

pub proof fn lemma_back_run_len_le(s: Seq<char>, i: int, k: RunClass)
    requires
        0 <= i <= s.len(),
    ensures
        back_run_len(s, i, k) <= i,
    decreases i,
{
    if 0 < i && run_class_holds(k, s[i - 1]) {
        lemma_back_run_len_le(s, i - 1, k);
    }
}

pub proof fn lemma_run_len_exact(s: Seq<char>, i: int, j: int, k: RunClass)
    requires
        0 <= i <= j <= s.len(),
        forall|m: int| i <= m < j ==> run_class_holds(k, s[m]),
        j == s.len() || !run_class_holds(k, s[j]),
    ensures
        run_len(s, i, k) == j - i,
    decreases j - i,
{
    if i < j {
        lemma_run_len_exact(s, i + 1, j, k);
    }
}

pub proof fn lemma_back_run_len_exact(s: Seq<char>, i: int, j: int, k: RunClass)
    requires
        0 <= i <= j <= s.len(),
        forall|m: int| i <= m < j ==> run_class_holds(k, s[m]),
        i == 0 || !run_class_holds(k, s[i - 1]),
    ensures
        back_run_len(s, j, k) == j - i,
    decreases j - i,
{
    if i < j {
        lemma_back_run_len_exact(s, i, j - 1, k);
    }
}

/// Scans forward from `start` and returns the end of the run of class `k`.
pub fn scan_run(s: &str, n: usize, start: usize, k: RunClass) -> (j: usize)
    requires
        n == s@.len(),
        start <= n,
    ensures
        j == start + run_len(s@, start as int, k),
        start <= j <= n,
        forall|m: int| start <= m < j ==> run_class_holds(k, s@[m]),
        j == n || !run_class_holds(k, s@[j as int]),
{
    let mut j = start;
    loop
        invariant
            n == s@.len(),
            start <= j <= n,
            forall|m: int| start <= m < j ==> run_class_holds(k, s@[m]),
        ensures
            start <= j <= n,
            forall|m: int| start <= m < j ==> run_class_holds(k, s@[m]),
            j == n || !run_class_holds(k, s@[j as int]),
        decreases n - j,
    {
        if j >= n {
            break;
        }
        let c = s.get_char(j);
        let inside = match k {
            RunClass::NumericOrDot => c.is_numeric() || c == '.',
            RunClass::WordContinue => c.is_alphabetic() || c.is_numeric() || c == '_',
            RunClass::Space => c.is_whitespace(),
            RunClass::NotNewline => c != '\n',
            RunClass::NotCloseBracket => c != ']',
            RunClass::NotQuote => c != '"',
            RunClass::NotComma => c != ',',
            RunClass::NotEquals => c != '=',
            RunClass::Bracket => c == '[' || c == ']',
        };
        if !inside {
            break;
        }
        j = j + 1;
    }
    proof {
        lemma_run_len_exact(s@, start as int, j as int, k);
    }
    j
}

/// Scans backward from `end` and returns the start of the run of class `k`
/// that ends just before `end`.
pub fn scan_back_run(s: &str, n: usize, end: usize, k: RunClass) -> (i: usize)
    requires
        n == s@.len(),
        end <= n,
    ensures
        i == end - back_run_len(s@, end as int, k),
        i <= end,
        forall|m: int| i <= m < end ==> run_class_holds(k, s@[m]),
        i == 0 || !run_class_holds(k, s@[i - 1]),
{
    let mut i = end;
    loop
        invariant
            n == s@.len(),
            i <= end <= n,
            forall|m: int| i <= m < end ==> run_class_holds(k, s@[m]),
        ensures
            i <= end <= n,
            forall|m: int| i <= m < end ==> run_class_holds(k, s@[m]),
            i == 0 || !run_class_holds(k, s@[i - 1]),
        decreases i,
    {
        if i == 0 {
            break;
        }
        let c = s.get_char(i - 1);
        let inside = match k {
            RunClass::NumericOrDot => c.is_numeric() || c == '.',
            RunClass::WordContinue => c.is_alphabetic() || c.is_numeric() || c == '_',
            RunClass::Space => c.is_whitespace(),
            RunClass::NotNewline => c != '\n',
            RunClass::NotCloseBracket => c != ']',
            RunClass::NotQuote => c != '"',
            RunClass::NotComma => c != ',',
            RunClass::NotEquals => c != '=',
            RunClass::Bracket => c == '[' || c == ']',
        };
        if !inside {
            break;
        }
        i = i - 1;
    }
    proof {
        lemma_back_run_len_exact(s@, i as int, end as int, k);
    }
    i
}

/// Whether `c` is one of the ten ASCII decimal digits.
pub open spec fn ascii_digit(c: char) -> bool {
    48 <= c as u32 <= 57
}

pub open spec fn digit_val(c: char) -> int {
    c as u32 - 48
}

pub open spec fn all_ascii_digits(s: Seq<char>) -> bool {
    forall|i: int| 0 <= i < s.len() ==> ascii_digit(s[i])
}

/// The numeric value of a string of ASCII decimal digits, most significant
/// digit first.
pub open spec fn dec_value(s: Seq<char>) -> int
    decreases s.len(),
{
    if s.len() == 0 {
        0
    } else {
        dec_value(s.drop_last()) * 10 + digit_val(s.last())
    }
}

pub proof fn lemma_dec_value_nonneg(s: Seq<char>)
    requires
        all_ascii_digits(s),
    ensures
        dec_value(s) >= 0,
    decreases s.len(),
{
    if s.len() > 0 {
        assert(all_ascii_digits(s.drop_last()));
        lemma_dec_value_nonneg(s.drop_last());
    }
}

pub proof fn lemma_dec_value_step(s: Seq<char>, j: int)
    requires
        0 <= j < s.len(),
    ensures
        dec_value(s.take(j + 1)) == dec_value(s.take(j)) * 10 + digit_val(s[j]),
{
    assert(s.take(j + 1).drop_last() =~= s.take(j));
    assert(s.take(j + 1).last() == s[j]);
}

/// Once a digit prefix exceeds a bound, every extension of it does too.
pub proof fn lemma_dec_value_grows(s: Seq<char>, j: int, bound: int)
    requires
        all_ascii_digits(s),
        0 <= j <= s.len(),
        dec_value(s.take(j)) > bound,
        bound >= 0,
    ensures
        dec_value(s) > bound,
    decreases s.len() - j,
{
    if j == s.len() {
        assert(s.take(j) =~= s);
    } else {
        lemma_dec_value_step(s, j);
        assert(all_ascii_digits(s.take(j)));
        lemma_dec_value_nonneg(s.take(j));
        lemma_dec_value_grows(s, j + 1, bound);
    }
}

pub open spec fn digit_char(d: int) -> char {
    if d == 0 {
        '0'
    } else if d == 1 {
        '1'
    } else if d == 2 {
        '2'
    } else if d == 3 {
        '3'
    } else if d == 4 {
        '4'
    } else if d == 5 {
        '5'
    } else if d == 6 {
        '6'
    } else if d == 7 {
        '7'
    } else if d == 8 {
        '8'
    } else {
        '9'
    }
}

/// The decimal numeral of a nonnegative number, most significant digit
/// first.
pub open spec fn dec_digits(n: int) -> Seq<char>
    decreases n,
{
    if n < 10 {
        seq![digit_char(n)]
    } else {
        dec_digits(n / 10).push(digit_char(n % 10))
    }
}

/// The decimal text of an integer, with a leading `-` when negative.
pub open spec fn int_text(v: int) -> Seq<char> {
    if v < 0 {
        seq!['-'] + dec_digits(-v)
    } else {
        dec_digits(v)
    }
}

fn exec_digit_char(d: u64) -> (r: char)
    requires
        d < 10,
    ensures
        r == digit_char(d as int),
{
    if d == 0 {
        '0'
    } else if d == 1 {
        '1'
    } else if d == 2 {
        '2'
    } else if d == 3 {
        '3'
    } else if d == 4 {
        '4'
    } else if d == 5 {
        '5'
    } else if d == 6 {
        '6'
    } else if d == 7 {
        '7'
    } else if d == 8 {
        '8'
    } else {
        '9'
    }
}

/// Renders an integer as decimal text.
pub fn i64_to_string(v: i64) -> (r: String)
    ensures
        r@ == int_text(v as int),
{
    let neg = v < 0;
    let mut m: u64 = if v < 0 {
        ((-(v + 1)) as u64) + 1
    } else {
        v as u64
    };
    let ghost m0 = m as int;
    let mut digits: Vec<char> = Vec::new();
    while m >= 10
        invariant
            dec_digits(m0) == dec_digits(m as int) + digits@.reverse(),
        decreases m,
    {
        let c = exec_digit_char(m % 10);
        proof {
            assert(digits@.push(c).reverse() =~= seq![c] + digits@.reverse());
            assert(dec_digits(m as int) + digits@.reverse() =~= dec_digits(m as int / 10) + (
            seq![c] + digits@.reverse()));
        }
        digits.push(c);
        m = m / 10;
    }
    let mut out = String::new();
    let ghost sign = if neg {
        seq!['-']
    } else {
        Seq::<char>::empty()
    };
    if neg {
        push_char(&mut out, '-');
    }
    proof {
        assert(out@ =~= sign);
    }
    push_char(&mut out, exec_digit_char(m));
    let ghost lead = seq![digit_char(m as int)];
    proof {
        assert(out@ =~= sign + lead);
        assert(digits@.skip(digits@.len() as int).reverse() =~= Seq::<char>::empty());
        assert(out@ =~= sign + lead + digits@.skip(digits@.len() as int).reverse());
    }
    let mut idx: usize = digits.len();
    while idx > 0
        invariant
            idx <= digits@.len(),
            out@ == sign + lead + digits@.skip(idx as int).reverse(),
        decreases idx,
    {
        idx = idx - 1;
        push_char(&mut out, digits[idx]);
        proof {
            assert(digits@.skip(idx as int).reverse() =~= digits@.skip(idx + 1).reverse().push(
                digits@[idx as int],
            ));
        }
    }
    proof {
        assert(digits@.skip(0).reverse() =~= digits@.reverse());
        assert(out@ =~= sign + (lead + digits@.reverse()));
        assert(lead + digits@.reverse() =~= dec_digits(m as int) + digits@.reverse());
        if v >= 0 {
            assert(out@ =~= int_text(v as int));
        } else {
            assert(out@ =~= int_text(v as int));
        }
    }
    out
}

/// Character-for-character string equality.
pub fn str_eq(a: &str, b: &str) -> (r: bool)
    ensures
        r == (a@ == b@),
{
    let na = a.unicode_len();
    let nb = b.unicode_len();
    if na != nb {
        assert(a@ != b@);
        return false;
    }
    let mut i: usize = 0;
    while i < na
        invariant
            na == a@.len() == b@.len(),
            0 <= i <= na,
            forall|m: int| 0 <= m < i ==> a@[m] == b@[m],
        decreases na - i,
    {
        if a.get_char(i) != b.get_char(i) {
            return false;
        }
        i = i + 1;
    }
    proof {
        assert(a@ =~= b@);
    }
    true
}

/// Relies on String::push: appends exactly the given character.
#[verifier::external_body]
pub fn push_char(s: &mut String, c: char)
    ensures
        final(s)@ == old(s)@.push(c),
{
    s.push(c)
}

} // verus!
