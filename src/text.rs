//! Character-level helpers: splitting on a separator and decimal numbers.

use vstd::prelude::*;
use vstd::string::StrSliceExecFns;

verus! {

/// Index of the first `x` in `s` at or after `from`, or `s.len()` when there is none.
pub open spec fn next_index<A>(s: Seq<A>, x: A, from: int) -> int
    decreases s.len() - from,
{
    if from >= s.len() {
        s.len() as int
    } else if s[from] == x {
        from
    } else {
        next_index(s, x, from + 1)
    }
}

/// The fields of `s` between occurrences of `sep`, where the field being read
/// started at `start` and reading has reached `from`.
pub open spec fn fields_from(s: Seq<char>, sep: char, start: int, from: int) -> Seq<Seq<char>>
    decreases s.len() - from,
{
    if from >= s.len() {
        seq![s.subrange(start, s.len() as int)]
    } else if s[from] == sep {
        seq![s.subrange(start, from)] + fields_from(s, sep, from + 1, from + 1)
    } else {
        fields_from(s, sep, start, from + 1)
    }
}

/// `s` cut at every `sep`: one more field than there are separators, empty
/// fields included.
pub open spec fn fields(s: Seq<char>, sep: char) -> Seq<Seq<char>> {
    fields_from(s, sep, 0, 0)
}

pub open spec fn is_digit(c: char) -> bool {
    '0' <= c <= '9'
}

pub open spec fn digit_value(c: char) -> int {
    c as int - '0' as int
}

/// The value of a string of decimal digits, most significant first.
pub open spec fn decimal_value(s: Seq<char>) -> int
    decreases s.len(),
{
    if s.len() == 0 {
        0
    } else {
        decimal_value(s.drop_last()) * 10 + digit_value(s.last())
    }
}

/// A non-empty string of decimal digits whose value is below `usize::MAX`.
pub open spec fn is_line_number(s: Seq<char>) -> bool {
    &&& s.len() > 0
    &&& forall|i: int| 0 <= i < s.len() ==> is_digit(#[trigger] s[i])
    &&& decimal_value(s) < usize::MAX
}

proof fn lemma_decimal_grows(s: Seq<char>, k: int)
    requires
        0 <= k <= s.len(),
        forall|i: int| 0 <= i < s.len() ==> is_digit(#[trigger] s[i]),
    ensures
        decimal_value(s.take(k)) <= decimal_value(s),
    decreases s.len(),
{
    if k < s.len() {
        assert(s.drop_last().take(k) =~= s.take(k));
        assert forall|i: int| 0 <= i < s.drop_last().len() implies is_digit(
            #[trigger] s.drop_last()[i],
        ) by {
            assert(s.drop_last()[i] == s[i]);
        }
        lemma_decimal_grows(s.drop_last(), k);
        assert(is_digit(s[s.len() - 1]));
        assert(decimal_value(s.drop_last()) >= 0) by {
            lemma_decimal_nonneg(s.drop_last());
        }
    } else {
        assert(s.take(k) =~= s);
    }
}

proof fn lemma_decimal_nonneg(s: Seq<char>)
    requires
        forall|i: int| 0 <= i < s.len() ==> is_digit(#[trigger] s[i]),
    ensures
        decimal_value(s) >= 0,
    decreases s.len(),
{
    if s.len() > 0 {
        assert forall|i: int| 0 <= i < s.drop_last().len() implies is_digit(
            #[trigger] s.drop_last()[i],
        ) by {
            assert(s.drop_last()[i] == s[i]);
        }
        lemma_decimal_nonneg(s.drop_last());
        assert(is_digit(s[s.len() - 1]));
    }
}

/// Reads `chars[start..end]` as a line number.
pub fn parse_line_number(chars: &Vec<char>, start: usize, end: usize) -> (r: Option<usize>)
    requires
        start <= end <= chars@.len(),
    ensures
        r is Some <==> is_line_number(chars@.subrange(start as int, end as int)),
        r is Some ==> r->0 == decimal_value(chars@.subrange(start as int, end as int)),
{
    let ghost s = chars@.subrange(start as int, end as int);
    if start == end {
        return None;
    }
    let mut value: usize = 0;
    let mut i: usize = start;
    while i < end
        invariant
            start <= i <= end <= chars@.len(),
            s == chars@.subrange(start as int, end as int),
            forall|j: int| 0 <= j < i - start ==> is_digit(#[trigger] s[j]),
            value == decimal_value(s.take(i - start)),
            value < usize::MAX,
        decreases end - i,
    {
        let c = chars[i];
        if !('0' <= c && c <= '9') {
            assert(!is_digit(s[i - start]));
            return None;
        }
        let d = (c as u32 - '0' as u32) as usize;
        assert(s.take(i - start + 1).drop_last() =~= s.take(i - start));
        if value > (usize::MAX - 1 - d) / 10 {
            proof {
                let m = usize::MAX - 1 - d;
                assert(value * 10 > m) by (nonlinear_arith)
                    requires
                        value > m / 10,
                        m >= 0,
                ;
                assert(decimal_value(s.take(i - start + 1)) >= usize::MAX);
                if forall|j: int| 0 <= j < s.len() ==> is_digit(#[trigger] s[j]) {
                    lemma_decimal_grows(s, i - start + 1);
                }
            }
            return None;
        }
        proof {
            let m = usize::MAX - 1 - d;
            assert(value * 10 <= m) by (nonlinear_arith)
                requires
                    value <= m / 10,
                    m >= 0,
            ;
        }
        value = value * 10 + d;
        i = i + 1;
    }
    assert(s.take(end - start) =~= s);
    Some(value)
}

/// The characters of `s`, one per element.
pub fn chars_of(s: &str) -> (r: Vec<char>)
    ensures
        r@ == s@,
{
    let n = s.unicode_len();
    let mut r: Vec<char> = Vec::new();
    let mut i: usize = 0;
    while i < n
        invariant
            n == s@.len(),
            i <= n,
            r@ == s@.take(i as int),
        decreases n - i,
    {
        r.push(s.get_char(i));
        assert(s@.take(i + 1) =~= s@.take(i as int).push(s@[i as int]));
        i = i + 1;
    }
    assert(s@.take(n as int) =~= s@);
    r
}

} // verus!
