//! Recovering a cycle amount from a free-text diagnostic message.
//!
//! A ledger-backed host that rejects an underfunded install call reports the
//! required fee inside a human-readable error message. The functions here
//! locate the first run of decimal digits immediately followed by the word
//! `cycle` (or `cycles`) and return that run's value as a `u128`.

use vstd::prelude::*;

verus! {

/// Why no cycle amount could be recovered from a message.
#[derive(Clone, Copy, Debug, PartialEq, Eq, Structural)]
pub enum ExtractError {
    /// No digit run immediately followed by ` cycle` occurs in the message.
    PatternNotFound,
    /// The first matching digit run does not fit in a `u128`.
    NumberTooLarge,
}

/// An ASCII decimal digit.
pub open spec fn is_digit(c: char) -> bool {
    '0' as u32 <= c as u32 <= '9' as u32
}

/// The numeric value of an ASCII decimal digit.
pub open spec fn digit_val(c: char) -> int {
    c as u32 - '0' as u32
}

/// The value of a digit string read left to right in base ten.
pub open spec fn digits_value(s: Seq<char>) -> int
    decreases s.len(),
{
    if s.len() == 0 {
        0
    } else {
        digits_value(s.drop_last()) * 10 + digit_val(s.last())
    }
}

/// The first position at or after `i` that is not part of the digit run
/// starting at `i` (equal to `i` itself when `s[i]` is not a digit).
pub open spec fn run_end(s: Seq<char>, i: int) -> int
    decreases s.len() - i when 0 <= i <= s.len()
{
    if i < s.len() && is_digit(s[i]) {
        run_end(s, i + 1)
    } else {
        i
    }
}

/// The literal ` cycle` (one space, then the five letters) starts at `j`.
pub open spec fn cycle_follows(s: Seq<char>, j: int) -> bool {
    &&& 0 <= j
    &&& j + 6 <= s.len()
    &&& s[j] == ' '
    &&& s[j + 1] == 'c'
    &&& s[j + 2] == 'y'
    &&& s[j + 3] == 'c'
    &&& s[j + 4] == 'l'
    &&& s[j + 5] == 'e'
}

/// A digit run occupies `[i, j)` and the word `cycle` follows it: this is
/// exactly an occurrence of the pattern `<digits> cycle`.
pub open spec fn match_at(s: Seq<char>, i: int, j: int) -> bool {
    &&& 0 <= i < j <= s.len()
    &&& forall|k: int| i <= k < j ==> #[trigger] is_digit(s[k])
    &&& cycle_follows(s, j)
}

/// The maximal digit run starting at `i` is immediately followed by ` cycle`.
pub open spec fn match_start(s: Seq<char>, i: int) -> bool {
    &&& 0 <= i < s.len()
    &&& is_digit(s[i])
    &&& cycle_follows(s, run_end(s, i))
}

/// The first position at or after `i` where a match starts, scanning left to
/// right, or `None` when there is none.
pub open spec fn find_match_from(s: Seq<char>, i: int) -> Option<int>
    decreases s.len() - i when 0 <= i <= s.len()
{
    if i >= s.len() {
        None
    } else if match_start(s, i) {
        Some(i)
    } else {
        find_match_from(s, i + 1)
    }
}

/// The start of the leftmost occurrence of the pattern, if any.
pub open spec fn first_match(s: Seq<char>) -> Option<int> {
    find_match_from(s, 0)
}

/// What extraction returns on a message: the value of the leftmost digit run
/// followed by ` cycle`, or the error that says why there is none.
pub open spec fn spec_extract(s: Seq<char>) -> Result<u128, ExtractError> {
    match first_match(s) {
        Some(i) => {
            let v = digits_value(s.subrange(i, run_end(s, i)));
            if v <= u128::MAX as int {
                Ok(v as u128)
            } else {
                Err(ExtractError::NumberTooLarge)
            }
        },
        None => Err(ExtractError::PatternNotFound),
    }
}

/// `run_end` bounds the digit run it delimits: everything in `[i, run_end)`
/// is a digit, and the run stops at the end of the string or at a non-digit.
proof fn lemma_run_end(s: Seq<char>, i: int)
    requires
        0 <= i <= s.len(),
    ensures
        i <= run_end(s, i) <= s.len(),
        forall|k: int| i <= k < run_end(s, i) ==> #[trigger] is_digit(s[k]),
        run_end(s, i) == s.len() || !is_digit(s[run_end(s, i)]),
    decreases s.len() - i,
{
    if i < s.len() && is_digit(s[i]) {
        lemma_run_end(s, i + 1);
    }
}

/// A stretch of digits over `[i, j)` that stops at `j` is exactly the run
/// that `run_end` delimits.
proof fn lemma_run_end_agrees(s: Seq<char>, i: int, j: int)
    requires
        0 <= i <= j <= s.len(),
        forall|k: int| i <= k < j ==> #[trigger] is_digit(s[k]),
        j == s.len() || !is_digit(s[j]),
    ensures
        run_end(s, i) == j,
    decreases j - i,
{
    if i < j {
        lemma_run_end_agrees(s, i + 1, j);
    }
}

/// A string of digits has a non-negative value.
proof fn lemma_digits_value_nonneg(s: Seq<char>)
    requires
        forall|k: int| 0 <= k < s.len() ==> #[trigger] is_digit(s[k]),
    ensures
        digits_value(s) >= 0,
    decreases s.len(),
{
    if s.len() > 0 {
        lemma_digits_value_nonneg(s.drop_last());
        assert(is_digit(s[s.len() - 1]));
        assert(s.last() == s[s.len() - 1]);
        assert(digit_val(s.last()) >= 0);
        assert(digits_value(s) == digits_value(s.drop_last()) * 10 + digit_val(s.last()));
    }
}

/// Reading further digits never shrinks the value: the value of `s[i..m]` is
/// at most the value of `s[i..j]` when `m <= j` and `[i, j)` is all digits.
proof fn lemma_digits_value_extend(s: Seq<char>, i: int, m: int, j: int)
    requires
        0 <= i <= m <= j <= s.len(),
        forall|k: int| i <= k < j ==> #[trigger] is_digit(s[k]),
    ensures
        digits_value(s.subrange(i, m)) <= digits_value(s.subrange(i, j)),
    decreases j - m,
{
    if m < j {
        let shorter = s.subrange(i, j - 1);
        let longer = s.subrange(i, j);
        assert(longer.drop_last() =~= shorter);
        assert(forall|k: int| 0 <= k < shorter.len() ==> #[trigger] is_digit(shorter[k]));
        lemma_digits_value_nonneg(shorter);
        lemma_digits_value_extend(s, i, m, j - 1);
        assert(longer.last() == s[j - 1]);
        assert(is_digit(s[j - 1]));
        assert(digits_value(longer) == digits_value(shorter) * 10 + digit_val(longer.last()));
        assert(digits_value(shorter) * 10 >= digits_value(shorter));
    }
}

/// `find_match_from(s, i)` returns the first match at or after `i`: a
/// position where a match starts, preceded by none, or `None` when no match
/// starts anywhere at or after `i`.
proof fn lemma_find_match_from(s: Seq<char>, i: int)
    requires
        0 <= i <= s.len(),
    ensures
        match find_match_from(s, i) {
            Some(m) => {
                &&& i <= m < s.len()
                &&& match_start(s, m)
                &&& forall|k: int| i <= k < m ==> !#[trigger] match_start(s, k)
            },
            None => forall|k: int| i <= k < s.len() ==> !#[trigger] match_start(s, k),
        },
    decreases s.len() - i,
{
    if i < s.len() && !match_start(s, i) {
        lemma_find_match_from(s, i + 1);
    }
}

/// A position where a match starts carries a full match over its digit run,
/// and a full match makes its start position one where a match starts.
proof fn lemma_match_start_iff_match_at(s: Seq<char>, i: int)
    requires
        0 <= i <= s.len(),
    ensures
        match_start(s, i) ==> match_at(s, i, run_end(s, i)),
        forall|j: int| #[trigger] match_at(s, i, j) ==> match_start(s, i) && run_end(s, i) == j,
{
    lemma_run_end(s, i);
    assert forall|j: int| #[trigger] match_at(s, i, j) implies match_start(s, i) && run_end(s, i)
        == j by {
        assert(!is_digit(' '));
        lemma_run_end_agrees(s, i, j);
    }
    if match_start(s, i) {
        assert(run_end(s, i) > i) by {
            assert(!is_digit(s[run_end(s, i)]) ==> run_end(s, i) != i);
            assert(run_end(s, i) < s.len());
        }
    }
}

/// The characters of a string, in order, as a vector.
fn chars_of(s: &str) -> (r: Vec<char>)
    ensures
        r@ == s@,
{
    let n = s.unicode_len();
    let mut r: Vec<char> = Vec::new();
    let mut i: usize = 0;
    while i < n
        invariant
            i <= n,
            n == s@.len(),
            r@ == s@.subrange(0, i as int),
        decreases n - i,
    {
        r.push(s.get_char(i));
        proof {
            assert(r@ =~= s@.subrange(0, i + 1 as int));
        }
        i = i + 1;
    }
    proof {
        assert(r@ =~= s@);
    }
    r
}

/// Whether `c` is an ASCII decimal digit.
fn digit(c: char) -> (r: bool)
    ensures
        r == is_digit(c),
{
    let u = c as u32;
    48 <= u && u <= 57
}

/// Scan for the leftmost digit run immediately followed by ` cycle`.
/// Returns the run's bounds `(start, end)`, or `None` when no such run
/// exists anywhere in `s`.
fn scan_first_match(s: &Vec<char>) -> (r: Option<(usize, usize)>)
    ensures
        match r {
            Some(p) => {
                &&& first_match(s@) == Some(p.0 as int)
                &&& p.1 as int == run_end(s@, p.0 as int)
                &&& match_at(s@, p.0 as int, p.1 as int)
            },
            None => first_match(s@) is None,
        },
{
    let n = s.len();
    let mut i: usize = 0;
    while i < n
        invariant
            i <= n,
            n == s@.len(),
            find_match_from(s@, 0) == find_match_from(s@, i as int),
        decreases n - i,
    {
        if digit(s[i]) {
            // Walk to the end of the digit run that starts at i.
            let mut j: usize = i + 1;
            proof {
                assert(run_end(s@, i as int) == run_end(s@, i + 1 as int));
            }
            while j < n && digit(s[j])
                invariant
                    i < j <= n,
                    n == s@.len(),
                    run_end(s@, i as int) == run_end(s@, j as int),
                decreases n - j,
            {
                proof {
                    assert(run_end(s@, j as int) == run_end(s@, j + 1 as int));
                }
                j = j + 1;
            }
            proof {
                assert(run_end(s@, j as int) == j as int);
                assert(run_end(s@, i as int) == j as int);
            }
            if n - j >= 6 && s[j] == ' ' && s[j + 1] == 'c' && s[j + 2] == 'y' && s[j + 3] == 'c'
                && s[j + 4] == 'l' && s[j + 5] == 'e' {
                proof {
                    assert(cycle_follows(s@, j as int));
                    assert(match_start(s@, i as int));
                    lemma_match_start_iff_match_at(s@, i as int);
                    assert(find_match_from(s@, i as int) == Some(i as int));
                }
                return Some((i, j));
            }
            proof {
                assert(!cycle_follows(s@, j as int));
                assert(!match_start(s@, i as int));
                assert(find_match_from(s@, i as int) == find_match_from(s@, i + 1 as int));
            }
            i = i + 1;
        } else {
            proof {
                assert(!match_start(s@, i as int));
                assert(find_match_from(s@, i as int) == find_match_from(s@, i + 1 as int));
            }
            i = i + 1;
        }
    }
    proof {
        assert(find_match_from(s@, i as int) is None);
    }
    None
}

/// Read the digits in `s[lo..hi]` left to right as a base-ten number.
/// Returns `None` when the value does not fit in a `u128`.
fn parse_digits(s: &Vec<char>, lo: usize, hi: usize) -> (r: Option<u128>)
    requires
        lo < hi <= s@.len(),
        forall|k: int| lo <= k < hi ==> #[trigger] is_digit(s@[k]),
    ensures
        ({
            let v = digits_value(s@.subrange(lo as int, hi as int));
            &&& v <= u128::MAX as int ==> r == Some(v as u128)
            &&& v > u128::MAX as int ==> r is None
        }),
{
    let mut acc: u128 = 0;
    let mut k: usize = lo;
    proof {
        assert(s@.subrange(lo as int, lo as int) =~= Seq::<char>::empty());
    }
    while k < hi
        invariant
            lo <= k <= hi <= s@.len(),
            forall|t: int| lo <= t < hi ==> #[trigger] is_digit(s@[t]),
            acc as int == digits_value(s@.subrange(lo as int, k as int)),
        decreases hi - k,
    {
        let c = s[k];
        proof {
            assert(is_digit(s@[k as int]));
        }
        let d: u128 = (c as u32 - 48) as u128;
        proof {
            assert(d as int == digit_val(s@[k as int]));
            assert(s@.subrange(lo as int, k + 1 as int).drop_last() =~= s@.subrange(
                lo as int,
                k as int,
            ));
            assert(s@.subrange(lo as int, k + 1 as int).last() == s@[k as int]);
        }
        let shifted = acc.checked_mul(10);
        let next = match shifted {
            Some(t) => t.checked_add(d),
            None => None,
        };
        match next {
            Some(v) => {
                acc = v;
            },
            None => {
                proof {
                    // The prefix up to k + 1 already exceeds u128::MAX, so the
                    // whole run does as well.
                    assert(digits_value(s@.subrange(lo as int, k + 1 as int)) > u128::MAX as int);
                    lemma_digits_value_extend(s@, lo as int, k + 1 as int, hi as int);
                }
                return None;
            },
        }
        k = k + 1;
    }
    Some(acc)
}

/// For every message that contains an occurrence of `<digits> cycle`, the
/// extractor returns exactly the value of the first (leftmost) such digit
/// run, regardless of the surrounding text — or reports that the run is too
/// large for a `u128`. Here `i` and `j` delimit the leftmost occurrence.
pub proof fn lemma_extract_finds_first_match(s: Seq<char>, i: int, j: int)
    requires
        match_at(s, i, j),
        forall|i2: int, j2: int| #[trigger] match_at(s, i2, j2) ==> i <= i2,
    ensures
        digits_value(s.subrange(i, j)) <= u128::MAX as int ==> spec_extract(s) == Ok::<
            u128,
            ExtractError,
        >(digits_value(s.subrange(i, j)) as u128),
        digits_value(s.subrange(i, j)) > u128::MAX as int ==> spec_extract(s) == Err::<
            u128,
            ExtractError,
        >(ExtractError::NumberTooLarge),
{
    lemma_match_start_iff_match_at(s, i);
    assert(match_start(s, i) && run_end(s, i) == j);
    lemma_find_match_from(s, 0);
    match first_match(s) {
        Some(m) => {
            lemma_match_start_iff_match_at(s, m);
            assert(match_at(s, m, run_end(s, m)));
            assert(i <= m);
            assert(!(m < i)) by {
                assert(forall|k: int| 0 <= k < m ==> !#[trigger] match_start(s, k));
            }
            assert(m == i) by {
                if m < i {
                } else if i < m {
                    assert(!match_start(s, i));
                }
            }
        },
        None => {
            assert(!match_start(s, i));
        },
    }
}

/// A message with no occurrence of `<digits> cycle` anywhere makes the
/// extractor fail with `PatternNotFound`.
pub proof fn lemma_extract_no_match(s: Seq<char>)
    requires
        forall|i: int, j: int| !#[trigger] match_at(s, i, j),
    ensures
        spec_extract(s) == Err::<u128, ExtractError>(ExtractError::PatternNotFound),
{
    lemma_find_match_from(s, 0);
    match first_match(s) {
        Some(m) => {
            lemma_match_start_iff_match_at(s, m);
            assert(match_at(s, m, run_end(s, m)));
        },
        None => {},
    }
}

/// Extraction is a pure function of the message: equal inputs give equal
/// results, so repeated calls are bit-identical.
pub proof fn lemma_extract_deterministic(s1: Seq<char>, s2: Seq<char>)
    requires
        s1 == s2,
    ensures
        spec_extract(s1) == spec_extract(s2),
{
}

/// Recover the cycle amount from a diagnostic message: the value of the
/// first (leftmost) run of decimal digits immediately followed by a space
/// and the word `cycle`, as in `requires 50000000 cycles to proceed`.
///
/// Fails with [`ExtractError::PatternNotFound`] when no such run occurs, and
/// with [`ExtractError::NumberTooLarge`] when the first such run exceeds
/// `u128::MAX`. Only the first occurrence counts, even when later ones
/// name other amounts.
pub fn extract_required_cycles(msg: &str) -> (r: Result<u128, ExtractError>)
    ensures
        r == spec_extract(msg@),
{
    let chars = chars_of(msg);
    match scan_first_match(&chars) {
        Some((lo, hi)) => {
            match parse_digits(&chars, lo, hi) {
                Some(v) => Ok(v),
                None => Err(ExtractError::NumberTooLarge),
            }
        },
        None => Err(ExtractError::PatternNotFound),
    }
}

} // verus!
