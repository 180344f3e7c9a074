//! The configuration resolver: the optional count argument becomes a
//! validated number of files to report.

use vstd::prelude::*;

verus! {

/// How many files the report shows when no count argument is given.
pub const DEFAULT_TOP_N: usize = 5;

/// Validated configuration: how many files to report.
#[derive(Clone, Copy, Debug, PartialEq, Eq, Structural)]
pub struct Options {
    pub top_n: usize,
}

/// Errors of the configuration resolver.
#[derive(Debug, PartialEq, Eq)]
pub enum AppError {
    /// The count argument was not a non-negative integer; carries the
    /// offending text.
    InvalidCount(String),
}

/// The printable description of an error.
pub open spec fn message_spec(e: AppError) -> Seq<char> {
    match e {
        AppError::InvalidCount(text) => "invalid count: "@ + text@,
    }
}

impl AppError {
    /// A printable one-line description.
    pub fn message(&self) -> (r: String)
        ensures
            r@ == message_spec(*self),
    {
        match self {
            AppError::InvalidCount(text) => {
                let mut s = "invalid count: ".to_owned();
                s.append(text.as_str());
                s
            },
        }
    }
}

/// A decimal digit.
pub open spec fn is_digit(c: char) -> bool {
    '0' <= c <= '9'
}

/// Every character is a decimal digit.
pub open spec fn all_digits(s: Seq<char>) -> bool {
    forall|i: int| 0 <= i < s.len() ==> is_digit(s[i])
}

/// The digit characters of the count text: an optional leading '+' sign is
/// not one of them.
pub open spec fn count_digits(s: Seq<char>) -> Seq<char> {
    if s.len() > 0 && s[0] == '+' {
        s.drop_first()
    } else {
        s
    }
}

/// The number that a sequence of decimal digits denotes.
pub open spec fn digits_value(s: Seq<char>) -> int
    decreases s.len(),
{
    if s.len() == 0 {
        0
    } else {
        digits_value(s.drop_last()) * 10 + (s.last() as int - '0' as int)
    }
}

/// The count text denotes a non-negative integer within the machine's range:
/// an optional leading '+', then at least one digit, denoting a value that
/// fits in `usize`.
pub open spec fn is_valid_count(s: Seq<char>) -> bool {
    &&& count_digits(s).len() > 0
    &&& all_digits(count_digits(s))
    &&& digits_value(count_digits(s)) <= usize::MAX
}

/// The number the count text denotes.
pub open spec fn count_value(s: Seq<char>) -> int {
    digits_value(count_digits(s))
}

/// A digit string denotes a non-negative number.
proof fn lemma_digits_value_nonneg(s: Seq<char>)
    requires
        all_digits(s),
    ensures
        0 <= digits_value(s),
    decreases s.len(),
{
    if s.len() > 0 {
        assert(all_digits(s.drop_last()));
        lemma_digits_value_nonneg(s.drop_last());
    }
}

/// A prefix of a digit string never denotes more than the whole string.
proof fn lemma_digits_value_extend(s: Seq<char>, j: int)
    requires
        0 <= j <= s.len(),
        all_digits(s),
    ensures
        digits_value(s.take(j)) <= digits_value(s),
    decreases s.len() - j,
{
    if j == s.len() {
        assert(s.take(j) =~= s);
    } else {
        assert(s.take(j + 1).drop_last() =~= s.take(j));
        assert(s.take(j + 1).last() == s[j]);
        assert(all_digits(s.take(j)));
        lemma_digits_value_nonneg(s.take(j));
        assert(digits_value(s.take(j + 1))
            == digits_value(s.take(j)) * 10 + (s[j] as int - '0' as int));
        lemma_digits_value_extend(s, j + 1);
    }
}

/// Parse the count text as a non-negative integer: an optional leading '+',
/// then decimal digits; values beyond the machine's range are rejected.
pub fn parse_count(s: &str) -> (r: Option<usize>)
    ensures
        is_valid_count(s@) ==> (r matches Some(v) && v == count_value(s@)),
        !is_valid_count(s@) ==> r is None,
{
    let n = s.unicode_len();
    let plus = n > 0 && s.get_char(0) == '+';
    let start: usize = if plus {
        1
    } else {
        0
    };
    let ghost d = count_digits(s@);
    proof {
        assert(d =~= s@.skip(start as int));
    }
    if start == n {
        return None;
    }
    let mut value: usize = 0;
    let mut i: usize = start;
    proof {
        assert(d.take(0) =~= Seq::<char>::empty());
    }
    while i < n
        invariant
            start <= i <= n,
            n == s@.len(),
            start <= 1,
            start < n,
            d == count_digits(s@),
            d =~= s@.skip(start as int),
            all_digits(d.take(i - start)),
            value == digits_value(d.take(i - start)),
        decreases n - i,
    {
        let c = s.get_char(i);
        let cu = c as u32;
        proof {
            assert(d[i - start] == s@[i as int]);
        }
        if cu < '0' as u32 || cu > '9' as u32 {
            proof {
                assert(!is_digit(d[i - start]));
            }
            return None;
        }
        let dv = (cu - '0' as u32) as usize;
        proof {
            assert(d.take(i - start + 1).drop_last() =~= d.take(i - start));
            assert(d.take(i - start + 1).last() == d[i - start]);
            assert(dv == d[i - start] as int - '0' as int);
        }
        let next = match value.checked_mul(10) {
            Some(v10) => v10.checked_add(dv),
            None => None,
        };
        match next {
            Some(v) => {
                value = v;
            },
            None => {
                // the denoted value has already outgrown the machine's range,
                // and more digits can only make it larger
                proof {
                    assert(digits_value(d.take(i - start + 1)) > usize::MAX);
                    if is_valid_count(s@) {
                        lemma_digits_value_extend(d, i - start + 1);
                    }
                }
                return None;
            },
        }
        i = i + 1;
    }
    proof {
        assert(d.take(n - start) =~= d);
    }
    Some(value)
}

impl Options {
    /// Resolve the configuration from the optional count argument: absence
    /// means the default, a valid non-negative integer means itself, and
    /// anything else is rejected with the offending text.
    pub fn from_arg(arg: Option<&str>) -> (r: Result<Options, AppError>)
        ensures
            (match arg {
                None => (r matches Ok(o) && o.top_n == DEFAULT_TOP_N),
                Some(s) => (if is_valid_count(s@) {
                    r matches Ok(o) && o.top_n == count_value(s@)
                } else {
                    r matches Err(e) && (e matches AppError::InvalidCount(t) && t@ == s@)
                }),
            }),
    {
        match arg {
            None => Ok(Options { top_n: DEFAULT_TOP_N }),
            Some(s) => match parse_count(s) {
                Some(v) => Ok(Options { top_n: v }),
                None => Err(AppError::InvalidCount(s.to_owned())),
            },
        }
    }
}

} // verus!
