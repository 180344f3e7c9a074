//! The report formatter: the summary line, the heading, and one line per
//! retained file, each built as a `String` for the caller to print.

use vstd::prelude::*;

use crate::engine::AggregateCounters;
use crate::entry::{EntryView, FileEntry};

verus! {

/// The decimal digit character for a value below ten.
pub open spec fn digit_char(d: int) -> char {
    if d == 0 {
        '0'
    } else if d == 1 {
        '1'
    } else if d == 2 {
        '2'
    } else if d == 3 {
        '3'
    } else if d == 4 {
        '4'
    } else if d == 5 {
        '5'
    } else if d == 6 {
        '6'
    } else if d == 7 {
        '7'
    } else if d == 8 {
        '8'
    } else {
        '9'
    }
}

/// The decimal rendering of a non-negative number, most significant digit
/// first, with no leading zeros except for the number zero itself.
pub open spec fn dec_str(n: int) -> Seq<char>
    decreases n,
{
    if n < 10 {
        seq![digit_char(n)]
    } else {
        dec_str(n / 10) + seq![digit_char(n % 10)]
    }
}

/// The digit character of a value below ten, as a one-character text.
fn digit_str(d: u64) -> (r: &'static str)
    requires
        d < 10,
    ensures
        r@ == seq![digit_char(d as int)],
{
    proof {
        reveal_strlit("0");
        reveal_strlit("1");
        reveal_strlit("2");
        reveal_strlit("3");
        reveal_strlit("4");
        reveal_strlit("5");
        reveal_strlit("6");
        reveal_strlit("7");
        reveal_strlit("8");
        reveal_strlit("9");
    }
    if d == 0 {
        "0"
    } else if d == 1 {
        "1"
    } else if d == 2 {
        "2"
    } else if d == 3 {
        "3"
    } else if d == 4 {
        "4"
    } else if d == 5 {
        "5"
    } else if d == 6 {
        "6"
    } else if d == 7 {
        "7"
    } else if d == 8 {
        "8"
    } else {
        "9"
    }
}

/// Render a number in decimal.
pub fn dec_string(n: u64) -> (r: String)
    ensures
        r@ == dec_str(n as int),
    decreases n,
{
    if n < 10 {
        digit_str(n).to_owned()
    } else {
        proof {
            assert(n / 10 < n) by (nonlinear_arith)
                requires
                    n >= 10,
            ;
        }
        let mut s = dec_string(n / 10);
        s.append(digit_str(n % 10));
        s
    }
}

/// The human-readable magnitude that the size formatter gives a byte count.
pub uninterp spec fn fit4_of(size: u64) -> Seq<char>;

/// Relies on `file_size::fit_4`: the result depends on the byte count alone;
/// it fits in four characters; and a count of at most 9999 is rendered as its
/// plain decimal digits.
#[verifier::external_body]
fn fit4(size: u64) -> (r: String)
    ensures
        r@ == fit4_of(size),
        r@.len() <= 4,
        size <= 9999 ==> r@ == dec_str(size as int),
{
    file_size::fit_4(size)
}

/// A run of spaces.
pub open spec fn spaces(n: int) -> Seq<char>
    decreases n,
{
    if n <= 0 {
        Seq::empty()
    } else {
        spaces(n - 1) + seq![' ']
    }
}

/// Text padded with spaces on the right to at least four characters.
pub open spec fn pad4(s: Seq<char>) -> Seq<char> {
    if s.len() >= 4 {
        s
    } else {
        s + spaces(4 - s.len())
    }
}

/// Pad a rendered size on the right to the report's four-character column.
fn pad_to_4(s: String) -> (r: String)
    ensures
        r@ == pad4(s@),
{
    let ghost orig = s@;
    let mut t = s;
    proof {
        reveal_strlit(" ");
        assert(orig + spaces(0) =~= orig);
    }
    while t.unicode_len() < 4
        invariant
            t@ == orig + spaces(t@.len() - orig.len()),
            t@.len() >= orig.len(),
            orig.len() < 4 ==> t@.len() <= 4,
            orig.len() >= 4 ==> t@ == orig,
        decreases 4 - t@.len(),
    {
        proof {
            reveal_strlit(" ");
        }
        t.append(" ");
        proof {
            assert(t@ =~= orig + spaces(t@.len() - orig.len()));
        }
    }
    proof {
        if orig.len() >= 4 {
            assert(t@ =~= orig);
        }
        assert(t@ == pad4(orig));
    }
    t
}

/// The report's first line: how many files were seen, and their total size
/// as a human-readable magnitude.
pub open spec fn summary_line_spec(c: AggregateCounters) -> Seq<char> {
    "Number of files "@ + dec_str(c.total_file_count as int) + ", total Size: "@
        + fit4_of(c.total_size_bytes)
}

/// The report's heading over the retained files.
pub open spec fn heading_line_spec(retained: int) -> Seq<char> {
    "Top "@ + dec_str(retained) + ", Biggest files:"@
}

/// One line of the report's body: the file's size, padded to the four
/// character column, then its path.
pub open spec fn entry_line_spec(e: EntryView) -> Seq<char> {
    pad4(fit4_of(e.size)) + " - "@ + e.path
}

/// Render the summary line.
pub fn summary_line(c: &AggregateCounters) -> (r: String)
    ensures
        r@ == summary_line_spec(*c),
{
    let mut s = "Number of files ".to_owned();
    let num = dec_string(c.total_file_count);
    s.append(num.as_str());
    s.append(", total Size: ");
    let size = fit4(c.total_size_bytes);
    s.append(size.as_str());
    s
}

/// Render the heading line for the retained files.
pub fn heading_line(retained: u64) -> (r: String)
    ensures
        r@ == heading_line_spec(retained as int),
{
    let mut s = "Top ".to_owned();
    let num = dec_string(retained);
    s.append(num.as_str());
    s.append(", Biggest files:");
    s
}

/// Render one line of the report's body.
pub fn entry_line(e: &FileEntry) -> (r: String)
    ensures
        r@ == entry_line_spec(e@),
{
    let size = fit4(e.size);
    let mut s = pad_to_4(size);
    s.append(" - ");
    s.append(e.path.as_str());
    s
}

/// Render the whole report: the summary, the heading, then one line per
/// retained file in the retained order.
pub fn report_lines(c: &AggregateCounters, tops: &Vec<FileEntry>) -> (r: Vec<String>)
    ensures
        r@.len() == 2 + tops@.len(),
        r@[0]@ == summary_line_spec(*c),
        r@[1]@ == heading_line_spec(tops@.len() as int),
        forall|i: int| 0 <= i < tops@.len() ==> #[trigger] r@[2 + i]@ == entry_line_spec(
            tops@[i]@,
        ),
{
    let mut lines: Vec<String> = Vec::new();
    lines.push(summary_line(c));
    lines.push(heading_line(tops.len() as u64));
    let mut i: usize = 0;
    while i < tops.len()
        invariant
            i <= tops@.len(),
            lines@.len() == 2 + i,
            lines@[0]@ == summary_line_spec(*c),
            lines@[1]@ == heading_line_spec(tops@.len() as int),
            forall|t: int| 0 <= t < i ==> #[trigger] lines@[2 + t]@ == entry_line_spec(
                tops@[t]@,
            ),
        decreases tops@.len() - i,
    {
        lines.push(entry_line(&tops[i]));
        i = i + 1;
    }
    lines
}

} // verus!
