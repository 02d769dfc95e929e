use vstd::prelude::*;

use crate::code_line_data::{CodeLineData, CodeLines};

verus! {

/// The whole-number indentation statistics of a file's code lines; the
/// quantile and deviation figures come from the histogram in the scanning
/// shell.
#[derive(Debug, Clone, Copy, PartialEq, Eq, Structural)]
pub struct IndentationData {
    pub lines: u64,
    pub minimum: u64,
    pub maximum: u64,
    pub median: u64,
    pub p75: u64,
    pub p90: u64,
    pub p99: u64,
    /// the sum of indentations over lines with text
    pub sum: u64,
}

/// A line's indentation: its spaces plus four per tab.
pub open spec fn spec_indentation(line: CodeLineData) -> int {
    line.spaces + 4 * line.tabs
}

/// How many lines carry text.
pub open spec fn spec_text_lines(lines: Seq<CodeLineData>) -> int
    decreases lines.len(),
{
    if lines.len() == 0 {
        0
    } else {
        spec_text_lines(lines.drop_last()) + if lines.last().text > 0 {
            1int
        } else {
            0int
        }
    }
}

/// The sum of indentation over the lines that carry text, saturating at the
/// top of the counter.
pub open spec fn spec_indentation_sum(lines: Seq<CodeLineData>) -> u64
    decreases lines.len(),
{
    if lines.len() == 0 {
        0u64
    } else {
        let rest = spec_indentation_sum(lines.drop_last());
        if lines.last().text > 0 {
            if rest + spec_indentation(lines.last()) > u64::MAX {
                u64::MAX
            } else {
                (rest + spec_indentation(lines.last())) as u64
            }
        } else {
            rest
        }
    }
}

/// The count, minimum, maximum and sum of indentation over the lines that
/// carry text; nothing when no line does.
#[verifier::loop_isolation(false)]
pub fn indentation_totals(code_lines: &CodeLines) -> (r: Option<(u64, u64, u64, u64)>)
    ensures
        match r {
            Option::Some(t) => {
                &&& t.0 >= 1
                &&& t.0 == spec_text_lines(code_lines.lines@)
                &&& t.3 == spec_indentation_sum(code_lines.lines@)
                &&& exists|i: int|
                    0 <= i < code_lines.lines@.len() && (#[trigger] code_lines.lines@[i]).text > 0
                &&& forall|i: int|
                    0 <= i < code_lines.lines@.len() && (#[trigger] code_lines.lines@[i]).text > 0
                        ==> t.1 <= spec_indentation(code_lines.lines@[i]) && spec_indentation(
                        code_lines.lines@[i],
                    ) <= t.2
            },
            Option::None => spec_text_lines(code_lines.lines@) == 0 && (forall|i: int|
                0 <= i < code_lines.lines@.len() ==> (#[trigger] code_lines.lines@[i]).text == 0),
        },
{
    let mut count: u64 = 0;
    let mut minimum: u64 = u64::MAX;
    let mut maximum: u64 = 0;
    let mut sum: u64 = 0;
    let n = code_lines.lines.len();
    let mut i: usize = 0;
    proof {
        assert(code_lines.lines@.take(0) =~= Seq::<CodeLineData>::empty());
    }
    while i < n
        invariant
            i <= n,
            n == code_lines.lines@.len(),
            count <= i,
            count == spec_text_lines(code_lines.lines@.take(i as int)),
            sum == spec_indentation_sum(code_lines.lines@.take(i as int)),
            count == 0 ==> forall|j: int|
                0 <= j < i ==> (#[trigger] code_lines.lines@[j]).text == 0,
            count > 0 ==> exists|j: int|
                0 <= j < i && (#[trigger] code_lines.lines@[j]).text > 0,
            forall|j: int|
                0 <= j < i && (#[trigger] code_lines.lines@[j]).text > 0 ==> minimum
                    <= spec_indentation(code_lines.lines@[j]) && spec_indentation(
                    code_lines.lines@[j],
                ) <= maximum,
        decreases n - i,
    {
        proof {
            assert(code_lines.lines@.take(i + 1).drop_last() =~= code_lines.lines@.take(
                i as int,
            ));
            assert(code_lines.lines@.take(i + 1).last() == code_lines.lines@[i as int]);
        }
        let line = &code_lines.lines[i];
        if line.text > 0 {
            let indentation: u64 = line.spaces as u64 + 4 * (line.tabs as u64);
            if indentation < minimum {
                minimum = indentation;
            }
            if indentation > maximum {
                maximum = indentation;
            }
            sum = sum.saturating_add(indentation);
            count = count + 1;
        }
        i += 1;
    }
    proof {
        assert(code_lines.lines@.take(n as int) =~= code_lines.lines@);
    }
    if count == 0 {
        Option::None
    } else {
        Option::Some((count, minimum, maximum, sum))
    }
}

/// Marker for the indentation pass; the scanning shell drives it.
#[derive(Debug)]
pub struct IndentationCalculator {
}

} // verus!
