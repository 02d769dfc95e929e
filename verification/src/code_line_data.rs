use vstd::prelude::*;

use crate::git_logger::{trim, trim_of};

verus! {

/// What String::from_utf8_lossy returns; the characters depend on the bytes
/// alone.
pub uninterp spec fn lossy_of(bytes: Seq<u8>) -> Seq<char>;

/// Relies on String::from_utf8_lossy: UTF-8 decoding with replacement
/// characters for invalid sequences, a function of the bytes alone.
#[verifier::external_body]
fn lossy_string(bytes: &[u8]) -> (r: String)
    ensures
        r@ == lossy_of(bytes@),
        r@.len() <= bytes@.len(),
{
    String::from_utf8_lossy(bytes).into_owned()
}

/// One line's indentation shape: its leading spaces and tabs, and how many
/// characters of trimmed text follow them.
#[derive(Debug, Clone, Copy, PartialEq, Eq, Structural)]
pub struct CodeLineData {
    pub spaces: u32,
    pub tabs: u32,
    pub text: u32,
}

/// The length of the leading run of blanks (spaces and tabs).
pub open spec fn blank_prefix_len(line: Seq<u8>) -> int
    decreases line.len(),
{
    if line.len() == 0 {
        0
    } else if line[0] == 32 || line[0] == 9 {
        1 + blank_prefix_len(line.drop_first())
    } else {
        0
    }
}

/// How often a byte occurs in a sequence.
pub open spec fn count_byte(line: Seq<u8>, b: u8) -> int
    decreases line.len(),
{
    if line.len() == 0 {
        0
    } else {
        count_byte(line.drop_last(), b) + if line.last() == b {
            1int
        } else {
            0int
        }
    }
}

impl CodeLineData {
    /// Split a raw line into its leading blanks and the character count of
    /// the trimmed text after them: spaces and tabs are counted over the
    /// blank prefix, the text is decoded leniently and trimmed.
    #[verifier::loop_isolation(false)]
    pub fn new(line: &[u8]) -> (r: Self)
        requires
            line@.len() <= u32::MAX,
        ensures
            ({
                let bp = blank_prefix_len(line@);
                &&& r.spaces == count_byte(line@.take(bp), 32)
                &&& r.tabs == count_byte(line@.take(bp), 9)
                &&& r.text == trim_of(lossy_of(line@.skip(bp))).len()
            }),
    {
        let mut spaces: u32 = 0;
        let mut tabs: u32 = 0;
        let n = line.len();
        let mut ix: usize = 0;
        proof {
            lemma_blank_prefix_in_range(line@);
            assert(line@.take(0) =~= Seq::<u8>::empty());
        }
        while ix < n
            invariant
                ix <= n,
                n == line@.len(),
                n <= u32::MAX,
                ix <= blank_prefix_len(line@),
                spaces == count_byte(line@.take(ix as int), 32),
                tabs == count_byte(line@.take(ix as int), 9),
            decreases n - ix,
        {
            let c = line[ix];
            proof {
                assert(line@.take(ix + 1).drop_last() =~= line@.take(ix as int));
                assert(line@.take(ix + 1).last() == line@[ix as int]);
                lemma_count_byte_le(line@.take(ix as int), 32);
                lemma_count_byte_le(line@.take(ix as int), 9);
            }
            if c == 32 {
                proof {
                    lemma_blank_prefix_step(line@, ix as int);
                }
                spaces = spaces + 1;
            } else if c == 9 {
                proof {
                    lemma_blank_prefix_step(line@, ix as int);
                }
                tabs = tabs + 1;
            } else {
                proof {
                    lemma_blank_prefix_stop(line@, ix as int);
                }
                let rest = lossy_string(slice_tail(line, ix));
                let trimmed = trim(rest.as_str());
                let len = trimmed.unicode_len();
                return CodeLineData { spaces, tabs, text: len as u32 };
            }
            ix += 1;
        }
        proof {
            assert(blank_prefix_len(line@) == n) by {
                lemma_blank_prefix_in_range(line@);
            }
            assert(line@.skip(n as int).len() == 0);
        }
        let rest = lossy_string(slice_tail(line, n));
        let trimmed = trim(rest.as_str());
        let len = trimmed.unicode_len();
        CodeLineData { spaces, tabs, text: len as u32 }
    }
}

proof fn lemma_blank_prefix_in_range(line: Seq<u8>)
    ensures
        0 <= blank_prefix_len(line) <= line.len(),
    decreases line.len(),
{
    if line.len() > 0 && (line[0] == 32 || line[0] == 9) {
        lemma_blank_prefix_in_range(line.drop_first());
    }
}

proof fn lemma_count_byte_le(line: Seq<u8>, b: u8)
    ensures
        0 <= count_byte(line, b) <= line.len(),
    decreases line.len(),
{
    if line.len() > 0 {
        lemma_count_byte_le(line.drop_last(), b);
    }
}

/// While the scan sees blanks, it stays inside the blank prefix.
proof fn lemma_blank_prefix_step(line: Seq<u8>, ix: int)
    requires
        0 <= ix < line.len(),
        ix <= blank_prefix_len(line),
        line[ix] == 32 || line[ix] == 9,
    ensures
        ix + 1 <= blank_prefix_len(line),
    decreases line.len(),
{
    lemma_blank_prefix_in_range(line);
    lemma_blank_prefix_in_range(line.drop_first());
    if ix == 0 {
        assert(line[0] == 32 || line[0] == 9);
        assert(blank_prefix_len(line) == 1 + blank_prefix_len(line.drop_first()));
    } else {
        assert(blank_prefix_len(line) > 0);
        assert(line[0] == 32 || line[0] == 9);
        assert(blank_prefix_len(line) == 1 + blank_prefix_len(line.drop_first()));
        assert(line.drop_first()[ix - 1] == line[ix]);
        lemma_blank_prefix_step(line.drop_first(), ix - 1);
    }
}

/// The first non-blank byte ends the blank prefix exactly there.
proof fn lemma_blank_prefix_stop(line: Seq<u8>, ix: int)
    requires
        0 <= ix < line.len(),
        ix <= blank_prefix_len(line),
        !(line[ix] == 32 || line[ix] == 9),
    ensures
        blank_prefix_len(line) == ix,
    decreases line.len(),
{
    lemma_blank_prefix_in_range(line);
    lemma_blank_prefix_in_range(line.drop_first());
    if ix == 0 {
    } else {
        assert(blank_prefix_len(line) > 0);
        assert(line[0] == 32 || line[0] == 9);
        assert(blank_prefix_len(line) == 1 + blank_prefix_len(line.drop_first()));
        assert(line.drop_first()[ix - 1] == line[ix]);
        lemma_blank_prefix_stop(line.drop_first(), ix - 1);
    }
}

/// Relies on slice range indexing: the elements from `from` to the end.
#[verifier::external_body]
fn slice_tail<'a>(s: &'a [u8], from: usize) -> (r: &'a [u8])
    requires
        from <= s@.len(),
    ensures
        r@ == s@.skip(from as int),
{
    &s[from..]
}

/// The per-line indentation data of a file's code lines.
#[derive(Debug)]
pub struct CodeLines {
    pub lines: Vec<CodeLineData>,
}

impl CodeLines {
    /// Split decoded file contents on newlines and measure each line: one
    /// entry per line, newline-separated, the final unterminated stretch
    /// included.
    #[verifier::loop_isolation(false)]
    pub fn from_bytes(text: &[u8]) -> (r: CodeLines)
        requires
            text@.len() <= u32::MAX,
        ensures
            r.lines@.len() == count_byte(text@, 10) + 1,
    {
        let mut lines: Vec<CodeLineData> = Vec::new();
        let n = text.len();
        let mut start: usize = 0;
        let mut i: usize = 0;
        proof {
            assert(text@.take(0) =~= Seq::<u8>::empty());
        }
        while i < n
            invariant
                i <= n,
                start <= i,
                n == text@.len(),
                lines@.len() == count_byte(text@.take(i as int), 10),
            decreases n - i,
        {
            proof {
                assert(text@.take(i + 1).drop_last() =~= text@.take(i as int));
                assert(text@.take(i + 1).last() == text@[i as int]);
            }
            if text[i] == 10 {
                lines.push(CodeLineData::new(slice_range(text, start, i)));
                start = i + 1;
            }
            i += 1;
        }
        proof {
            assert(text@.take(n as int) =~= text@);
        }
        lines.push(CodeLineData::new(slice_range(text, start, n)));
        CodeLines { lines }
    }

    /// Measure already-split lines, as handed over by the tokenizer.
    #[verifier::loop_isolation(false)]
    pub fn from_line_list(raw: &Vec<Vec<u8>>) -> (r: CodeLines)
        requires
            forall|i: int| 0 <= i < raw@.len() ==> (#[trigger] raw@[i])@.len() <= u32::MAX,
        ensures
            r.lines@.len() == raw@.len(),
    {
        let mut lines: Vec<CodeLineData> = Vec::new();
        let n = raw.len();
        let mut i: usize = 0;
        while i < n
            invariant
                i <= n,
                n == raw@.len(),
                lines@.len() == i,
            decreases n - i,
        {
            lines.push(CodeLineData::new(raw[i].as_slice()));
            i += 1;
        }
        CodeLines { lines }
    }
}

/// Relies on slice range indexing: the elements from `from` up to `to`.
#[verifier::external_body]
fn slice_range<'a>(s: &'a [u8], from: usize, to: usize) -> (r: &'a [u8])
    requires
        from <= to <= s@.len(),
    ensures
        r@ == s@.subrange(from as int, to as int),
{
    &s[from..to]
}

} // verus!
