use vstd::prelude::*;

verus! {

/// The code lines of one file with comments stripped, as the tokenizer
/// classifies them; the scanning shell feeds lines in as they are found.
#[derive(Debug)]
pub struct CodeLines {
    pub name: String,
    pub lines: Vec<Vec<u8>>,
}

impl CodeLines {
    pub fn new(name: String) -> (r: Self)
        ensures
            r.name@ == name@,
            r.lines@.len() == 0,
    {
        CodeLines { name, lines: Vec::new() }
    }

    /// Lines the tokenizer could not classify count as code.
    pub fn unprocessed_lines(&mut self, lines: Vec<Vec<u8>>)
        ensures
            final(self).lines@.len() == old(self).lines@.len() + lines@.len(),
            final(self).name@ == old(self).name@,
    {
        let n = lines.len();
        let mut i: usize = 0;
        let mut src = lines;
        while i < n
            invariant
                i <= n,
                n == i + src@.len(),
                self.lines@.len() == old(self).lines@.len() + i,
                self.name@ == old(self).name@,
            decreases n - i,
        {
            let line = src.remove(0);
            self.lines.push(line);
            i += 1;
        }
    }

    pub fn code_line(&mut self, line: Vec<u8>)
        ensures
            final(self).lines@ == old(self).lines@.push(line),
            final(self).name@ == old(self).name@,
    {
        self.lines.push(line);
    }

    /// Comment lines are dropped.
    pub fn comment_line(&mut self)
        ensures
            *final(self) == *old(self),
    {
    }

    /// Blank lines are dropped.
    pub fn blank_line(&mut self)
        ensures
            *final(self) == *old(self),
    {
    }

    /// Nothing is left to do once every line has been classified.
    pub fn postprocess(&mut self)
        ensures
            *final(self) == *old(self),
    {
    }
}

} // verus!
