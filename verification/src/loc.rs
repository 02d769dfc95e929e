use vstd::prelude::*;

use crate::git_logger::last_index_of;

verus! {

/// Per-file line counts for one language, as the tokenizer reports them.
#[derive(Debug)]
pub struct LanguageLocData {
    /// canonical language name
    pub language: String,
    /// binary files only have bytes, not lines
    pub binary: bool,
    pub blanks: usize,
    pub code: usize,
    pub comments: usize,
    pub lines: usize,
    /// file size in bytes
    pub bytes: u64,
}

impl LanguageLocData {
    /// The record for a binary file: no lines at all, only bytes.
    pub fn from_binary(language_name: String, bytes: u64) -> (r: Self)
        ensures
            r.language@ == language_name@,
            r.binary,
            r.blanks == 0,
            r.code == 0,
            r.comments == 0,
            r.lines == 0,
            r.bytes == bytes,
    {
        LanguageLocData {
            language: language_name,
            binary: true,
            blanks: 0,
            code: 0,
            comments: 0,
            lines: 0,
            bytes,
        }
    }
}

/// The file extension used to label files of unknown language, or a fixed
/// label when there is none. The extension is what follows the last '.' of
/// the final path component, when that dot is neither first nor last.
/// The extension of a path: what follows the last '.' of the final
/// component, when that dot is neither first in the component nor last in
/// the path; a fixed label otherwise.
pub open spec fn spec_safe_extension(s: Seq<char>) -> Seq<char> {
    let n = s.len() as int;
    let slash = last_index_of(s, '/', 0, n);
    let dot = last_index_of(s, '.', slash + 1, n);
    if dot > slash + 1 && dot + 1 < n {
        s.skip(dot + 1)
    } else {
        "no_extension"@
    }
}

#[verifier::loop_isolation(false)]
pub fn safe_extension(filename: &str) -> (r: String)
    ensures
        r@ == spec_safe_extension(filename@),
        filename@.len() == 0 ==> r@ == "no_extension"@,
{
    let ghost sv = filename@;
    let n = filename.unicode_len();
    // find the last '/' and the last '.' of the final component
    let mut last_slash: usize = 0;
    let mut has_slash = false;
    let mut last_dot: usize = 0;
    let mut has_dot = false;
    let mut i: usize = 0;
    while i < n
        invariant
            i <= n,
            n == sv.len(),
            has_slash ==> last_slash < i && sv[last_slash as int] == '/',
            forall|q: int| 0 <= q < i && (!has_slash || q > last_slash) ==> sv[q] != '/',
            has_dot ==> last_dot < i && sv[last_dot as int] == '.' && (has_slash ==> last_dot
                > last_slash),
            forall|q: int|
                (if has_slash {
                    last_slash + 1
                } else {
                    0
                }) <= q < i && (!has_dot || q > last_dot) ==> sv[q] != '.',
        decreases n - i,
    {
        let c = filename.get_char(i);
        if c == '/' {
            last_slash = i;
            has_slash = true;
            has_dot = false;
        } else if c == '.' {
            last_dot = i;
            has_dot = true;
        }
        i += 1;
    }
    let ghost gslash: int = if has_slash {
        last_slash as int
    } else {
        -1
    };
    let ghost gdot: int = if has_dot {
        last_dot as int
    } else {
        gslash
    };
    proof {
        crate::git_logger::lemma_last_index_at(sv, '/', 0, n as int, gslash);
        crate::git_logger::lemma_last_index_at(sv, '.', gslash + 1, n as int, gdot);
    }
    let comp_start: usize = if has_slash {
        last_slash + 1
    } else {
        0
    };
    if has_dot && last_dot > comp_start && last_dot + 1 < n {
        let ext = filename.substring_char(last_dot + 1, n);
        proof {
            assert(ext@ =~= sv.skip(last_dot as int + 1));
        }
        String::from_str(ext)
    } else {
        String::from_str("no_extension")
    }
}

/// Marker for the line-counting pass; the scanning shell drives it.
#[derive(Debug)]
pub struct LocCalculator {
}

} // verus!
