//! The text of the trace output.

use std::path::PathBuf;
use vstd::prelude::*;
use vstd::string::StringExecFns;
use vstd::utf8::encode_utf8;

verus! {

/// `n` blanks, none if `n` is negative.
pub open spec fn blanks(n: int) -> Seq<char> {
    Seq::new(
        if n > 0 {
            n as nat
        } else {
            0
        },
        |i: int| ' ',
    )
}

/// `text`, which takes `size` places, set into a field of `width` places:
/// flush right if `width` is positive, flush left in a field of `-width`
/// places if it is negative, and as it is if it fills the field.
pub open spec fn padded(text: Seq<char>, size: int, width: int) -> Seq<char> {
    if width >= 0 {
        blanks(width - size) + text
    } else {
        text + blanks(-width - size)
    }
}

/// The trace output of one run, which goes to a file in `dir`.
pub struct Trace {
    dir: PathBuf,
}

impl Trace {
    /// The directory of the trace file.
    pub closed spec fn spec_dir(&self) -> PathBuf {
        self.dir
    }

    /// The trace output that goes to a file in `dir`.
    pub fn new(dir: PathBuf) -> (t: Self)
        ensures
            t.spec_dir() == dir,
    {
        Trace { dir }
    }

    /// The directory of the trace file.
    pub fn dir(&self) -> (d: &PathBuf)
        ensures
            *d == self.spec_dir(),
    {
        &self.dir
    }

    /// `string` filled up with blanks to at least `|width|` places, where a
    /// string takes as many places as it has bytes.
    pub fn format_string(&self, string: String, width: i32) -> (output: String)
        requires
            encode_utf8(string@).len() <= i32::MAX,
        ensures
            output@ == padded(string@, encode_utf8(string@).len() as int, width as int),
    {
        let mut output = String::new();
        let size: i32 = string.as_str().len() as i32;
        proof {
            reveal_strlit(" ");
            assert(" "@ =~= seq![' ']);
        }
        if width >= 0 {
            let mut i: i32 = 0;
            while i < width - size
                invariant
                    0 <= size,
                    0 <= width,
                    0 <= i,
                    i <= width - size || i == 0,
                    output@ == blanks(i as int),
                    " "@ == seq![' '],
                decreases width - size - i,
            {
                output.append(" ");
                i += 1;
                assert(output@ =~= blanks(i as int));
            }
            assert(output@ =~= blanks(width - size));
            output.append(string.as_str());
        } else {
            output.append(string.as_str());
            assert(output@ =~= string@);
            let mut i: i32 = width;
            while i < -size
                invariant
                    0 <= size,
                    width < 0,
                    width <= i,
                    i <= -size || i == width,
                    output@ == string@ + blanks(i - width),
                    " "@ == seq![' '],
                decreases -size - i,
            {
                output.append(" ");
                i += 1;
                assert(output@ =~= string@ + blanks(i - width));
            }
            assert(output@ =~= string@ + blanks(-width - size));
        }
        output
    }
}

} // verus!
