//! Which of the child's two output streams a line came from.

use vstd::prelude::*;

verus! {

/// One of the child's two output streams.
#[derive(Clone, Copy, Debug, PartialEq, Eq, Structural)]
pub enum Origin {
    Stdout,
    Stderr,
}

impl Origin {
    /// The name of the stream, as it is shown in annotations.
    pub open spec fn name(self) -> Seq<char> {
        match self {
            Origin::Stdout => seq!['s', 't', 'd', 'o', 'u', 't'],
            Origin::Stderr => seq!['s', 't', 'd', 'e', 'r', 'r'],
        }
    }

    /// The name of the stream: `stdout` or `stderr`.
    pub fn label(&self) -> (r: &'static str)
        ensures
            r@ == self.name(),
    {
        match self {
            Origin::Stdout => {
                proof {
                    reveal_strlit("stdout");
                }
                let r = "stdout";
                assert(r@ =~= self.name());
                r
            },
            Origin::Stderr => {
                proof {
                    reveal_strlit("stderr");
                }
                let r = "stderr";
                assert(r@ =~= self.name());
                r
            },
        }
    }
}

} // verus!
