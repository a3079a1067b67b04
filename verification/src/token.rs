//! One lexical unit of a command line: its content, whether that content
//! holds an embedded space (so it must be re-quoted when rendered), and
//! whether it came from malformed quoting.

use vstd::prelude::*;

use crate::strutil::contains_char;
use crate::strutil::is_prefix;
use crate::strutil::str_contains_char;
use crate::strutil::str_eq;
use crate::strutil::str_starts_with;

verus! {

pub struct CommandPart {
    pub slice: String,
    pub is_quoted: bool,
    pub is_error: bool,
}

impl CommandPart {
    /// The flags are consistent with the content: a well-quoted part is
    /// marked quoted exactly when its content holds a space, and an error
    /// part is never marked quoted.
    pub open spec fn wf(self) -> bool {
        self.is_quoted == (!self.is_error && contains_char(self.slice@, ' '))
    }

    /// The canonical text of this part: error parts render with a warning
    /// prefix, parts with an embedded space render single-quoted, and all
    /// others render as their bare content.
    pub open spec fn render(self) -> Seq<char> {
        if self.is_error {
            "Bad_command: "@ + self.slice@
        } else if self.is_quoted {
            seq!['\''] + self.slice@ + seq!['\'']
        } else {
            self.slice@
        }
    }

    /// A well-quoted part with the given content.
    pub fn new(slice: &str) -> (r: Self)
        ensures
            r.slice@ == slice@,
            r.is_error == false,
            r.is_quoted == contains_char(slice@, ' '),
            r.wf(),
    {
        let is_quoted = str_contains_char(slice, ' ');
        Self { slice: String::from_str(slice), is_quoted, is_error: false }
    }

    /// A part that records malformed quoting in the given text.
    pub fn error(slice: &str) -> (r: Self)
        ensures
            r.slice@ == slice@,
            r.is_error == true,
            r.is_quoted == false,
    {
        Self { slice: String::from_str(slice), is_quoted: false, is_error: true }
    }

    pub fn as_str(&self) -> (r: &str)
        ensures
            r@ == self.slice@,
    {
        self.slice.as_str()
    }

    /// True iff the content of `other` is a prefix of this part's content.
    pub fn starts_with(&self, other: &CommandPart) -> (r: bool)
        ensures
            r == is_prefix(other.slice@, self.slice@),
    {
        str_starts_with(self.slice.as_str(), other.slice.as_str())
    }

    /// Render this part back to canonical text.
    pub fn to_string(&self) -> (r: String)
        requires
            self.wf() || self.is_error,
        ensures
            r@ == self.render(),
    {
        if self.is_error {
            let mut out = String::from_str("Bad_command: ");
            out.append(self.slice.as_str());
            out
        } else if self.is_quoted {
            let mut out = String::from_str("'");
            out.append(self.slice.as_str());
            out.append("'");
            proof {
                reveal_strlit("'");
                assert("'"@ =~= seq!['\'']);
            }
            out
        } else {
            let mut out = String::new();
            out.append(self.slice.as_str());
            out
        }
    }
}

impl PartialEq for CommandPart {
    /// Parts compare by content alone: `'a'` and `a` are the same word.
    fn eq(&self, other: &CommandPart) -> (r: bool) {
        str_eq(self.slice.as_str(), other.slice.as_str())
    }
}

impl vstd::std_specs::cmp::PartialEqSpecImpl for CommandPart {
    open spec fn obeys_eq_spec() -> bool {
        true
    }

    open spec fn eq_spec(&self, other: &CommandPart) -> bool {
        self.slice@ == other.slice@
    }
}

} // verus!
