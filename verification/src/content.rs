//! Tests applied to the contents of a file.
//!
//! These say *how* to look at a file, not *what* a match means. The rules that
//! give a match meaning, such as which manifests declare a workspace, belong to
//! the module that owns that decision.

use crate::text::{
    any_non_space, chars_of, contains_chars, contains_text, has_non_space, lines,
    some_line_starts_with, starts_with, trim_start,
};
use vstd::prelude::*;

verus! {

/// A question asked of a file's contents.
#[derive(Debug, Clone, Copy)]
pub enum ContentTest {
    /// Holds any one of these substrings.
    ContainsAny(&'static [&'static str]),
    /// Has a line that begins with this prefix, ignoring leading whitespace.
    LineStartsWith(&'static str),
    /// Holds anything other than whitespace.
    NonEmpty,
}

/// One of `needles` occurs in `contents`.
pub open spec fn contains_any(contents: Seq<char>, needles: Seq<&str>) -> bool {
    exists|k: int| 0 <= k < needles.len() && contains_text(contents, #[trigger] needles[k]@)
}

/// What `test` answers for text `contents`.
pub open spec fn answers(test: ContentTest, contents: Seq<char>) -> bool {
    match test {
        ContentTest::ContainsAny(needles) => contains_any(contents, needles@),
        ContentTest::LineStartsWith(prefix) => exists|k: int|
            0 <= k < lines(contents).len() && starts_with(
                trim_start(#[trigger] lines(contents)[k]),
                prefix@,
            ),
        ContentTest::NonEmpty => has_non_space(contents),
    }
}

/// What `test` answers for a file whose read gave `contents`, `None` standing
/// for a file that is not there.
pub open spec fn answers_file(test: ContentTest, contents: Option<Seq<char>>) -> bool {
    match contents {
        Some(text) => answers(test, text),
        None => false,
    }
}

impl ContentTest {
    /// Reports whether `contents` answers this test.
    pub fn matches(self, contents: &str) -> (r: bool)
        ensures
            r == answers(self, contents@),
    {
        let text = chars_of(contents);
        match self {
            ContentTest::ContainsAny(needles) => {
                let mut k: usize = 0;
                while k < needles.len()
                    invariant
                        k <= needles@.len(),
                        self == ContentTest::ContainsAny(needles),
                        text@ == contents@,
                        forall|m: int| 0 <= m < k ==> !contains_text(contents@, #[trigger] needles@[m]@),
                    decreases needles.len() - k,
                {
                    let item: &str = needles[k];
                    assert(item@ == needles@[k as int]@);
                    let needle = chars_of(item);
                    if contains_chars(&text, &needle) {
                        assert(contains_text(contents@, needles@[k as int]@));
                        assert(contains_any(contents@, needles@));
                        return true;
                    }
                    k = k + 1;
                }
                false
            },
            ContentTest::LineStartsWith(prefix) => {
                let wanted = chars_of(prefix);
                some_line_starts_with(&text, &wanted)
            },
            ContentTest::NonEmpty => any_non_space(&text),
        }
    }

    /// Applies this test to what reading a file gave: the text, or `None`
    /// when the file is missing. A missing file matches nothing.
    pub fn matches_file(self, contents: Option<&str>) -> (r: bool)
        ensures
            r == answers_file(self, match contents {
                Some(text) => Some(text@),
                None => None,
            }),
    {
        match contents {
            Some(text) => self.matches(text),
            None => false,
        }
    }
}

} // verus!
