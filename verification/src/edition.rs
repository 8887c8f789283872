//! The edition of the grammar language.

use vstd::prelude::*;
use vstd::string::*;

verus! {

/// The editions of the grammar language.
#[derive(Debug, Clone, Copy, PartialEq, Eq, Structural, PartialOrd, Ord, Hash)]
pub enum Edition {
    V1,
}

/// The text that was given for an edition and names none.
#[derive(Debug)]
pub struct ParseEditionError {
    invalid_input: String,
}

/// What `str`'s `Debug` formatting makes of a text: the text between double
/// quotes, with the characters escaped that Rust escapes in a string literal.
pub uninterp spec fn debug_quoted(text: Seq<char>) -> Seq<char>;

/// `format!("{:?}", text)` for a `str`: the text as `Debug` prints it.
#[verifier::external_body]
fn debug_format(text: &str) -> (res: String)
    ensures
        res@ == debug_quoted(text@),
{
    format!("{:?}", text)
}

impl ParseEditionError {
    /// The text that names no edition.
    pub closed spec fn input(&self) -> Seq<char> {
        self.invalid_input@
    }

    /// The text that names no edition.
    pub fn invalid_input(&self) -> (res: &str)
        ensures
            res@ == self.input(),
    {
        self.invalid_input.as_str()
    }

    /// The error as a sentence.
    pub fn message(&self) -> (res: String)
        ensures
            res@ == "invalid edition: "@ + debug_quoted(self.input()),
    {
        let mut res = String::from_str("invalid edition: ");
        let quoted = debug_format(self.invalid_input.as_str());
        res.append(quoted.as_str());
        res
    }
}

impl Edition {
    pub const CURRENT: Edition = Edition::V1;

    pub const DEFAULT: Edition = Edition::V1;

    /// The edition that `s` names: `"1"` names the first edition, and no
    /// other text names one.
    pub fn parse(s: &str) -> (res: Result<Edition, ParseEditionError>)
        ensures
            s@ == seq!['1'] <==> res is Ok,
            res matches Ok(e) ==> e == Edition::V1,
            res matches Err(e) ==> e.input() == s@,
    {
        if s.unicode_len() == 1 && s.get_char(0) == '1' {
            proof {
                assert(s@ =~= seq!['1']);
            }
            Ok(Edition::V1)
        } else {
            Err(ParseEditionError { invalid_input: s.to_owned() })
        }
    }

    /// The name of the edition.
    pub fn name(&self) -> (res: &'static str)
        ensures
            res@ == seq!['1'],
    {
        proof {
            reveal_strlit("1");
            assert("1"@ =~= seq!['1']);
        }
        match self {
            Edition::V1 => "1",
        }
    }
}

impl std::str::FromStr for Edition {
    type Err = ParseEditionError;

    /// The edition that `s` names: `"1"` names the first edition, and no
    /// other text names one.
    fn from_str(s: &str) -> (res: Result<Self, Self::Err>)
        ensures
            s@ == seq!['1'] <==> res is Ok,
            res matches Ok(e) ==> e == Edition::V1,
            res matches Err(e) ==> e.input() == s@,
    {
        Edition::parse(s)
    }
}

} // verus!
