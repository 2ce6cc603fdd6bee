//! The built-in looks, and what the artist is told of a switch between them.
//!
//! The looks differ in their colours and nothing else, and a switch writes the new one out to be
//! edited.

use vstd::prelude::*;

use crate::words::joined;

verus! {

/// A built-in look.
#[derive(Clone, Copy, Debug, PartialEq, Eq, Structural)]
pub enum Look {
    /// The one there is to begin with.
    Studio,
    /// The warm one.
    Paper,
}

impl Look {
    /// What a look is called.
    pub open spec fn title(self) -> Seq<char> {
        match self {
            Look::Studio => "Studio"@,
            Look::Paper => "Paper"@,
        }
    }

    /// What a look is called.
    pub fn name(self) -> (r: &'static str)
        ensures
            r@ == self.title(),
    {
        match self {
            Look::Studio => "Studio",
            Look::Paper => "Paper",
        }
    }

    /// The look that a switch goes to: the warm one from any other, and from the warm one back.
    /// `warm` says whether the colours in use are the warm look's.
    pub fn after(warm: bool) -> (r: Look)
        ensures
            r == switched(
                if warm {
                    Look::Paper
                } else {
                    Look::Studio
                },
            ),
    {
        if warm {
            Look::Studio
        } else {
            Look::Paper
        }
    }
}

/// What came of writing a look out.
#[derive(Debug, PartialEq, Eq)]
pub enum Written {
    /// There is no directory to write in.
    Nowhere,
    /// It is in a file.
    To { path: String },
    /// It could not be written.
    Failed { why: String },
}

/// What the artist is told once a look is in use: a look that could not be written is worth knowing
/// about.
pub open spec fn told(look: Look, written: Written) -> Seq<char> {
    match written {
        Written::Nowhere => look.title()
            + ". No writable data directory, so it was not saved."@,
        Written::To { path } => look.title() + ". Written to "@ + path@ + " to edit."@,
        Written::Failed { why } => look.title() + ", but it could not be saved: "@ + why@,
    }
}

/// What the artist is told once a look is in use.
pub fn switch_message(look: Look, written: &Written) -> (r: String)
    ensures
        r@ == told(look, *written),
{
    let name = look.name();
    match written {
        Written::Nowhere => joined(name, ". No writable data directory, so it was not saved."),
        Written::To { path } => {
            let start = joined(name, ". Written to ");
            let there = joined(start.as_str(), path.as_str());
            joined(there.as_str(), " to edit.")
        },
        Written::Failed { why } => {
            let start = joined(name, ", but it could not be saved: ");
            joined(start.as_str(), why.as_str())
        },
    }
}

/// Switching goes from look to look and never stays where it is, so two switches go back.
pub proof fn law_switching_twice_goes_back(look: Look)
    ensures
        switched(look) != look,
        switched(switched(look)) == look,
{
}

/// The look that a switch from a look goes to.
pub open spec fn switched(look: Look) -> Look {
    if look == Look::Paper {
        Look::Studio
    } else {
        Look::Paper
    }
}

/// What the artist is told names the look first, and then the file it was written to or why it was not.
pub proof fn law_the_message_names_the_look_and_the_file(look: Look, written: Written)
    ensures
        look.title().is_prefix_of(told(look, written)),
        written matches Written::To { path } ==> told(look, written).len() == look.title().len() + 22
            + path@.len() && told(look, written).subrange(
            look.title().len() as int + 13,
            look.title().len() as int + 13 + path@.len() as int,
        ) == path@,
        written matches Written::Failed { why } ==> why@.is_suffix_of(told(look, written)),
{
    reveal_strlit(". Written to ");
    reveal_strlit(" to edit.");
    if let Written::To { path } = written {
        let n = look.title().len() as int;
        assert(told(look, written).subrange(n + 13, n + 13 + path@.len() as int) =~= path@);
    }
}

/// The looks are the two there are, and a switch from the first is to the warm one.
pub proof fn law_a_switch_goes_to_the_warm_look_first()
    ensures
        switched(Look::Studio) == Look::Paper,
        switched(Look::Paper) == Look::Studio,
{
}

} // verus!
