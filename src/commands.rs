//! The editing commands that the editor sends by name.

use vstd::prelude::*;

verus! {

/// A request from the editor: an editing verb applied inside or around the
/// closest bracket pair, the reformatting request, or an unknown name.
#[derive(Debug)]
pub enum Messages {
    DelInHere,
    DelArHere,
    ChaInHere,
    ChaArHere,
    SelInHere,
    SelArHere,
    YanInHere,
    YanArHere,
    Test,
    Unknown(String),
}

impl From<String> for Messages {
    fn from(event: String) -> (r: Self) {
        if event == "DelInHere".to_owned() {
            Messages::DelInHere
        } else if event == "DelArHere".to_owned() {
            Messages::DelArHere
        } else if event == "ChaInHere".to_owned() {
            Messages::ChaInHere
        } else if event == "ChaArHere".to_owned() {
            Messages::ChaArHere
        } else if event == "SelInHere".to_owned() {
            Messages::SelInHere
        } else if event == "SelArHere".to_owned() {
            Messages::SelArHere
        } else if event == "YanInHere".to_owned() {
            Messages::YanInHere
        } else if event == "YanArHere".to_owned() {
            Messages::YanArHere
        } else if event == "Test".to_owned() {
            Messages::Test
        } else {
            Messages::Unknown(event)
        }
    }
}

impl vstd::std_specs::convert::FromSpecImpl<String> for Messages {
    open spec fn obeys_from_spec() -> bool {
        true
    }

    open spec fn from_spec(event: String) -> Messages {
        if event@ == "DelInHere"@ {
            Messages::DelInHere
        } else if event@ == "DelArHere"@ {
            Messages::DelArHere
        } else if event@ == "ChaInHere"@ {
            Messages::ChaInHere
        } else if event@ == "ChaArHere"@ {
            Messages::ChaArHere
        } else if event@ == "SelInHere"@ {
            Messages::SelInHere
        } else if event@ == "SelArHere"@ {
            Messages::SelArHere
        } else if event@ == "YanInHere"@ {
            Messages::YanInHere
        } else if event@ == "YanArHere"@ {
            Messages::YanArHere
        } else if event@ == "Test"@ {
            Messages::Test
        } else {
            Messages::Unknown(event)
        }
    }
}

/// The normal-mode keys for a verb, an adverb ("i" inside, "a" around) and
/// the bracket they apply to, as one string.
pub fn verb_adverb_here(verb: &str, adverb: &str, here: &str) -> (r: String)
    ensures
        r@ == verb@ + adverb@ + here@,
{
    let mut r = verb.to_owned();
    r.append(adverb);
    r.append(here);
    r
}

} // verus!
