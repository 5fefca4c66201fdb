//! A placeholder decoder that applies to empty file paths and
//! produces a fixed outcome.

use vstd::prelude::*;

use crate::command::Command;
use crate::event::Event;
use crate::recipe::{ParseRecipe, RecipeParsed};

verus! {

pub struct Null {}

impl Null {
    /// Applies only to commands with an empty source path.
    pub fn can_parse(&self, command: &Command<ParseRecipe>) -> (r: bool)
        ensures
            r == (command.payload.filepath@ =~= Seq::<char>::empty()),
    {
        let empty = String::new();
        if command.payload.filepath == empty {
            return true;
        }
        false
    }

    /// Produces the fixed "nothing to do" outcome.
    pub fn parse(&self, _command: &Command<ParseRecipe>) -> (r: Option<Event<RecipeParsed>>)
        ensures
            r matches Some(e) && e.event_type == 0 && e.payload.output@ =~= seq!['.'],
    {
        proof {
            reveal_strlit(".");
        }
        let dot: &str = ".";
        Some(
            Event {
                event_type: 0,
                payload: RecipeParsed { output: dot.to_owned() },
            },
        )
    }

    /// The decoder's registry identifier.
    pub fn identifier(&self) -> (r: String)
        ensures
            r@ =~= seq!['n', 'u', 'l', 'l'],
    {
        proof {
            reveal_strlit("null");
        }
        let s: &str = "null";
        s.to_owned()
    }
}

} // verus!
