//! The collection record: identity, display name, play count, and the
//! optional enriched details attached later.

use vstd::prelude::*;
use crate::details::{valid_details, Details};
use crate::error::Error;
use crate::xml::{get_id, get_name, get_num_plays, id_of, name_of, plays_of, XmlElement};

verus! {

/// One game of a user's collection. `details` stays absent until detail
/// enrichment runs, and is then populated all-or-nothing.
#[derive(Debug, PartialEq)]
pub struct Game {
    pub id: u32,
    pub name: String,
    pub plays: u32,
    pub details: Option<Details>,
}

/// A record derived from a successful parse: positive identity, non-empty
/// name, and details that are themselves well-formed when present.
pub open spec fn valid_game(g: Game) -> bool {
    &&& g.id > 0
    &&& g.name@.len() > 0
    &&& (g.details matches Some(d) ==> valid_details(d))
}

impl Game {
    /// Builds a `Game` from one catalog element: identity from `objectid` or
    /// `id`, name from the first `name` child, play count defaulting to zero
    /// when absent or unreadable. Details stay absent.
    pub fn from_element(e: &XmlElement) -> (r: Result<Game, Error>)
        ensures
            match r {
                Ok(g) => {
                    &&& id_of(*e) == Some(g.id)
                    &&& name_of(*e) == Some(g.name)
                    &&& g.plays == plays_of(*e)
                    &&& g.details is None
                    &&& valid_game(g)
                },
                Err(err) => {
                    &&& (id_of(*e) is None || name_of(*e) is None)
                    &&& err is FieldMappingFailure
                },
            },
    {
        let id: u32 = match get_id(e) {
            Ok(v) => v,
            Err(xe) => {
                return Err(Error::from_xml_error(xe));
            },
        };
        let name: String = match get_name(e) {
            Ok(v) => v,
            Err(xe) => {
                return Err(Error::from_xml_error(xe));
            },
        };
        let plays = get_num_plays(e);
        Ok(Game { id, name, plays, details: None })
    }
}

/// The game a catalog element maps to, when identity and name resolve;
/// details stay absent.
pub open spec fn game_of(e: XmlElement) -> Option<Game> {
    match (id_of(e), name_of(e)) {
        (Some(i), Some(n)) => Some(Game { id: i, name: n, plays: plays_of(e), details: None }),
        _ => None,
    }
}

} // verus!
