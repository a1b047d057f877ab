//! The operations as values: each command yields a list of games from the
//! remote service.

use vstd::prelude::*;
use crate::bgg_api::Bgg;
use crate::cli::{CollectionCommand, DetailCommand, SearchCommand};
use crate::error::Error;
use crate::game::{valid_game, Game};

verus! {

/// An operation that yields a list of games from the remote service.
pub trait Command {
    /// Runs the operation against the service; every returned game is
    /// well-formed.
    fn get_games(&self, bgg: &Bgg) -> (r: Result<Vec<Game>, Error>)
        ensures
            r matches Ok(v) ==> forall|i: int| 0 <= i < v@.len() ==> valid_game(#[trigger] v@[i]),
    ;
}

impl Command for CollectionCommand {
    /// The user's owned collection.
    fn get_games(&self, bgg: &Bgg) -> (r: Result<Vec<Game>, Error>) {
        bgg.collection(self.user.as_str(), true)
    }
}

impl Command for DetailCommand {
    /// One game, enriched with its details.
    fn get_games(&self, bgg: &Bgg) -> (r: Result<Vec<Game>, Error>) {
        match bgg.detail(self.id) {
            Ok(g) => {
                let mut v: Vec<Game> = Vec::new();
                v.push(g);
                Ok(v)
            },
            Err(e) => Err(e),
        }
    }
}

impl Command for SearchCommand {
    /// The search hits, as games with zero recorded plays.
    fn get_games(&self, bgg: &Bgg) -> (r: Result<Vec<Game>, Error>) {
        match bgg.search(self.name.as_str()) {
            Ok(rs) => {
                let mut v: Vec<Game> = Vec::new();
                let mut rem = rs;
                while rem.len() > 0
                    invariant
                        forall|k: int|
                            0 <= k < rem@.len() ==> (#[trigger] rem@[k]).id > 0
                                && rem@[k].name@.len() > 0,
                        forall|k: int| 0 <= k < v@.len() ==> valid_game(#[trigger] v@[k]),
                    decreases rem@.len(),
                {
                    let sr = rem.remove(0);
                    v.push(sr.into_game());
                }
                Ok(v)
            },
            Err(e) => Err(e),
        }
    }
}

} // verus!
