//! Plain descriptions of an invocation: the selected operation and the
//! data, filter and sort choices that shape a listing. Argument parsing
//! itself is the caller's concern.

use vstd::prelude::*;

verus! {

/// Sort criterion for listings.
#[derive(Clone, Copy, Debug, PartialEq, Eq, Structural)]
pub enum SortOrder {
    Name,
    Rating,
    Rank,
}

/// Which data a listing outputs or filters on.
#[derive(Clone, Copy, Debug, PartialEq, Eq, Structural)]
pub enum Data {
    Games,
    Mechanics,
    Categories,
}

/// Arguments of a collection listing.
pub struct CollectionCommand {
    pub user: String,
    pub data: Data,
    pub filter: Option<String>,
    pub sort: Option<SortOrder>,
}

/// Arguments of a detail lookup.
pub struct DetailCommand {
    pub id: u32,
}

/// Arguments of a name search.
pub struct SearchCommand {
    pub name: String,
}

/// The operation selected by the caller.
pub enum Commands {
    Collection(CollectionCommand),
    Detail(DetailCommand),
    Search(SearchCommand),
}

/// One invocation: verbosity and the selected operation.
pub struct Cli {
    pub verbose: bool,
    pub command: Commands,
}

} // verus!
