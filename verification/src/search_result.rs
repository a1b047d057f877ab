//! The minimal identity record a name search returns.

use vstd::prelude::*;
use crate::error::Error;
use crate::game::Game;
use crate::xml::{attr_of, attr_ref, find_child, node, pos_attr_u32, pos_u32_of, XmlElement};

verus! {

/// One hit of a name search: identity and name only.
#[derive(Debug, PartialEq)]
pub struct SearchResult {
    pub id: u32,
    pub name: String,
}

/// Identity of a search element: its own `id` attribute read as a positive
/// integer.
pub open spec fn search_id_of(e: XmlElement) -> Option<u32> {
    pos_u32_of(attr_of(e, "id"@))
}

/// Name of a search element: the first `name` child's non-empty `value`
/// attribute.
pub open spec fn search_name_of(e: XmlElement) -> Option<String> {
    match find_child(e.children@, "name"@) {
        Some(c) => match attr_of(c, "value"@) {
            Some(v) => if v@.len() > 0 {
                Some(v)
            } else {
                None
            },
            None => None,
        },
        None => None,
    }
}

impl SearchResult {
    /// Builds a `SearchResult` from one search element; an undetermined
    /// identity or name is a mapping failure.
    pub fn from_element(e: &XmlElement) -> (r: Result<SearchResult, Error>)
        ensures
            match r {
                Ok(s) => {
                    &&& search_id_of(*e) == Some(s.id)
                    &&& search_name_of(*e) == Some(s.name)
                    &&& s.id > 0
                    &&& s.name@.len() > 0
                },
                Err(err) => {
                    &&& (search_id_of(*e) is None || search_name_of(*e) is None)
                    &&& err is FieldMappingFailure
                },
            },
    {
        let id: u32 = match pos_attr_u32(e, "id") {
            Some(v) => v,
            None => {
                let raw: String = match attr_ref(e, "id") {
                    Some(v) => v.clone(),
                    None => String::new(),
                };
                return Err(Error::FieldMappingFailure { field: "id".to_owned(), value: raw });
            },
        };
        let name: String = match node(e, "name") {
            Ok(c) => match attr_ref(c, "value") {
                Some(v) => if !v.as_str().is_empty() {
                    v.clone()
                } else {
                    return Err(
                        Error::FieldMappingFailure {
                            field: "value".to_owned(),
                            value: String::new(),
                        },
                    );
                },
                None => {
                    return Err(
                        Error::FieldMappingFailure {
                            field: "value".to_owned(),
                            value: String::new(),
                        },
                    );
                },
            },
            Err(_) => {
                return Err(
                    Error::FieldMappingFailure { field: "name".to_owned(), value: String::new() },
                );
            },
        };
        Ok(SearchResult { id, name })
    }
}

impl SearchResult {
    /// The hit as a not-yet-enriched game with zero recorded plays.
    pub fn into_game(self) -> (g: Game)
        ensures
            g.id == self.id,
            g.name == self.name,
            g.plays == 0,
            g.details is None,
    {
        Game { id: self.id, name: self.name, plays: 0, details: None }
    }
}

} // verus!
