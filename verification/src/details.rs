//! Enriched statistics for one game, built from a detail element: rating,
//! overall rank with its "Not Ranked" sentinel, and the category and
//! mechanic links in document order.

use vstd::prelude::*;
use crate::error::Error;
use crate::text::{parse_rating, parse_rating_spec, parse_u32, parse_u32_spec, str_eq};
use crate::xml::{
    attr_of, attr_ref, find_child, find_child_with_attr, has_attr, has_attribute, id_of, get_id,
    get_name, name_of, node, node_with_attr, XmlElement,
};

verus! {

/// Enriched statistics for one game. The rating is a fixed-point decimal in
/// hundred-thousandths of a unit: a stored value of `753421` reads `7.53421`.
#[derive(Debug, PartialEq)]
pub struct Details {
    pub id: u32,
    pub name: String,
    pub rating: u64,
    pub rank: Option<u32>,
    pub categories: Vec<String>,
    pub mechanics: Vec<String>,
}

/// A record derived from a successful parse: positive identity and a
/// non-empty name.
pub open spec fn valid_details(d: Details) -> bool {
    d.id > 0 && d.name@.len() > 0
}

/// The `ratings` block of a detail element: `ratings` inside `statistics`.
pub open spec fn ratings_block(e: XmlElement) -> Option<XmlElement> {
    match find_child(e.children@, "statistics"@) {
        Some(st) => find_child(st.children@, "ratings"@),
        None => None,
    }
}

/// Average rating of a detail element in hundred-thousandths; an absent
/// block, attribute, or unreadable value degrades to zero.
pub open spec fn rating_of(e: XmlElement) -> u64 {
    match ratings_block(e) {
        Some(rb) => match find_child(rb.children@, "average"@) {
            Some(avg) => match attr_of(avg, "value"@) {
                Some(v) => match parse_rating_spec(v@) {
                    Some(x) => x,
                    None => 0,
                },
                None => 0,
            },
            None => 0,
        },
        None => 0,
    }
}

/// Raw value of the overall board-game rank entry: the `value` attribute of
/// the `rank` child named `boardgame` inside the `ranks` block.
pub open spec fn rank_value_of(e: XmlElement) -> Option<String> {
    match ratings_block(e) {
        Some(rb) => match find_child(rb.children@, "ranks"@) {
            Some(rk) => match find_child_with_attr(
                rk.children@,
                "rank"@,
                "name"@,
                "boardgame"@,
            ) {
                Some(r) => attr_of(r, "value"@),
                None => None,
            },
            None => None,
        },
        None => None,
    }
}

/// Overall rank: `None` for the literal sentinel `Not Ranked`, a missing
/// entry, or an unreadable value; the parsed integer otherwise.
pub open spec fn rank_of(e: XmlElement) -> Option<u32> {
    match rank_value_of(e) {
        Some(v) => if v@ == "Not Ranked"@ {
            None
        } else {
            parse_u32_spec(v@)
        },
        None => None,
    }
}

/// Values of the `link` children whose `type` is `ty`, in document order; a
/// link without a `value` attribute contributes nothing.
pub open spec fn links_of(cs: Seq<XmlElement>, ty: Seq<char>) -> Seq<String>
    decreases cs.len(),
{
    if cs.len() == 0 {
        Seq::empty()
    } else {
        let front = links_of(cs.drop_last(), ty);
        let c = cs.last();
        if c.tag@ == "link"@ && has_attr(c, "type"@, ty) {
            match attr_of(c, "value"@) {
                Some(v) => front.push(v),
                None => front,
            }
        } else {
            front
        }
    }
}

/// Collects the `value` attributes of the `link` children of type `ty`.
fn collect_links(e: &XmlElement, ty: &str) -> (r: Vec<String>)
    ensures
        r@ == links_of(e.children@, ty@),
{
    let mut out: Vec<String> = Vec::new();
    let m = e.children.len();
    let mut i: usize = 0;
    proof {
        assert(e.children@.take(0) =~= Seq::<XmlElement>::empty());
    }
    while i < m
        invariant
            i <= m == e.children@.len(),
            out@ == links_of(e.children@.take(i as int), ty@),
        decreases m - i,
    {
        proof {
            assert(e.children@.take(i + 1).drop_last() =~= e.children@.take(i as int));
            assert(e.children@.take(i + 1).last() == e.children@[i as int]);
        }
        let c = &e.children[i];
        if str_eq(c.tag.as_str(), "link") && has_attribute(c, "type", ty) {
            match attr_ref(c, "value") {
                Some(v) => out.push(v.clone()),
                None => (),
            }
        }
        i = i + 1;
    }
    proof {
        assert(e.children@.take(m as int) =~= e.children@);
    }
    out
}

impl Details {
    /// Builds the `Details` of one detail element. Only an undetermined
    /// identity or name rejects the record; every other field degrades to
    /// its documented default.
    pub fn from_element(e: &XmlElement) -> (r: Result<Details, Error>)
        ensures
            match r {
                Ok(d) => {
                    &&& id_of(*e) == Some(d.id)
                    &&& name_of(*e) == Some(d.name)
                    &&& d.rating == rating_of(*e)
                    &&& d.rank == rank_of(*e)
                    &&& d.categories@ == links_of(e.children@, "boardgamecategory"@)
                    &&& d.mechanics@ == links_of(e.children@, "boardgamemechanic"@)
                    &&& valid_details(d)
                },
                Err(err) => {
                    &&& (id_of(*e) is None || name_of(*e) is None)
                    &&& err is FieldMappingFailure
                },
            },
    {
        let id: u32 = match get_id(e) {
            Ok(v) => v,
            Err(xe) => {
                return Err(Error::from_xml_error(xe));
            },
        };
        let name: String = match get_name(e) {
            Ok(v) => v,
            Err(xe) => {
                return Err(Error::from_xml_error(xe));
            },
        };
        let mut rating: u64 = 0;
        let mut rank: Option<u32> = None;
        match node(e, "statistics") {
            Err(_) => {},
            Ok(st) => match node(st, "ratings") {
                Err(_) => {},
                Ok(rb) => {
                    match node(rb, "average") {
                        Err(_) => {},
                        Ok(avg) => match attr_ref(avg, "value") {
                            Some(v) => match parse_rating(v.as_str()) {
                                Some(x) => {
                                    rating = x;
                                },
                                None => {},
                            },
                            None => {},
                        },
                    }
                    match node(rb, "ranks") {
                        Err(_) => {},
                        Ok(rk) => match node_with_attr(rk, "rank", "name", "boardgame") {
                            Err(_) => {},
                            Ok(rme) => match attr_ref(rme, "value") {
                                Some(v) => {
                                    if !str_eq(v.as_str(), "Not Ranked") {
                                        rank = parse_u32(v.as_str());
                                    }
                                },
                                None => {},
                            },
                        },
                    }
                },
            },
        }
        let categories = collect_links(e, "boardgamecategory");
        let mechanics = collect_links(e, "boardgamemechanic");
        Ok(Details { id, name, rating, rank, categories, mechanics })
    }
}

/// The two records hold the same data, field by field.
pub open spec fn same_details(a: Details, b: Details) -> bool {
    &&& a.id == b.id
    &&& a.name == b.name
    &&& a.rating == b.rating
    &&& a.rank == b.rank
    &&& a.categories@ == b.categories@
    &&& a.mechanics@ == b.mechanics@
}

/// `d` is exactly the details record of element `e`.
pub open spec fn details_matches(d: Details, e: XmlElement) -> bool {
    &&& id_of(e) == Some(d.id)
    &&& name_of(e) == Some(d.name)
    &&& d.rating == rating_of(e)
    &&& d.rank == rank_of(e)
    &&& d.categories@ == links_of(e.children@, "boardgamecategory"@)
    &&& d.mechanics@ == links_of(e.children@, "boardgamemechanic"@)
}

/// An equal copy of a vector of strings.
fn clone_string_vec(v: &Vec<String>) -> (r: Vec<String>)
    ensures
        r@ == v@,
{
    let r = v.clone();
    proof {
        assert(r@ =~= v@);
    }
    r
}

impl Details {
    /// A copy of the record holding the same data.
    pub fn duplicate(&self) -> (r: Details)
        ensures
            same_details(r, *self),
    {
        Details {
            id: self.id,
            name: self.name.clone(),
            rating: self.rating,
            rank: self.rank,
            categories: clone_string_vec(&self.categories),
            mechanics: clone_string_vec(&self.mechanics),
        }
    }
}

/// A rank entry holding the literal sentinel `Not Ranked` yields no rank.
pub proof fn lemma_rank_sentinel(e: XmlElement)
    requires
        rank_value_of(e) matches Some(v) && v@ == "Not Ranked"@,
    ensures
        rank_of(e) is None,
{
}

/// A rank entry holding any numeric string other than the sentinel yields
/// exactly its parsed integer.
pub proof fn lemma_rank_numeric(e: XmlElement, v: String)
    requires
        rank_value_of(e) == Some(v),
        v@ != "Not Ranked"@,
        parse_u32_spec(v@) is Some,
    ensures
        rank_of(e) == parse_u32_spec(v@),
{
}

} // verus!
