//! The remote client: request construction against the fixed catalog
//! service, response parsing into the element tree, tolerant mapping into
//! domain records, and chunked batch enrichment of collection items.

use vstd::prelude::*;
use vstd::string::StringExecFns;
use crate::details::{details_matches, same_details, valid_details, Details};
use crate::error::Error;
use crate::game::{game_of, valid_game, Game};
use crate::search_result::{search_id_of, search_name_of, SearchResult};
use crate::text::{u32_digits, u32_to_string};
use crate::xml::{find_child, has_attr, has_attribute, id_of, name_of, node, plays_of, XmlAttr,
    XmlElement};

verus! {

/// A detail-lookup batch holds at most this many identifiers: the
/// service's practical request-size limit.
pub const CHUNK_SIZE: usize = 100;

/// HTTP client of the `reqwest` crate, held opaquely and reused across
/// sequential calls; never accessed concurrently.
#[verifier::external_type_specification]
#[verifier::external_body]
pub struct ExClient(reqwest::blocking::Client);

/// Borrowed node of a parsed `roxmltree` document.
#[verifier::external_type_specification]
#[verifier::external_body]
pub struct ExNode<'a, 'input: 'a>(roxmltree::Node<'a, 'input>);

/// Relies on reqwest's blocking `ClientBuilder::build`: a reusable HTTP
/// client, or the crate's error message when the transport stack cannot be
/// set up.
#[verifier::external_body]
fn new_client() -> (r: Result<reqwest::blocking::Client, String>) {
    match reqwest::blocking::Client::builder().build() {
        Ok(c) => Ok(c),
        Err(e) => Err(format!("{}", e)),
    }
}

/// Relies on reqwest's blocking `Client::get` and `RequestBuilder::send`,
/// and on `Response::status` and `Response::text`: one HTTP GET of `url`,
/// yielding the numeric status and the body text, or the crate's error
/// message. What comes back depends on the network, so nothing is promised
/// of it.
#[verifier::external_body]
fn http_get(client: &reqwest::blocking::Client, url: &str) -> (r: Result<(u16, String), String>) {
    match client.get(url).send() {
        Ok(res) => {
            let status = res.status().as_u16();
            match res.text() {
                Ok(body) => Ok((status, body)),
                Err(e) => Err(format!("{}", e)),
            }
        },
        Err(e) => Err(format!("{}", e)),
    }
}

/// The request URL that the `url` crate builds for one path segment and a
/// percent-encoded query under the given base, or nothing when the base
/// does not parse as a usable URL. A function of the arguments alone.
pub uninterp spec fn url_of(
    base: Seq<char>,
    path: Seq<char>,
    params: Seq<(Seq<char>, Seq<char>)>,
) -> Option<Seq<char>>;

/// The parameter pairs as character sequences.
pub open spec fn params_view(params: Seq<(String, String)>) -> Seq<(Seq<char>, Seq<char>)> {
    params.map_values(|p: (String, String)| (p.0@, p.1@))
}

/// Relies on url's `Url::parse`, `PathSegmentsMut::push` and
/// `Serializer::append_pair`: one path segment and the percent-encoded
/// query pairs appended under the base URL.
#[verifier::external_body]
fn build_service_url(base: &str, path: &str, params: &Vec<(String, String)>) -> (r: Option<
    String,
>)
    ensures
        match r {
            Some(u) => url_of(base@, path@, params_view(params@)) == Some(u@),
            None => url_of(base@, path@, params_view(params@)) is None,
        },
{
    let mut u = url::Url::parse(base).ok()?;
    u.path_segments_mut().ok()?.push(path);
    let mut query = u.query_pairs_mut();
    for (k, v) in params.iter() {
        query.append_pair(k, v);
    }
    drop(query);
    Some(u.as_str().to_string())
}

/// The element tree that `roxmltree` reads from a document: the root
/// element and, recursively, each element's tag, attributes, text and
/// element children in document order; nothing when the document is not
/// well-formed XML. A function of the text alone.
pub uninterp spec fn xml_tree_of(text: Seq<char>) -> Option<XmlElement>;

/// Relies on roxmltree's `Node` accessors `tag_name`, `attributes`,
/// `text`, `children` and `is_element`: one element and its descendants
/// copied into the library's tree.
#[verifier::external_body]
fn convert_node(n: roxmltree::Node<'_, '_>) -> XmlElement {
    XmlElement {
        tag: n.tag_name().name().to_string(),
        attrs: n.attributes().map(
            |a| XmlAttr { name: a.name().to_string(), value: a.value().to_string() },
        ).collect(),
        text: n.text().map(|t| t.to_string()),
        children: n.children().filter(roxmltree::Node::is_element).map(convert_node).collect(),
    }
}

/// Relies on roxmltree's `Document::parse` and `Document::root_element`:
/// the parsed element tree of `text`, or the crate's error message for a
/// document that is not well-formed XML.
#[verifier::external_body]
fn parse_document_raw(text: &str) -> (r: Result<XmlElement, String>)
    ensures
        match r {
            Ok(root) => xml_tree_of(text@) == Some(root),
            Err(_) => xml_tree_of(text@) is None,
        },
{
    match roxmltree::Document::parse(text) {
        Ok(doc) => Ok(convert_node(doc.root_element())),
        Err(e) => Err(format!("{}", e)),
    }
}

/// Parses a response body into the library's element tree; a document that
/// is not well-formed XML is a `MalformedDocument` failure.
pub fn parse_document(text: &str) -> (r: Result<XmlElement, Error>)
    ensures
        match r {
            Ok(root) => xml_tree_of(text@) == Some(root),
            Err(e) => xml_tree_of(text@) is None && e is MalformedDocument,
        },
{
    match parse_document_raw(text) {
        Ok(root) => Ok(root),
        Err(message) => Err(Error::MalformedDocument { message }),
    }
}

/// The identifiers written in decimal and joined with commas.
pub open spec fn ids_string(ids: Seq<u32>) -> Seq<char>
    decreases ids.len(),
{
    if ids.len() == 0 {
        Seq::empty()
    } else if ids.len() == 1 {
        u32_digits(ids[0] as nat)
    } else {
        ids_string(ids.drop_last()) + seq![','] + u32_digits(ids.last() as nat)
    }
}

/// Joins the identifiers with commas, in decimal.
pub fn join_ids(ids: &Vec<u32>) -> (r: String)
    ensures
        r@ == ids_string(ids@),
{
    let mut r = String::new();
    let m = ids.len();
    let mut i: usize = 0;
    proof {
        assert(ids@.take(0) =~= Seq::<u32>::empty());
    }
    while i < m
        invariant
            i <= m == ids@.len(),
            r@ == ids_string(ids@.take(i as int)),
        decreases m - i,
    {
        proof {
            reveal_strlit(",");
            assert(","@ =~= seq![',']);
            assert(ids@.take(i + 1).drop_last() =~= ids@.take(i as int));
            assert(ids@.take(i + 1).last() == ids@[i as int]);
        }
        if i > 0 {
            r.append(",");
        }
        let d = u32_to_string(ids[i]);
        r.append(d.as_str());
        proof {
            if i == 0 {
                assert(ids@.take(1).len() == 1);
                assert(ids@.take(1)[0] == ids@[0]);
                assert(r@ =~= ids_string(ids@.take(1)));
            } else {
                assert(r@ =~= ids_string(ids@.take(i + 1)));
            }
        }
        i = i + 1;
    }
    proof {
        assert(ids@.take(m as int) =~= ids@);
    }
    r
}

/// The batches flattened back into one sequence.
pub open spec fn concat_batches(bs: Seq<Vec<u32>>) -> Seq<u32>
    decreases bs.len(),
{
    if bs.len() == 0 {
        Seq::empty()
    } else {
        concat_batches(bs.drop_last()) + bs.last()@
    }
}

/// Splits the identifiers into consecutive batches: exactly the ceiling of
/// `len / size` batches, none empty, every batch but the last holding
/// exactly `size` identifiers, and their concatenation the input in input
/// order — so the k-th batch is exactly the k-th consecutive slice.
pub fn partition_batches(ids: &Vec<u32>, size: usize) -> (r: Vec<Vec<u32>>)
    requires
        size > 0,
    ensures
        r@.len() == (ids@.len() + size - 1) as int / (size as int),
        concat_batches(r@) == ids@,
        forall|i: int| 0 <= i < r@.len() ==> 0 < (#[trigger] r@[i])@.len() <= size,
        forall|i: int| 0 <= i < r@.len() - 1 ==> (#[trigger] r@[i])@.len() == size,
{
    let n = ids.len();
    let mut out: Vec<Vec<u32>> = Vec::new();
    let mut i: usize = 0;
    proof {
        assert(ids@.take(0) =~= Seq::<u32>::empty());
        assert(out@.len() * size == 0) by (nonlinear_arith)
            requires
                out@.len() == 0,
        ;
        if n == 0 {
            assert((n + size - 1) as int / (size as int) == 0) by (nonlinear_arith)
                requires
                    size > 0,
                    n == 0,
            ;
        }
    }
    while i < n
        invariant
            i <= n == ids@.len(),
            size > 0,
            i < n ==> i == out@.len() * size,
            i == n ==> out@.len() == (n + size - 1) as int / (size as int),
            concat_batches(out@) == ids@.take(i as int),
            forall|k: int| 0 <= k < out@.len() ==> 0 < (#[trigger] out@[k])@.len() <= size,
            forall|k: int| 0 <= k < out@.len() - 1 ==> (#[trigger] out@[k])@.len() == size,
            i < n && out@.len() > 0 ==> out@.last()@.len() == size,
        decreases n - i,
    {
        let ghost out_before = out@;
        let ghost i0 = i as int;
        let end: usize = if n - i < size {
            n
        } else {
            i + size
        };
        let mut batch: Vec<u32> = Vec::new();
        let mut j: usize = i;
        proof {
            assert(ids@.subrange(i as int, i as int) =~= Seq::<u32>::empty());
        }
        while j < end
            invariant
                i <= j <= end <= n == ids@.len(),
                batch@ == ids@.subrange(i as int, j as int),
            decreases end - j,
        {
            batch.push(ids[j]);
            proof {
                assert(ids@.subrange(i as int, j + 1) =~= ids@.subrange(i as int, j as int).push(
                    ids@[j as int],
                ));
            }
            j = j + 1;
        }
        out.push(batch);
        proof {
            assert(out@.drop_last() =~= out_before);
            assert(forall|k: int| 0 <= k < out_before.len() ==> #[trigger] out@[k]
                == out_before[k]);
            if out_before.len() > 0 {
                assert(out_before[out_before.len() - 1] == out_before.last());
            }
            assert(out@.last()@ == ids@.subrange(i0, end as int));
            assert(ids@.take(end as int) =~= ids@.take(i0) + ids@.subrange(i0, end as int));
            assert(concat_batches(out@) == ids@.take(end as int));
            if (end as int) < n {
                assert(end == i0 + size);
                assert(out@.len() == out_before.len() + 1);
                assert((out_before.len() + 1) * size == out_before.len() * size + size)
                    by (nonlinear_arith);
            } else {
                assert(end == n);
                let b = out_before.len() as int;
                assert(i0 == b * size);
                assert(n - i0 <= size);
                assert((n + size - 1) as int / (size as int) == b + 1) by (nonlinear_arith)
                    requires
                        i0 == b * size,
                        i0 < n <= i0 + size,
                        size > 0,
                        b >= 0,
                ;
            }
        }
        i = end;
    }
    proof {
        if n == 0 {
            assert(out@.len() == 0);
            assert((ids@.len() + size - 1) as int / (size as int) == 0) by (nonlinear_arith)
                requires
                    ids@.len() == 0,
                    size > 0,
            ;
        }
        assert(ids@.take(n as int) =~= ids@);
    }
    out
}

/// The details recorded for `id` in the merged association list; the last
/// entry wins, as later batches override earlier ones.
pub open spec fn lookup_details(m: Seq<(u32, Details)>, id: u32) -> Option<Details>
    decreases m.len(),
{
    if m.len() == 0 {
        None
    } else if m.last().0 == id {
        Some(m.last().1)
    } else {
        lookup_details(m.drop_last(), id)
    }
}

/// An identity is in the merged mapping exactly when some entry carries it.
pub proof fn lemma_lookup_present(m: Seq<(u32, Details)>, id: u32)
    ensures
        lookup_details(m, id) is Some <==> exists|k: int|
            0 <= k < m.len() && (#[trigger] m[k]).0 == id,
    decreases m.len(),
{
    if m.len() > 0 {
        lemma_lookup_present(m.drop_last(), id);
        if m.last().0 == id {
            assert(m[m.len() - 1].0 == id);
        } else if exists|k: int| 0 <= k < m.len() && (#[trigger] m[k]).0 == id {
            let k = choose|k: int| 0 <= k < m.len() && (#[trigger] m[k]).0 == id;
            assert(k < m.len() - 1);
            assert(m.drop_last()[k].0 == id);
        }
    }
}

/// Merging a later batch: its identities join the mapping, and its entries
/// override the earlier ones.
pub proof fn lemma_merge_batch(m1: Seq<(u32, Details)>, m2: Seq<(u32, Details)>, id: u32)
    ensures
        lookup_details(m1 + m2, id) == if lookup_details(m2, id) is Some {
            lookup_details(m2, id)
        } else {
            lookup_details(m1, id)
        },
    decreases m2.len(),
{
    if m2.len() == 0 {
        assert(m1 + m2 =~= m1);
    } else {
        lemma_merge_batch(m1, m2.drop_last(), id);
        assert((m1 + m2).drop_last() =~= m1 + m2.drop_last());
        assert((m1 + m2).last() == m2.last());
    }
}

/// Every merged entry records well-formed details under their own
/// identity: the join key equals the record's identity.
pub open spec fn entries_well_formed(m: Seq<(u32, Details)>) -> bool {
    forall|k: int| 0 <= k < m.len() ==> (#[trigger] m[k]).1.id == m[k].0 && valid_details(m[k].1)
}

/// A lookup in a well-formed mapping yields well-formed details recorded
/// under the requested identity.
pub proof fn lemma_lookup_well_formed(m: Seq<(u32, Details)>, id: u32)
    requires
        entries_well_formed(m),
    ensures
        lookup_details(m, id) matches Some(d) ==> d.id == id && valid_details(d),
    decreases m.len(),
{
    if m.len() > 0 {
        assert(m[m.len() - 1] == m.last());
        if m.last().0 != id {
            assert(forall|k: int|
                0 <= k < m.drop_last().len() ==> (#[trigger] m.drop_last()[k]) == m[k]);
            lemma_lookup_well_formed(m.drop_last(), id);
        }
    }
}

/// Finds the details recorded for `id`, as a copy.
fn lookup_details_exec(m: &Vec<(u32, Details)>, id: u32) -> (r: Option<Details>)
    ensures
        match (r, lookup_details(m@, id)) {
            (Some(a), Some(b)) => same_details(a, b),
            (None, None) => true,
            _ => false,
        },
{
    let mut k = m.len();
    proof {
        assert(m@.take(m@.len() as int) =~= m@);
    }
    while k > 0
        invariant
            k <= m@.len(),
            lookup_details(m@, id) == lookup_details(m@.take(k as int), id),
        decreases k,
    {
        proof {
            assert(m@.take(k as int).last() == m@[k - 1]);
            assert(m@.take(k as int).drop_last() =~= m@.take(k - 1));
        }
        if m[k - 1].0 == id {
            return Some(m[k - 1].1.duplicate());
        }
        k = k - 1;
    }
    proof {
        assert(m@.take(0) =~= Seq::<(u32, Details)>::empty());
    }
    None
}

/// `g2` is `g1` with the details recorded under its identity attached, or
/// unchanged with none when its identity is absent from the mapping.
pub open spec fn game_enriched(g2: Game, g1: Game, m: Seq<(u32, Details)>) -> bool {
    &&& g2.id == g1.id
    &&& g2.name == g1.name
    &&& g2.plays == g1.plays
    &&& match lookup_details(m, g1.id) {
        Some(d) => g2.details matches Some(d2) && same_details(d2, d),
        None => g2.details is None,
    }
}

/// Attaches to each game the details recorded under its identity; a game
/// whose identity is absent from the mapping keeps `details == None`
/// rather than failing the enrichment.
pub fn attach_details(games: Vec<Game>, found: &Vec<(u32, Details)>) -> (r: Vec<Game>)
    ensures
        r@.len() == games@.len(),
        forall|i: int|
            0 <= i < games@.len() ==> game_enriched(#[trigger] r@[i], games@[i], found@),
{
    let ghost orig = games@;
    let mut rem = games;
    let mut out: Vec<Game> = Vec::new();
    let ghost mut k: int = 0;
    proof {
        assert(orig.skip(0) =~= orig);
    }
    while rem.len() > 0
        invariant
            0 <= k <= orig.len(),
            rem@ == orig.skip(k),
            out@.len() == k,
            forall|i: int| 0 <= i < k ==> game_enriched(#[trigger] out@[i], orig[i], found@),
        decreases rem@.len(),
    {
        let mut g = rem.remove(0);
        proof {
            assert(orig.skip(k).remove(0) =~= orig.skip(k + 1));
            assert(g == orig[k]);
        }
        g.details = lookup_details_exec(found, g.id);
        out.push(g);
        proof {
            k = k + 1;
        }
    }
    out
}

/// The own-status flag of a collection element: its `status` child carries
/// `own = "1"`.
pub open spec fn own_flag(e: XmlElement) -> bool {
    match find_child(e.children@, "status"@) {
        Some(st) => has_attr(st, "own"@, "1"@),
        None => false,
    }
}

/// Whether the element's ownership flag is set.
pub fn item_owned(e: &XmlElement) -> (r: bool)
    ensures
        r == own_flag(*e),
{
    match node(e, "status") {
        Ok(st) => has_attribute(st, "own", "1"),
        Err(_) => false,
    }
}

/// What to do with a collection element that fails to map: drop it and
/// keep the rest of the listing, or abort the whole listing.
#[derive(Clone, Copy, Debug, PartialEq, Eq, Structural)]
pub enum MalformedItemPolicy {
    Drop,
    Abort,
}

/// Games of the selected ownership status, mapped in document order, with
/// elements that fail to map left out.
pub open spec fn collection_games_spec(cs: Seq<XmlElement>, only_owned: bool) -> Seq<Game>
    decreases cs.len(),
{
    if cs.len() == 0 {
        Seq::empty()
    } else {
        let front = collection_games_spec(cs.drop_last(), only_owned);
        let e = cs.last();
        if own_flag(e) == only_owned {
            match game_of(e) {
                Some(g) => front.push(g),
                None => front,
            }
        } else {
            front
        }
    }
}

/// Some element of the selected ownership status fails to map.
pub open spec fn any_bad(cs: Seq<XmlElement>, only_owned: bool) -> bool {
    exists|i: int|
        0 <= i < cs.len() && own_flag(#[trigger] cs[i]) == only_owned && game_of(cs[i]) is None
}

/// Every game of the mapped listing is well-formed and not yet enriched.
proof fn lemma_collection_games_valid(cs: Seq<XmlElement>, only_owned: bool)
    ensures
        forall|i: int|
            0 <= i < collection_games_spec(cs, only_owned).len() ==> valid_game(
                #[trigger] collection_games_spec(cs, only_owned)[i],
            ) && collection_games_spec(cs, only_owned)[i].details is None,
    decreases cs.len(),
{
    if cs.len() > 0 {
        lemma_collection_games_valid(cs.drop_last(), only_owned);
    }
}

/// Maps the children of a collection document whose ownership flag equals
/// `only_owned` into games, in document order. Under `Drop`, an element
/// that fails to map is silently left out; under `Abort`, it fails the
/// whole listing.
pub fn collection_games(root: &XmlElement, only_owned: bool, policy: MalformedItemPolicy) -> (r:
    Result<Vec<Game>, Error>)
    ensures
        match r {
            Ok(v) => {
                &&& v@ == collection_games_spec(root.children@, only_owned)
                &&& policy is Abort ==> !any_bad(root.children@, only_owned)
                &&& forall|i: int|
                    0 <= i < v@.len() ==> valid_game(#[trigger] v@[i]) && v@[i].details is None
            },
            Err(e) => {
                &&& policy is Abort
                &&& any_bad(root.children@, only_owned)
                &&& e is FieldMappingFailure
            },
        },
{
    let cs = &root.children;
    let m = cs.len();
    let mut out: Vec<Game> = Vec::new();
    let mut i: usize = 0;
    proof {
        assert(root.children@.take(0) =~= Seq::<XmlElement>::empty());
    }
    while i < m
        invariant
            i <= m == root.children@.len(),
            cs@ == root.children@,
            out@ == collection_games_spec(root.children@.take(i as int), only_owned),
            policy is Abort ==> !any_bad(root.children@.take(i as int), only_owned),
        decreases m - i,
    {
        proof {
            assert(root.children@.take(i + 1).drop_last() =~= root.children@.take(i as int));
            assert(root.children@.take(i + 1).last() == root.children@[i as int]);
        }
        let e = &cs[i];
        if item_owned(e) == only_owned {
            match Game::from_element(e) {
                Ok(g) => {
                    proof {
                        assert(game_of(root.children@[i as int]) == Some(g));
                    }
                    out.push(g);
                },
                Err(err) => {
                    proof {
                        assert(game_of(root.children@[i as int]) is None);
                    }
                    match policy {
                        MalformedItemPolicy::Drop => {},
                        MalformedItemPolicy::Abort => {
                            proof {
                                assert(any_bad(root.children@, only_owned));
                            }
                            return Err(err);
                        },
                    }
                },
            }
        }
        proof {
            if policy is Abort {
                assert forall|k: int|
                    0 <= k < i + 1 implies !(own_flag(#[trigger] root.children@.take(i + 1)[k])
                    == only_owned && game_of(root.children@.take(i + 1)[k]) is None) by {
                    assert(root.children@.take(i + 1)[k] == root.children@[k]);
                    if k < i {
                        assert(root.children@.take(i as int)[k] == root.children@[k]);
                    }
                }
            }
        }
        i = i + 1;
    }
    proof {
        assert(root.children@.take(m as int) =~= root.children@);
        lemma_collection_games_valid(root.children@, only_owned);
    }
    Ok(out)
}

/// `g` is exactly the enriched record of detail element `e`: identity,
/// name and plays from the element, and details attached all-or-nothing.
pub open spec fn game_detail_matches(g: Game, e: XmlElement) -> bool {
    &&& id_of(e) == Some(g.id)
    &&& name_of(e) == Some(g.name)
    &&& g.plays == plays_of(e)
    &&& g.details matches Some(d) && details_matches(d, e)
}

/// Maps every child of a detail document into an enriched game, in
/// document order; any element whose identity or name cannot be determined
/// aborts the whole lookup.
pub fn detail_games(root: &XmlElement) -> (r: Result<Vec<Game>, Error>)
    ensures
        match r {
            Ok(v) => {
                &&& v@.len() == root.children@.len()
                &&& forall|i: int|
                    0 <= i < v@.len() ==> game_detail_matches(
                        #[trigger] v@[i],
                        root.children@[i],
                    ) && valid_game(v@[i])
            },
            Err(e) => {
                &&& exists|i: int|
                    0 <= i < root.children@.len() && (id_of(#[trigger] root.children@[i]) is None
                        || name_of(root.children@[i]) is None)
                &&& e is FieldMappingFailure
            },
        },
{
    let cs = &root.children;
    let m = cs.len();
    let mut out: Vec<Game> = Vec::new();
    let mut i: usize = 0;
    while i < m
        invariant
            i <= m == root.children@.len(),
            cs@ == root.children@,
            out@.len() == i,
            forall|k: int|
                0 <= k < i ==> game_detail_matches(#[trigger] out@[k], root.children@[k])
                    && valid_game(out@[k]),
        decreases m - i,
    {
        let e = &cs[i];
        let mut g = match Game::from_element(e) {
            Ok(g) => g,
            Err(err) => {
                return Err(err);
            },
        };
        let d = match Details::from_element(e) {
            Ok(d) => d,
            Err(err) => {
                return Err(err);
            },
        };
        g.details = Some(d);
        out.push(g);
        i = i + 1;
    }
    Ok(out)
}

/// Every search element resolves an identity and a name.
pub open spec fn search_results_ok(cs: Seq<XmlElement>) -> bool {
    forall|i: int|
        0 <= i < cs.len() ==> search_id_of(#[trigger] cs[i]) is Some && search_name_of(
            cs[i],
        ) is Some
}

/// Maps every child of a search document into a result record, in document
/// order; an element without identity or name aborts the whole search.
pub fn search_results(root: &XmlElement) -> (r: Result<Vec<SearchResult>, Error>)
    ensures
        match r {
            Ok(v) => {
                &&& search_results_ok(root.children@)
                &&& v@.len() == root.children@.len()
                &&& forall|i: int|
                    0 <= i < v@.len() ==> search_id_of(root.children@[i]) == Some(
                        (#[trigger] v@[i]).id,
                    ) && search_name_of(root.children@[i]) == Some(v@[i].name)
            },
            Err(e) => {
                &&& !search_results_ok(root.children@)
                &&& e is FieldMappingFailure
            },
        },
{
    let cs = &root.children;
    let m = cs.len();
    let mut out: Vec<SearchResult> = Vec::new();
    let mut i: usize = 0;
    while i < m
        invariant
            i <= m == root.children@.len(),
            cs@ == root.children@,
            out@.len() == i,
            forall|k: int|
                0 <= k < i ==> search_id_of(root.children@[k]) == Some((#[trigger] out@[k]).id)
                    && search_name_of(root.children@[k]) == Some(out@[k].name),
        decreases m - i,
    {
        match SearchResult::from_element(&cs[i]) {
            Ok(sr) => {
                out.push(sr);
            },
            Err(err) => {
                return Err(err);
            },
        }
        i = i + 1;
    }
    proof {
        assert forall|k: int| 0 <= k < root.children@.len() implies search_id_of(
            #[trigger] root.children@[k],
        ) is Some && search_name_of(root.children@[k]) is Some by {
            assert(search_id_of(root.children@[k]) == Some(out@[k].id));
        }
    }
    Ok(out)
}

/// Decides one HTTP outcome: a success status yields the body unchanged,
/// any other status the failure carrying exactly that status.
pub fn classify_response(status: u16, body: String) -> (r: Result<String, Error>)
    ensures
        200 <= status < 300 ==> r == Ok::<String, Error>(body),
        !(200 <= status < 300) ==> (r matches Err(Error::RemoteStatusFailure { status: s }) && s
            == status),
{
    if 200 <= status && status < 300 {
        Ok(body)
    } else {
        Err(Error::RemoteStatusFailure { status })
    }
}

/// Query pairs of a collection request: the user's name, with the
/// expansion subtype excluded.
pub fn collection_params(user: &str) -> (r: Vec<(String, String)>)
    ensures
        r@.len() == 2,
        r@[0].0@ == "username"@ && r@[0].1@ == user@,
        r@[1].0@ == "excludesubtype"@ && r@[1].1@ == "boardgameexpansion"@,
{
    let mut params: Vec<(String, String)> = Vec::new();
    params.push(("username".to_owned(), user.to_owned()));
    params.push(("excludesubtype".to_owned(), "boardgameexpansion".to_owned()));
    params
}

/// Query pairs of a detail request: the comma-joined identifiers, with
/// statistics asked for.
pub fn detail_params(ids: &Vec<u32>) -> (r: Vec<(String, String)>)
    ensures
        r@.len() == 2,
        r@[0].0@ == "id"@ && r@[0].1@ == ids_string(ids@),
        r@[1].0@ == "stats"@ && r@[1].1@ == "1"@,
{
    let mut params: Vec<(String, String)> = Vec::new();
    params.push(("id".to_owned(), join_ids(ids)));
    params.push(("stats".to_owned(), "1".to_owned()));
    params
}

/// Query pairs of a search request: the query string, restricted to the
/// board-game item type.
pub fn search_params(query: &str) -> (r: Vec<(String, String)>)
    ensures
        r@.len() == 2,
        r@[0].0@ == "query"@ && r@[0].1@ == query@,
        r@[1].0@ == "type"@ && r@[1].1@ == "boardgame"@,
{
    let mut params: Vec<(String, String)> = Vec::new();
    params.push(("query".to_owned(), query.to_owned()));
    params.push(("type".to_owned(), "boardgame".to_owned()));
    params
}

/// Root URL of the remote catalog service.
fn service_root() -> (r: &'static str)
    ensures
        r@ == "https://boardgamegeek.com/xmlapi2"@,
{
    "https://boardgamegeek.com/xmlapi2"
}

/// The full request URL for one operation and its query parameters under
/// the fixed service root, as the `url` crate builds and encodes it.
pub fn service_url(path: &str, params: &Vec<(String, String)>) -> (r: Option<String>)
    ensures
        match r {
            Some(u) => url_of(
                "https://boardgamegeek.com/xmlapi2"@,
                path@,
                params_view(params@),
            ) == Some(u@),
            None => url_of(
                "https://boardgamegeek.com/xmlapi2"@,
                path@,
                params_view(params@),
            ) is None,
        },
{
    build_service_url(service_root(), path, params)
}

/// Client for the remote catalog service: a reusable HTTP client against
/// the fixed service root, used strictly sequentially.
pub struct Bgg {
    client: reqwest::blocking::Client,
}

impl Bgg {
    /// Creates a client against the fixed service root; a transport stack
    /// that cannot be set up is a `TransportFailure`.
    pub fn new() -> (r: Result<Bgg, Error>)
        ensures
            r matches Err(e) ==> e is TransportFailure,
    {
        match new_client() {
            Ok(client) => Ok(Bgg { client }),
            Err(message) => Err(Error::TransportFailure { message }),
        }
    }

    /// Issues one GET under the service root and yields the body of a
    /// successful response. A request that cannot be built or sent is a
    /// `TransportFailure`; a non-success status is a `RemoteStatusFailure`
    /// carrying the numeric status. The outcome of the one transport call
    /// is decided by `classify_response`.
    fn request(&self, path: &str, params: Vec<(String, String)>) -> (r: Result<String, Error>)
        ensures
            url_of(
                "https://boardgamegeek.com/xmlapi2"@,
                path@,
                params_view(params@),
            ) is None ==> r is Err,
            match r {
                Ok(_) => true,
                Err(e) => match e {
                    Error::TransportFailure { .. } => true,
                    Error::RemoteStatusFailure { status } => !(200 <= status < 300),
                    _ => false,
                },
            },
    {
        match service_url(path, &params) {
            None => Err(Error::TransportFailure { message: "invalid request URL".to_owned() }),
            Some(url) => match http_get(&self.client, url.as_str()) {
                Err(message) => Err(Error::TransportFailure { message }),
                Ok((status, body)) => classify_response(status, body),
            },
        }
    }

    /// Fetches the collection listing of `user`, excluding the expansion
    /// subtype, and keeps the items whose ownership flag equals
    /// `only_owned`; an item that fails to map is dropped, never failing
    /// the whole listing. Every returned game is well-formed and not yet
    /// enriched.
    pub fn collection(&self, user: &str, only_owned: bool) -> (r: Result<Vec<Game>, Error>)
        ensures
            r matches Ok(v) ==> forall|i: int|
                0 <= i < v@.len() ==> valid_game(#[trigger] v@[i]) && v@[i].details is None,
            r matches Err(e) ==> !(e is FieldMappingFailure),
    {
        let body = match self.request("collection", collection_params(user)) {
            Ok(b) => b,
            Err(e) => {
                return Err(e);
            },
        };
        let root = match parse_document(body.as_str()) {
            Ok(root) => root,
            Err(e) => {
                return Err(e);
            },
        };
        collection_games(&root, only_owned, MalformedItemPolicy::Drop)
    }

    /// Looks up one batch of identifiers on the detail endpoint with
    /// statistics, and maps every response element. Every returned game is
    /// well-formed and fully enriched.
    fn details(&self, ids: &Vec<u32>) -> (r: Result<Vec<Game>, Error>)
        ensures
            r matches Ok(v) ==> forall|i: int|
                0 <= i < v@.len() ==> valid_game(#[trigger] v@[i]) && (v@[i].details
                    matches Some(d) && d.id == v@[i].id),
    {
        let body = match self.request("thing", detail_params(ids)) {
            Ok(b) => b,
            Err(e) => {
                return Err(e);
            },
        };
        let root = match parse_document(body.as_str()) {
            Ok(root) => root,
            Err(e) => {
                return Err(e);
            },
        };
        match detail_games(&root) {
            Ok(v) => {
                proof {
                    assert forall|i: int|
                        0 <= i < v@.len() implies valid_game(#[trigger] v@[i]) && (v@[i].details
                        matches Some(d) && d.id == v@[i].id) by {
                        assert(game_detail_matches(v@[i], root.children@[i]));
                    }
                }
                Ok(v)
            },
            Err(e) => Err(e),
        }
    }

    /// Looks up the details of one game by its identity. A response
    /// without any element is a mapping failure.
    pub fn detail(&self, id: u32) -> (r: Result<Game, Error>)
        ensures
            r matches Ok(g) ==> valid_game(g) && (g.details matches Some(d) && d.id == g.id),
    {
        let mut ids: Vec<u32> = Vec::new();
        ids.push(id);
        let mut games = match self.details(&ids) {
            Ok(v) => v,
            Err(e) => {
                return Err(e);
            },
        };
        if games.len() == 0 {
            return Err(
                Error::FieldMappingFailure { field: "item".to_owned(), value: String::new() },
            );
        }
        Ok(games.remove(0))
    }

    /// Enriches the games with details, looking their identities up in
    /// batches of at most `CHUNK_SIZE` and merging the responses by
    /// identity. Batches are issued strictly one after another, and a
    /// failing batch aborts the whole enrichment; a game whose identity is
    /// absent from the merged responses keeps `details == None`. Identity,
    /// name and play count of every game are preserved, in order.
    pub fn fill_details(&self, games: Vec<Game>) -> (r: Result<Vec<Game>, Error>)
        ensures
            r matches Ok(v) ==> {
                &&& v@.len() == games@.len()
                &&& forall|i: int|
                    0 <= i < v@.len() ==> (#[trigger] v@[i]).id == games@[i].id && v@[i].name
                        == games@[i].name && v@[i].plays == games@[i].plays
                &&& forall|i: int|
                    0 <= i < v@.len() ==> ((#[trigger] v@[i]).details matches Some(d) ==> d.id
                        == v@[i].id && valid_details(d))
            },
            games@.len() == 0 ==> r is Ok,
    {
        let mut ids: Vec<u32> = Vec::new();
        let gn = games.len();
        let mut i: usize = 0;
        while i < gn
            invariant
                i <= gn == games@.len(),
                ids@.len() == i,
            decreases gn - i,
        {
            ids.push(games[i].id);
            i = i + 1;
        }
        let batches = partition_batches(&ids, CHUNK_SIZE);
        proof {
            if games@.len() == 0 {
                assert(ids@.len() == 0);
                assert((ids@.len() + CHUNK_SIZE - 1) as int / (CHUNK_SIZE as int) == 0);
            }
        }
        let mut merged: Vec<(u32, Details)> = Vec::new();
        let bn = batches.len();
        let mut b: usize = 0;
        while b < bn
            invariant
                b <= bn == batches@.len(),
                games@.len() == 0 ==> bn == 0,
                entries_well_formed(merged@),
            decreases bn - b,
        {
            let mut rg = match self.details(&batches[b]) {
                Ok(v) => v,
                Err(e) => {
                    return Err(e);
                },
            };
            while rg.len() > 0
                invariant
                    entries_well_formed(merged@),
                    forall|k: int|
                        0 <= k < rg@.len() ==> valid_game(#[trigger] rg@[k]) && (rg@[k].details
                            matches Some(d) && d.id == rg@[k].id),
                decreases rg@.len(),
            {
                let g = rg.remove(0);
                match g.details {
                    Some(d) => {
                        merged.push((g.id, d));
                    },
                    None => {},
                }
            }
            b = b + 1;
        }
        let enriched = attach_details(games, &merged);
        proof {
            assert forall|i: int|
                0 <= i < enriched@.len() implies ((#[trigger] enriched@[i]).details
                matches Some(d) ==> d.id == enriched@[i].id && valid_details(d)) by {
                assert(game_enriched(enriched@[i], games@[i], merged@));
                lemma_lookup_well_formed(merged@, games@[i].id);
            }
        }
        Ok(enriched)
    }

    /// Searches the catalog by name, restricted to the board-game item
    /// type, and maps every result element. Every returned record has a
    /// positive identity and a non-empty name.
    pub fn search(&self, name: &str) -> (r: Result<Vec<SearchResult>, Error>)
        ensures
            r matches Ok(v) ==> forall|i: int|
                0 <= i < v@.len() ==> (#[trigger] v@[i]).id > 0 && v@[i].name@.len() > 0,
    {
        let body = match self.request("search", search_params(name)) {
            Ok(b) => b,
            Err(e) => {
                return Err(e);
            },
        };
        let root = match parse_document(body.as_str()) {
            Ok(root) => root,
            Err(e) => {
                return Err(e);
            },
        };
        search_results(&root)
    }
}

} // verus!
