//! The element tree the domain logic reads, and tolerant accessors over it:
//! locating a named child, a child with a matching attribute, child text,
//! and typed attribute values. Every accessor reports absence as a
//! recoverable value so that callers can apply per-field defaulting.

use vstd::prelude::*;
use crate::text::{parse_u32, parse_u32_spec, str_eq};

verus! {

/// One attribute of an element: a name and a string value.
pub struct XmlAttr {
    pub name: String,
    pub value: String,
}

/// An XML element as the domain logic sees it: tag name, attributes in
/// document order, the text content directly under the element (if any),
/// and the child elements in document order. Non-element nodes are not kept.
pub struct XmlElement {
    pub tag: String,
    pub attrs: Vec<XmlAttr>,
    pub text: Option<String>,
    pub children: Vec<XmlElement>,
}

/// A recoverable accessor failure: the requested child element was not
/// there, the requested attribute was not there, or an attribute was there
/// but its value could not be read at the requested type.
#[derive(Debug, PartialEq)]
pub enum XmlError {
    NotFound { name: String },
    AttributeMissing { name: String },
    ParseFailure { name: String, value: String },
}

/// Value of the first attribute named `name`, if any.
pub open spec fn attr_lookup(attrs: Seq<XmlAttr>, name: Seq<char>) -> Option<String>
    decreases attrs.len(),
{
    if attrs.len() == 0 {
        None
    } else if attrs[0].name@ == name {
        Some(attrs[0].value)
    } else {
        attr_lookup(attrs.drop_first(), name)
    }
}

/// Value of the first attribute of `e` named `name`, if any.
pub open spec fn attr_of(e: XmlElement, name: Seq<char>) -> Option<String> {
    attr_lookup(e.attrs@, name)
}

/// `e` carries an attribute `key` whose value is `value`.
pub open spec fn has_attr(e: XmlElement, key: Seq<char>, value: Seq<char>) -> bool {
    match attr_of(e, key) {
        Some(v) => v@ == value,
        None => false,
    }
}

/// First element of `cs` whose tag is `tag`, if any.
pub open spec fn find_child(cs: Seq<XmlElement>, tag: Seq<char>) -> Option<XmlElement>
    decreases cs.len(),
{
    if cs.len() == 0 {
        None
    } else if cs[0].tag@ == tag {
        Some(cs[0])
    } else {
        find_child(cs.drop_first(), tag)
    }
}

/// First element of `cs` whose tag is `tag` and which carries `key = value`.
pub open spec fn find_child_with_attr(
    cs: Seq<XmlElement>,
    tag: Seq<char>,
    key: Seq<char>,
    value: Seq<char>,
) -> Option<XmlElement>
    decreases cs.len(),
{
    if cs.len() == 0 {
        None
    } else if cs[0].tag@ == tag && has_attr(cs[0], key, value) {
        Some(cs[0])
    } else {
        find_child_with_attr(cs.drop_first(), tag, key, value)
    }
}

/// Text of the first child of `e` tagged `tag`, when both exist.
pub open spec fn child_text(e: XmlElement, tag: Seq<char>) -> Option<String> {
    match find_child(e.children@, tag) {
        Some(c) => c.text,
        None => None,
    }
}

/// Reference to the first attribute value of `n` named `name`.
pub(crate) fn attr_ref<'a>(n: &'a XmlElement, name: &str) -> (r: Option<&'a String>)
    ensures
        match r {
            Some(v) => attr_of(*n, name@) == Some(*v),
            None => attr_of(*n, name@) is None,
        },
{
    let m = n.attrs.len();
    let mut i: usize = 0;
    proof {
        assert(n.attrs@.skip(0) =~= n.attrs@);
    }
    while i < m
        invariant
            i <= m == n.attrs@.len(),
            attr_lookup(n.attrs@, name@) == attr_lookup(n.attrs@.skip(i as int), name@),
        decreases m - i,
    {
        proof {
            assert(n.attrs@.skip(i as int)[0] == n.attrs@[i as int]);
        }
        if str_eq(n.attrs[i].name.as_str(), name) {
            return Some(&n.attrs[i].value);
        }
        proof {
            assert(n.attrs@.skip(i as int).drop_first() =~= n.attrs@.skip(i + 1));
        }
        i = i + 1;
    }
    proof {
        assert(n.attrs@.skip(m as int) =~= Seq::<XmlAttr>::empty());
    }
    None
}

/// Looks up the attribute `name` on `n` and returns its string value.
pub fn attribute(n: &XmlElement, name: &str) -> (r: Result<String, XmlError>)
    ensures
        match r {
            Ok(v) => attr_of(*n, name@) == Some(v),
            Err(e) => {
                &&& attr_of(*n, name@) is None
                &&& e matches XmlError::AttributeMissing { name: a } && a@ == name@
            },
        },
{
    match attr_ref(n, name) {
        Some(v) => Ok(v.clone()),
        None => Err(XmlError::AttributeMissing { name: name.to_owned() }),
    }
}

/// True when `n` carries an attribute `key` whose value is `value`.
pub fn has_attribute(n: &XmlElement, key: &str, value: &str) -> (r: bool)
    ensures
        r == has_attr(*n, key@, value@),
{
    match attr_ref(n, key) {
        Some(v) => str_eq(v.as_str(), value),
        None => false,
    }
}

/// First child of `n` tagged `name`, or `NotFound`.
pub fn node<'a>(n: &'a XmlElement, name: &str) -> (r: Result<&'a XmlElement, XmlError>)
    ensures
        match r {
            Ok(c) => find_child(n.children@, name@) == Some(*c),
            Err(e) => {
                &&& find_child(n.children@, name@) is None
                &&& e matches XmlError::NotFound { name: a } && a@ == name@
            },
        },
{
    let m = n.children.len();
    let mut i: usize = 0;
    proof {
        assert(n.children@.skip(0) =~= n.children@);
    }
    while i < m
        invariant
            i <= m == n.children@.len(),
            find_child(n.children@, name@) == find_child(n.children@.skip(i as int), name@),
        decreases m - i,
    {
        proof {
            assert(n.children@.skip(i as int)[0] == n.children@[i as int]);
        }
        if str_eq(n.children[i].tag.as_str(), name) {
            return Ok(&n.children[i]);
        }
        proof {
            assert(n.children@.skip(i as int).drop_first() =~= n.children@.skip(i + 1));
        }
        i = i + 1;
    }
    proof {
        assert(n.children@.skip(m as int) =~= Seq::<XmlElement>::empty());
    }
    Err(XmlError::NotFound { name: name.to_owned() })
}

/// First child of `n` tagged `name` carrying `key = value`, or `NotFound`.
pub fn node_with_attr<'a>(n: &'a XmlElement, name: &str, key: &str, value: &str) -> (r: Result<
    &'a XmlElement,
    XmlError,
>)
    ensures
        match r {
            Ok(c) => find_child_with_attr(n.children@, name@, key@, value@) == Some(*c),
            Err(e) => {
                &&& find_child_with_attr(n.children@, name@, key@, value@) is None
                &&& e matches XmlError::NotFound { name: a } && a@ == name@
            },
        },
{
    let m = n.children.len();
    let mut i: usize = 0;
    proof {
        assert(n.children@.skip(0) =~= n.children@);
    }
    while i < m
        invariant
            i <= m == n.children@.len(),
            find_child_with_attr(n.children@, name@, key@, value@) == find_child_with_attr(
                n.children@.skip(i as int),
                name@,
                key@,
                value@,
            ),
        decreases m - i,
    {
        proof {
            assert(n.children@.skip(i as int)[0] == n.children@[i as int]);
        }
        if str_eq(n.children[i].tag.as_str(), name) && has_attribute(&n.children[i], key, value) {
            return Ok(&n.children[i]);
        }
        proof {
            assert(n.children@.skip(i as int).drop_first() =~= n.children@.skip(i + 1));
        }
        i = i + 1;
    }
    proof {
        assert(n.children@.skip(m as int) =~= Seq::<XmlElement>::empty());
    }
    Err(XmlError::NotFound { name: name.to_owned() })
}

/// Text content of the first child of `n` tagged `name`, or `NotFound` when
/// either the child or its text is absent.
pub fn node_text<'a>(n: &'a XmlElement, name: &str) -> (r: Result<&'a String, XmlError>)
    ensures
        match r {
            Ok(t) => child_text(*n, name@) == Some(*t),
            Err(e) => {
                &&& child_text(*n, name@) is None
                &&& e matches XmlError::NotFound { name: a } && a@ == name@
            },
        },
{
    match node(n, name) {
        Ok(c) => match c.text.as_ref() {
            Some(t) => Ok(t),
            None => Err(XmlError::NotFound { name: name.to_owned() }),
        },
        Err(e) => Err(e),
    }
}

/// Looks up the attribute `name` on `n` and reads it as a `u32`.
pub fn attribute_u32(n: &XmlElement, name: &str) -> (r: Result<u32, XmlError>)
    ensures
        match r {
            Ok(v) => attr_of(*n, name@) matches Some(a) && parse_u32_spec(a@) == Some(v),
            Err(err) => match err {
                XmlError::AttributeMissing { name: a } => {
                    &&& attr_of(*n, name@) is None
                    &&& a@ == name@
                },
                XmlError::ParseFailure { name: a, value } => {
                    &&& attr_of(*n, name@) == Some(value)
                    &&& parse_u32_spec(value@) is None
                    &&& a@ == name@
                },
                XmlError::NotFound { .. } => false,
            },
        },
{
    match attr_ref(n, name) {
        Some(v) => match parse_u32(v.as_str()) {
            Some(x) => Ok(x),
            None => Err(
                XmlError::ParseFailure { name: name.to_owned(), value: v.clone() },
            ),
        },
        None => Err(XmlError::AttributeMissing { name: name.to_owned() }),
    }
}

/// An attribute value read as a positive `u32`: `None` when the attribute is
/// absent, does not parse, or is zero.
pub open spec fn pos_u32_of(a: Option<String>) -> Option<u32> {
    match a {
        Some(s) => match parse_u32_spec(s@) {
            Some(v) => if v > 0 {
                Some(v)
            } else {
                None
            },
            None => None,
        },
        None => None,
    }
}

/// Identity of a record element: the `objectid` attribute when it holds a
/// positive integer, the `id` attribute otherwise.
pub open spec fn id_of(e: XmlElement) -> Option<u32> {
    match pos_u32_of(attr_of(e, "objectid"@)) {
        Some(v) => Some(v),
        None => pos_u32_of(attr_of(e, "id"@)),
    }
}

/// Display name of a record element, tried in order: non-empty text of the
/// first `name` child, then that child's non-empty `value` attribute.
pub open spec fn name_of(e: XmlElement) -> Option<String> {
    match find_child(e.children@, "name"@) {
        None => None,
        Some(c) => {
            let from_text = match c.text {
                Some(t) => if t@.len() > 0 {
                    Some(t)
                } else {
                    None
                },
                None => None,
            };
            match from_text {
                Some(t) => Some(t),
                None => match attr_of(c, "value"@) {
                    Some(v) => if v@.len() > 0 {
                        Some(v)
                    } else {
                        None
                    },
                    None => None,
                },
            }
        },
    }
}

/// Play count of a collection element: the text of its `numplays` child when
/// that parses, and `0` when the child, its text, or a readable value is
/// absent.
pub open spec fn plays_of(e: XmlElement) -> u32 {
    match child_text(e, "numplays"@) {
        Some(t) => match parse_u32_spec(t@) {
            Some(v) => v,
            None => 0,
        },
        None => 0,
    }
}

/// The attribute `name` read as a positive `u32`, when possible.
pub(crate) fn pos_attr_u32(n: &XmlElement, name: &str) -> (r: Option<u32>)
    ensures
        r == pos_u32_of(attr_of(*n, name@)),
{
    match attr_ref(n, name) {
        Some(v) => match parse_u32(v.as_str()) {
            Some(x) => if x > 0 {
                Some(x)
            } else {
                None
            },
            None => None,
        },
        None => None,
    }
}

/// Identity of a record element, from `objectid` or `id`; a record without a
/// readable positive identity is a mapping failure, never a default.
pub fn get_id(n: &XmlElement) -> (r: Result<u32, XmlError>)
    ensures
        match r {
            Ok(v) => id_of(*n) == Some(v),
            Err(e) => {
                &&& id_of(*n) is None
                &&& match e {
                    XmlError::ParseFailure { name: a, value } => {
                        &&& a@ == "id"@
                        &&& attr_of(*n, "id"@) == Some(value)
                    },
                    XmlError::AttributeMissing { name: a } => {
                        &&& a@ == "id"@
                        &&& attr_of(*n, "id"@) is None
                    },
                    XmlError::NotFound { .. } => false,
                }
            },
        },
{
    match pos_attr_u32(n, "objectid") {
        Some(v) => Ok(v),
        None => match pos_attr_u32(n, "id") {
            Some(v) => Ok(v),
            None => match attr_ref(n, "id") {
                Some(raw) => Err(
                    XmlError::ParseFailure { name: "id".to_owned(), value: raw.clone() },
                ),
                None => Err(XmlError::AttributeMissing { name: "id".to_owned() }),
            },
        },
    }
}

/// Display name of a record element, from the first `name` child's text or
/// its `value` attribute, whichever is first non-empty.
pub fn get_name(n: &XmlElement) -> (r: Result<String, XmlError>)
    ensures
        match r {
            Ok(s) => name_of(*n) == Some(s),
            Err(e) => {
                &&& name_of(*n) is None
                &&& match e {
                    XmlError::NotFound { name: a } => {
                        &&& a@ == "name"@
                        &&& find_child(n.children@, "name"@) is None
                    },
                    XmlError::AttributeMissing { name: a } => {
                        &&& a@ == "value"@
                        &&& find_child(n.children@, "name"@) is Some
                    },
                    XmlError::ParseFailure { .. } => false,
                }
            },
        },
{
    match node(n, "name") {
        Err(e) => Err(e),
        Ok(c) => {
            match c.text.as_ref() {
                Some(t) => if !t.as_str().is_empty() {
                    return Ok(t.clone());
                },
                None => {},
            }
            match attr_ref(c, "value") {
                Some(v) => if !v.as_str().is_empty() {
                    Ok(v.clone())
                } else {
                    Err(XmlError::AttributeMissing { name: "value".to_owned() })
                },
                None => Err(XmlError::AttributeMissing { name: "value".to_owned() }),
            }
        },
    }
}

/// Play count of a collection element; absence or an unreadable value
/// degrades to `0` rather than failing the record.
pub fn get_num_plays(n: &XmlElement) -> (r: u32)
    ensures
        r == plays_of(*n),
{
    match node_text(n, "numplays") {
        Ok(t) => match parse_u32(t.as_str()) {
            Some(v) => v,
            None => 0,
        },
        Err(_) => 0,
    }
}

/// A collection element without a `numplays` child keeps the default of
/// zero recorded plays.
pub proof fn lemma_plays_default(e: XmlElement)
    requires
        find_child(e.children@, "numplays"@) is None,
    ensures
        plays_of(e) == 0,
{
}

} // verus!
