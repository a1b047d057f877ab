//! The closed union of failures a remote operation can report: transport,
//! HTTP status, XML well-formedness, and field-level mapping, each with its
//! own payload, convertible from the lower layers by explicit adapters.

use vstd::prelude::*;
use crate::xml::XmlError;

verus! {

/// One failure of a remote operation. No failure is retried; every kind is
/// surfaced to the caller as a value of this type.
#[derive(Debug, PartialEq)]
pub enum Error {
    /// The request could not be built or sent, or the response not received.
    TransportFailure { message: String },
    /// The service answered with a non-success HTTP status.
    RemoteStatusFailure { status: u16 },
    /// The response body was not a well-formed XML document.
    MalformedDocument { message: String },
    /// A required field was missing or unreadable on an otherwise reachable
    /// element; carries the field's name and the raw value found.
    FieldMappingFailure { field: String, value: String },
}

impl Error {
    /// Adapter from an accessor failure to a field-level mapping failure,
    /// keeping the failing name and, where there is one, the raw value.
    pub fn from_xml_error(e: XmlError) -> (r: Error)
        ensures
            match e {
                XmlError::NotFound { name } => (r matches Error::FieldMappingFailure {
                    field,
                    value,
                } && field == name && value@ == Seq::<char>::empty()),
                XmlError::AttributeMissing { name } => (r matches Error::FieldMappingFailure {
                    field,
                    value,
                } && field == name && value@ == Seq::<char>::empty()),
                XmlError::ParseFailure { name, value: raw } => (r
                    matches Error::FieldMappingFailure { field, value } && field == name && value
                    == raw),
            },
    {
        match e {
            XmlError::NotFound { name } => Error::FieldMappingFailure {
                field: name,
                value: String::new(),
            },
            XmlError::AttributeMissing { name } => Error::FieldMappingFailure {
                field: name,
                value: String::new(),
            },
            XmlError::ParseFailure { name, value } => Error::FieldMappingFailure {
                field: name,
                value,
            },
        }
    }
}

} // verus!
