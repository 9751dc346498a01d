//! The library's error type.

use vstd::prelude::*;

use crate::text::{dec_string, u64_to_string};
use crate::xml::{QuickXmlError, XmlAttrError};

verus! {

/// What can go wrong while reading or normalizing an instance.
#[derive(Debug)]
#[non_exhaustive]
pub enum XbrlError {
    /// Malformed input, with the byte offset where it was detected if known.
    Xml { message: String, byte_offset: Option<u64> },
    /// A fact names a context that the instance does not define.
    MissingContext { context_ref: String },
    /// A fact names a unit that the instance does not define.
    MissingUnit { unit_ref: String },
    /// A numeric fact whose text is not a decimal number.
    InvalidDecimal { raw: String },
    /// An inline transform that is not supported.
    UnsupportedInlineTransform { format: String },
    /// Two members of an inline document set define the same id differently.
    IxdsConflict { kind: String, id: String },
    /// A feature that is not implemented.
    NotImplemented { feature: String },
    /// An error reported by the XML reader.
    QuickXml(QuickXmlError),
    /// An error reported while reading an attribute.
    XmlAttr(XmlAttrError),
}

/// How an optional offset is shown (`Debug` of `Option<u64>`).
pub open spec fn debug_offset(o: Option<u64>) -> Seq<char> {
    match o {
        Some(n) => "Some("@ + dec_string(n as nat) + ")"@,
        None => "None"@,
    }
}

/// `s` starts with `p`.
pub open spec fn starts_with(s: Seq<char>, p: Seq<char>) -> bool {
    p.len() <= s.len() && s.subrange(0, p.len() as int) == p
}

/// The message of a `quick_xml` error (its `Display`).
#[verifier::external_body]
fn quick_xml_message(e: &QuickXmlError) -> String {
    format!("{}", e)
}

/// The message of an attribute error (its `Display`).
#[verifier::external_body]
fn attr_error_message(e: &XmlAttrError) -> String {
    format!("{}", e)
}

fn joined(a: &str, b: &str) -> (r: String)
    ensures
        r@ == a@ + b@,
{
    let mut s = a.to_owned();
    s.append(b);
    s
}

impl XbrlError {
    /// The error's message.
    pub fn to_string(&self) -> (r: String)
        ensures
            match *self {
                XbrlError::Xml { message, byte_offset } => r@ == "XML parse error at byte "@ + debug_offset(
                    byte_offset,
                ) + ": "@ + message@,
                XbrlError::MissingContext { context_ref } => r@ == "missing context: "@ + context_ref@,
                XbrlError::MissingUnit { unit_ref } => r@ == "missing unit: "@ + unit_ref@,
                XbrlError::InvalidDecimal { raw } => r@ == "invalid decimal value: "@ + raw@,
                XbrlError::UnsupportedInlineTransform { format } => r@ == "unsupported inline transform: "@
                    + format@,
                XbrlError::IxdsConflict { kind, id } => r@ == "conflicting "@ + kind@ + " '"@ + id@
                    + "' across IXDS members"@,
                XbrlError::NotImplemented { feature } => r@ == "not implemented: "@ + feature@,
                XbrlError::QuickXml(_) => starts_with(r@, "XML error: "@),
                XbrlError::XmlAttr(_) => starts_with(r@, "XML attribute error: "@),
            },
    {
        match self {
            XbrlError::Xml { message, byte_offset } => {
                let off = match byte_offset {
                    Some(n) => {
                        let t = joined("Some(", u64_to_string(*n).as_str());
                        joined(t.as_str(), ")")
                    },
                    None => "None".to_owned(),
                };
                let a = joined("XML parse error at byte ", off.as_str());
                let b = joined(a.as_str(), ": ");
                joined(b.as_str(), message.as_str())
            },
            XbrlError::MissingContext { context_ref } => joined("missing context: ", context_ref.as_str()),
            XbrlError::MissingUnit { unit_ref } => joined("missing unit: ", unit_ref.as_str()),
            XbrlError::InvalidDecimal { raw } => joined("invalid decimal value: ", raw.as_str()),
            XbrlError::UnsupportedInlineTransform { format } => joined(
                "unsupported inline transform: ",
                format.as_str(),
            ),
            XbrlError::IxdsConflict { kind, id } => {
                let a = joined("conflicting ", kind.as_str());
                let b = joined(a.as_str(), " '");
                let c = joined(b.as_str(), id.as_str());
                joined(c.as_str(), "' across IXDS members")
            },
            XbrlError::NotImplemented { feature } => joined("not implemented: ", feature.as_str()),
            XbrlError::QuickXml(e) => {
                let m = quick_xml_message(e);
                let r = joined("XML error: ", m.as_str());
                assert(r@.subrange(0, "XML error: "@.len() as int) =~= "XML error: "@);
                r
            },
            XbrlError::XmlAttr(e) => {
                let m = attr_error_message(e);
                let r = joined("XML attribute error: ", m.as_str());
                assert(r@.subrange(0, "XML attribute error: "@.len() as int) =~= "XML attribute error: "@);
                r
            },
        }
    }
}

} // verus!
