//! The XML reader: `quick_xml` tokenizes the document, and the library reads
//! plain values out of its events. Every function here that touches
//! `quick_xml` is a trusted wrapper; the reader's state is opaque, so what an
//! event holds is not stated, and the parser is verified for every event.

use vstd::prelude::*;
use quick_xml::events::Event;

use crate::error::XbrlError;
use crate::text::chars_of;
use vstd::string::StringSliceAdditionalSpecFns;
use vstd::utf8::decode_utf8;

verus! {

pub type QuickXmlError = quick_xml::Error;

pub type XmlAttrError = quick_xml::events::attributes::AttrError;

#[verifier::external_type_specification]
#[verifier::external_body]
pub struct ExQuickXmlError(quick_xml::Error);

#[verifier::external_type_specification]
#[verifier::external_body]
pub struct ExAttrError(quick_xml::events::attributes::AttrError);

#[verifier::external_type_specification]
#[verifier::external_body]
pub struct ExUtf8Error(core::str::Utf8Error);

#[verifier::external_type_specification]
#[verifier::external_body]
#[verifier::reject_recursive_types(R)]
pub struct ExReader<R>(quick_xml::reader::Reader<R>);

#[verifier::external_type_specification]
#[verifier::external_body]
pub struct ExBytesStart<'a>(quick_xml::events::BytesStart<'a>);

#[verifier::external_type_specification]
#[verifier::external_body]
pub struct ExAttribute<'a>(quick_xml::events::attributes::Attribute<'a>);

#[verifier::external_type_specification]
#[verifier::external_body]
pub struct ExAttributes<'a>(quick_xml::events::attributes::Attributes<'a>);

/// An XML event, with the parts the parser reads taken out as plain values.
pub enum XmlEvent<'a> {
    /// An opening tag, with its raw qualified name.
    Start(quick_xml::events::BytesStart<'a>, Vec<u8>),
    /// A self-closing tag, with its raw qualified name.
    Empty(quick_xml::events::BytesStart<'a>, Vec<u8>),
    /// A closing tag, with its raw qualified name.
    End(Vec<u8>),
    /// Character data, still escaped.
    Text(Vec<u8>),
    /// A CDATA section's content.
    CData(Vec<u8>),
    /// The end of the document.
    Eof,
    /// Anything else (comments, declarations, processing instructions).
    Other,
}

/// `str::from_utf8`: succeeds exactly on valid UTF-8, and then the string's
/// bytes are the input.
#[verifier::external_body]
pub(crate) fn str_from_utf8(b: &[u8]) -> (r: Result<&str, core::str::Utf8Error>)
    ensures
        r is Ok <==> vstd::utf8::valid_utf8(b@),
        r matches Ok(s) ==> s.spec_bytes() == b@ && s@ == decode_utf8(b@),
{
    core::str::from_utf8(b)
}

/// The offset of the first invalid byte (`Utf8Error::valid_up_to`). The
/// error is opaque here and carries no link to the bytes it was found in,
/// so nothing is stated of the offset.
#[verifier::external_body]
pub(crate) fn utf8_valid_up_to(e: &core::str::Utf8Error) -> usize {
    e.valid_up_to()
}

/// The message of a UTF-8 error.
#[verifier::external_body]
pub(crate) fn utf8_error_message(e: &core::str::Utf8Error) -> String {
    e.to_string()
}

/// An attribute as `quick_xml` yields it: the raw key and the raw (still
/// escaped) value, or `None` for a malformed or (when checked) repeated one.
pub type AttrItem = Option<(Seq<u8>, Seq<u8>)>;

/// An event as `quick_xml` yields it, with the reader's byte position after
/// it (`end`). A start or empty tag also carries its attributes, unchecked
/// and checked for repeated names, and the raw text `Reader::read_text`
/// gives when called with its name right after it.
pub ghost enum XmlItem {
    /// Nothing read yet.
    Begin,
    Start { name: Seq<u8>, attrs: Seq<AttrItem>, checked: Seq<AttrItem>, inner: Seq<char>, end: u64 },
    Empty { name: Seq<u8>, attrs: Seq<AttrItem>, checked: Seq<AttrItem>, inner: Seq<char>, end: u64 },
    End { name: Seq<u8>, end: u64 },
    Text { raw: Seq<u8>, end: u64 },
    CData { raw: Seq<u8>, end: u64 },
    Eof { end: u64 },
    Other { end: u64 },
    Error,
}

/// The reader's byte position after an item.
pub open spec fn item_end(i: XmlItem) -> u64 {
    match i {
        XmlItem::Start { end, .. } => end,
        XmlItem::Empty { end, .. } => end,
        XmlItem::End { end, .. } => end,
        XmlItem::Text { end, .. } => end,
        XmlItem::CData { end, .. } => end,
        XmlItem::Eof { end } => end,
        XmlItem::Other { end } => end,
        _ => 0,
    }
}

/// The raw name of a start or empty tag.
pub open spec fn item_name(i: XmlItem) -> Option<Seq<u8>> {
    match i {
        XmlItem::Start { name, .. } => Some(name),
        XmlItem::Empty { name, .. } => Some(name),
        _ => None,
    }
}

/// The text `Reader::read_text` gives right after a start or empty tag.
pub open spec fn item_inner(i: XmlItem) -> Option<Seq<char>> {
    match i {
        XmlItem::Start { inner, .. } => Some(inner),
        XmlItem::Empty { inner, .. } => Some(inner),
        _ => None,
    }
}

/// The unchecked attributes of a start or empty tag.
pub open spec fn item_attrs(i: XmlItem) -> Seq<AttrItem> {
    match i {
        XmlItem::Start { attrs, .. } => attrs,
        XmlItem::Empty { attrs, .. } => attrs,
        _ => Seq::empty(),
    }
}

/// The attributes of a start or empty tag, checked for repeated names.
pub open spec fn item_checked(i: XmlItem) -> Seq<AttrItem> {
    match i {
        XmlItem::Start { checked, .. } => checked,
        XmlItem::Empty { checked, .. } => checked,
        _ => Seq::empty(),
    }
}

/// The events `quick_xml` reads from `text` (`Reader::from_str` with
/// `trim_text(true)`, then `read_event` until the first end of input or
/// error, that one included).
pub uninterp spec fn xml_items(text: Seq<char>) -> Seq<XmlItem>;

/// What a reader holds: the event it read last (`Begin` before any), then
/// the events it has yet to give.
pub uninterp spec fn reader_items(r: quick_xml::reader::Reader<&[u8]>) -> Seq<XmlItem>;

/// The attributes a tag yields (`BytesStart::attributes`), up to and
/// including the first error.
pub uninterp spec fn start_attrs(e: quick_xml::events::BytesStart) -> Seq<AttrItem>;

/// The attributes a tag yields with the check for repeated names.
pub uninterp spec fn start_attrs_checked(e: quick_xml::events::BytesStart) -> Seq<AttrItem>;

/// The attributes an attribute iterator has yet to yield.
pub uninterp spec fn attrs_left(it: quick_xml::events::attributes::Attributes) -> Seq<AttrItem>;

/// The events of an input of `len` bytes end with the first end of input
/// or error, and every position lies within the input and comes no earlier
/// than those before it (the reader only moves forward); a start or empty
/// tag takes at least one byte.
pub open spec fn items_end_well(items: Seq<XmlItem>, len: int) -> bool {
    &&& items.len() > 0
    &&& (items.last() is Eof || items.last() is Error)
    &&& forall|i: int| 0 <= i < items.len() - 1 ==> !(#[trigger] items[i] is Eof) && !(items[i] is Error)
    &&& forall|i: int| 0 <= i < items.len() ==> !(#[trigger] items[i] is Begin)
    &&& forall|i: int| 0 <= i < items.len() ==> item_end(#[trigger] items[i]) <= len
    &&& forall|i: int, j: int|
        0 <= i <= j < items.len() && !(items[j] is Error) ==> item_end(#[trigger] items[i]) <= item_end(
            #[trigger] items[j],
        )
    &&& forall|i: int| 0 <= i < items.len() && (items[i] is Start || items[i] is Empty) ==> 0 < item_end(#[trigger] items[i])
    &&& forall|i: int, j: int|
        0 <= j < i < items.len() && (items[i] is Start || items[i] is Empty) ==> item_end(#[trigger] items[j])
            < item_end(#[trigger] items[i])
}

/// An event returned by `read_event` is the item the reader gave.
pub open spec fn event_is(r: Result<XmlEvent, quick_xml::Error>, item: XmlItem) -> bool {
    match (r, item) {
        (Ok(XmlEvent::Start(e, n)), XmlItem::Start { name, attrs, checked, .. }) => n@ == name && start_attrs(e)
            == attrs && start_attrs_checked(e) == checked,
        (Ok(XmlEvent::Empty(e, n)), XmlItem::Empty { name, attrs, checked, .. }) => n@ == name && start_attrs(e)
            == attrs && start_attrs_checked(e) == checked,
        (Ok(XmlEvent::End(n)), XmlItem::End { name, .. }) => n@ == name,
        (Ok(XmlEvent::Text(b)), XmlItem::Text { raw, .. }) => b@ == raw,
        (Ok(XmlEvent::CData(b)), XmlItem::CData { raw, .. }) => b@ == raw,
        (Ok(XmlEvent::Eof), XmlItem::Eof { .. }) => true,
        (Ok(XmlEvent::Other), XmlItem::Other { .. }) => true,
        (Err(_), XmlItem::Error) => true,
        _ => false,
    }
}

/// The position in `items`, from `from` on, of the closing tag `name` that
/// ends an element opened just before `from`: inner start tags of the same
/// name open further levels, and the end of input or an error comes first
/// when there is none.
pub open spec fn closing_index(items: Seq<XmlItem>, name: Seq<u8>, depth: nat, from: int) -> Option<int>
    decreases items.len() - from,
{
    if from < 0 || from >= items.len() {
        None
    } else {
        match items[from] {
            XmlItem::Start { name: n, .. } => if n == name {
                closing_index(items, name, depth + 1, from + 1)
            } else {
                closing_index(items, name, depth, from + 1)
            },
            XmlItem::End { name: n, .. } => if n == name {
                if depth == 0 {
                    Some(from)
                } else {
                    closing_index(items, name, (depth - 1) as nat, from + 1)
                }
            } else {
                closing_index(items, name, depth, from + 1)
            },
            XmlItem::Eof { .. } => None,
            XmlItem::Error => None,
            _ => closing_index(items, name, depth, from + 1),
        }
    }
}

/// A `quick_xml` reader over `input` that trims white space around text
/// (`Reader::from_str` and `trim_text(true)`); it gives the events of the
/// input, which end with the first end of input or error.
#[verifier::external_body]
pub(crate) fn new_reader<'a>(input: &'a str) -> (r: quick_xml::reader::Reader<&'a [u8]>)
    ensures
        reader_items(r) == seq![XmlItem::Begin] + xml_items(input@),
        items_end_well(reader_items(r).drop_first(), input.spec_bytes().len() as int),
{
    let mut reader = quick_xml::reader::Reader::from_str(input);
    reader.config_mut().trim_text(true);
    reader
}

/// The next event (`Reader::read_event`): the next item the reader holds,
/// which becomes the last one read.
#[verifier::external_body]
pub(crate) fn read_event<'a>(reader: &mut quick_xml::reader::Reader<&'a [u8]>) -> (r: Result<
    XmlEvent<'a>,
    quick_xml::Error,
>)
    ensures
        reader_items(*old(reader)).len() > 1 ==> event_is(r, reader_items(*old(reader))[1])
            && reader_items(*final(reader)) == reader_items(*old(reader)).drop_first(),
{
    match reader.read_event() {
        Ok(Event::Start(e)) => Ok(XmlEvent::Start(e.to_owned(), e.name().0.to_vec())),
        Ok(Event::Empty(e)) => Ok(XmlEvent::Empty(e.to_owned(), e.name().0.to_vec())),
        Ok(Event::End(e)) => Ok(XmlEvent::End(e.name().0.to_vec())),
        Ok(Event::Text(t)) => Ok(XmlEvent::Text(t.to_vec())),
        Ok(Event::CData(t)) => Ok(XmlEvent::CData(t.to_vec())),
        Ok(Event::Eof) => Ok(XmlEvent::Eof),
        Ok(_) => Ok(XmlEvent::Other),
        Err(e) => Err(e),
    }
}

/// The reader's byte offset into the input (`Reader::buffer_position`):
/// the position after the last event read, when that event was not an
/// error. After an error it counts the bytes consumed up to the error,
/// which the model does not record, so nothing is stated then.
#[verifier::external_body]
pub(crate) fn buffer_position(reader: &quick_xml::reader::Reader<&[u8]>) -> (r: u64)
    ensures
        reader_items(*reader).len() > 0 && !(reader_items(*reader)[0] is Error) ==> r == item_end(
            reader_items(*reader)[0],
        ),
{
    reader.buffer_position()
}

/// The raw text up to the closing tag `name`, consuming it
/// (`Reader::read_text`). Right after a start or empty tag of that name, it
/// gives that tag's inner text when a closing tag of that name at the same
/// level comes before the end of input or an error, and that closing tag
/// becomes the last event read; otherwise it fails.
#[verifier::external_body]
pub(crate) fn read_text(reader: &mut quick_xml::reader::Reader<&[u8]>, name: &[u8]) -> (r: Result<
    String,
    quick_xml::Error,
>)
    ensures
        ({
            let items = reader_items(*old(reader));
            items.len() > 0 && item_name(items[0]) == Some(name@) ==> match closing_index(items, name@, 0, 1) {
                Some(j) => r matches Ok(t) && Some(t@) == item_inner(items[0]) && reader_items(*final(reader))
                    == items.subrange(j, items.len() as int),
                None => r is Err,
            }
        }),
{
    match reader.read_text(quick_xml::name::QName(name)) {
        Ok(t) => Ok(t.into_owned()),
        Err(e) => Err(e),
    }
}

/// The attributes of a tag (`BytesStart::attributes`), with or without the
/// check for repeated names (`with_checks`).
#[verifier::external_body]
pub(crate) fn element_attributes<'b>(e: &'b quick_xml::events::BytesStart, checks: bool) -> (r:
    quick_xml::events::attributes::Attributes<'b>)
    ensures
        attrs_left(r) == if checks {
            start_attrs_checked(*e)
        } else {
            start_attrs(*e)
        },
{
    let mut it = e.attributes();
    it.with_checks(checks);
    it
}

/// The next attribute's raw key and raw (escaped) value (`Iterator::next`
/// of `Attributes`): the first attribute left, or `None` when none is left.
#[verifier::external_body]
pub(crate) fn next_attribute(it: &mut quick_xml::events::attributes::Attributes) -> (r: Option<
    Result<(Vec<u8>, Vec<u8>), quick_xml::events::attributes::AttrError>,
>)
    ensures
        attrs_left(*old(it)).len() == 0 ==> r is None,
        attrs_left(*old(it)).len() > 0 ==> match attrs_left(*old(it))[0] {
            Some((k, v)) => r matches Some(Ok((k2, v2))) && k2@ == k && v2@ == v && attrs_left(*final(it))
                == attrs_left(*old(it)).drop_first(),
            None => r matches Some(Err(_)),
        },
{
    match it.next() {
        Some(Ok(a)) => Some(Ok((a.key.as_ref().to_vec(), a.value.into_owned()))),
        Some(Err(e)) => Some(Err(e)),
        None => None,
    }
}

/// `quick_xml::escape::unescape` of the given text.
pub uninterp spec fn xml_unescape(s: Seq<char>) -> Option<Seq<char>>;

/// Resolves character and predefined entity references
/// (`quick_xml::escape::unescape`); text without `&` comes back unchanged.
#[verifier::external_body]
pub(crate) fn unescape(s: &str) -> (r: Result<String, quick_xml::Error>)
    ensures
        match r {
            Ok(t) => xml_unescape(s@) == Some(t@),
            Err(_) => xml_unescape(s@) is None,
        },
        r is Ok || s@.contains('&'),
        r matches Ok(t) ==> (!s@.contains('&') ==> t@ == s@),
{
    match quick_xml::escape::unescape(s) {
        Ok(t) => Ok(t.into_owned()),
        Err(e) => Err(quick_xml::Error::from(e)),
    }
}

/// Decodes raw XML text as UTF-8 and resolves its references, like
/// `BytesText::unescape` and `Attribute::decode_and_unescape_value`.
pub fn decode_escaped(b: &[u8]) -> (r: Result<String, XbrlError>)
    ensures
        match r {
            Ok(t) => vstd::utf8::valid_utf8(b@) && xml_unescape(decode_utf8(b@)) == Some(t@),
            Err(e) => if vstd::utf8::valid_utf8(b@) {
                xml_unescape(decode_utf8(b@)) is None && e is QuickXml
            } else {
                e is Xml
            },
        },
{
    match str_from_utf8(b) {
        Ok(s) => match unescape(s) {
            Ok(t) => Ok(t),
            Err(e) => Err(XbrlError::QuickXml(e)),
        },
        Err(e) => Err(XbrlError::Xml { message: utf8_error_message(&e), byte_offset: None }),
    }
}

/// The characters of raw bytes that must be UTF-8.
pub fn utf8_chars(b: &[u8]) -> (r: Result<Vec<char>, XbrlError>)
    ensures
        match r {
            Ok(v) => vstd::utf8::valid_utf8(b@) && v@ == decode_utf8(b@),
            Err(e) => !vstd::utf8::valid_utf8(b@) && e is Xml,
        },
{
    match str_from_utf8(b) {
        Ok(s) => Ok(chars_of(s)),
        Err(e) => Err(XbrlError::Xml { message: utf8_error_message(&e), byte_offset: None }),
    }
}

/// An attribute as text: its key as UTF-8 and its value as UTF-8 with its
/// references resolved; `None` for a malformed attribute or one that does
/// not decode.
pub open spec fn attr_text(a: AttrItem) -> Option<(Seq<char>, Seq<char>)> {
    match a {
        Some((k, v)) => if vstd::utf8::valid_utf8(k) && vstd::utf8::valid_utf8(v) && xml_unescape(
            decode_utf8(v),
        ) is Some {
            Some((decode_utf8(k), xml_unescape(decode_utf8(v)).unwrap()))
        } else {
            None
        },
        None => None,
    }
}

/// Attributes as text, in order; `None` when one of them does not read.
pub open spec fn attrs_text(items: Seq<AttrItem>) -> Option<Seq<(Seq<char>, Seq<char>)>>
    decreases items.len(),
{
    if items.len() == 0 {
        Some(Seq::empty())
    } else {
        match (attrs_text(items.drop_last()), attr_text(items.last())) {
            (Some(ps), Some(p)) => Some(ps.push(p)),
            _ => None,
        }
    }
}

/// Key and value pairs as text.
pub open spec fn pairs_text(v: Seq<(String, String)>) -> Seq<(Seq<char>, Seq<char>)> {
    v.map_values(|p: (String, String)| (p.0@, p.1@))
}

/// The attributes a tag yields, checked for repeated names or not.
pub open spec fn tag_attrs(e: quick_xml::events::BytesStart, checks: bool) -> Seq<AttrItem> {
    if checks {
        start_attrs_checked(e)
    } else {
        start_attrs(e)
    }
}

/// Reads every attribute of a tag as (key, value) strings, values
/// unescaped; with `checks`, a repeated attribute name is an error. It
/// fails exactly when one of the attributes does not read.
pub(crate) fn read_attributes(e: &quick_xml::events::BytesStart, checks: bool) -> (r: Result<Vec<(String, String)>, XbrlError>)
    ensures
        match attrs_text(tag_attrs(*e, checks)) {
            Some(ps) => r matches Ok(v) && pairs_text(v@) == ps,
            None => r is Err,
        },
{
    let mut it = element_attributes(e, checks);
    let ghost all = tag_attrs(*e, checks);
    let mut out: Vec<(String, String)> = Vec::new();
    let ghost mut i: int = 0;
    assert(all.take(0) =~= Seq::<AttrItem>::empty());
    assert(pairs_text(out@) =~= Seq::<(Seq<char>, Seq<char>)>::empty());
    assert(all.skip(0) =~= all);
    loop
        invariant
            0 <= i <= all.len(),
            attrs_left(it) == all.skip(i),
            attrs_text(all.take(i)) == Some(pairs_text(out@)),
            all == tag_attrs(*e, checks),
        decreases attrs_left(it).len(),
    {
        let ghost left = attrs_left(it);
        match next_attribute(&mut it) {
            None => {
                proof {
                    assert(all.take(i) =~= all);
                }
                return Ok(out);
            },
            Some(Err(err)) => {
                proof {
                    assert(left[0] == all[i]);
                    assert(all.take(i + 1).drop_last() =~= all.take(i));
                    lemma_attrs_text_prefix_none(all, i + 1);
                }
                return Err(XbrlError::XmlAttr(err));
            },
            Some(Ok((k, v))) => {
                let key = match str_from_utf8(k.as_slice()) {
                    Ok(s) => s.to_owned(),
                    Err(err) => {
                        proof {
                            assert(left[0] == all[i]);
                            assert(all.take(i + 1).drop_last() =~= all.take(i));
                            lemma_attrs_text_prefix_none(all, i + 1);
                        }
                        return Err(XbrlError::Xml { message: utf8_error_message(&err), byte_offset: None });
                    },
                };
                let value = match decode_escaped(v.as_slice()) {
                    Ok(t) => t,
                    Err(err) => {
                        proof {
                            assert(left[0] == all[i]);
                            assert(all.take(i + 1).drop_last() =~= all.take(i));
                            lemma_attrs_text_prefix_none(all, i + 1);
                        }
                        return Err(err);
                    },
                };
                let ghost before = out@;
                out.push((key, value));
                proof {
                    assert(left[0] == all[i]);
                    assert(all.take(i + 1).drop_last() =~= all.take(i));
                    assert(pairs_text(out@) =~= pairs_text(before).push((key@, value@)));
                    assert(all.skip(i).drop_first() =~= all.skip(i + 1));
                    i = i + 1;
                }
            },
        }
    }
}

/// Once a prefix of the attributes does not read, neither do they all.
proof fn lemma_attrs_text_prefix_none(all: Seq<AttrItem>, n: int)
    requires
        0 <= n <= all.len(),
        attrs_text(all.take(n)) is None,
    ensures
        attrs_text(all) is None,
    decreases all.len() - n,
{
    if n < all.len() {
        assert(all.take(n + 1).drop_last() =~= all.take(n));
        lemma_attrs_text_prefix_none(all, n + 1);
    } else {
        assert(all.take(n) =~= all);
    }
}

} // verus!
