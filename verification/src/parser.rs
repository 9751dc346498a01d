//! The instance parser: XBRL 2.1 instances and Inline XBRL documents read
//! into the lossless model, and the resolution of continuations and
//! footnote links once the document has been read.

use vstd::prelude::*;
use vstd::string::StringSliceAdditionalSpecFns;

use crate::error::XbrlError;
use vstd::utf8::decode_utf8;
use crate::xml::{
    attrs_text, buffer_position, closing_index, decode_escaped, item_attrs, item_end, item_inner,
    item_name, new_reader, pairs_text, read_attributes, read_event, reader_items, start_attrs, xml_items,
    xml_unescape, XmlItem, read_text, str_from_utf8, utf8_chars, utf8_error_message, utf8_valid_up_to, XmlEvent,
};
use crate::strmap::{kv_of, lemma_lex_irreflexive, lex_lt, StrMap};
use crate::text::{
    trim, trim_chars, concat_chars, is_blank,
    chars_of, clone_opt, copy_chars, is_lit, opt_view, parse_i32, parse_i32_chars, parse_u32,
    parse_u32_chars, rsplit_once, rsplit_once_chars, split_once, split_once_chars, str_eq,
    string_of, strip_prefix, strip_prefix_chars,
};
use crate::types::{
    Footnote, footnote_copy, InstanceDocument,
    Context, ContextElement, Decimals, Entity, InlineMeta, Period, Precision, QName, qname_same, RawFact,
    RawFactValue, Unit,
};

verus! {

// ---------------------------------------------------------------------------
// Namespaces and qualified names
// ---------------------------------------------------------------------------

/// The namespace bindings in scope: the default namespace and prefixes.
pub struct NamespaceMap {
    pub default: Option<String>,
    pub prefixed: StrMap<String>,
}

impl NamespaceMap {
    /// No bindings.
    pub fn new() -> (m: NamespaceMap)
        ensures
            m.default is None,
            m.prefixed.view() == Map::<Seq<char>, String>::empty(),
    {
        NamespaceMap { default: None, prefixed: StrMap::new() }
    }

    /// A copy of the bindings.
    pub fn duplicate(&self) -> (m: NamespaceMap)
        ensures
            m.default == self.default,
            m.prefixed.view() == self.prefixed.view(),
    {
        let mut p: StrMap<String> = StrMap::new();
        let n = self.prefixed.len();
        let mut i: usize = 0;
        while i < n
            invariant
                n == self.prefixed.kv().len(),
                i <= n,
                forall|k: Seq<char>| #[trigger]
                    p.view().contains_key(k) <==> exists|j: int|
                        0 <= j < i && #[trigger] self.prefixed.kv()[j].0 == k,
                forall|k: Seq<char>| #[trigger]
                    p.view().contains_key(k) ==> p.view()[k] == self.prefixed.view()[k],
            decreases n - i,
        {
            let (k, v) = self.prefixed.entry(i);
            p.insert(k.clone(), v.clone());
            i += 1;
        }
        proof {
            assert forall|k: Seq<char>| p.view().contains_key(k) == self.prefixed.view().contains_key(k) by {
                if self.prefixed.view().contains_key(k) {
                    assert(self.prefixed.has(k));
                }
            }
            assert(p.view() =~= self.prefixed.view());
        }
        NamespaceMap { default: clone_opt(&self.default), prefixed: p }
    }
}

/// The namespace a prefix (or, with `None`, the default) resolves to.
pub open spec fn ns_lookup(ns: NamespaceMap, prefix: Option<Seq<char>>) -> Option<Seq<char>> {
    match prefix {
        Some(p) => if ns.prefixed.view().contains_key(p) {
            Some(ns.prefixed.view()[p]@)
        } else {
            None
        },
        None => opt_view(ns.default),
    }
}

/// The qualified name `raw` denotes: split at the first `:` into prefix and
/// local name; the prefix resolves through `ns`, and an unprefixed name takes
/// the default namespace only when `default_namespace` is set.
pub open spec fn qname_of(raw: Seq<char>, ns: NamespaceMap, default_namespace: bool) -> (
    Option<Seq<char>>,
    Option<Seq<char>>,
    Seq<char>,
) {
    match split_once(raw, ':') {
        Some((p, l)) => (ns_lookup(ns, Some(p)), Some(p), l),
        None => (
            if default_namespace {
                ns_lookup(ns, None)
            } else {
                None
            },
            None,
            raw,
        ),
    }
}

/// The parts of a name as (namespace, prefix, local name) views.
pub open spec fn qname_parts(q: QName) -> (Option<Seq<char>>, Option<Seq<char>>, Seq<char>) {
    (opt_view(q.namespace_uri), opt_view(q.prefix), q.local_name@)
}

/// Resolves a lexical qualified name against the namespaces in scope.
pub fn parse_qname_str(raw: &str, namespaces: &NamespaceMap, default_namespace: bool) -> (q: QName)
    ensures
        qname_parts(q) == qname_of(raw@, *namespaces, default_namespace),
{
    let rc = chars_of(raw);
    match split_once_chars(rc.as_slice(), ':') {
        Some((p, l)) => {
            let ps = string_of(p.as_slice());
            let ns = match namespaces.prefixed.get(ps.as_str()) {
                Some(v) => Some(v.clone()),
                None => None,
            };
            QName { namespace_uri: ns, prefix: Some(ps), local_name: string_of(l.as_slice()) }
        },
        None => {
            let ns = if default_namespace {
                clone_opt(&namespaces.default)
            } else {
                None
            };
            QName { namespace_uri: ns, prefix: None, local_name: raw.to_owned() }
        },
    }
}

// ---------------------------------------------------------------------------
// Attributes
// ---------------------------------------------------------------------------

/// The local part of an attribute key (after its last `:`).
pub open spec fn local_key(k: Seq<char>) -> Seq<char> {
    match rsplit_once(k, ':') {
        Some((_, l)) => l,
        None => k,
    }
}

/// The attribute map and namespace bindings after reading one attribute:
/// `xmlns` sets the default namespace, `xmlns:p` binds `p`; any other key is
/// recorded under its full name (replacing an earlier value) and under its
/// local part unless that is already present.
pub open spec fn attr_step(
    st: (Map<Seq<char>, String>, Option<Seq<char>>, Map<Seq<char>, Seq<char>>),
    kv: (String, String),
) -> (Map<Seq<char>, String>, Option<Seq<char>>, Map<Seq<char>, Seq<char>>) {
    let (attrs, dflt, ns) = st;
    let (k, v) = kv;
    if k@ == "xmlns"@ {
        (attrs, Some(v@), ns)
    } else if strip_prefix(k@, "xmlns:"@) is Some {
        (attrs, dflt, ns.insert(strip_prefix(k@, "xmlns:"@).unwrap(), v@))
    } else {
        let a = attrs.insert(k@, v);
        let l = local_key(k@);
        (
            if a.contains_key(l) {
                a
            } else {
                a.insert(l, v)
            },
            dflt,
            ns,
        )
    }
}

/// `attr_step` over all attributes, in order.
pub open spec fn attrs_fold(
    pairs: Seq<(String, String)>,
    st: (Map<Seq<char>, String>, Option<Seq<char>>, Map<Seq<char>, Seq<char>>),
) -> (Map<Seq<char>, String>, Option<Seq<char>>, Map<Seq<char>, Seq<char>>)
    decreases pairs.len(),
{
    if pairs.len() == 0 {
        st
    } else {
        attr_step(attrs_fold(pairs.drop_last(), st), pairs.last())
    }
}

/// The prefix bindings of a namespace map as views.
pub open spec fn ns_view(ns: NamespaceMap) -> Map<Seq<char>, Seq<char>> {
    ns.prefixed.view().map_values(|v: String| v@)
}

/// Splits a tag's attributes into plain attributes and namespace bindings,
/// starting from the bindings inherited from the parent element.
pub fn collect_attrs(pairs: Vec<(String, String)>, namespaces: NamespaceMap) -> (r: (
    StrMap<String>,
    NamespaceMap,
))
    ensures
        (r.0.view(), opt_view(r.1.default), ns_view(r.1)) == attrs_fold(
            pairs@,
            (Map::empty(), opt_view(namespaces.default), ns_view(namespaces)),
        ),
{
    let ghost init = (Map::<Seq<char>, String>::empty(), opt_view(namespaces.default), ns_view(namespaces));
    let mut attrs: StrMap<String> = StrMap::new();
    let mut ns = namespaces;
    let mut i: usize = 0;
    let n = pairs.len();
    while i < n
        invariant
            n == pairs@.len(),
            i <= n,
            (attrs.view(), opt_view(ns.default), ns_view(ns)) == attrs_fold(pairs@.take(i as int), init),
        decreases n - i,
    {
        let (k, v) = (&pairs[i].0, &pairs[i].1);
        let ghost before = (attrs.view(), opt_view(ns.default), ns_view(ns));
        proof {
            assert(pairs@.take(i + 1).drop_last() == pairs@.take(i as int));
            assert(pairs@.take(i + 1).last() == pairs@[i as int]);
        }
        let kc = chars_of(k.as_str());
        let prefix: [char; 6] = ['x', 'm', 'l', 'n', 's', ':'];
        proof {
            reveal_strlit("xmlns:");
            assert(prefix@ =~= "xmlns:"@);
        }
        if is_lit(kc.as_slice(), "xmlns") {
            ns.default = Some(v.clone());
        } else {
            match strip_prefix_chars(kc.as_slice(), prefix.as_slice()) {
                Some(p) => {
                    ns.prefixed.insert(string_of(p.as_slice()), v.clone());
                    proof {
                        assert(ns_view(ns) =~= before.2.insert(p@, v@));
                    }
                },
                None => {
                    attrs.insert(k.clone(), v.clone());
                    let local = match rsplit_once_chars(kc.as_slice(), ':') {
                        Some((_, l)) => l,
                        None => kc,
                    };
                    let ls = string_of(local.as_slice());
                    if !attrs.contains_key(ls.as_str()) {
                        attrs.insert(ls, v.clone());
                    }
                },
            }
        }
        i += 1;
    }
    assert(pairs@.take(n as int) == pairs@);
    (attrs, ns)
}

/// The value of attribute `key`, if present.
pub open spec fn attr(attrs: StrMap<String>, key: Seq<char>) -> Option<String> {
    if attrs.view().contains_key(key) {
        Some(attrs.view()[key])
    } else {
        None
    }
}

/// A copy of the value of attribute `key`.
pub fn get_attr(attrs: &StrMap<String>, key: &str) -> (r: Option<String>)
    ensures
        r == attr(*attrs, key@),
{
    match attrs.get(key) {
        Some(v) => Some(v.clone()),
        None => None,
    }
}

/// `attrs[a]`, else `attrs[b]`.
pub open spec fn attr_or(attrs: StrMap<String>, a: Seq<char>, b: Seq<char>) -> Option<String> {
    match attr(attrs, a) {
        Some(v) => Some(v),
        None => attr(attrs, b),
    }
}

pub fn get_attr_or(attrs: &StrMap<String>, a: &str, b: &str) -> (r: Option<String>)
    ensures
        r == attr_or(*attrs, a@, b@),
{
    match get_attr(attrs, a) {
        Some(v) => Some(v),
        None => get_attr(attrs, b),
    }
}

// ---------------------------------------------------------------------------
// decimals and precision
// ---------------------------------------------------------------------------

/// The `decimals` attribute: `INF` or a signed 32-bit integer.
pub open spec fn decimals_of(v: Seq<char>) -> Option<Decimals> {
    if v == "INF"@ {
        Some(Decimals::Infinite)
    } else {
        match parse_i32(v) {
            Some(n) => Some(Decimals::Value { n }),
            None => None,
        }
    }
}

/// The `precision` attribute: `INF` or an unsigned 32-bit integer.
pub open spec fn precision_of(v: Seq<char>) -> Option<Precision> {
    if v == "INF"@ {
        Some(Precision::Infinite)
    } else {
        match parse_u32(v) {
            Some(n) => Some(Precision::Value { n }),
            None => None,
        }
    }
}

/// Reads a `decimals` attribute; anything else is an XML error.
pub fn parse_decimals(value: &str) -> (r: Result<Decimals, XbrlError>)
    ensures
        match r {
            Ok(d) => decimals_of(value@) == Some(d),
            Err(e) => decimals_of(value@) is None && is_invalid_value(e, "decimals"@, value@),
        },
{
    let v = chars_of(value);
    if is_lit(v.as_slice(), "INF") {
        Ok(Decimals::Infinite)
    } else {
        match parse_i32_chars(v.as_slice()) {
            Some(n) => Ok(Decimals::Value { n }),
            None => Err(
                XbrlError::Xml {
                    message: invalid_value_message("decimals", value),
                    byte_offset: None,
                },
            ),
        }
    }
}

/// Reads a `precision` attribute; anything else is an XML error.
pub fn parse_precision(value: &str) -> (r: Result<Precision, XbrlError>)
    ensures
        match r {
            Ok(p) => precision_of(value@) == Some(p),
            Err(e) => precision_of(value@) is None && is_invalid_value(e, "precision"@, value@),
        },
{
    let v = chars_of(value);
    if is_lit(v.as_slice(), "INF") {
        Ok(Precision::Infinite)
    } else {
        match parse_u32_chars(v.as_slice()) {
            Some(n) => Ok(Precision::Value { n }),
            None => Err(
                XbrlError::Xml {
                    message: invalid_value_message("precision", value),
                    byte_offset: None,
                },
            ),
        }
    }
}

/// `e` is the error for an attribute value that does not read:
/// `invalid <what> value: <value>`, at no known offset.
pub open spec fn is_invalid_value(e: XbrlError, what: Seq<char>, value: Seq<char>) -> bool {
    e matches XbrlError::Xml { message, byte_offset } && byte_offset is None && message@ == "invalid "@ + what
        + " value: "@ + value
}

/// `invalid <what> value: <value>`.
fn invalid_value_message(what: &str, value: &str) -> (m: String)
    ensures
        m@ == "invalid "@ + what@ + " value: "@ + value@,
{
    let mut m = "invalid ".to_owned();
    m.append(what);
    m.append(" value: ");
    m.append(value);
    m
}


// ---------------------------------------------------------------------------
// Builders
// ---------------------------------------------------------------------------

/// Where explicit and typed members of a context currently go.
#[derive(Clone, Copy, Debug, PartialEq, Eq)]
pub enum ContextContainer {
    Outside,
    Segment,
    Scenario,
}

/// A context being read.
pub struct ContextBuilder {
    pub id: String,
    pub entity_scheme: Option<String>,
    pub entity_identifier: Option<String>,
    pub period: Option<Period>,
    pub start_date: Option<String>,
    pub end_date: Option<String>,
    pub segment: Vec<ContextElement>,
    pub scenario: Vec<ContextElement>,
    pub container: ContextContainer,
}

/// The context a finished builder yields: its period (or a duration from
/// its start and end dates) and its entity must both be known.
pub open spec fn built_context(b: ContextBuilder) -> Option<Context> {
    let period = match b.period {
        Some(p) => Some(p),
        None => match (b.start_date, b.end_date) {
            (Some(s), Some(e)) => Some(Period::Duration { start: s, end: e }),
            _ => None,
        },
    };
    match (period, b.entity_scheme, b.entity_identifier) {
        (Some(p), Some(sc), Some(idn)) => Some(
            Context {
                id: b.id,
                entity: Entity { scheme: sc, identifier: idn },
                period: p,
                segment: b.segment,
                scenario: b.scenario,
            },
        ),
        _ => None,
    }
}

/// A context builder for `id` that has read nothing yet.
pub open spec fn fresh_context(b: ContextBuilder, id: String) -> bool {
    &&& b.id == id
    &&& b.entity_scheme is None
    &&& b.entity_identifier is None
    &&& b.period is None
    &&& b.start_date is None
    &&& b.end_date is None
    &&& b.segment@.len() == 0
    &&& b.scenario@.len() == 0
    &&& b.container == ContextContainer::Outside
}

impl ContextBuilder {
    pub fn new(id: String) -> (b: ContextBuilder)
        ensures
            fresh_context(b, id),
    {
        ContextBuilder {
            id,
            entity_scheme: None,
            entity_identifier: None,
            period: None,
            start_date: None,
            end_date: None,
            segment: Vec::new(),
            scenario: Vec::new(),
            container: ContextContainer::Outside,
        }
    }

    /// Adds a member to the segment or scenario (dropped outside both).
    pub fn push_element(&mut self, container: ContextContainer, element: ContextElement)
        ensures
            final(self).id == old(self).id,
            final(self).entity_scheme == old(self).entity_scheme,
            final(self).entity_identifier == old(self).entity_identifier,
            final(self).period == old(self).period,
            final(self).start_date == old(self).start_date,
            final(self).end_date == old(self).end_date,
            final(self).container == old(self).container,
            final(self).segment@ == (if container == ContextContainer::Segment {
                old(self).segment@.push(element)
            } else {
                old(self).segment@
            }),
            final(self).scenario@ == (if container == ContextContainer::Scenario {
                old(self).scenario@.push(element)
            } else {
                old(self).scenario@
            }),
    {
        match container {
            ContextContainer::Segment => self.segment.push(element),
            ContextContainer::Scenario => self.scenario.push(element),
            ContextContainer::Outside => {},
        }
    }

    /// The finished context, if it has a period and an entity.
    pub fn finish(self) -> (r: Option<Context>)
        ensures
            r == built_context(self),
    {
        let period = match self.period {
            Some(p) => Some(p),
            None => match (self.start_date, self.end_date) {
                (Some(s), Some(e)) => Some(Period::Duration { start: s, end: e }),
                _ => None,
            },
        };
        match (period, self.entity_scheme, self.entity_identifier) {
            (Some(p), Some(sc), Some(idn)) => Some(
                Context {
                    id: self.id,
                    entity: Entity { scheme: sc, identifier: idn },
                    period: p,
                    segment: self.segment,
                    scenario: self.scenario,
                },
            ),
            _ => None,
        }
    }
}

/// A unit being read.
pub struct UnitBuilder {
    pub id: String,
    pub numerator: Vec<QName>,
    pub denominator: Vec<QName>,
    pub in_denominator: bool,
}

/// A unit builder for `id` that has read nothing yet.
pub open spec fn fresh_unit(b: UnitBuilder, id: String) -> bool {
    b.id == id && b.numerator@.len() == 0 && b.denominator@.len() == 0 && !b.in_denominator
}

impl UnitBuilder {
    pub fn new(id: String) -> (b: UnitBuilder)
        ensures
            fresh_unit(b, id),
    {
        UnitBuilder { id, numerator: Vec::new(), denominator: Vec::new(), in_denominator: false }
    }

    pub fn finish(self) -> (u: Unit)
        ensures
            u == (Unit { id: self.id, numerator: self.numerator, denominator: self.denominator }),
    {
        Unit { id: self.id, numerator: self.numerator, denominator: self.denominator }
    }
}

/// Whether an inline fact is `ix:nonFraction` or `ix:nonNumeric`.
#[derive(Clone, Copy, Debug, PartialEq, Eq)]
pub enum FactKind {
    Numeric,
    Text,
}

/// A fact being read.
pub struct FactBuilder {
    pub id: Option<String>,
    pub name: QName,
    pub context_ref: String,
    pub unit_ref: Option<String>,
    pub decimals: Option<Decimals>,
    pub precision: Option<Precision>,
    pub lang: Option<String>,
    pub nil: bool,
    pub text: String,
    pub depth: usize,
    pub kind: Option<FactKind>,
    pub inline_meta: Option<InlineMeta>,
    pub byte_start: u64,
}

/// `xsi:nil` is `true` or `1`.
pub open spec fn nil_of(attrs: StrMap<String>) -> bool {
    match attr(attrs, "nil"@) {
        Some(v) => v@ == "true"@ || v@ == "1"@,
        None => false,
    }
}

/// The attribute-derived fields every fact builder shares.
pub open spec fn common_fields(b: FactBuilder, attrs: StrMap<String>) -> bool {
    &&& b.id == attr(attrs, "id"@)
    &&& b.unit_ref == attr(attrs, "unitRef"@)
    &&& b.decimals == match attr(attrs, "decimals"@) {
        Some(v) => decimals_of(v@),
        None => None,
    }
    &&& b.precision == match attr(attrs, "precision"@) {
        Some(v) => precision_of(v@),
        None => None,
    }
    &&& b.lang == attr_or(attrs, "lang"@, "xml:lang"@)
    &&& b.nil == nil_of(attrs)
    &&& b.text@.len() == 0
    &&& b.depth == 0
}

/// Reading the decimals/precision attributes fails.
pub open spec fn bad_numeric_attrs(attrs: StrMap<String>) -> bool {
    ||| (attr(attrs, "decimals"@) matches Some(v) && decimals_of(v@) is None)
    ||| (attr(attrs, "precision"@) matches Some(v) && precision_of(v@) is None)
}

fn read_decimals(attrs: &StrMap<String>) -> (r: Result<Option<Decimals>, XbrlError>)
    ensures
        match r {
            Ok(d) => d == match attr(*attrs, "decimals"@) {
                Some(v) => decimals_of(v@),
                None => None,
            } && !(attr(*attrs, "decimals"@) matches Some(v) && decimals_of(v@) is None),
            Err(e) => (attr(*attrs, "decimals"@) matches Some(v) && decimals_of(v@) is None) && e is Xml,
        },
{
    match attrs.get("decimals") {
        Some(v) => Ok(Some(parse_decimals(v.as_str())?)),
        None => Ok(None),
    }
}

fn read_precision(attrs: &StrMap<String>) -> (r: Result<Option<Precision>, XbrlError>)
    ensures
        match r {
            Ok(d) => d == match attr(*attrs, "precision"@) {
                Some(v) => precision_of(v@),
                None => None,
            } && !(attr(*attrs, "precision"@) matches Some(v) && precision_of(v@) is None),
            Err(e) => (attr(*attrs, "precision"@) matches Some(v) && precision_of(v@) is None) && e is Xml,
        },
{
    match attrs.get("precision") {
        Some(v) => Ok(Some(parse_precision(v.as_str())?)),
        None => Ok(None),
    }
}

fn read_nil(attrs: &StrMap<String>) -> (r: bool)
    ensures
        r == nil_of(*attrs),
{
    match attrs.get("nil") {
        Some(v) => {
            let c = chars_of(v.as_str());
            is_lit(c.as_slice(), "true") || is_lit(c.as_slice(), "1")
        },
        None => false,
    }
}

/// The builder of an XBRL 2.1 fact `name` in context `context_ref`.
pub open spec fn plain_built(
    b: FactBuilder,
    name: QName,
    context_ref: String,
    attrs: StrMap<String>,
    byte_start: u64,
) -> bool {
    &&& common_fields(b, attrs)
    &&& b.name == name
    &&& b.context_ref == context_ref
    &&& b.kind is None
    &&& b.inline_meta is None
    &&& b.byte_start == byte_start
}

impl FactBuilder {
    /// A fact of an XBRL 2.1 instance: an element with a `contextRef`.
    pub fn new(name: QName, context_ref: String, attrs: &StrMap<String>, byte_start: u64) -> (r:
        Result<FactBuilder, XbrlError>)
        ensures
            match r {
                Ok(b) => plain_built(b, name, context_ref, *attrs, byte_start) && !bad_numeric_attrs(
                    *attrs,
                ),
                Err(e) => bad_numeric_attrs(*attrs) && e is Xml,
            },
    {
        let decimals = read_decimals(attrs)?;
        let precision = read_precision(attrs)?;
        Ok(
            FactBuilder {
                id: get_attr(attrs, "id"),
                name,
                context_ref,
                unit_ref: get_attr(attrs, "unitRef"),
                decimals,
                precision,
                lang: get_attr_or(attrs, "lang", "xml:lang"),
                nil: read_nil(attrs),
                text: String::new(),
                depth: 0,
                kind: None,
                inline_meta: None,
                byte_start,
            },
        )
    }
}

/// The kind of an inline fact element, by local name.
pub open spec fn inline_kind(local: Seq<char>) -> Option<FactKind> {
    if local == "nonFraction"@ {
        Some(FactKind::Numeric)
    } else if local == "nonNumeric"@ {
        Some(FactKind::Text)
    } else {
        None
    }
}

/// The `scale` attribute as a signed integer (ignored when malformed).
pub open spec fn scale_of(attrs: StrMap<String>) -> Option<i32> {
    match attr(attrs, "scale"@) {
        Some(v) => parse_i32(v@),
        None => None,
    }
}

/// Whether `element` starts an inline fact: `ix:nonFraction` or
/// `ix:nonNumeric` with both `contextRef` and `name`.
pub open spec fn starts_inline_fact(element: QName, attrs: StrMap<String>) -> bool {
    inline_kind(element.local_name@) is Some && attr(attrs, "contextRef"@) is Some && attr(
        attrs,
        "name"@,
    ) is Some
}

/// The builder of an inline fact read from `element` and its attributes.
pub open spec fn inline_built(
    b: FactBuilder,
    element: QName,
    attrs: StrMap<String>,
    namespaces: NamespaceMap,
    is_hidden: bool,
    byte_start: u64,
) -> bool {
    &&& common_fields(b, attrs)
    &&& qname_parts(b.name) == qname_of(attr(attrs, "name"@).unwrap()@, namespaces, false)
    &&& Some(b.context_ref) == attr(attrs, "contextRef"@)
    &&& b.kind == inline_kind(element.local_name@)
    &&& b.byte_start == byte_start
    &&& b.inline_meta == Some(
        InlineMeta {
            format: attr(attrs, "format"@),
            scale: scale_of(attrs),
            sign: attr(attrs, "sign"@),
            target: attr(attrs, "target"@),
            continued_from: attr(attrs, "continuedAt"@),
            is_hidden,
        },
    )
}

impl FactBuilder {
    /// An inline fact (`ix:nonFraction` or `ix:nonNumeric` with `contextRef`
    /// and `name`), with its inline attributes; `None` for anything else.
    pub fn inline(
        element_name: &QName,
        attrs: &StrMap<String>,
        namespaces: &NamespaceMap,
        is_hidden: bool,
        byte_start: u64,
    ) -> (r: Result<Option<FactBuilder>, XbrlError>)
        ensures
            !starts_inline_fact(*element_name, *attrs) ==> r matches Ok(None),
            starts_inline_fact(*element_name, *attrs) ==> match r {
                Ok(Some(b)) => !bad_numeric_attrs(*attrs) && inline_built(
                    b,
                    *element_name,
                    *attrs,
                    *namespaces,
                    is_hidden,
                    byte_start,
                ),
                Ok(None) => false,
                Err(e) => bad_numeric_attrs(*attrs) && e is Xml,
            },
    {
        let local = chars_of(element_name.local_name.as_str());
        let kind = if is_lit(local.as_slice(), "nonFraction") {
            FactKind::Numeric
        } else if is_lit(local.as_slice(), "nonNumeric") {
            FactKind::Text
        } else {
            return Ok(None);
        };
        let context_ref = match get_attr(attrs, "contextRef") {
            Some(c) => c,
            None => {
                return Ok(None);
            },
        };
        let name = match attrs.get("name") {
            Some(n) => n,
            None => {
                return Ok(None);
            },
        };
        let name = parse_qname_str(name.as_str(), namespaces, false);
        let decimals = read_decimals(attrs)?;
        let precision = read_precision(attrs)?;
        let scale = match attrs.get("scale") {
            Some(v) => parse_i32_chars(chars_of(v.as_str()).as_slice()),
            None => None,
        };
        Ok(
            Some(
                FactBuilder {
                    id: get_attr(attrs, "id"),
                    name,
                    context_ref,
                    unit_ref: get_attr(attrs, "unitRef"),
                    decimals,
                    precision,
                    lang: get_attr_or(attrs, "lang", "xml:lang"),
                    nil: read_nil(attrs),
                    text: String::new(),
                    depth: 0,
                    kind: Some(kind),
                    inline_meta: Some(
                        InlineMeta {
                            format: get_attr(attrs, "format"),
                            scale,
                            sign: get_attr(attrs, "sign"),
                            target: get_attr(attrs, "target"),
                            continued_from: get_attr(attrs, "continuedAt"),
                            is_hidden,
                        },
                    ),
                    byte_start,
                },
            ),
        )
    }
}

/// The raw fact a finished builder yields: nil when `xsi:nil` says so,
/// numeric for `ix:nonFraction` or when a unit, decimals or precision is
/// given, text otherwise; the byte range runs from the start tag to the end
/// of the closing tag.
pub open spec fn built_fact(b: FactBuilder, byte_end: u64) -> RawFact {
    RawFact {
        id: b.id,
        name: b.name,
        value: if b.nil {
            RawFactValue::Nil
        } else if b.kind == Some(FactKind::Numeric) || b.unit_ref is Some || b.decimals is Some
            || b.precision is Some {
            RawFactValue::Numeric { raw: b.text }
        } else {
            RawFactValue::Text { value: b.text }
        },
        context_ref: b.context_ref,
        unit_ref: b.unit_ref,
        decimals: b.decimals,
        precision: b.precision,
        lang: b.lang,
        inline_meta: b.inline_meta,
        byte_range: Some((b.byte_start, byte_end)),
    }
}

impl FactBuilder {
    pub fn finish(self, byte_end: u64) -> (f: RawFact)
        ensures
            f == built_fact(self, byte_end),
    {
        let numeric = match self.kind {
            Some(FactKind::Numeric) => true,
            _ => false,
        };
        let value = if self.nil {
            RawFactValue::Nil
        } else if numeric || self.unit_ref.is_some() || self.decimals.is_some()
            || self.precision.is_some() {
            RawFactValue::Numeric { raw: self.text }
        } else {
            RawFactValue::Text { value: self.text }
        };
        RawFact {
            id: self.id,
            name: self.name,
            value,
            context_ref: self.context_ref,
            unit_ref: self.unit_ref,
            decimals: self.decimals,
            precision: self.precision,
            lang: self.lang,
            inline_meta: self.inline_meta,
            byte_range: Some((self.byte_start, byte_end)),
        }
    }
}


// ---------------------------------------------------------------------------
// Continuations (ix:continuation)
// ---------------------------------------------------------------------------

/// An `ix:continuation` being read.
pub struct ContinuationBuilder {
    pub id: Option<String>,
    pub continued_at: Option<String>,
    pub text: String,
}

/// A read `ix:continuation`: its text and the id it continues at.
pub struct Continuation {
    pub text: String,
    pub continued_at: Option<String>,
}

/// The trimmed texts of the continuation chain starting at `id`, following
/// `continuedAt` until an id is missing or repeats (at most `fuel` links).
pub open spec fn chain_text(
    m: Map<Seq<char>, Continuation>,
    id: Seq<char>,
    seen: Set<Seq<char>>,
    fuel: nat,
) -> Seq<char>
    decreases fuel,
{
    if fuel == 0 || seen.contains(id) || !m.contains_key(id) {
        Seq::empty()
    } else {
        trim(m[id].text@) + match m[id].continued_at {
            Some(n) => chain_text(m, n@, seen.insert(id), (fuel - 1) as nat),
            None => Seq::empty(),
        }
    }
}

/// The text a fact continued at `start` gains. Each link of a chain is a
/// distinct continuation, so the chain has at most as many links as there
/// are continuations.
pub open spec fn continuation_suffix(conts: StrMap<Continuation>, start: Seq<char>) -> Seq<char> {
    chain_text(conts.view(), start, Set::empty(), conts.kv().len())
}

fn contains_str(v: &Vec<String>, s: &str) -> (r: bool)
    ensures
        r == exists|i: int| 0 <= i < v@.len() && #[trigger] v@[i]@ == s@,
{
    let mut i: usize = 0;
    while i < v.len()
        invariant
            i <= v@.len(),
            forall|j: int| 0 <= j < i ==> (#[trigger] v@[j])@ != s@,
        decreases v@.len() - i,
    {
        if str_eq(v[i].as_str(), s) {
            return true;
        }
        i += 1;
    }
    false
}

/// The text of the continuation chain starting at `start`.
pub fn continuation_text(start: String, continuations: &StrMap<Continuation>) -> (r: String)
    ensures
        r@ == continuation_suffix(*continuations, start@),
{
    let ghost m = continuations.view();
    let mut out: Vec<char> = Vec::new();
    let mut current: Option<String> = Some(start);
    let mut seen: Vec<String> = Vec::new();
    let ghost mut seen_set: Set<Seq<char>> = Set::empty();
    let n = continuations.len();
    let mut fuel: usize = n;
    loop
        invariant_except_break
            continuation_suffix(*continuations, start@) == out@ + match current {
                Some(c) => chain_text(m, c@, seen_set, fuel as nat),
                None => Seq::empty(),
            },
        invariant
            m == continuations.view(),
            n == continuations.kv().len(),
            forall|k: Seq<char>| #[trigger] seen_set.contains(k) <==> exists|i: int|
                0 <= i < seen@.len() && #[trigger] seen@[i]@ == k,
        ensures
            continuation_suffix(*continuations, start@) == out@,
        decreases fuel,
    {
        let id = match current {
            Some(c) => c,
            None => {
                break;
            },
        };
        if fuel == 0 {
            break;
        }
        if contains_str(&seen, id.as_str()) {
            break;
        }
        let c = match continuations.get(id.as_str()) {
            Some(c) => c,
            None => {
                break;
            },
        };
        let t = trim_chars(chars_of(c.text.as_str()).as_slice());
        let ghost before = out@;
        out = concat_chars(out.as_slice(), t.as_slice());
        let ghost old_seen = seen_set;
        let ghost old_vec = seen@;
        proof {
            seen_set = seen_set.insert(id@);
        }
        seen.push(id);
        proof {
            assert(seen@ == old_vec.push(id));
            assert forall|k: Seq<char>| #[trigger] seen_set.contains(k) <==> exists|i: int|
                0 <= i < seen@.len() && #[trigger] seen@[i]@ == k by {
                if k == id@ {
                    assert(seen@[old_vec.len() as int]@ == k);
                } else if old_seen.contains(k) {
                    let i = choose|i: int| 0 <= i < old_vec.len() && #[trigger] old_vec[i]@ == k;
                    assert(seen@[i]@ == k);
                } else {
                    if exists|i: int| 0 <= i < seen@.len() && #[trigger] seen@[i]@ == k {
                        let i = choose|i: int| 0 <= i < seen@.len() && #[trigger] seen@[i]@ == k;
                        if i < old_vec.len() {
                            assert(old_vec[i]@ == k);
                        }
                    }
                }
            }
        }
        current = clone_opt(&c.continued_at);
        fuel -= 1;
        proof {
            assert(before + (t@ + match c.continued_at {
                Some(nx) => chain_text(m, nx@, seen_set, fuel as nat),
                None => Seq::empty(),
            }) == out@ + match current {
                Some(cc) => chain_text(m, cc@, seen_set, fuel as nat),
                None => Seq::empty(),
            });
        }
    }
    string_of(out.as_slice())
}

/// The inline continuation start of a fact, if any.
pub open spec fn continued_from(f: RawFact) -> Option<String> {
    match f.inline_meta {
        Some(m) => m.continued_from,
        None => None,
    }
}

/// `b` is `a` with `suffix` appended to its numeric or text value.
pub open spec fn with_suffix(a: RawFact, b: RawFact, suffix: Seq<char>) -> bool {
    &&& b.id == a.id
    &&& b.name == a.name
    &&& b.context_ref == a.context_ref
    &&& b.unit_ref == a.unit_ref
    &&& b.decimals == a.decimals
    &&& b.precision == a.precision
    &&& b.lang == a.lang
    &&& b.inline_meta == a.inline_meta
    &&& b.byte_range == a.byte_range
    &&& match (a.value, b.value) {
        (RawFactValue::Numeric { raw: x }, RawFactValue::Numeric { raw: y }) => y@ == x@ + suffix,
        (RawFactValue::Text { value: x }, RawFactValue::Text { value: y }) => y@ == x@ + suffix,
        (RawFactValue::Nil, RawFactValue::Nil) => true,
        _ => false,
    }
}

/// A fact after continuation resolution: a fact continued at some id gains
/// the text of the chain starting there.
pub open spec fn resolved_fact(a: RawFact, b: RawFact, conts: StrMap<Continuation>) -> bool {
    match continued_from(a) {
        Some(start) => with_suffix(a, b, continuation_suffix(conts, start@)),
        None => b == a,
    }
}

/// Appends to each continued fact the text of its continuation chain.
pub fn resolve_continuations(facts: &mut Vec<RawFact>, continuations: &StrMap<Continuation>)
    ensures
        final(facts)@.len() == old(facts)@.len(),
        forall|i: int|
            0 <= i < old(facts)@.len() ==> resolved_fact(
                #[trigger] old(facts)@[i],
                final(facts)@[i],
                *continuations,
            ),
{
    let ghost orig = facts@;
    let n = facts.len();
    let mut i: usize = 0;
    while i < n
        invariant
            n == orig.len(),
            facts@.len() == n,
            i <= n,
            forall|j: int| 0 <= j < i ==> resolved_fact(#[trigger] orig[j], facts@[j], *continuations),
            forall|j: int| i <= j < n ==> #[trigger] facts@[j] == orig[j],
        decreases n - i,
    {
        let start = match &facts[i].inline_meta {
            Some(m) => clone_opt(&m.continued_from),
            None => None,
        };
        match start {
            Some(start) => {
                let suffix = continuation_text(start, continuations);
                if !suffix.as_str().is_empty() {
                    let mut f = facts[i].clone();
                    f.value = match &f.value {
                        RawFactValue::Numeric { raw } => {
                            let mut r = raw.clone();
                            r.append(suffix.as_str());
                            RawFactValue::Numeric { raw: r }
                        },
                        RawFactValue::Text { value } => {
                            let mut r = value.clone();
                            r.append(suffix.as_str());
                            RawFactValue::Text { value: r }
                        },
                        RawFactValue::Nil => RawFactValue::Nil,
                    };
                    facts.set(i, f);
                } else {
                    assert(suffix@ =~= Seq::<char>::empty());
                    let f = facts[i].clone();
                    let ghost fv = f.value;
                    assert(with_suffix(orig[i as int], f, Seq::empty())) by {
                        match fv {
                            RawFactValue::Numeric { raw } => {
                                assert(raw@ + Seq::<char>::empty() == raw@);
                            },
                            RawFactValue::Text { value } => {
                                assert(value@ + Seq::<char>::empty() == value@);
                            },
                            _ => {},
                        }
                    }
                }
            },
            None => {},
        }
        i += 1;
    }
}

// ---------------------------------------------------------------------------
// Footnote links
// ---------------------------------------------------------------------------

/// The footnote index and fact id an arc links, when both its locator and
/// its footnote label are known.
pub open spec fn arc_link(
    arc: (String, String),
    locators: StrMap<String>,
    labels: StrMap<usize>,
) -> Option<(usize, String)> {
    if locators.view().contains_key(arc.0@) && labels.view().contains_key(arc.1@) {
        Some((labels.view()[arc.1@], locators.view()[arc.0@]))
    } else {
        None
    }
}

/// The fact ids that the arcs link to footnote `j`, in arc order.
pub open spec fn linked_refs(
    arcs: Seq<(String, String)>,
    locators: StrMap<String>,
    labels: StrMap<usize>,
    j: int,
) -> Seq<String>
    decreases arcs.len(),
{
    if arcs.len() == 0 {
        Seq::empty()
    } else {
        linked_refs(arcs.drop_last(), locators, labels, j) + match arc_link(
            arcs.last(),
            locators,
            labels,
        ) {
            Some((k, fid)) => if k == j {
                seq![fid]
            } else {
                Seq::empty()
            },
            None => Seq::empty(),
        }
    }
}

/// Records on each footnote the ids of the facts that footnote arcs link to
/// it (arcs whose locator or footnote label is unknown are skipped).
pub fn resolve_footnote_refs(
    footnotes: &mut Vec<Footnote>,
    locators: &StrMap<String>,
    footnote_labels: &StrMap<usize>,
    arcs: &Vec<(String, String)>,
)
    ensures
        final(footnotes)@.len() == old(footnotes)@.len(),
        forall|j: int|
            0 <= j < old(footnotes)@.len() ==> {
                let a = #[trigger] old(footnotes)@[j];
                let b = final(footnotes)@[j];
                &&& b.id == a.id
                &&& b.role == a.role
                &&& b.lang == a.lang
                &&& b.content == a.content
                &&& b.fact_refs@ == a.fact_refs@ + linked_refs(arcs@, *locators, *footnote_labels, j)
            },
{
    let ghost orig = footnotes@;
    let n = footnotes.len();
    let mut i: usize = 0;
    while i < arcs.len()
        invariant
            n == orig.len(),
            footnotes@.len() == n,
            i <= arcs@.len(),
            forall|j: int|
                0 <= j < n ==> {
                    let a = #[trigger] orig[j];
                    let b = footnotes@[j];
                    &&& b.id == a.id
                    &&& b.role == a.role
                    &&& b.lang == a.lang
                    &&& b.content == a.content
                    &&& b.fact_refs@ == a.fact_refs@ + linked_refs(
                        arcs@.take(i as int),
                        *locators,
                        *footnote_labels,
                        j,
                    )
                },
        decreases arcs@.len() - i,
    {
        let ghost prev = footnotes@;
        proof {
            assert(arcs@.take(i + 1).drop_last() == arcs@.take(i as int));
            assert(arcs@.take(i + 1).last() == arcs@[i as int]);
        }
        let (from, to) = (&arcs[i].0, &arcs[i].1);
        match (locators.get(from.as_str()), footnote_labels.get(to.as_str())) {
            (Some(fact_id), Some(idx)) => {
                let idx = *idx;
                if idx < n {
                    let mut f = footnotes[idx].clone();
                    f.fact_refs.push(fact_id.clone());
                    footnotes.set(idx, f);
                }
                proof {
                    assert forall|j: int| 0 <= j < n implies {
                        let a = #[trigger] orig[j];
                        let b = footnotes@[j];
                        b.fact_refs@ == a.fact_refs@ + linked_refs(
                            arcs@.take(i + 1),
                            *locators,
                            *footnote_labels,
                            j,
                        )
                    } by {
                        if j == idx {
                            assert(orig[j].fact_refs@ + linked_refs(arcs@.take(i + 1), *locators, *footnote_labels, j)
                                =~= prev[j].fact_refs@.push(*fact_id));
                        } else {
                            assert(orig[j].fact_refs@ + linked_refs(arcs@.take(i + 1), *locators, *footnote_labels, j)
                                =~= prev[j].fact_refs@);
                        }
                    }
                }
            },
            _ => {
                proof {
                    assert forall|j: int| 0 <= j < n implies {
                        let a = #[trigger] orig[j];
                        let b = footnotes@[j];
                        b.fact_refs@ == a.fact_refs@ + linked_refs(
                            arcs@.take(i + 1),
                            *locators,
                            *footnote_labels,
                            j,
                        )
                    } by {
                        assert(orig[j].fact_refs@ + linked_refs(arcs@.take(i + 1), *locators, *footnote_labels, j)
                            =~= prev[j].fact_refs@);
                    }
                }
            },
        }
        i += 1;
    }
    assert(arcs@.take(i as int) == arcs@);
}


// ---------------------------------------------------------------------------
// The event-driven parser
// ---------------------------------------------------------------------------

/// What the next text content is read into.
pub enum TextTarget {
    Identifier,
    Instant,
    StartDate,
    EndDate,
    ExplicitMember { dimension: QName, container: ContextContainer },
    Measure { denominator: bool },
    Fact,
}

/// An open element: its name and the namespaces in scope inside it.
pub struct Frame {
    pub qname: QName,
    pub namespaces: NamespaceMap,
}

/// Contexts and units are stored under their own ids.
pub open spec fn doc_wf(doc: InstanceDocument) -> bool {
    &&& forall|k: Seq<char>| #[trigger]
        doc.contexts.view().contains_key(k) ==> doc.contexts.view()[k].id@ == k
    &&& forall|k: Seq<char>| #[trigger]
        doc.units.view().contains_key(k) ==> doc.units.view()[k].id@ == k
}

/// The parser's state between events.
pub struct InstanceParser {
    pub stack: Vec<Frame>,
    pub doc: InstanceDocument,
    pub context: Option<ContextBuilder>,
    pub unit: Option<UnitBuilder>,
    pub fact_stack: Vec<FactBuilder>,
    pub continuation_stack: Vec<ContinuationBuilder>,
    pub text_target: Option<TextTarget>,
    pub hidden_depth: usize,
    pub continuations: StrMap<Continuation>,
    pub locators: StrMap<String>,
    pub footnote_labels: StrMap<usize>,
    pub footnote_arcs: Vec<(String, String)>,
}

/// `q`'s local name is `lit`.
pub open spec fn is_local(q: QName, lit: Seq<char>) -> bool {
    q.local_name@ == lit
}

fn local_is(q: &QName, lit: &str) -> (r: bool)
    ensures
        r == is_local(*q, lit@),
{
    is_lit(chars_of(q.local_name.as_str()).as_slice(), lit)
}

/// The locators after reading a `loc`: its `label` maps to the fragment of
/// its `href` after the last `#`.
pub open spec fn locators_after(m: Map<Seq<char>, Seq<char>>, attrs: StrMap<String>) -> Map<
    Seq<char>,
    Seq<char>,
> {
    match (attr(attrs, "label"@), attr(attrs, "href"@)) {
        (Some(l), Some(h)) => match rsplit_once(h@, '#') {
            Some((_, frag)) => m.insert(l@, frag),
            None => m,
        },
        _ => m,
    }
}

/// The footnote arcs after reading a `footnoteArc` with `from` and `to`.
pub open spec fn arcs_after(arcs: Seq<(String, String)>, attrs: StrMap<String>) -> Seq<(String, String)> {
    match (attr(attrs, "from"@), attr(attrs, "to"@)) {
        (Some(f), Some(t)) => arcs.push((f, t)),
        _ => arcs,
    }
}

/// What a start tag inside a context does: `identifier` records the scheme
/// and awaits the identifier; `instant`, `startDate` and `endDate` await a
/// date; `forever` sets the period; `segment` and `scenario` select where
/// members go; `explicitMember` with a `dimension` awaits its member.
pub open spec fn context_start_applied(
    p0: InstanceParser,
    p1: InstanceParser,
    qname: QName,
    attrs: StrMap<String>,
    namespaces: NamespaceMap,
) -> bool {
    let c0 = p0.context.unwrap();
    let c1 = p1.context.unwrap();
    &&& p1 == InstanceParser { context: p1.context, text_target: p1.text_target, ..p0 }
    &&& p1.context is Some
    &&& if is_local(qname, "identifier"@) {
        c1 == ContextBuilder { entity_scheme: attr(attrs, "scheme"@), ..c0 } && p1.text_target == Some(
            TextTarget::Identifier,
        )
    } else if is_local(qname, "instant"@) {
        c1 == c0 && p1.text_target == Some(TextTarget::Instant)
    } else if is_local(qname, "startDate"@) {
        c1 == c0 && p1.text_target == Some(TextTarget::StartDate)
    } else if is_local(qname, "endDate"@) {
        c1 == c0 && p1.text_target == Some(TextTarget::EndDate)
    } else if is_local(qname, "forever"@) {
        c1 == ContextBuilder { period: Some(Period::Forever), ..c0 } && p1.text_target == p0.text_target
    } else if is_local(qname, "segment"@) {
        c1 == ContextBuilder { container: ContextContainer::Segment, ..c0 } && p1.text_target
            == p0.text_target
    } else if is_local(qname, "scenario"@) {
        c1 == ContextBuilder { container: ContextContainer::Scenario, ..c0 } && p1.text_target
            == p0.text_target
    } else if is_local(qname, "explicitMember"@) && attr(attrs, "dimension"@) is Some {
        c1 == c0 && (p1.text_target matches Some(TextTarget::ExplicitMember { dimension, container })
            && container == c0.container && qname_parts(dimension) == qname_of(
            attr(attrs, "dimension"@).unwrap()@,
            namespaces,
            false,
        ))
    } else {
        c1 == c0 && p1.text_target == p0.text_target
    }
}

/// What a start tag inside a unit does: `unitDenominator` and
/// `unitNumerator` select where measures go; `measure` awaits one.
pub open spec fn unit_start_applied(p0: InstanceParser, p1: InstanceParser, qname: QName) -> bool {
    let u0 = p0.unit.unwrap();
    let u1 = p1.unit.unwrap();
    &&& p1 == InstanceParser { unit: p1.unit, text_target: p1.text_target, ..p0 }
    &&& p1.unit is Some
    &&& if is_local(qname, "unitDenominator"@) {
        u1 == UnitBuilder { in_denominator: true, ..u0 } && p1.text_target == p0.text_target
    } else if is_local(qname, "unitNumerator"@) {
        u1 == UnitBuilder { in_denominator: false, ..u0 } && p1.text_target == p0.text_target
    } else if is_local(qname, "measure"@) {
        u1 == u0 && p1.text_target == Some(TextTarget::Measure { denominator: u0.in_denominator })
    } else {
        u1 == u0 && p1.text_target == p0.text_target
    }
}

impl InstanceParser {
    /// A parser that has read nothing.
    pub fn new() -> (p: InstanceParser)
        ensures
            doc_wf(p.doc),
            p.stack@.len() == 0,
            p.fact_stack@.len() == 0,
            p.continuation_stack@.len() == 0,
            p.context is None,
            p.unit is None,
            p.text_target is None,
            p.hidden_depth == 0,
            p.doc.facts@.len() == 0,
            p.doc.footnotes@.len() == 0,
            p.doc.schema_refs@.len() == 0,
            p.doc.contexts.view() == Map::<Seq<char>, Context>::empty(),
            p.doc.units.view() == Map::<Seq<char>, Unit>::empty(),
            p.continuations.view() == Map::<Seq<char>, Continuation>::empty(),
            p.locators.view() == Map::<Seq<char>, String>::empty(),
            p.footnote_labels.view() == Map::<Seq<char>, usize>::empty(),
            p.footnote_arcs@.len() == 0,
    {
        InstanceParser {
            stack: Vec::new(),
            doc: InstanceDocument::empty(),
            context: None,
            unit: None,
            fact_stack: Vec::new(),
            continuation_stack: Vec::new(),
            text_target: None,
            hidden_depth: 0,
            continuations: StrMap::new(),
            locators: StrMap::new(),
            footnote_labels: StrMap::new(),
            footnote_arcs: Vec::new(),
        }
    }

    /// Records a footnote locator: its `label` maps to the fragment of its `href`.
    pub fn locator(&mut self, attrs: &StrMap<String>)
        ensures
            *final(self) == (InstanceParser { locators: final(self).locators, ..*old(self) }),
            sview(final(self).locators.view()) == locators_after(
                sview(old(self).locators.view()),
                *attrs,
            ),
    {
        let label = match attrs.get("label") {
            Some(l) => l,
            None => {
                return;
            },
        };
        let href = match attrs.get("href") {
            Some(h) => h,
            None => {
                return;
            },
        };
        match rsplit_once_chars(chars_of(href.as_str()).as_slice(), '#') {
            Some((_, frag)) => {
                let f = string_of(frag.as_slice());
                let ghost before = self.locators.view();
                self.locators.insert(label.clone(), f);
                assert(sview(self.locators.view()) =~= sview(before).insert(label@, frag@));
            },
            None => {},
        }
    }

    /// Records a footnote arc from its `from` and `to` labels.
    pub fn footnote_arc(&mut self, attrs: &StrMap<String>)
        ensures
            *final(self) == (InstanceParser { footnote_arcs: final(self).footnote_arcs, ..*old(self) }),
            final(self).footnote_arcs@ == arcs_after(old(self).footnote_arcs@, *attrs),
    {
        match (get_attr(attrs, "from"), get_attr(attrs, "to")) {
            (Some(f), Some(t)) => self.footnote_arcs.push((f, t)),
            _ => {},
        }
    }
}

impl InstanceParser {
    /// Reacts to a start tag inside a context.
    pub fn context_start(&mut self, qname: &QName, attrs: &StrMap<String>, namespaces: &NamespaceMap)
        requires
            old(self).context is Some,
        ensures
            context_start_applied(*old(self), *final(self), *qname, *attrs, *namespaces),
    {
        let mut c = match self.context.take() {
            Some(c) => c,
            None => {
                return;
            },
        };
        if local_is(qname, "identifier") {
            c.entity_scheme = get_attr(attrs, "scheme");
            self.text_target = Some(TextTarget::Identifier);
        } else if local_is(qname, "instant") {
            self.text_target = Some(TextTarget::Instant);
        } else if local_is(qname, "startDate") {
            self.text_target = Some(TextTarget::StartDate);
        } else if local_is(qname, "endDate") {
            self.text_target = Some(TextTarget::EndDate);
        } else if local_is(qname, "forever") {
            c.period = Some(Period::Forever);
        } else if local_is(qname, "segment") {
            c.container = ContextContainer::Segment;
        } else if local_is(qname, "scenario") {
            c.container = ContextContainer::Scenario;
        } else if local_is(qname, "explicitMember") {
            match attrs.get("dimension") {
                Some(d) => {
                    self.text_target = Some(
                        TextTarget::ExplicitMember {
                            dimension: parse_qname_str(d.as_str(), namespaces, false),
                            container: c.container,
                        },
                    );
                },
                None => {},
            }
        }
        self.context = Some(c);
    }

    /// Reacts to a start tag inside a unit.
    pub fn unit_start(&mut self, qname: &QName)
        requires
            old(self).unit is Some,
        ensures
            unit_start_applied(*old(self), *final(self), *qname),
    {
        let mut u = match self.unit.take() {
            Some(u) => u,
            None => {
                return;
            },
        };
        if local_is(qname, "unitDenominator") {
            u.in_denominator = true;
        } else if local_is(qname, "unitNumerator") {
            u.in_denominator = false;
        } else if local_is(qname, "measure") {
            self.text_target = Some(TextTarget::Measure { denominator: u.in_denominator });
        }
        self.unit = Some(u);
    }
}

/// `b` is the fact builder `a` with `t` appended to its text.
pub open spec fn fact_text_appended(a: FactBuilder, b: FactBuilder, t: Seq<char>) -> bool {
    b == FactBuilder { text: b.text, ..a } && b.text@ == a.text@ + t
}

/// `b` is the continuation builder `a` with `t` appended to its text.
pub open spec fn cont_text_appended(a: ContinuationBuilder, b: ContinuationBuilder, t: Seq<char>) -> bool {
    b.id == a.id && b.continued_at == a.continued_at && b.text@ == a.text@ + t
}

/// Appends `t` to the text of every open fact.
fn append_to_facts(v: &mut Vec<FactBuilder>, t: &str)
    ensures
        final(v)@.len() == old(v)@.len(),
        forall|i: int|
            0 <= i < old(v)@.len() ==> fact_text_appended(#[trigger] old(v)@[i], final(v)@[i], t@),
{
    let mut src: Vec<FactBuilder> = Vec::new();
    std::mem::swap(&mut src, v);
    let ghost orig = src@;
    let mut out: Vec<FactBuilder> = Vec::new();
    while src.len() > 0
        invariant
            out@.len() + src@.len() == orig.len(),
            forall|j: int| 0 <= j < out@.len() ==> fact_text_appended(#[trigger] orig[j], out@[j], t@),
            forall|j: int| 0 <= j < src@.len() ==> #[trigger] src@[j] == orig[j + out@.len()],
        decreases src@.len(),
    {
        let mut fb = src.remove(0);
        fb.text.append(t);
        out.push(fb);
    }
    *v = out;
}

/// Appends `t` to the text of every open continuation.
fn append_to_continuations(v: &mut Vec<ContinuationBuilder>, t: &str)
    ensures
        final(v)@.len() == old(v)@.len(),
        forall|i: int|
            0 <= i < old(v)@.len() ==> cont_text_appended(#[trigger] old(v)@[i], final(v)@[i], t@),
{
    let mut src: Vec<ContinuationBuilder> = Vec::new();
    std::mem::swap(&mut src, v);
    let ghost orig = src@;
    let mut out: Vec<ContinuationBuilder> = Vec::new();
    while src.len() > 0
        invariant
            out@.len() + src@.len() == orig.len(),
            forall|j: int| 0 <= j < out@.len() ==> cont_text_appended(#[trigger] orig[j], out@[j], t@),
            forall|j: int| 0 <= j < src@.len() ==> #[trigger] src@[j] == orig[j + out@.len()],
        decreases src@.len(),
    {
        let mut c = src.remove(0);
        c.text.append(t);
        out.push(c);
    }
    *v = out;
}

/// `c1` is `c0` with `element` pushed onto its segment or scenario, as
/// `container` says, where `element` is known by a predicate on it.
pub open spec fn member_pushed(
    c0: ContextBuilder,
    c1: ContextBuilder,
    container: ContextContainer,
    element: spec_fn(ContextElement) -> bool,
) -> bool {
    &&& c1 == ContextBuilder { segment: c1.segment, scenario: c1.scenario, ..c0 }
    &&& if container == ContextContainer::Segment {
        c1.segment@.len() == c0.segment@.len() + 1 && c1.segment@.drop_last() == c0.segment@
            && element(c1.segment@.last())
    } else {
        c1.segment@ == c0.segment@
    }
    &&& if container == ContextContainer::Scenario {
        c1.scenario@.len() == c0.scenario@.len() + 1 && c1.scenario@.drop_last() == c0.scenario@
            && element(c1.scenario@.last())
    } else {
        c1.scenario@ == c0.scenario@
    }
}

/// The namespaces in scope at the innermost open element.
pub open spec fn scope(p: InstanceParser) -> NamespaceMap {
    p.stack@.last().namespaces
}

/// What text `t` does to a parser that is in no fact or continuation: the
/// pending target is consumed, and the text becomes the entity identifier,
/// a date, an explicit member or a measure of the context or unit being read.
pub open spec fn text_target_applied(
    p0: InstanceParser,
    p1: InstanceParser,
    t: Seq<char>,
    r: Result<(), XbrlError>,
) -> bool {
    let q = InstanceParser { text_target: None, ..p0 };
    match p0.text_target {
        None => r is Ok && p1 == p0,
        Some(TextTarget::Identifier) => r is Ok && p1 == InstanceParser { context: p1.context, ..q }
            && match p0.context {
            Some(c0) => p1.context matches Some(c1) && c1 == ContextBuilder {
                entity_identifier: c1.entity_identifier,
                ..c0
            } && opt_view(c1.entity_identifier) == Some(t),
            None => p1.context is None,
        },
        Some(TextTarget::Instant) => r is Ok && p1 == InstanceParser { context: p1.context, ..q }
            && match p0.context {
            Some(c0) => p1.context matches Some(c1) && c1 == ContextBuilder {
                period: c1.period,
                ..c0
            } && (c1.period matches Some(Period::Instant { date }) && date@ == t),
            None => p1.context is None,
        },
        Some(TextTarget::StartDate) => r is Ok && p1 == InstanceParser { context: p1.context, ..q }
            && match p0.context {
            Some(c0) => p1.context matches Some(c1) && c1 == ContextBuilder {
                start_date: c1.start_date,
                ..c0
            } && opt_view(c1.start_date) == Some(t),
            None => p1.context is None,
        },
        Some(TextTarget::EndDate) => r is Ok && p1 == InstanceParser { context: p1.context, ..q }
            && match p0.context {
            Some(c0) => p1.context matches Some(c1) && c1 == ContextBuilder {
                end_date: c1.end_date,
                ..c0
            } && opt_view(c1.end_date) == Some(t),
            None => p1.context is None,
        },
        Some(TextTarget::ExplicitMember { dimension, container }) => if p0.stack@.len() == 0 {
            r == Err::<(), XbrlError>(XbrlError::Xml { message: r->Err_0->Xml_message, byte_offset: None })
                && r->Err_0->Xml_message@ == "missing namespace scope"@
        } else {
            r is Ok && p1 == InstanceParser { context: p1.context, ..q } && match p0.context {
                Some(c0) => p1.context matches Some(c1) && member_pushed(
                    c0,
                    c1,
                    container,
                    |e: ContextElement|
                        e matches ContextElement::ExplicitDimension { dimension: d, member: m }
                            && d == dimension && qname_parts(m) == qname_of(t, scope(p0), false),
                ),
                None => p1.context is None,
            }
        },
        Some(TextTarget::Measure { denominator }) => if p0.stack@.len() == 0 {
            r == Err::<(), XbrlError>(XbrlError::Xml { message: r->Err_0->Xml_message, byte_offset: None })
                && r->Err_0->Xml_message@ == "missing namespace scope"@
        } else {
            r is Ok && p1 == InstanceParser { unit: p1.unit, ..q } && match p0.unit {
                Some(u0) => p1.unit matches Some(u1) && u1 == UnitBuilder {
                    numerator: u1.numerator,
                    denominator: u1.denominator,
                    ..u0
                } && if denominator {
                    u1.numerator@ == u0.numerator@ && u1.denominator@.len() == u0.denominator@.len() + 1
                        && u1.denominator@.drop_last() == u0.denominator@ && qname_parts(
                        u1.denominator@.last(),
                    ) == qname_of(t, scope(p0), false)
                } else {
                    u1.denominator@ == u0.denominator@ && u1.numerator@.len() == u0.numerator@.len() + 1
                        && u1.numerator@.drop_last() == u0.numerator@ && qname_parts(
                        u1.numerator@.last(),
                    ) == qname_of(t, scope(p0), false)
                },
                None => p1.unit is None,
            }
        },
        Some(TextTarget::Fact) => r is Ok && p1 == q,
    }
}

impl InstanceParser {
    /// Reacts to character data. Blank text is ignored; inside facts and
    /// continuations the trimmed text is appended to every open one;
    /// otherwise it feeds the pending text target.
    pub fn text(&mut self, text: &str) -> (r: Result<(), XbrlError>)
        ensures
            trim(text@).len() == 0 ==> r is Ok && *final(self) == *old(self),
            trim(text@).len() != 0 && (old(self).fact_stack@.len() > 0
                || old(self).continuation_stack@.len() > 0) ==> {
                &&& r is Ok
                &&& *final(self) == InstanceParser {
                    fact_stack: final(self).fact_stack,
                    continuation_stack: final(self).continuation_stack,
                    ..*old(self)
                }
                &&& final(self).fact_stack@.len() == old(self).fact_stack@.len()
                &&& forall|i: int|
                    0 <= i < old(self).fact_stack@.len() ==> fact_text_appended(
                        #[trigger] old(self).fact_stack@[i],
                        final(self).fact_stack@[i],
                        trim(text@),
                    )
                &&& final(self).continuation_stack@.len() == old(self).continuation_stack@.len()
                &&& forall|i: int|
                    0 <= i < old(self).continuation_stack@.len() ==> cont_text_appended(
                        #[trigger] old(self).continuation_stack@[i],
                        final(self).continuation_stack@[i],
                        trim(text@),
                    )
            },
            trim(text@).len() != 0 && old(self).fact_stack@.len() == 0
                && old(self).continuation_stack@.len() == 0 ==> text_target_applied(
                *old(self),
                *final(self),
                trim(text@),
                r,
            ),
    {
        let tc = chars_of(text);
        if is_blank(tc.as_slice()) {
            return Ok(());
        }
        let tv = trim_chars(tc.as_slice());
        let trimmed = string_of(tv.as_slice());
        if self.fact_stack.len() > 0 || self.continuation_stack.len() > 0 {
            append_to_facts(&mut self.fact_stack, trimmed.as_str());
            append_to_continuations(&mut self.continuation_stack, trimmed.as_str());
            return Ok(());
        }
        let target = match self.text_target.take() {
            Some(t) => t,
            None => {
                return Ok(());
            },
        };
        match target {
            TextTarget::Identifier => {
                if let Some(mut c) = self.context.take() {
                    c.entity_identifier = Some(trimmed);
                    self.context = Some(c);
                }
            },
            TextTarget::Instant => {
                if let Some(mut c) = self.context.take() {
                    c.period = Some(Period::Instant { date: trimmed });
                    self.context = Some(c);
                }
            },
            TextTarget::StartDate => {
                if let Some(mut c) = self.context.take() {
                    c.start_date = Some(trimmed);
                    self.context = Some(c);
                }
            },
            TextTarget::EndDate => {
                if let Some(mut c) = self.context.take() {
                    c.end_date = Some(trimmed);
                    self.context = Some(c);
                }
            },
            TextTarget::ExplicitMember { dimension, container } => {
                let n = self.stack.len();
                if n == 0 {
                    return Err(
                        XbrlError::Xml {
                            message: "missing namespace scope".to_string(),
                            byte_offset: None,
                        },
                    );
                }
                let member = parse_qname_str(trimmed.as_str(), &self.stack[n - 1].namespaces, false);
                if let Some(mut c) = self.context.take() {
                    let ghost c0 = c;
                    c.push_element(container, ContextElement::ExplicitDimension { dimension, member });
                    proof {
                        if container == ContextContainer::Segment {
                            assert(c.segment@.drop_last() =~= c0.segment@);
                        }
                        if container == ContextContainer::Scenario {
                            assert(c.scenario@.drop_last() =~= c0.scenario@);
                        }
                    }
                    self.context = Some(c);
                }
            },
            TextTarget::Measure { denominator } => {
                let n = self.stack.len();
                if n == 0 {
                    return Err(
                        XbrlError::Xml {
                            message: "missing namespace scope".to_string(),
                            byte_offset: None,
                        },
                    );
                }
                let measure = parse_qname_str(trimmed.as_str(), &self.stack[n - 1].namespaces, false);
                if let Some(mut u) = self.unit.take() {
                    let ghost u0 = u;
                    if denominator {
                        u.denominator.push(measure);
                        assert(u.denominator@.drop_last() =~= u0.denominator@);
                    } else {
                        u.numerator.push(measure);
                        assert(u.numerator@.drop_last() =~= u0.numerator@);
                    }
                    self.unit = Some(u);
                }
            },
            TextTarget::Fact => {},
        }
        Ok(())
    }
}

/// How a closing tag's raw name is shown in an error.
pub open spec fn closing_name(raw: Seq<u8>) -> Seq<char> {
    if vstd::utf8::valid_utf8(raw) {
        decode_utf8(raw)
    } else {
        "<non-utf8>"@
    }
}

/// What a closing tag does once its frame has been popped (`p0` is the
/// parser before the tag, `p1` after): it completes a continuation, closes a
/// nesting level of the innermost fact or finishes it, leaves a hidden
/// section, completes a context or a unit, or leaves a segment, scenario,
/// numerator or denominator.
pub open spec fn end_applied(p0: InstanceParser, p1: InstanceParser, byte_end: u64) -> bool {
    let q = p0.stack@.last().qname;
    &&& p1.stack@ == p0.stack@.drop_last()
    &&& if is_local(q, "continuation"@) && p0.continuation_stack@.len() > 0 {
        let c = p0.continuation_stack@.last();
        &&& p1 == InstanceParser {
            stack: p1.stack,
            continuation_stack: p1.continuation_stack,
            continuations: p1.continuations,
            ..p0
        }
        &&& p1.continuation_stack@ == p0.continuation_stack@.drop_last()
        &&& match c.id {
            Some(id) => p1.continuations.view() == p0.continuations.view().insert(
                id@,
                Continuation { text: c.text, continued_at: c.continued_at },
            ),
            None => p1.continuations == p0.continuations,
        }
    } else if p0.fact_stack@.len() > 0 {
        let top = p0.fact_stack@.last();
        if top.depth > 0 {
            &&& p1 == InstanceParser { stack: p1.stack, fact_stack: p1.fact_stack, ..p0 }
            &&& p1.fact_stack@ == p0.fact_stack@.drop_last().push(
                FactBuilder { depth: (top.depth - 1) as usize, ..top },
            )
        } else {
            &&& p1 == InstanceParser {
                stack: p1.stack,
                fact_stack: p1.fact_stack,
                doc: p1.doc,
                text_target: p1.text_target,
                ..p0
            }
            &&& p1.fact_stack@ == p0.fact_stack@.drop_last()
            &&& p1.doc == InstanceDocument { facts: p1.doc.facts, ..p0.doc }
            &&& p1.doc.facts@ == p0.doc.facts@.push(built_fact(top, byte_end))
            &&& p1.text_target == if p1.fact_stack@.len() == 0 {
                None
            } else {
                p0.text_target
            }
        }
    } else if is_local(q, "hidden"@) {
        &&& p1 == InstanceParser { stack: p1.stack, hidden_depth: p1.hidden_depth, ..p0 }
        &&& p1.hidden_depth == if p0.hidden_depth > 0 {
            (p0.hidden_depth - 1) as usize
        } else {
            0
        }
    } else if is_local(q, "context"@) {
        &&& p1 == InstanceParser { stack: p1.stack, context: None, doc: p1.doc, ..p0 }
        &&& p1.doc == InstanceDocument { contexts: p1.doc.contexts, ..p0.doc }
        &&& p1.doc.contexts.view() == match p0.context {
            Some(c) => match built_context(c) {
                Some(ctx) => p0.doc.contexts.view().insert(ctx.id@, ctx),
                None => p0.doc.contexts.view(),
            },
            None => p0.doc.contexts.view(),
        }
    } else if is_local(q, "unit"@) {
        &&& p1 == InstanceParser { stack: p1.stack, unit: None, doc: p1.doc, ..p0 }
        &&& p1.doc == InstanceDocument { units: p1.doc.units, ..p0.doc }
        &&& p1.doc.units.view() == match p0.unit {
            Some(u) => p0.doc.units.view().insert(
                u.id@,
                Unit { id: u.id, numerator: u.numerator, denominator: u.denominator },
            ),
            None => p0.doc.units.view(),
        }
    } else {
        &&& p1 == InstanceParser { stack: p1.stack, context: p1.context, unit: p1.unit, ..p0 }
        &&& p1.context == match p0.context {
            Some(c) => Some(
                if is_local(q, "segment"@) || is_local(q, "scenario"@) {
                    ContextBuilder { container: ContextContainer::Outside, ..c }
                } else {
                    c
                },
            ),
            None => None,
        }
        &&& p1.unit == match p0.unit {
            Some(u) => Some(
                if is_local(q, "unitDenominator"@) || is_local(q, "unitNumerator"@) {
                    UnitBuilder { in_denominator: false, ..u }
                } else {
                    u
                },
            ),
            None => None,
        }
    }
}

impl InstanceParser {
    /// Reacts to a closing tag; `byte_end` is the reader's position after it.
    /// A closing tag with no open element is an error.
    pub fn end_element(&mut self, raw_name: &[u8], byte_end: u64) -> (r: Result<(), XbrlError>)
        ensures
            old(self).stack@.len() == 0 ==> (r matches Err(XbrlError::Xml { message, byte_offset })
                && byte_offset is None && message@ == "unexpected closing tag "@ + closing_name(
                raw_name@,
            )),
            old(self).stack@.len() > 0 ==> r is Ok && end_applied(*old(self), *final(self), byte_end),
    {
        let n = self.stack.len();
        if n == 0 {
            let name = match utf8_chars(raw_name) {
                Ok(v) => v,
                Err(_) => chars_of("<non-utf8>"),
            };
            let prefix = chars_of("unexpected closing tag ");
            let msg = string_of(concat_chars(prefix.as_slice(), name.as_slice()).as_slice());
            return Err(XbrlError::Xml { message: msg, byte_offset: None });
        }
        let frame = self.stack.pop().unwrap();
        let qname = frame.qname;
        if local_is(&qname, "continuation") && self.continuation_stack.len() > 0 {
            let c = self.continuation_stack.pop().unwrap();
            match c.id {
                Some(id) => {
                    self.continuations.insert(id, Continuation { text: c.text, continued_at: c.continued_at });
                },
                None => {},
            }
            return Ok(());
        }
        if self.fact_stack.len() > 0 {
            let mut top = self.fact_stack.pop().unwrap();
            if top.depth > 0 {
                top.depth = top.depth - 1;
                self.fact_stack.push(top);
            } else {
                let f = top.finish(byte_end);
                self.doc.facts.push(f);
                if self.fact_stack.len() == 0 {
                    self.text_target = None;
                }
            }
            return Ok(());
        }
        if local_is(&qname, "hidden") {
            if self.hidden_depth > 0 {
                self.hidden_depth = self.hidden_depth - 1;
            }
            return Ok(());
        }
        if local_is(&qname, "context") {
            if let Some(c) = self.context.take() {
                if let Some(ctx) = c.finish() {
                    let id = ctx.id.clone();
                    self.doc.contexts.insert(id, ctx);
                }
            }
            return Ok(());
        }
        if local_is(&qname, "unit") {
            if let Some(u) = self.unit.take() {
                let unit = u.finish();
                let id = unit.id.clone();
                self.doc.units.insert(id, unit);
            }
            return Ok(());
        }
        if let Some(mut c) = self.context.take() {
            if local_is(&qname, "segment") || local_is(&qname, "scenario") {
                c.container = ContextContainer::Outside;
            }
            self.context = Some(c);
        }
        if let Some(mut u) = self.unit.take() {
            if local_is(&qname, "unitDenominator") || local_is(&qname, "unitNumerator") {
                u.in_denominator = false;
            }
            self.unit = Some(u);
        }
        Ok(())
    }
}

/// Two namespace maps bind the same names.
pub open spec fn ns_equiv(a: NamespaceMap, b: NamespaceMap) -> bool {
    a.default == b.default && a.prefixed.view() == b.prefixed.view()
}

/// `p1`'s element stack is `p0`'s with a frame for `qname` in scope `ns` pushed.
pub open spec fn frame_pushed(p0: InstanceParser, p1: InstanceParser, qname: QName, ns: NamespaceMap) -> bool {
    &&& p1.stack@.len() == p0.stack@.len() + 1
    &&& p1.stack@.drop_last() == p0.stack@
    &&& p1.stack@.last().qname == qname
    &&& ns_equiv(p1.stack@.last().namespaces, ns)
}

/// `p1`'s fact stack is `p0`'s with `b` pushed, and the text goes to facts.
pub open spec fn fact_opened(p0: InstanceParser, p1: InstanceParser, b: FactBuilder) -> bool {
    &&& p1 == InstanceParser {
        stack: p1.stack,
        fact_stack: p1.fact_stack,
        text_target: Some(TextTarget::Fact),
        ..p0
    }
    &&& p1.fact_stack@ == p0.fact_stack@.push(b)
}

/// The nesting counters can still grow by one.
pub open spec fn depth_room(p: InstanceParser) -> bool {
    &&& p.hidden_depth < usize::MAX
    &&& p.fact_stack@.len() > 0 ==> p.fact_stack@.last().depth < usize::MAX
}

/// What a start tag does to the parser (other than `typedMember` inside a
/// context and `footnote`, which read their content directly); `r` is
/// whether an element frame was pushed.
pub open spec fn open_applied(
    p0: InstanceParser,
    p1: InstanceParser,
    qname: QName,
    attrs: StrMap<String>,
    ns: NamespaceMap,
    byte_start: u64,
    r: Result<bool, XbrlError>,
) -> bool {
    if is_local(qname, "continuation"@) {
        &&& r == Ok::<bool, XbrlError>(true)
        &&& frame_pushed(p0, p1, qname, ns)
        &&& p1 == InstanceParser { stack: p1.stack, continuation_stack: p1.continuation_stack, ..p0 }
        &&& p1.continuation_stack@.len() == p0.continuation_stack@.len() + 1
        &&& p1.continuation_stack@.drop_last() == p0.continuation_stack@
        &&& p1.continuation_stack@.last().id == attr(attrs, "id"@)
        &&& p1.continuation_stack@.last().continued_at == attr(attrs, "continuedAt"@)
        &&& p1.continuation_stack@.last().text@.len() == 0
    } else if is_local(qname, "loc"@) {
        &&& r == Ok::<bool, XbrlError>(false)
        &&& p1 == InstanceParser { locators: p1.locators, ..p0 }
        &&& sview(p1.locators.view()) == locators_after(sview(p0.locators.view()), attrs)
    } else if is_local(qname, "footnoteArc"@) {
        &&& r == Ok::<bool, XbrlError>(false)
        &&& p1 == InstanceParser { footnote_arcs: p1.footnote_arcs, ..p0 }
        &&& p1.footnote_arcs@ == arcs_after(p0.footnote_arcs@, attrs)
    } else if is_local(qname, "hidden"@) {
        &&& r == Ok::<bool, XbrlError>(true)
        &&& frame_pushed(p0, p1, qname, ns)
        &&& p1 == InstanceParser { stack: p1.stack, hidden_depth: (p0.hidden_depth + 1) as usize, ..p0 }
    } else if is_local(qname, "schemaRef"@) {
        &&& r == Ok::<bool, XbrlError>(true)
        &&& frame_pushed(p0, p1, qname, ns)
        &&& p1 == InstanceParser { stack: p1.stack, doc: p1.doc, ..p0 }
        &&& p1.doc == InstanceDocument { schema_refs: p1.doc.schema_refs, ..p0.doc }
        &&& p1.doc.schema_refs@ == match attr_or(attrs, "href"@, "xlink:href"@) {
            Some(h) => p0.doc.schema_refs@.push(h),
            None => p0.doc.schema_refs@,
        }
    } else if starts_inline_fact(qname, attrs) {
        if bad_numeric_attrs(attrs) {
            r matches Err(XbrlError::Xml { .. })
        } else {
            &&& r == Ok::<bool, XbrlError>(true)
            &&& frame_pushed(p0, p1, qname, ns)
            &&& fact_opened(p0, p1, p1.fact_stack@.last())
            &&& inline_built(p1.fact_stack@.last(), qname, attrs, ns, p0.hidden_depth > 0, byte_start)
        }
    } else if p0.fact_stack@.len() > 0 {
        let top = p0.fact_stack@.last();
        &&& r == Ok::<bool, XbrlError>(true)
        &&& frame_pushed(p0, p1, qname, ns)
        &&& p1 == InstanceParser { stack: p1.stack, fact_stack: p1.fact_stack, ..p0 }
        &&& p1.fact_stack@ == p0.fact_stack@.drop_last().push(
            FactBuilder { depth: (top.depth + 1) as usize, ..top },
        )
    } else if is_local(qname, "context"@) {
        &&& r == Ok::<bool, XbrlError>(true)
        &&& frame_pushed(p0, p1, qname, ns)
        &&& p1 == InstanceParser { stack: p1.stack, context: p1.context, ..p0 }
        &&& match attr(attrs, "id"@) {
            Some(id) => p1.context matches Some(c) && fresh_context(c, id),
            None => p1.context == p0.context,
        }
    } else if is_local(qname, "unit"@) {
        &&& r == Ok::<bool, XbrlError>(true)
        &&& frame_pushed(p0, p1, qname, ns)
        &&& p1 == InstanceParser { stack: p1.stack, unit: p1.unit, ..p0 }
        &&& match attr(attrs, "id"@) {
            Some(id) => p1.unit matches Some(u) && fresh_unit(u, id),
            None => p1.unit == p0.unit,
        }
    } else if p0.context is Some {
        &&& r == Ok::<bool, XbrlError>(true)
        &&& frame_pushed(p0, p1, qname, ns)
        &&& context_start_applied(InstanceParser { stack: p1.stack, ..p0 }, p1, qname, attrs, ns)
    } else if p0.unit is Some {
        &&& r == Ok::<bool, XbrlError>(true)
        &&& frame_pushed(p0, p1, qname, ns)
        &&& unit_start_applied(InstanceParser { stack: p1.stack, ..p0 }, p1, qname)
    } else if attr(attrs, "contextRef"@) is Some {
        if bad_numeric_attrs(attrs) {
            r matches Err(XbrlError::Xml { .. })
        } else {
            &&& r == Ok::<bool, XbrlError>(true)
            &&& frame_pushed(p0, p1, qname, ns)
            &&& fact_opened(p0, p1, p1.fact_stack@.last())
            &&& plain_built(
                p1.fact_stack@.last(),
                qname,
                attr(attrs, "contextRef"@).unwrap(),
                attrs,
                byte_start,
            )
        }
    } else {
        &&& r == Ok::<bool, XbrlError>(true)
        &&& frame_pushed(p0, p1, qname, ns)
        &&& p1 == InstanceParser { stack: p1.stack, ..p0 }
    }
}

impl InstanceParser {
    /// Records a typed member of the context being read.
    pub fn typed_member(&mut self, dimension: QName, raw_xml: String)
        requires
            old(self).context is Some,
        ensures
            *final(self) == (InstanceParser { context: final(self).context, ..*old(self) }),
            final(self).context matches Some(c1) && member_pushed(
                old(self).context.unwrap(),
                c1,
                old(self).context.unwrap().container,
                |e: ContextElement| e == ContextElement::TypedDimension { dimension, raw_xml },
            ),
    {
        let mut c = self.context.take().unwrap();
        let ghost c0 = c;
        let container = c.container;
        c.push_element(container, ContextElement::TypedDimension { dimension, raw_xml });
        proof {
            if container == ContextContainer::Segment {
                assert(c.segment@.drop_last() =~= c0.segment@);
            }
            if container == ContextContainer::Scenario {
                assert(c.scenario@.drop_last() =~= c0.scenario@);
            }
        }
        self.context = Some(c);
    }

    /// Records a footnote resource with its content; its `label` maps to
    /// its index among the footnotes.
    pub fn footnote(&mut self, attrs: &StrMap<String>, content: String)
        requires
            old(self).doc.footnotes@.len() < usize::MAX,
        ensures
            *final(self) == (InstanceParser {
                doc: final(self).doc,
                footnote_labels: final(self).footnote_labels,
                ..*old(self)
            }),
            final(self).doc == (InstanceDocument { footnotes: final(self).doc.footnotes, ..old(self).doc }),
            final(self).doc.footnotes@.drop_last() == old(self).doc.footnotes@,
            final(self).doc.footnotes@.len() == old(self).doc.footnotes@.len() + 1,
            ({
                let f = final(self).doc.footnotes@.last();
                &&& f.id == attr(*attrs, "id"@)
                &&& f.role == attr(*attrs, "role"@)
                &&& f.lang == attr_or(*attrs, "lang"@, "xml:lang"@)
                &&& f.content == content
                &&& f.fact_refs@.len() == 0
            }),
            final(self).footnote_labels.view() == match attr(*attrs, "label"@) {
                Some(l) => old(self).footnote_labels.view().insert(l@, old(self).doc.footnotes@.len() as usize),
                None => old(self).footnote_labels.view(),
            },
    {
        let index = self.doc.footnotes.len();
        if let Some(l) = get_attr(attrs, "label") {
            self.footnote_labels.insert(l, index);
        }
        let ghost before = self.doc.footnotes@;
        self.doc.footnotes.push(
            Footnote {
                id: get_attr(attrs, "id"),
                role: get_attr(attrs, "role"),
                lang: get_attr_or(attrs, "lang", "xml:lang"),
                content,
                fact_refs: Vec::new(),
            },
        );
        assert(self.doc.footnotes@.drop_last() =~= before);
    }

    /// Reacts to a start tag with its resolved name, attributes and
    /// namespaces in scope; `byte_start` is the reader's position after it.
    /// Returns whether an element frame was pushed.
    pub fn open_tag(&mut self, qname: QName, attrs: &StrMap<String>, namespaces: NamespaceMap, byte_start: u64) -> (r: Result<bool, XbrlError>)
        requires
            depth_room(*old(self)),
        ensures
            open_applied(*old(self), *final(self), qname, *attrs, namespaces, byte_start, r),
    {
        let frame_ns = namespaces.duplicate();
        let ghost st0 = self.stack@;
        let ghost fs0 = self.fact_stack@;
        if local_is(&qname, "continuation") {
            self.stack.push(Frame { qname: qname.clone(), namespaces: frame_ns });
            assert(self.stack@.drop_last() =~= st0);
            self.continuation_stack.push(
                ContinuationBuilder {
                    id: get_attr(attrs, "id"),
                    continued_at: get_attr(attrs, "continuedAt"),
                    text: String::new(),
                },
            );
            assert(self.continuation_stack@.drop_last() =~= old(self).continuation_stack@);
            return Ok(true);
        }
        if local_is(&qname, "loc") {
            self.locator(attrs);
            return Ok(false);
        }
        if local_is(&qname, "footnoteArc") {
            self.footnote_arc(attrs);
            return Ok(false);
        }
        if local_is(&qname, "hidden") {
            self.stack.push(Frame { qname: qname.clone(), namespaces: frame_ns });
            assert(self.stack@.drop_last() =~= st0);
            self.hidden_depth = self.hidden_depth + 1;
            return Ok(true);
        }
        if local_is(&qname, "schemaRef") {
            self.stack.push(Frame { qname: qname.clone(), namespaces: frame_ns });
            assert(self.stack@.drop_last() =~= st0);
            if let Some(h) = get_attr_or(attrs, "href", "xlink:href") {
                self.doc.schema_refs.push(h);
            }
            return Ok(true);
        }
        let inline = FactBuilder::inline(&qname, attrs, &namespaces, self.hidden_depth > 0, byte_start)?;
        self.stack.push(Frame { qname: qname.clone(), namespaces: frame_ns });
        assert(self.stack@.drop_last() =~= st0);
        if let Some(fact) = inline {
            self.fact_stack.push(fact);
            self.text_target = Some(TextTarget::Fact);
            return Ok(true);
        }
        if self.fact_stack.len() > 0 {
            let mut top = self.fact_stack.pop().unwrap();
            top.depth = top.depth + 1;
            self.fact_stack.push(top);
            assert(self.fact_stack@ =~= fs0.drop_last().push(top));
            return Ok(true);
        }
        if local_is(&qname, "context") {
            if let Some(id) = get_attr(attrs, "id") {
                self.context = Some(ContextBuilder::new(id));
            }
            return Ok(true);
        }
        if local_is(&qname, "unit") {
            if let Some(id) = get_attr(attrs, "id") {
                self.unit = Some(UnitBuilder::new(id));
            }
            return Ok(true);
        }
        if self.context.is_some() {
            self.context_start(&qname, attrs, &namespaces);
            return Ok(true);
        }
        if self.unit.is_some() {
            self.unit_start(&qname);
            return Ok(true);
        }
        if let Some(context_ref) = get_attr(attrs, "contextRef") {
            let fact = FactBuilder::new(qname, context_ref, attrs, byte_start)?;
            self.fact_stack.push(fact);
            self.text_target = Some(TextTarget::Fact);
        }
        Ok(true)
    }
}

/// Every nesting counter is at most `n`.
pub open spec fn depth_bound(p: InstanceParser, n: nat) -> bool {
    &&& p.hidden_depth <= n
    &&& forall|i: int| 0 <= i < p.fact_stack@.len() ==> #[trigger] p.fact_stack@[i].depth <= n
}

/// What holds of the parser after `n` events: contexts and units are kept
/// under their ids, and no counter has grown past `n`.
pub open spec fn parser_inv(p: InstanceParser, n: nat) -> bool {
    &&& doc_wf(p.doc)
    &&& depth_bound(p, n)
    &&& p.doc.footnotes@.len() <= n
}

/// A closing tag keeps contexts and units under their ids and raises no counter.
pub proof fn lemma_end_keeps(p0: InstanceParser, p1: InstanceParser, byte_end: u64, n: nat)
    requires
        p0.stack@.len() > 0,
        end_applied(p0, p1, byte_end),
        parser_inv(p0, n),
    ensures
        parser_inv(p1, n),
{
    let q = p0.stack@.last().qname;
    if is_local(q, "continuation"@) && p0.continuation_stack@.len() > 0 {
    } else if p0.fact_stack@.len() > 0 {
        let top = p0.fact_stack@.last();
        assert(top == p0.fact_stack@[p0.fact_stack@.len() - 1]);
        if top.depth > 0 {
            assert forall|i: int| 0 <= i < p1.fact_stack@.len() implies #[trigger] p1.fact_stack@[i].depth <= n by {
                if i < p1.fact_stack@.len() - 1 {
                    assert(p1.fact_stack@[i] == p0.fact_stack@[i]);
                }
            }
        } else {
            assert forall|i: int| 0 <= i < p1.fact_stack@.len() implies #[trigger] p1.fact_stack@[i].depth <= n by {
                assert(p1.fact_stack@[i] == p0.fact_stack@[i]);
            }
        }
    } else if is_local(q, "hidden"@) {
    } else if is_local(q, "context"@) {
        match p0.context {
            Some(c) => match built_context(c) {
                Some(ctx) => {
                    assert forall|k: Seq<char>| #[trigger] p1.doc.contexts.view().contains_key(k) implies p1.doc.contexts.view()[k].id@ == k by {
                        if k != ctx.id@ {
                            assert(p0.doc.contexts.view().contains_key(k));
                        }
                    }
                },
                None => {},
            },
            None => {},
        }
    } else if is_local(q, "unit"@) {
        match p0.unit {
            Some(u) => {
                assert forall|k: Seq<char>| #[trigger] p1.doc.units.view().contains_key(k) implies p1.doc.units.view()[k].id@ == k by {
                    if k != u.id@ {
                        assert(p0.doc.units.view().contains_key(k));
                    }
                }
            },
            None => {},
        }
    } else {
    }
}

/// Text keeps the document and raises no counter.
pub proof fn lemma_text_keeps(p0: InstanceParser, p1: InstanceParser, t: Seq<char>, r: Result<(), XbrlError>, n: nat)
    requires
        parser_inv(p0, n),
        r is Ok,
        ({
            ||| p1 == p0
            ||| (p1 == InstanceParser {
                fact_stack: p1.fact_stack,
                continuation_stack: p1.continuation_stack,
                ..p0
            } && p1.fact_stack@.len() == p0.fact_stack@.len() && forall|i: int|
                0 <= i < p0.fact_stack@.len() ==> fact_text_appended(
                    #[trigger] p0.fact_stack@[i],
                    p1.fact_stack@[i],
                    t,
                ))
            ||| (p0.fact_stack@.len() == 0 && p0.continuation_stack@.len() == 0
                && text_target_applied(p0, p1, t, r))
        }),
    ensures
        parser_inv(p1, n),
{
    if p1 == p0 {
    } else if p0.fact_stack@.len() == 0 && p0.continuation_stack@.len() == 0 && text_target_applied(p0, p1, t, r) {
        assert(p1.doc == p0.doc);
        assert(p1.fact_stack == p0.fact_stack);
    } else {
        assert forall|i: int| 0 <= i < p1.fact_stack@.len() implies #[trigger] p1.fact_stack@[i].depth <= n by {
            assert(fact_text_appended(p0.fact_stack@[i], p1.fact_stack@[i], t));
        }
    }
}

/// A start tag keeps contexts and units under their ids and raises each
/// counter by at most one.
pub proof fn lemma_open_keeps(
    p0: InstanceParser,
    p1: InstanceParser,
    qname: QName,
    attrs: StrMap<String>,
    ns: NamespaceMap,
    byte_start: u64,
    n: nat,
)
    requires
        parser_inv(p0, n),
        open_applied(p0, p1, qname, attrs, ns, byte_start, Ok(true)) || open_applied(
            p0,
            p1,
            qname,
            attrs,
            ns,
            byte_start,
            Ok(false),
        ),
    ensures
        parser_inv(p1, n + 1),
{
    let r = if open_applied(p0, p1, qname, attrs, ns, byte_start, Ok(true)) {
        Ok::<bool, XbrlError>(true)
    } else {
        Ok::<bool, XbrlError>(false)
    };
    assert(open_applied(p0, p1, qname, attrs, ns, byte_start, r));
    if is_local(qname, "continuation"@) || is_local(qname, "loc"@) || is_local(qname, "footnoteArc"@)
        || is_local(qname, "hidden"@) || is_local(qname, "schemaRef"@) {
        assert(p1.fact_stack == p0.fact_stack);
    } else if starts_inline_fact(qname, attrs) {
        assert forall|i: int| 0 <= i < p1.fact_stack@.len() implies #[trigger] p1.fact_stack@[i].depth <= n + 1 by {
            if i < p0.fact_stack@.len() {
                assert(p1.fact_stack@[i] == p0.fact_stack@[i]);
            }
        }
    } else if p0.fact_stack@.len() > 0 {
        assert forall|i: int| 0 <= i < p1.fact_stack@.len() implies #[trigger] p1.fact_stack@[i].depth <= n + 1 by {
            if i < p0.fact_stack@.len() - 1 {
                assert(p1.fact_stack@[i] == p0.fact_stack@[i]);
            } else {
                assert(p0.fact_stack@.last() == p0.fact_stack@[p0.fact_stack@.len() - 1]);
            }
        }
    } else if is_local(qname, "context"@) || is_local(qname, "unit"@) {
    } else if p0.context is Some {
        assert(p1.fact_stack == p0.fact_stack);
        assert(p1.doc == p0.doc);
    } else if p0.unit is Some {
        assert(p1.fact_stack == p0.fact_stack);
        assert(p1.doc == p0.doc);
    } else if attr(attrs, "contextRef"@) is Some {
        assert forall|i: int| 0 <= i < p1.fact_stack@.len() implies #[trigger] p1.fact_stack@[i].depth <= n + 1 by {
            if i < p0.fact_stack@.len() {
                assert(p1.fact_stack@[i] == p0.fact_stack@[i]);
            }
        }
    } else {
    }
}

/// Counters bounded below the maximum leave room to grow.
proof fn lemma_room(p: InstanceParser, n: nat)
    requires
        depth_bound(p, n),
        n < usize::MAX,
    ensures
        depth_room(p),
{
    if p.fact_stack@.len() > 0 {
        assert(p.fact_stack@.last() == p.fact_stack@[p.fact_stack@.len() - 1]);
    }
}

/// What a start tag leaves to do once its name and attributes are read.
pub enum StartTag {
    /// The tag was handled; whether an element frame was pushed.
    Handled(bool),
    /// A typed member of this dimension, whose raw content comes next.
    TypedMember(QName),
    /// A footnote resource with these attributes, whose raw content comes next.
    Footnote(StrMap<String>),
}

/// The default namespace in scope: that of the innermost open element.
pub open spec fn scope_default(p: InstanceParser) -> Option<Seq<char>> {
    if p.stack@.len() > 0 {
        opt_view(p.stack@.last().namespaces.default)
    } else {
        None
    }
}

/// The prefix bindings in scope: those of the innermost open element.
pub open spec fn scope_prefixes(p: InstanceParser) -> Map<Seq<char>, Seq<char>> {
    if p.stack@.len() > 0 {
        ns_view(p.stack@.last().namespaces)
    } else {
        Map::empty()
    }
}

/// The outcome of `open_tag` as the outcome of a start tag.
pub open spec fn handled(b: Result<bool, XbrlError>) -> Result<StartTag, XbrlError> {
    match b {
        Ok(x) => Ok(StartTag::Handled(x)),
        Err(e) => Err(e),
    }
}

/// What a start tag named `q`, with attributes `attrs` and namespaces `ns`
/// in scope, does: inside a context a `typedMember` with a `dimension`
/// asks for its content (one without is ignored); a `footnote` asks for
/// its content; every other tag is opened.
pub open spec fn start_applied(
    p0: InstanceParser,
    p1: InstanceParser,
    q: QName,
    attrs: StrMap<String>,
    ns: NamespaceMap,
    byte_start: u64,
    r: Result<StartTag, XbrlError>,
) -> bool {
    if p0.context is Some && is_local(q, "typedMember"@) {
        &&& p1 == p0
        &&& match attr(attrs, "dimension"@) {
            Some(d) => r matches Ok(StartTag::TypedMember(dq)) && qname_parts(dq) == qname_of(d@, ns, false),
            None => r matches Ok(StartTag::Handled(false)),
        }
    } else if is_local(q, "footnote"@) {
        &&& p1 == p0
        &&& r matches Ok(StartTag::Footnote(a)) && a.view() == attrs.view()
    } else {
        exists|b: Result<bool, XbrlError>| r == handled(b) && open_applied(p0, p1, q, attrs, ns, byte_start, b)
    }
}

/// A typed member of `dimension` with content `raw_xml` pushed onto the
/// context being read, and nothing else changed.
pub open spec fn typed_member_applied(p0: InstanceParser, p1: InstanceParser, dimension: QName, raw_xml: String) -> bool {
    &&& p0.context is Some
    &&& p1 == (InstanceParser { context: p1.context, ..p0 })
    &&& p1.context matches Some(c1) && member_pushed(
        p0.context.unwrap(),
        c1,
        p0.context.unwrap().container,
        |e: ContextElement| e == ContextElement::TypedDimension { dimension, raw_xml },
    )
}

/// A footnote resource with attributes `attrs` and content `content`
/// appended to the document, its `label` mapped to its index.
pub open spec fn footnote_applied(p0: InstanceParser, p1: InstanceParser, attrs: StrMap<String>, content: String) -> bool {
    &&& p1 == (InstanceParser { doc: p1.doc, footnote_labels: p1.footnote_labels, ..p0 })
    &&& p1.doc == (InstanceDocument { footnotes: p1.doc.footnotes, ..p0.doc })
    &&& p1.doc.footnotes@.drop_last() == p0.doc.footnotes@
    &&& p1.doc.footnotes@.len() == p0.doc.footnotes@.len() + 1
    &&& ({
        let f = p1.doc.footnotes@.last();
        &&& f.id == attr(attrs, "id"@)
        &&& f.role == attr(attrs, "role"@)
        &&& f.lang == attr_or(attrs, "lang"@, "xml:lang"@)
        &&& f.content == content
        &&& f.fact_refs@.len() == 0
    })
    &&& p1.footnote_labels.view() == match attr(attrs, "label"@) {
        Some(l) => p0.footnote_labels.view().insert(l@, p0.doc.footnotes@.len() as usize),
        None => p0.footnote_labels.view(),
    }
}

/// The step a start tag takes once `start_tag` has resolved it to `tag`:
/// a handled tag is done (`pushed` tells whether a frame was pushed); a
/// typed member or a footnote is then recorded with its raw `content`.
pub open spec fn tag_completed(
    p0: InstanceParser,
    p1: InstanceParser,
    q: QName,
    attrs: StrMap<String>,
    ns: NamespaceMap,
    pos: u64,
    tag: StartTag,
    content: String,
    pushed: bool,
) -> bool {
    match tag {
        StartTag::Handled(b) => b == pushed && start_applied(p0, p1, q, attrs, ns, pos, Ok(tag)),
        StartTag::TypedMember(d) => !pushed && start_applied(p0, p0, q, attrs, ns, pos, Ok(tag))
            && typed_member_applied(p0, p1, d, content),
        StartTag::Footnote(a) => !pushed && start_applied(p0, p0, q, attrs, ns, pos, Ok(tag))
            && footnote_applied(p0, p1, a, content),
    }
}

/// What the reader holds after a start tag resolved to `tag`: unchanged
/// when the tag was handled; otherwise the tag's inner text was read as
/// `content`, up to its closing tag, which is then the last event read.
pub open spec fn reads_after(tag: StartTag, items: Seq<XmlItem>, after: Seq<XmlItem>, content: String) -> bool {
    match tag {
        StartTag::Handled(_) => after == items,
        _ => {
            &&& item_name(items[0]) is Some
            &&& closing_index(items, item_name(items[0]).unwrap(), 0, 1) matches Some(j) && after == items.subrange(
                j,
                items.len() as int,
            )
            &&& Some(content@) == item_inner(items[0])
        },
    }
}

/// What the start or empty tag `items[0]`, just read, does, with the reader
/// holding `items` before and `after` after: its attributes read as text,
/// its name as UTF-8, both resolved as `start_tag` does at the reader's
/// position after the tag, and what that leaves completed from the reader.
pub open spec fn start_item_step(
    p0: InstanceParser,
    p1: InstanceParser,
    items: Seq<XmlItem>,
    after: Seq<XmlItem>,
    pushed: bool,
) -> bool {
    let item = items[0];
    let raw = item_name(item).unwrap();
    &&& items.len() > 0
    &&& item_name(item) is Some
    &&& vstd::utf8::valid_utf8(raw)
    &&& attrs_text(item_attrs(item)) is Some
    &&& exists|pairs: Seq<(String, String)>, attrs: StrMap<String>, ns: NamespaceMap, q: QName, tag: StartTag, content: String|
        #![trigger pairs_text(pairs), tag_completed(p0, p1, q, attrs, ns, item_end(item), tag, content, pushed)]
        {
            &&& pairs_text(pairs) == attrs_text(item_attrs(item)).unwrap()
            &&& (attrs.view(), opt_view(ns.default), ns_view(ns)) == attrs_fold(
                pairs,
                (Map::empty(), scope_default(p0), scope_prefixes(p0)),
            )
            &&& qname_parts(q) == qname_of(decode_utf8(raw), ns, true)
            &&& tag_completed(p0, p1, q, attrs, ns, item_end(item), tag, content, pushed)
            &&& reads_after(tag, items, after, content)
        }
}

/// The start or empty tag `items[0]`, just read, fails: an attribute does
/// not read, its name is not UTF-8, `start_tag` rejects it, or the content
/// a typed member or footnote needs has no closing tag.
pub open spec fn start_item_fails(p0: InstanceParser, items: Seq<XmlItem>) -> bool {
    let item = items[0];
    let raw = item_name(item).unwrap();
    ||| attrs_text(item_attrs(item)) is None
    ||| !vstd::utf8::valid_utf8(raw)
    ||| exists|pairs: Seq<(String, String)>, attrs: StrMap<String>, ns: NamespaceMap, q: QName, p1: InstanceParser, r: Result<StartTag, XbrlError>|
        #![trigger pairs_text(pairs), start_applied(p0, p1, q, attrs, ns, item_end(item), r)]
        {
            &&& pairs_text(pairs) == attrs_text(item_attrs(item)).unwrap()
            &&& (attrs.view(), opt_view(ns.default), ns_view(ns)) == attrs_fold(
                pairs,
                (Map::empty(), scope_default(p0), scope_prefixes(p0)),
            )
            &&& qname_parts(q) == qname_of(decode_utf8(raw), ns, true)
            &&& start_applied(p0, p1, q, attrs, ns, item_end(item), r)
            &&& (r is Err || (!(r matches Ok(StartTag::Handled(_))) && closing_index(items, raw, 0, 1) is None))
        }
}

impl InstanceParser {
    /// Reacts to a start tag given its attributes and raw name: the
    /// attributes are split into plain attributes and namespace bindings on
    /// top of those in scope, and the name is resolved against them. A name
    /// that is not UTF-8 is an error. `byte_start` is the reader's position
    /// after the tag.
    pub fn start_tag(&mut self, pairs: Vec<(String, String)>, raw: &[u8], byte_start: u64) -> (r: Result<
        StartTag,
        XbrlError,
    >)
        requires
            depth_room(*old(self)),
        ensures
            !vstd::utf8::valid_utf8(raw@) ==> (r matches Err(XbrlError::Xml { .. }) && *final(self) == *old(self)),
            vstd::utf8::valid_utf8(raw@) ==> exists|attrs: StrMap<String>, ns: NamespaceMap, q: QName|
                {
                    &&& (attrs.view(), opt_view(ns.default), ns_view(ns)) == attrs_fold(
                        pairs@,
                        (Map::empty(), scope_default(*old(self)), scope_prefixes(*old(self))),
                    )
                    &&& qname_parts(q) == qname_of(decode_utf8(raw@), ns, true)
                    &&& start_applied(*old(self), *final(self), q, attrs, ns, byte_start, r)
                },
    {
        let n = self.stack.len();
        let parent = if n > 0 {
            self.stack[n - 1].namespaces.duplicate()
        } else {
            NamespaceMap::new()
        };
        proof {
            assert(ns_view(parent) =~= scope_prefixes(*self));
        }
        let (attrs, namespaces) = collect_attrs(pairs, parent);
        let name_chars = utf8_chars(raw)?;
        let qname = parse_qname_str(string_of(name_chars.as_slice()).as_str(), &namespaces, true);
        if self.context.is_some() && local_is(&qname, "typedMember") {
            let r = match attrs.get("dimension") {
                Some(d) => Ok(StartTag::TypedMember(parse_qname_str(d.as_str(), &namespaces, false))),
                None => Ok(StartTag::Handled(false)),
            };
            assert(start_applied(*old(self), *self, qname, attrs, namespaces, byte_start, r));
            return r;
        }
        if local_is(&qname, "footnote") {
            let ghost a = attrs;
            let r = Ok(StartTag::Footnote(attrs));
            assert(start_applied(*old(self), *self, qname, a, namespaces, byte_start, r));
            return r;
        }
        let ghost ns = namespaces;
        let ghost q = qname;
        let b = self.open_tag(qname, &attrs, namespaces, byte_start);
        let r = match b {
            Ok(x) => Ok(StartTag::Handled(x)),
            Err(e) => Err(e),
        };
        assert(r == handled(b) && open_applied(*old(self), *self, q, attrs, ns, byte_start, b));
        assert(start_applied(*old(self), *self, q, attrs, ns, byte_start, r));
        r
    }

    /// Reads the start or empty tag the reader gave last (`element`, with
    /// raw name `raw`): its attributes and the reader's position after it,
    /// then what `start_tag` leaves to do; `typedMember` and `footnote`
    /// take their raw content from the reader. Returns whether a frame was
    /// pushed.
    pub fn start_element(
        &mut self,
        reader: &mut quick_xml::reader::Reader<&[u8]>,
        element: &quick_xml::events::BytesStart,
        raw: &[u8],
    ) -> (r: Result<bool, XbrlError>)
        requires
            depth_room(*old(self)),
            old(self).doc.footnotes@.len() < usize::MAX,
            reader_items(*old(reader)).len() > 0,
            item_name(reader_items(*old(reader))[0]) == Some(raw@),
            item_attrs(reader_items(*old(reader))[0]) == start_attrs(*element),
        ensures
            r is Ok ==> forall|n: nat|
                #[trigger] parser_inv(*old(self), n) && n < usize::MAX ==> parser_inv(*final(self), n + 1),
            r matches Ok(true) ==> final(self).stack@.len() > 0,
            r matches Ok(pushed) ==> start_item_step(
                *old(self),
                *final(self),
                reader_items(*old(reader)),
                reader_items(*final(reader)),
                pushed,
            ),
            r is Err ==> start_item_fails(*old(self), reader_items(*old(reader))),
    {
        let ghost items = reader_items(*reader);
        let pairs = match read_attributes(element, false) {
            Ok(v) => v,
            Err(e) => {
                return Err(e);
            },
        };
        let byte_start = buffer_position(reader);
        let ghost p0 = *self;
        let ghost pv = pairs@;
        let tag = self.start_tag(pairs, raw, byte_start);
        proof {
            if tag is Err && vstd::utf8::valid_utf8(raw@) {
                let (attrs, ns, q) = choose|attrs: StrMap<String>, ns: NamespaceMap, q: QName|
                    {
                        &&& (attrs.view(), opt_view(ns.default), ns_view(ns)) == attrs_fold(
                            pv,
                            (Map::empty(), scope_default(p0), scope_prefixes(p0)),
                        )
                        &&& qname_parts(q) == qname_of(decode_utf8(raw@), ns, true)
                        &&& start_applied(p0, *self, q, attrs, ns, byte_start, tag)
                    };
                assert(start_applied(p0, *self, q, attrs, ns, item_end(items[0]), tag));
                assert(start_item_fails(p0, items));
            }
        }
        let ghost mut w: (StrMap<String>, NamespaceMap, QName) = arbitrary();
        proof {
            if tag is Ok {
                let (attrs, ns, q) = choose|attrs: StrMap<String>, ns: NamespaceMap, q: QName|
                    {
                        &&& (attrs.view(), opt_view(ns.default), ns_view(ns)) == attrs_fold(
                            pv,
                            (Map::empty(), scope_default(p0), scope_prefixes(p0)),
                        )
                        &&& qname_parts(q) == qname_of(decode_utf8(raw@), ns, true)
                        &&& start_applied(p0, *self, q, attrs, ns, byte_start, tag)
                    };
                if !(p0.context is Some && is_local(q, "typedMember"@)) && !is_local(q, "footnote"@) {
                    let b = choose|b: Result<bool, XbrlError>|
                        tag == handled(b) && open_applied(p0, *self, q, attrs, ns, byte_start, b);
                    assert forall|k: nat| #[trigger] parser_inv(p0, k) && k < usize::MAX implies parser_inv(
                        *self,
                        k + 1,
                    ) by {
                        lemma_open_keeps(p0, *self, q, attrs, ns, byte_start, k);
                    }
                }
                w = (attrs, ns, q);
            }
        }
        let ghost t = tag;
        match tag? {
            StartTag::Handled(pushed) => {
                proof {
                    let c: String = arbitrary();
                    assert(tag_completed(p0, *self, w.2, w.0, w.1, byte_start, t.unwrap(), c, pushed));
                    assert(reads_after(t.unwrap(), items, reader_items(*reader), c));
                    assert(start_item_step(p0, *self, items, reader_items(*reader), pushed));
                }
                Ok(pushed)
            },
            StartTag::TypedMember(dimension) => {
                let raw_xml = match read_text(reader, raw) {
                    Ok(t) => t,
                    Err(e) => {
                        proof {
                            assert(start_applied(p0, *self, w.2, w.0, w.1, item_end(items[0]), t));
                            assert(start_item_fails(p0, items));
                        }
                        return Err(XbrlError::QuickXml(e));
                    },
                };
                let ghost rx = raw_xml;
                self.typed_member(dimension, raw_xml);
                proof {
                    assert(typed_member_applied(p0, *self, dimension, rx));
                    assert(tag_completed(p0, *self, w.2, w.0, w.1, byte_start, t.unwrap(), rx, false));
                    assert(reads_after(t.unwrap(), items, reader_items(*reader), rx));
                    assert(start_item_step(p0, *self, items, reader_items(*reader), false));
                }
                Ok(false)
            },
            StartTag::Footnote(attrs) => {
                let content = match read_text(reader, raw) {
                    Ok(t) => t,
                    Err(e) => {
                        proof {
                            assert(start_applied(p0, *self, w.2, w.0, w.1, item_end(items[0]), t));
                            assert(start_item_fails(p0, items));
                        }
                        return Err(XbrlError::QuickXml(e));
                    },
                };
                let ghost ct = content;
                self.footnote(&attrs, content);
                proof {
                    assert(footnote_applied(p0, *self, attrs, ct));
                    assert(tag_completed(p0, *self, w.2, w.0, w.1, byte_start, t.unwrap(), ct, false));
                    assert(reads_after(t.unwrap(), items, reader_items(*reader), ct));
                    assert(start_item_step(p0, *self, items, reader_items(*reader), false));
                }
                Ok(false)
            },
        }
    }
}

/// A parser that has read nothing: no open elements, facts, continuations,
/// context or unit, and an empty document and link tables.
pub open spec fn fresh_parser(p: InstanceParser) -> bool {
    &&& p.stack@.len() == 0
    &&& p.fact_stack@.len() == 0
    &&& p.continuation_stack@.len() == 0
    &&& p.context is None
    &&& p.unit is None
    &&& p.text_target is None
    &&& p.hidden_depth == 0
    &&& p.doc.facts@.len() == 0
    &&& p.doc.footnotes@.len() == 0
    &&& p.doc.schema_refs@.len() == 0
    &&& p.doc.contexts.view() == Map::<Seq<char>, Context>::empty()
    &&& p.doc.units.view() == Map::<Seq<char>, Unit>::empty()
    &&& p.continuations.view() == Map::<Seq<char>, Continuation>::empty()
    &&& p.locators.view() == Map::<Seq<char>, String>::empty()
    &&& p.footnote_labels.view() == Map::<Seq<char>, usize>::empty()
    &&& p.footnote_arcs@.len() == 0
}

/// What a run of text (trimmed to `t`) does to the parser: blank text does
/// nothing; inside facts or continuations it is appended to each of them;
/// elsewhere it goes to the current text target.
pub open spec fn text_step(p0: InstanceParser, p1: InstanceParser, t: Seq<char>) -> bool {
    if t.len() == 0 {
        p1 == p0
    } else if p0.fact_stack@.len() > 0 || p0.continuation_stack@.len() > 0 {
        &&& p1 == InstanceParser {
            fact_stack: p1.fact_stack,
            continuation_stack: p1.continuation_stack,
            ..p0
        }
        &&& p1.fact_stack@.len() == p0.fact_stack@.len()
        &&& forall|i: int|
            0 <= i < p0.fact_stack@.len() ==> fact_text_appended(#[trigger] p0.fact_stack@[i], p1.fact_stack@[i], t)
        &&& p1.continuation_stack@.len() == p0.continuation_stack@.len()
        &&& forall|i: int|
            0 <= i < p0.continuation_stack@.len() ==> cont_text_appended(
                #[trigger] p0.continuation_stack@[i],
                p1.continuation_stack@[i],
                t,
            )
    } else {
        text_target_applied(p0, p1, t, Ok(()))
    }
}

/// The reader holds the rest of a document: the event read last, then at
/// least one more, ending with the first end of input or error.
pub open spec fn reader_ok(items: Seq<XmlItem>) -> bool {
    &&& items.len() > 1
    &&& (items.last() is Eof || items.last() is Error)
    &&& forall|i: int| 1 <= i < items.len() - 1 ==> !(#[trigger] items[i] is Eof) && !(items[i] is Error)
}

/// The next event `before[1]`, handled without error, takes the parser from
/// `p0` to `p1` and the reader from holding `before` to holding `after`: a
/// start tag as `start_item_step`; an empty tag likewise, then closed at the
/// reader's position if it pushed a frame; a closing tag of an open element;
/// text (UTF-8, references resolved) or CDATA (UTF-8, else nothing), trimmed;
/// any other event changes nothing.
pub open spec fn item_step(
    p0: InstanceParser,
    p1: InstanceParser,
    before: Seq<XmlItem>,
    after: Seq<XmlItem>,
) -> bool {
    let b = before.drop_first();
    &&& before.len() > 1
    &&& match before[1] {
        XmlItem::Start { .. } => exists|pushed: bool| #[trigger] start_item_step(p0, p1, b, after, pushed),
        XmlItem::Empty { .. } => exists|mid: InstanceParser, pushed: bool|
            #[trigger] start_item_step(p0, mid, b, after, pushed) && if pushed {
                mid.stack@.len() > 0 && after.len() > 0 && end_applied(mid, p1, item_end(after[0]))
            } else {
                p1 == mid
            },
        XmlItem::End { end, .. } => after == b && p0.stack@.len() > 0 && end_applied(p0, p1, end),
        XmlItem::Text { raw, .. } => {
            &&& after == b
            &&& vstd::utf8::valid_utf8(raw)
            &&& xml_unescape(decode_utf8(raw)) is Some
            &&& text_step(p0, p1, trim(xml_unescape(decode_utf8(raw)).unwrap()))
        },
        XmlItem::CData { raw, .. } => after == b && text_step(
            p0,
            p1,
            trim(
                if vstd::utf8::valid_utf8(raw) {
                    decode_utf8(raw)
                } else {
                    Seq::empty()
                },
            ),
        ),
        XmlItem::Other { .. } => after == b && p1 == p0,
        _ => false,
    }
}

/// Text (trimmed to `t`) fails: it goes to a text target that rejects it.
pub open spec fn text_fails(p0: InstanceParser, t: Seq<char>) -> bool {
    &&& t.len() != 0
    &&& p0.fact_stack@.len() == 0
    &&& p0.continuation_stack@.len() == 0
    &&& exists|p1: InstanceParser, e: XbrlError| #[trigger] text_target_applied(p0, p1, t, Err(e))
}

/// The next event `before[1]` fails: the reader reports an error; a start
/// or empty tag fails (`start_item_fails`); a closing tag comes with no
/// element open; text does not decode or is rejected; CDATA is rejected.
pub open spec fn item_fails(p0: InstanceParser, before: Seq<XmlItem>) -> bool {
    &&& before.len() > 1
    &&& match before[1] {
        XmlItem::Error => true,
        XmlItem::Start { .. } => start_item_fails(p0, before.drop_first()),
        XmlItem::Empty { .. } => start_item_fails(p0, before.drop_first()),
        XmlItem::End { .. } => p0.stack@.len() == 0,
        XmlItem::Text { raw, .. } => !vstd::utf8::valid_utf8(raw) || xml_unescape(decode_utf8(raw)) is None
            || text_fails(p0, trim(xml_unescape(decode_utf8(raw)).unwrap())),
        XmlItem::CData { raw, .. } => text_fails(
            p0,
            trim(
                if vstd::utf8::valid_utf8(raw) {
                    decode_utf8(raw)
                } else {
                    Seq::empty()
                },
            ),
        ),
        _ => false,
    }
}

/// Reading the events the reader holds (`items`) from parser `p` fails:
/// some run of events handled without error leads to an event that fails,
/// or to `budget` events with no end of input.
pub open spec fn fails_through(p: InstanceParser, items: Seq<XmlItem>, budget: int) -> bool {
    exists|ps: Seq<InstanceParser>, rs: Seq<Seq<XmlItem>>|
        {
            &&& ps.len() > 0
            &&& rs.len() == ps.len()
            &&& ps[0] == p
            &&& rs[0] == items
            &&& #[trigger] items_path(ps, rs)
            &&& (item_fails(ps.last(), rs.last()) || ps.len() - 1 == budget)
        }
}

/// The reader's positions lie within `len` bytes and only move forward, and
/// strictly so past a start or empty tag.
pub open spec fn positions_ok(items: Seq<XmlItem>, len: int) -> bool {
    &&& forall|i: int| 0 <= i < items.len() ==> item_end(#[trigger] items[i]) <= len
    &&& forall|i: int, j: int|
        0 <= i <= j < items.len() && !(items[j] is Error) ==> item_end(#[trigger] items[i]) <= item_end(
            #[trigger] items[j],
        )
    &&& forall|i: int, j: int|
        0 <= j < i < items.len() && (items[i] is Start || items[i] is Empty) ==> item_end(#[trigger] items[j])
            < item_end(#[trigger] items[i])
}

/// A byte range that is present, ordered, and within `len` bytes.
pub open spec fn range_within(r: Option<(u64, u64)>, len: int) -> bool {
    match r {
        Some((s, e)) => s <= e && e <= len,
        None => false,
    }
}

/// Every fact the parser has read lies within `len` bytes, and every fact it
/// has read or is reading started no later than position `pos`, itself
/// within `len`, and at a position of its own.
pub open spec fn ranges_ok(p: InstanceParser, pos: int, len: int) -> bool {
    &&& pos <= len
    &&& forall|i: int| 0 <= i < p.doc.facts@.len() ==> range_within((#[trigger] p.doc.facts@[i]).byte_range, len)
    &&& forall|i: int| 0 <= i < p.fact_stack@.len() ==> (#[trigger] p.fact_stack@[i]).byte_start <= pos
    &&& starts_ok(p, pos)
}

/// Where a fact starts: the start of its byte range.
pub open spec fn fact_start(f: RawFact) -> int {
    match f.byte_range {
        Some((s, _)) => s as int,
        None => -1,
    }
}

/// The facts the parser has read, and those it is reading, start at
/// distinct positions, none of them after `pos`.
pub open spec fn starts_ok(p: InstanceParser, pos: int) -> bool {
    let fs = p.doc.facts@;
    let bs = p.fact_stack@;
    &&& forall|i: int| 0 <= i < fs.len() ==> fact_start(#[trigger] fs[i]) <= pos
    &&& forall|i: int, j: int|
        0 <= i < j < fs.len() ==> fact_start(#[trigger] fs[i]) != fact_start(#[trigger] fs[j])
    &&& forall|i: int, j: int| 0 <= i < j < bs.len() ==> (#[trigger] bs[i]).byte_start != (#[trigger] bs[j]).byte_start
    &&& forall|i: int, j: int|
        0 <= i < fs.len() && 0 <= j < bs.len() ==> fact_start(#[trigger] fs[i]) != (#[trigger] bs[j]).byte_start
}

/// No two facts share a byte range.
pub open spec fn distinct_ranges(facts: Seq<RawFact>) -> bool {
    forall|i: int, j: int|
        0 <= i < facts.len() && 0 <= j < facts.len() && i != j ==> (#[trigger] facts[i]).byte_range
            != (#[trigger] facts[j]).byte_range
}

/// Positions stay within bounds and in order on what a reader holds later.
proof fn lemma_positions_suffix(items: Seq<XmlItem>, j: int, len: int)
    requires
        positions_ok(items, len),
        0 <= j <= items.len(),
    ensures
        positions_ok(items.subrange(j, items.len() as int), len),
{
    let t = items.subrange(j, items.len() as int);
    assert forall|a: int, b: int| 0 <= a <= b < t.len() && !(t[b] is Error) implies item_end(#[trigger] t[a])
        <= item_end(#[trigger] t[b]) by {
        assert(t[a] == items[a + j] && t[b] == items[b + j]);
    }
    assert forall|a: int| 0 <= a < t.len() implies item_end(#[trigger] t[a]) <= len by {
        assert(t[a] == items[a + j]);
    }
    assert forall|a: int, b: int| 0 <= b < a < t.len() && (t[a] is Start || t[a] is Empty) implies item_end(
        #[trigger] t[b],
    ) < item_end(#[trigger] t[a]) by {
        assert(t[a] == items[a + j] && t[b] == items[b + j]);
    }
}

/// A start tag keeps the facts within bounds.
proof fn lemma_start_ranges(p0: InstanceParser, p1: InstanceParser, items: Seq<XmlItem>, after: Seq<XmlItem>, pushed: bool, pos0: int, len: int)
    requires
        start_item_step(p0, p1, items, after, pushed),
        ranges_ok(p0, pos0, len),
        pos0 < item_end(items[0]) <= len,
    ensures
        ranges_ok(p1, item_end(items[0]) as int, len),
{
    let (pairs, attrs, ns, q, tag, content) = choose|
        pairs: Seq<(String, String)>,
        attrs: StrMap<String>,
        ns: NamespaceMap,
        q: QName,
        tag: StartTag,
        content: String,
    |
        #![trigger pairs_text(pairs), tag_completed(p0, p1, q, attrs, ns, item_end(items[0]), tag, content, pushed)]
        {
            &&& pairs_text(pairs) == attrs_text(item_attrs(items[0])).unwrap()
            &&& (attrs.view(), opt_view(ns.default), ns_view(ns)) == attrs_fold(
                pairs,
                (Map::empty(), scope_default(p0), scope_prefixes(p0)),
            )
            &&& qname_parts(q) == qname_of(decode_utf8(item_name(items[0]).unwrap()), ns, true)
            &&& tag_completed(p0, p1, q, attrs, ns, item_end(items[0]), tag, content, pushed)
            &&& reads_after(tag, items, after, content)
        };
    let pos = item_end(items[0]);
    if !(p0.context is Some && is_local(q, "typedMember"@)) && !is_local(q, "footnote"@) {
        if tag is Handled {
            let b = choose|b: Result<bool, XbrlError>| Ok::<StartTag, XbrlError>(tag) == handled(b) && open_applied(p0, p1, q, attrs, ns, pos, b);
            lemma_open_starts(p0, p1, q, attrs, ns, pos, b, pos0);
            assert(ranges_ok(p1, pos as int, len));
        }
    }
}

/// Opening a tag at position `pos`, past every fact started so far, keeps
/// the facts' starts distinct: a new fact starts at `pos`.
proof fn lemma_open_starts(
    p0: InstanceParser,
    p1: InstanceParser,
    q: QName,
    attrs: StrMap<String>,
    ns: NamespaceMap,
    pos: u64,
    b: Result<bool, XbrlError>,
    pos0: int,
)
    requires
        open_applied(p0, p1, q, attrs, ns, pos, b),
        b is Ok,
        starts_ok(p0, pos0),
        forall|i: int| 0 <= i < p0.fact_stack@.len() ==> (#[trigger] p0.fact_stack@[i]).byte_start <= pos0,
        pos0 < pos,
    ensures
        starts_ok(p1, pos as int),
{
    let fs = p0.doc.facts@;
    let bs0 = p0.fact_stack@;
    let bs1 = p1.fact_stack@;
    assert(p1.doc.facts@ == fs);
    if bs1.len() == bs0.len() + 1 && bs1 == bs0.push(bs1.last()) {
        assert(bs1.last().byte_start == pos);
        assert forall|i: int, j: int| 0 <= i < j < bs1.len() implies (#[trigger] bs1[i]).byte_start
            != (#[trigger] bs1[j]).byte_start by {
            assert(bs1[i] == bs0[i]);
            if j < bs0.len() {
                assert(bs1[j] == bs0[j]);
            }
        }
        assert forall|i: int, j: int| 0 <= i < fs.len() && 0 <= j < bs1.len() implies fact_start(#[trigger] fs[i])
            != (#[trigger] bs1[j]).byte_start by {
            if j < bs0.len() {
                assert(bs1[j] == bs0[j]);
            }
        }
    } else if bs1.len() == bs0.len() && bs0.len() > 0 && bs1 == bs0.drop_last().push(
        FactBuilder { depth: (bs0.last().depth + 1) as usize, ..bs0.last() },
    ) {
        assert forall|i: int| 0 <= i < bs1.len() implies (#[trigger] bs1[i]).byte_start == bs0[i].byte_start by {
            if i < bs0.len() - 1 {
                assert(bs1[i] == bs0[i]);
            } else {
                assert(bs0.last() == bs0[i]);
            }
        }
        assert forall|i: int, j: int| 0 <= i < j < bs1.len() implies (#[trigger] bs1[i]).byte_start
            != (#[trigger] bs1[j]).byte_start by {
            assert(bs1[i].byte_start == bs0[i].byte_start);
            assert(bs1[j].byte_start == bs0[j].byte_start);
        }
        assert forall|i: int, j: int| 0 <= i < fs.len() && 0 <= j < bs1.len() implies fact_start(#[trigger] fs[i])
            != (#[trigger] bs1[j]).byte_start by {
            assert(bs1[j].byte_start == bs0[j].byte_start);
        }
    } else {
        assert(bs1 == bs0);
    }
}

/// A later position keeps the facts within bounds.
proof fn lemma_ranges_later(p: InstanceParser, pos: int, pos2: int, len: int)
    requires
        ranges_ok(p, pos, len),
        pos <= pos2 <= len,
    ensures
        ranges_ok(p, pos2, len),
{
}

/// A closing tag keeps the facts within bounds.
proof fn lemma_end_ranges(p0: InstanceParser, p1: InstanceParser, pos: int, e: u64, len: int)
    requires
        ranges_ok(p0, pos, len),
        pos <= e <= len,
        p0.stack@.len() > 0,
        end_applied(p0, p1, e),
    ensures
        ranges_ok(p1, e as int, len),
{
    lemma_ranges_later(p0, pos, e as int, len);
    if p0.fact_stack@.len() > 0 && !(is_local(p0.stack@.last().qname, "continuation"@) && p0.continuation_stack@.len() > 0) {
        let top = p0.fact_stack@.last();
        assert(top == p0.fact_stack@[p0.fact_stack@.len() - 1]);
        if top.depth == 0 {
            assert forall|i: int| 0 <= i < p1.doc.facts@.len() implies range_within((#[trigger] p1.doc.facts@[i]).byte_range, len) by {
                if i < p0.doc.facts@.len() {
                    assert(p1.doc.facts@[i] == p0.doc.facts@[i]);
                }
            }
            assert forall|i: int| 0 <= i < p1.fact_stack@.len() implies (#[trigger] p1.fact_stack@[i]).byte_start <= e by {
                assert(p1.fact_stack@[i] == p0.fact_stack@[i]);
            }
        } else {
            assert forall|i: int| 0 <= i < p1.fact_stack@.len() implies (#[trigger] p1.fact_stack@[i]).byte_start <= e by {
                if i < p0.fact_stack@.len() - 1 {
                    assert(p1.fact_stack@[i] == p0.fact_stack@[i]);
                }
            }
        }
    }
}

/// Text keeps the facts within bounds.
proof fn lemma_text_ranges(p0: InstanceParser, p1: InstanceParser, pos: int, t: Seq<char>, len: int)
    requires
        ranges_ok(p0, pos, len),
        text_step(p0, p1, t),
    ensures
        ranges_ok(p1, pos, len),
{
    if t.len() != 0 && (p0.fact_stack@.len() > 0 || p0.continuation_stack@.len() > 0) {
        let bs0 = p0.fact_stack@;
        let bs1 = p1.fact_stack@;
        assert forall|i: int| 0 <= i < bs1.len() implies (#[trigger] bs1[i]).byte_start == bs0[i].byte_start by {
            assert(fact_text_appended(bs0[i], bs1[i], t));
        }
        assert forall|i: int, j: int| 0 <= i < j < bs1.len() implies (#[trigger] bs1[i]).byte_start
            != (#[trigger] bs1[j]).byte_start by {
            assert(bs1[i].byte_start == bs0[i].byte_start);
            assert(bs1[j].byte_start == bs0[j].byte_start);
        }
        assert forall|i: int, j: int| 0 <= i < p1.doc.facts@.len() && 0 <= j < bs1.len() implies fact_start(
            #[trigger] p1.doc.facts@[i],
        ) != (#[trigger] bs1[j]).byte_start by {
            assert(bs1[j].byte_start == bs0[j].byte_start);
        }
    }
}

/// One event keeps the facts within bounds.
proof fn lemma_step_ranges(p0: InstanceParser, p1: InstanceParser, before: Seq<XmlItem>, after: Seq<XmlItem>, len: int)
    requires
        item_step(p0, p1, before, after),
        reader_ok(before),
        reader_ok(after),
        positions_ok(before, len),
        ranges_ok(p0, item_end(before[0]) as int, len),
        after == before.drop_first() || (after.len() > 0 && after[0] is End && exists|j: int| 1 <= j < before.len() && after == #[trigger] before.subrange(j, before.len() as int)),
    ensures
        ranges_ok(p1, item_end(after[0]) as int, len),
{
    let b = before.drop_first();
    let pos0 = item_end(before[0]) as int;
    assert(pos0 <= item_end(before[1]) <= len);
    assert(item_end(before[1]) <= item_end(after[0])) by {
        if after != b {
            let j = choose|j: int| 1 <= j < before.len() && after == #[trigger] before.subrange(j, before.len() as int);
            assert(after[0] == before[j]);
        }
    }
    assert(item_end(after[0]) <= len) by {
        if after != b {
            let j = choose|j: int| 1 <= j < before.len() && after == #[trigger] before.subrange(j, before.len() as int);
            assert(after[0] == before[j]);
        }
    }
    match before[1] {
        XmlItem::Start { .. } => {
            assert(item_end(before[0]) < item_end(before[1]));
            let pushed = choose|pushed: bool| #[trigger] start_item_step(p0, p1, b, after, pushed);
            lemma_start_ranges(p0, p1, b, after, pushed, pos0, len);
            lemma_ranges_later(p1, item_end(b[0]) as int, item_end(after[0]) as int, len);
        },
        XmlItem::Empty { .. } => {
            assert(item_end(before[0]) < item_end(before[1]));
            let (mid, pushed) = choose|mid: InstanceParser, pushed: bool|
                #[trigger] start_item_step(p0, mid, b, after, pushed) && if pushed {
                    mid.stack@.len() > 0 && after.len() > 0 && end_applied(mid, p1, item_end(after[0]))
                } else {
                    p1 == mid
                };
            lemma_start_ranges(p0, mid, b, after, pushed, pos0, len);
            lemma_ranges_later(mid, item_end(b[0]) as int, item_end(after[0]) as int, len);
            if pushed {
                lemma_end_ranges(mid, p1, item_end(after[0]) as int, item_end(after[0]), len);
            }
        },
        XmlItem::End { end, .. } => {
            lemma_end_ranges(p0, p1, pos0, end, len);
        },
        XmlItem::Text { raw, .. } => {
            lemma_text_ranges(p0, p1, pos0, trim(crate::xml::xml_unescape(decode_utf8(raw)).unwrap()), len);
            lemma_ranges_later(p1, pos0, item_end(after[0]) as int, len);
        },
        XmlItem::CData { raw, .. } => {
            let t = if vstd::utf8::valid_utf8(raw) {
                decode_utf8(raw)
            } else {
                Seq::empty()
            };
            lemma_text_ranges(p0, p1, pos0, trim(t), len);
            lemma_ranges_later(p1, pos0, item_end(after[0]) as int, len);
        },
        _ => {
            lemma_ranges_later(p1, pos0, item_end(after[0]) as int, len);
        },
    }
}

/// Reading the events the reader holds (`items`) takes the parser from `p`
/// to the end of input without error, and `d` is the document it then
/// holds: each parser state of `ps` follows from the one before by the
/// event the reader gives next, the reader holding `rs[i]` before it, and
/// the next event after the last is the end of input.
pub open spec fn read_through(p: InstanceParser, items: Seq<XmlItem>, d: InstanceDocument) -> bool {
    exists|ps: Seq<InstanceParser>, rs: Seq<Seq<XmlItem>>|
        {
            &&& ps.len() > 0
            &&& rs.len() == ps.len()
            &&& ps[0] == p
            &&& rs[0] == items
            &&& #[trigger] items_path(ps, rs)
            &&& rs.last().len() > 1
            &&& rs.last()[1] is Eof
            &&& finished(ps.last(), d)
        }
}

/// Each parser state and reader contents follow from the ones before by
/// one event.
pub open spec fn items_path(ps: Seq<InstanceParser>, rs: Seq<Seq<XmlItem>>) -> bool {
    forall|i: int| 0 <= i < ps.len() - 1 ==> item_step(#[trigger] ps[i], ps[i + 1], rs[i], rs[i + 1])
}

/// A closing tag found for an element lies at or after `from` and is a
/// closing tag.
proof fn lemma_closing_index(items: Seq<XmlItem>, name: Seq<u8>, depth: nat, from: int)
    ensures
        closing_index(items, name, depth, from) matches Some(j) ==> from <= j < items.len() && items[j] is End,
    decreases items.len() - from,
{
    if 0 <= from < items.len() {
        match items[from] {
            XmlItem::Start { name: n, .. } => {
                lemma_closing_index(items, name, depth + 1, from + 1);
                lemma_closing_index(items, name, depth, from + 1);
            },
            XmlItem::End { name: n, .. } => {
                if depth > 0 {
                    lemma_closing_index(items, name, (depth - 1) as nat, from + 1);
                }
                lemma_closing_index(items, name, depth, from + 1);
            },
            XmlItem::Eof { .. } => {},
            XmlItem::Error => {},
            _ => {
                lemma_closing_index(items, name, depth, from + 1);
            },
        }
    }
}

/// After a start tag, the reader still holds the rest of a document.
proof fn lemma_start_keeps_reader(before: Seq<XmlItem>, after: Seq<XmlItem>, tag: StartTag, content: String)
    requires
        reader_ok(before),
        !(before[1] is Eof) && !(before[1] is Error),
        reads_after(tag, before.drop_first(), after, content),
    ensures
        reader_ok(after),
{
    let b = before.drop_first();
    if !(tag is Handled) {
        let j = closing_index(b, item_name(b[0]).unwrap(), 0, 1).unwrap();
        lemma_closing_index(b, item_name(b[0]).unwrap(), 0, 1);
        assert(b[j] is End);
        assert(j < b.len() - 1) by {
            if j == b.len() - 1 {
                assert(b.last() == before.last());
            }
        }
        assert forall|i: int| 1 <= i < after.len() - 1 implies !(#[trigger] after[i] is Eof) && !(after[i] is Error) by {
            assert(after[i] == before[i + j + 1]);
        }
    } else {
        assert(before.len() > 2) by {
            if before.len() == 2 {
                assert(before[1] == before.last());
            }
        }
        assert forall|i: int| 1 <= i < b.len() - 1 implies !(#[trigger] b[i] is Eof) && !(b[i] is Error) by {
            assert(b[i] == before[i + 1]);
        }
    }
}

/// The document a parser holds at the end of input, once continuations are
/// joined to their facts and footnote links resolved.
pub open spec fn finished(p: InstanceParser, d: InstanceDocument) -> bool {
    &&& d == (InstanceDocument { facts: d.facts, footnotes: d.footnotes, ..p.doc })
    &&& d.facts@.len() == p.doc.facts@.len()
    &&& forall|i: int|
        0 <= i < p.doc.facts@.len() ==> resolved_fact(#[trigger] p.doc.facts@[i], d.facts@[i], p.continuations)
    &&& d.footnotes@.len() == p.doc.footnotes@.len()
    &&& forall|j: int|
        0 <= j < p.doc.footnotes@.len() ==> {
            let a = #[trigger] p.doc.footnotes@[j];
            let b = d.footnotes@[j];
            &&& b.id == a.id
            &&& b.role == a.role
            &&& b.lang == a.lang
            &&& b.content == a.content
            &&& b.fact_refs@ == a.fact_refs@ + linked_refs(p.footnote_arcs@, p.locators, p.footnote_labels, j)
        }
}

impl InstanceParser {
    /// Reads events until the end of the document, then resolves
    /// continuations and footnote links. Every event takes at least one byte
    /// of the input, so `budget` (one more than the input's length) bounds
    /// the number of events.
    pub fn parse(self, reader: &mut quick_xml::reader::Reader<&[u8]>, budget: usize) -> (r: Result<
        InstanceDocument,
        XbrlError,
    >)
        requires
            parser_inv(self, 0),
            reader_ok(reader_items(*old(reader))),
        ensures
            r matches Ok(d) ==> doc_wf(d),
            r matches Ok(d) ==> read_through(self, reader_items(*old(reader)), d),
            r is Err ==> fails_through(self, reader_items(*old(reader)), budget as int),
            r matches Ok(d) ==> forall|len: int|
                #[trigger] positions_ok(reader_items(*old(reader)), len) && ranges_ok(
                    self,
                    item_end(reader_items(*old(reader))[0]) as int,
                    len,
                ) ==> distinct_ranges(d.facts@) && forall|i: int|
                    0 <= i < d.facts@.len() ==> range_within((#[trigger] d.facts@[i]).byte_range, len),
    {
        let mut p = self;
        let mut steps: usize = 0;
        let mut remaining: usize = budget;
        let ghost mut ps: Seq<InstanceParser> = seq![self];
        let ghost mut rs: Seq<Seq<XmlItem>> = seq![reader_items(*reader)];
        loop
            invariant_except_break
                rs.last() == reader_items(*reader),
                reader_ok(reader_items(*reader)),
            invariant
                parser_inv(p, steps as nat),
                steps as int + remaining as int == budget as int,
                ps.len() == steps + 1,
                rs.len() == ps.len(),
                ps[0] == self,
                rs[0] == reader_items(*old(reader)),
                ps.last() == p,
                rs.last().len() > 0,
                forall|len: int|
                    #[trigger] positions_ok(rs[0], len) && ranges_ok(self, item_end(rs[0][0]) as int, len)
                        ==> positions_ok(rs.last(), len) && ranges_ok(p, item_end(rs.last()[0]) as int, len),
                items_path(ps, rs),
            ensures
                rs.last().len() > 1,
                rs.last()[1] is Eof,
            decreases remaining,
        {
            let ghost before = p;
            let ghost items = reader_items(*reader);
            if remaining == 0 {
                assert(ps.len() - 1 == budget);
                return Err(XbrlError::Xml { message: "document does not end".to_string(), byte_offset: None });
            }
            proof {
                lemma_room(p, steps as nat);
            }
            let event = match read_event(reader) {
                Ok(e) => e,
                Err(e) => {
                    assert(item_fails(before, items));
                    return Err(XbrlError::QuickXml(e));
                },
            };
            let ghost b = items.drop_first();
            match event {
                XmlEvent::Start(e, name) => {
                    let pushed = match p.start_element(reader, &e, name.as_slice()) {
                        Ok(x) => x,
                        Err(err) => {
                            assert(item_fails(before, items));
                            return Err(err);
                        },
                    };
                    proof {
                        let (q, attrs, ns, tag, c) = lemma_step_witness(before, p, b, reader_items(*reader), pushed);
                        lemma_start_keeps_reader(items, reader_items(*reader), tag, c);
                        lemma_after_shape(items, reader_items(*reader), tag, c);
                        assert(item_step(before, p, items, reader_items(*reader)));
                    }
                },
                XmlEvent::Empty(e, name) => {
                    let pushed = match p.start_element(reader, &e, name.as_slice()) {
                        Ok(x) => x,
                        Err(err) => {
                            assert(item_fails(before, items));
                            return Err(err);
                        },
                    };
                    let ghost mid = p;
                    proof {
                        let (q, attrs, ns, tag, c) = lemma_step_witness(before, p, b, reader_items(*reader), pushed);
                        lemma_start_keeps_reader(items, reader_items(*reader), tag, c);
                        lemma_after_shape(items, reader_items(*reader), tag, c);
                    }
                    if pushed {
                        let pos = buffer_position(reader);
                        p.end_element(name.as_slice(), pos)?;
                        proof {
                            lemma_end_keeps(mid, p, pos, (steps + 1) as nat);
                        }
                    }
                    proof {
                        assert(start_item_step(before, mid, b, reader_items(*reader), pushed));
                        assert(item_step(before, p, items, reader_items(*reader)));
                    }
                },
                XmlEvent::Text(raw) => {
                    let t = match decode_escaped(raw.as_slice()) {
                        Ok(t) => t,
                        Err(err) => {
                            assert(item_fails(before, items));
                            return Err(err);
                        },
                    };
                    let r = p.text(t.as_str());
                    proof {
                        if r is Ok {
                            lemma_text_keeps(before, p, trim(t@), r, steps as nat);
                            assert(text_step(before, p, trim(t@)));
                            lemma_drop_keeps_reader(items);
                        } else {
                            assert(text_target_applied(before, p, trim(t@), r));
                            assert(item_fails(before, items));
                        }
                    }
                    r?;
                    assert(item_step(before, p, items, reader_items(*reader)));
                },
                XmlEvent::CData(raw) => {
                    let t = match str_from_utf8(raw.as_slice()) {
                        Ok(s) => s.to_owned(),
                        Err(_) => String::new(),
                    };
                    let r = p.text(t.as_str());
                    proof {
                        if r is Ok {
                            lemma_text_keeps(before, p, trim(t@), r, steps as nat);
                            assert(text_step(before, p, trim(t@)));
                            lemma_drop_keeps_reader(items);
                        } else {
                            assert(text_target_applied(before, p, trim(t@), r));
                            assert(item_fails(before, items));
                        }
                    }
                    r?;
                    assert(item_step(before, p, items, reader_items(*reader)));
                },
                XmlEvent::End(name) => {
                    let pos = buffer_position(reader);
                    match p.end_element(name.as_slice(), pos) {
                        Ok(_) => {},
                        Err(err) => {
                            assert(item_fails(before, items));
                            return Err(err);
                        },
                    }
                    proof {
                        lemma_end_keeps(before, p, pos, steps as nat);
                        lemma_drop_keeps_reader(items);
                        assert(item_step(before, p, items, reader_items(*reader)));
                    }
                },
                XmlEvent::Eof => {
                    break;
                },
                XmlEvent::Other => {
                    proof {
                        lemma_drop_keeps_reader(items);
                        assert(item_step(before, p, items, reader_items(*reader)));
                    }
                },
            }
            proof {
                let after = reader_items(*reader);
                assert(after == items.drop_first() || (after.len() > 0 && after[0] is End && exists|j: int|
                    1 <= j < items.len() && after == #[trigger] items.subrange(j, items.len() as int)));
                assert forall|len: int|
                    #[trigger] positions_ok(rs[0], len) && ranges_ok(self, item_end(rs[0][0]) as int, len)
                        implies positions_ok(after, len) && ranges_ok(p, item_end(after[0]) as int, len) by {
                    lemma_step_ranges(before, p, items, after, len);
                    if after == items.drop_first() {
                        lemma_positions_suffix(items, 1, len);
                        assert(items.drop_first() =~= items.subrange(1, items.len() as int));
                    } else {
                        let j = choose|j: int| 1 <= j < items.len() && after == #[trigger] items.subrange(j, items.len() as int);
                        lemma_positions_suffix(items, j, len);
                    }
                }
                let ops = ps;
                let ors = rs;
                ps = ps.push(p);
                rs = rs.push(reader_items(*reader));
                assert forall|i: int| 0 <= i < ps.len() - 1 implies item_step(
                    #[trigger] ps[i],
                    ps[i + 1],
                    rs[i],
                    rs[i + 1],
                ) by {
                    if i < ops.len() - 1 {
                        assert(ps[i] == ops[i] && ps[i + 1] == ops[i + 1] && rs[i] == ors[i] && rs[i + 1] == ors[i + 1]);
                    }
                }
            }
            steps += 1;
            remaining -= 1;
        }
        resolve_continuations(&mut p.doc.facts, &p.continuations);
        resolve_footnote_refs(
            &mut p.doc.footnotes,
            &p.locators,
            &p.footnote_labels,
            &p.footnote_arcs,
        );
        assert(finished(ps.last(), p.doc));
        assert forall|len: int|
            #[trigger] positions_ok(reader_items(*old(reader)), len) && ranges_ok(
                self,
                item_end(reader_items(*old(reader))[0]) as int,
                len,
            ) implies distinct_ranges(p.doc.facts@) && forall|i: int|
                0 <= i < p.doc.facts@.len() ==> range_within((#[trigger] p.doc.facts@[i]).byte_range, len) by {
            let fs = ps.last().doc.facts@;
            assert forall|i: int| 0 <= i < p.doc.facts@.len() implies (#[trigger] p.doc.facts@[i]).byte_range
                == fs[i].byte_range by {
                assert(resolved_fact(fs[i], p.doc.facts@[i], ps.last().continuations));
            }
            assert forall|i: int| 0 <= i < p.doc.facts@.len() implies range_within((#[trigger] p.doc.facts@[i]).byte_range, len) by {
                assert(range_within(fs[i].byte_range, len));
            }
            assert forall|i: int, j: int|
                0 <= i < p.doc.facts@.len() && 0 <= j < p.doc.facts@.len() && i != j implies (
                #[trigger] p.doc.facts@[i]).byte_range != (#[trigger] p.doc.facts@[j]).byte_range by {
                assert(range_within(fs[i].byte_range, len) && range_within(fs[j].byte_range, len));
                if i < j {
                    assert(fact_start(fs[i]) != fact_start(fs[j]));
                } else {
                    assert(fact_start(fs[j]) != fact_start(fs[i]));
                }
            }
        }
        Ok(p.doc)
    }
}

/// After a start tag, the reader holds what followed it, or the rest from
/// the closing tag it read up to.
proof fn lemma_after_shape(items: Seq<XmlItem>, after: Seq<XmlItem>, tag: StartTag, content: String)
    requires
        reader_ok(items),
        reads_after(tag, items.drop_first(), after, content),
    ensures
        after == items.drop_first() || (after.len() > 0 && after[0] is End && exists|j: int|
            1 <= j < items.len() && after == #[trigger] items.subrange(j, items.len() as int)),
{
    let b = items.drop_first();
    if !(tag is Handled) {
        let j = closing_index(b, item_name(b[0]).unwrap(), 0, 1).unwrap();
        lemma_closing_index(b, item_name(b[0]).unwrap(), 0, 1);
        assert(after =~= items.subrange(j + 1, items.len() as int));
        assert(after[0] == b[j]);
    }
}

/// After any other event, the reader still holds the rest of a document.
proof fn lemma_drop_keeps_reader(before: Seq<XmlItem>)
    requires
        reader_ok(before),
        !(before[1] is Eof) && !(before[1] is Error),
    ensures
        reader_ok(before.drop_first()),
{
    let b = before.drop_first();
    assert(before.len() > 2) by {
        if before.len() == 2 {
            assert(before[1] == before.last());
        }
    }
    assert forall|i: int| 1 <= i < b.len() - 1 implies !(#[trigger] b[i] is Eof) && !(b[i] is Error) by {
        assert(b[i] == before[i + 1]);
    }
}

/// The witnesses of a start tag's step.
proof fn lemma_step_witness(
    p0: InstanceParser,
    p1: InstanceParser,
    items: Seq<XmlItem>,
    after: Seq<XmlItem>,
    pushed: bool,
) -> (w: (QName, StrMap<String>, NamespaceMap, StartTag, String))
    requires
        start_item_step(p0, p1, items, after, pushed),
    ensures
        reads_after(w.3, items, after, w.4),
{
    let (pairs, attrs, ns, q, tag, content) = choose|
        pairs: Seq<(String, String)>,
        attrs: StrMap<String>,
        ns: NamespaceMap,
        q: QName,
        tag: StartTag,
        content: String,
    |
        #![trigger pairs_text(pairs), tag_completed(p0, p1, q, attrs, ns, item_end(items[0]), tag, content, pushed)]
        {
            &&& pairs_text(pairs) == attrs_text(item_attrs(items[0])).unwrap()
            &&& (attrs.view(), opt_view(ns.default), ns_view(ns)) == attrs_fold(
                pairs,
                (Map::empty(), scope_default(p0), scope_prefixes(p0)),
            )
            &&& qname_parts(q) == qname_of(decode_utf8(item_name(items[0]).unwrap()), ns, true)
            &&& tag_completed(p0, p1, q, attrs, ns, item_end(items[0]), tag, content, pushed)
            &&& reads_after(tag, items, after, content)
        };
    (q, attrs, ns, tag, content)
}

/// `d` is the document read from `bytes`: they are UTF-8, and a parser that
/// has read nothing reads through the events `quick_xml` gives for their
/// text without error, ending with `d`.
pub open spec fn parsed_from(bytes: Seq<u8>, d: InstanceDocument) -> bool {
    &&& vstd::utf8::valid_utf8(bytes)
    &&& exists|p: InstanceParser|
        fresh_parser(p) && #[trigger] read_through(p, seq![XmlItem::Begin] + xml_items(decode_utf8(bytes)), d)
}

/// `e` is an error that reading `bytes` gives: bytes that are not UTF-8
/// give an XML error at a known offset; UTF-8 bytes give an error only
/// where reading their events fails.
pub open spec fn read_error(bytes: Seq<u8>, e: XbrlError) -> bool {
    if vstd::utf8::valid_utf8(bytes) {
        parse_fails(bytes)
    } else {
        e matches XbrlError::Xml { byte_offset: Some(_), .. }
    }
}

/// The number of events read from an input of `n` bytes before giving up:
/// one more than its length.
pub open spec fn event_budget(n: int) -> int {
    if n < usize::MAX {
        n + 1
    } else {
        usize::MAX as int
    }
}

/// Reading `bytes` (UTF-8) fails: a parser that has read nothing, reading
/// the events `quick_xml` gives for their text, meets an event that fails
/// or runs out of its event budget.
pub open spec fn parse_fails(bytes: Seq<u8>) -> bool {
    exists|p: InstanceParser|
        fresh_parser(p) && #[trigger] fails_through(
            p,
            seq![XmlItem::Begin] + xml_items(decode_utf8(bytes)),
            event_budget(bytes.len() as int),
        )
}

/// A new reader holds the rest of a whole document.
proof fn lemma_new_reader_ok(all: Seq<XmlItem>, len: int)
    requires
        all.len() > 0,
        all[0] is Begin,
        crate::xml::items_end_well(all.drop_first(), len),
    ensures
        reader_ok(all),
{
    let items = all.drop_first();
    assert(all.last() == items.last());
    assert forall|i: int| 1 <= i < all.len() - 1 implies !(#[trigger] all[i] is Eof) && !(all[i] is Error) by {
        assert(all[i] == items[i - 1]);
    }
}

/// Reads an XBRL 2.1 instance or an Inline XBRL document. Input that is not
/// UTF-8 is an error that gives the offset of the first bad byte; a document
/// read is the one the events of the input lead to, and each of its facts
/// carries a byte range of its own within the input.
pub fn parse_instance(input: &[u8]) -> (r: Result<InstanceDocument, XbrlError>)
    ensures
        !vstd::utf8::valid_utf8(input@) ==> r matches Err(XbrlError::Xml { byte_offset: Some(_), .. }),
        r matches Ok(d) ==> doc_wf(d) && parsed_from(input@, d),
        vstd::utf8::valid_utf8(input@) && r is Err ==> parse_fails(input@),
        r matches Err(e) ==> read_error(input@, e),
        r matches Ok(d) ==> forall|i: int|
            0 <= i < d.facts@.len() ==> range_within((#[trigger] d.facts@[i]).byte_range, input@.len() as int),
        r matches Ok(d) ==> distinct_ranges(d.facts@),
{
    let s = match str_from_utf8(input) {
        Ok(s) => s,
        Err(e) => {
            let message = utf8_error_message(&e);
            let offset = utf8_valid_up_to(&e) as u64;
            return Err(XbrlError::Xml { message, byte_offset: Some(offset) });
        },
    };
    let mut reader = new_reader(s);
    proof {
        assert(reader_items(reader)[0] is Begin);
        assert(reader_items(reader).drop_first() =~= xml_items(s@));
        lemma_new_reader_ok(reader_items(reader), s.spec_bytes().len() as int);
    }
    let budget = if input.len() < usize::MAX {
        input.len() + 1
    } else {
        usize::MAX
    };
    let p = InstanceParser::new();
    let ghost p0 = p;
    let ghost items = reader_items(reader);
    let r = p.parse(&mut reader, budget);
    proof {
        if r is Ok {
            let d = r->Ok_0;
            assert(items == seq![XmlItem::Begin] + xml_items(decode_utf8(input@)));
            assert(fresh_parser(p0) && read_through(p0, items, d));
            let len = input@.len() as int;
            assert(s.spec_bytes() == input@);
            let ev = items.drop_first();
            assert forall|a: int, b: int| 0 <= a <= b < items.len() && !(items[b] is Error) implies item_end(
                #[trigger] items[a],
            ) <= item_end(#[trigger] items[b]) by {
                if a > 0 {
                    assert(items[a] == ev[a - 1] && items[b] == ev[b - 1]);
                }
            }
            assert forall|a: int| 0 <= a < items.len() implies item_end(#[trigger] items[a]) <= len by {
                if a > 0 {
                    assert(items[a] == ev[a - 1]);
                }
            }
            assert(positions_ok(items, len));
            assert(ranges_ok(p0, item_end(items[0]) as int, len));
        } else {
            assert(items == seq![XmlItem::Begin] + xml_items(decode_utf8(input@)));
            assert(fresh_parser(p0) && fails_through(p0, items, event_budget(input@.len() as int)));
        }
    }
    r
}

// ---------------------------------------------------------------------------
// Inline XBRL document sets
// ---------------------------------------------------------------------------

/// Two names are the same: namespace and local name (the prefix plays no part).
pub open spec fn qname_eq(a: QName, b: QName) -> bool {
    qname_same(a, b)
}

/// Two segment or scenario members are the same.
pub open spec fn element_eq(a: ContextElement, b: ContextElement) -> bool {
    match (a, b) {
        (
            ContextElement::ExplicitDimension { dimension: d1, member: m1 },
            ContextElement::ExplicitDimension { dimension: d2, member: m2 },
        ) => qname_eq(d1, d2) && qname_eq(m1, m2),
        (
            ContextElement::TypedDimension { dimension: d1, raw_xml: r1 },
            ContextElement::TypedDimension { dimension: d2, raw_xml: r2 },
        ) => qname_eq(d1, d2) && r1@ == r2@,
        (ContextElement::Other { raw_xml: r1 }, ContextElement::Other { raw_xml: r2 }) => r1@ == r2@,
        _ => false,
    }
}

/// Two member lists are the same, member by member.
pub open spec fn elements_eq(a: Seq<ContextElement>, b: Seq<ContextElement>) -> bool {
    a.len() == b.len() && forall|i: int| 0 <= i < a.len() ==> element_eq(#[trigger] a[i], b[i])
}

/// Two periods are the same.
pub open spec fn period_eq(a: Period, b: Period) -> bool {
    match (a, b) {
        (Period::Instant { date: x }, Period::Instant { date: y }) => x@ == y@,
        (Period::Duration { start: s1, end: e1 }, Period::Duration { start: s2, end: e2 }) => s1@
            == s2@ && e1@ == e2@,
        (Period::Forever, Period::Forever) => true,
        _ => false,
    }
}

/// Two contexts are the same definition.
pub open spec fn context_eq(a: Context, b: Context) -> bool {
    &&& a.id@ == b.id@
    &&& a.entity.scheme@ == b.entity.scheme@
    &&& a.entity.identifier@ == b.entity.identifier@
    &&& period_eq(a.period, b.period)
    &&& elements_eq(a.segment@, b.segment@)
    &&& elements_eq(a.scenario@, b.scenario@)
}

/// Two measure lists are the same, measure by measure.
pub open spec fn qnames_eq(a: Seq<QName>, b: Seq<QName>) -> bool {
    a.len() == b.len() && forall|i: int| 0 <= i < a.len() ==> qname_eq(#[trigger] a[i], b[i])
}

/// Two units are the same definition.
pub open spec fn unit_eq(a: Unit, b: Unit) -> bool {
    a.id@ == b.id@ && qnames_eq(a.numerator@, b.numerator@) && qnames_eq(a.denominator@, b.denominator@)
}

fn qname_equal(a: &QName, b: &QName) -> (r: bool)
    ensures
        r == qname_eq(*a, *b),
{
    a.same(b)
}

fn element_equal(a: &ContextElement, b: &ContextElement) -> (r: bool)
    ensures
        r == element_eq(*a, *b),
{
    match (a, b) {
        (
            ContextElement::ExplicitDimension { dimension: d1, member: m1 },
            ContextElement::ExplicitDimension { dimension: d2, member: m2 },
        ) => qname_equal(d1, d2) && qname_equal(m1, m2),
        (
            ContextElement::TypedDimension { dimension: d1, raw_xml: r1 },
            ContextElement::TypedDimension { dimension: d2, raw_xml: r2 },
        ) => qname_equal(d1, d2) && str_eq(r1.as_str(), r2.as_str()),
        (ContextElement::Other { raw_xml: r1 }, ContextElement::Other { raw_xml: r2 }) => str_eq(
            r1.as_str(),
            r2.as_str(),
        ),
        _ => false,
    }
}

fn elements_equal(a: &Vec<ContextElement>, b: &Vec<ContextElement>) -> (r: bool)
    ensures
        r == elements_eq(a@, b@),
{
    if a.len() != b.len() {
        return false;
    }
    let mut i: usize = 0;
    while i < a.len()
        invariant
            a@.len() == b@.len(),
            i <= a@.len(),
            forall|j: int| 0 <= j < i ==> element_eq(#[trigger] a@[j], b@[j]),
        decreases a@.len() - i,
    {
        if !element_equal(&a[i], &b[i]) {
            return false;
        }
        i += 1;
    }
    true
}

fn qnames_equal(a: &Vec<QName>, b: &Vec<QName>) -> (r: bool)
    ensures
        r == qnames_eq(a@, b@),
{
    if a.len() != b.len() {
        return false;
    }
    let mut i: usize = 0;
    while i < a.len()
        invariant
            a@.len() == b@.len(),
            i <= a@.len(),
            forall|j: int| 0 <= j < i ==> qname_eq(#[trigger] a@[j], b@[j]),
        decreases a@.len() - i,
    {
        if !qname_equal(&a[i], &b[i]) {
            return false;
        }
        i += 1;
    }
    true
}

fn period_equal(a: &Period, b: &Period) -> (r: bool)
    ensures
        r == period_eq(*a, *b),
{
    match (a, b) {
        (Period::Instant { date: x }, Period::Instant { date: y }) => str_eq(x.as_str(), y.as_str()),
        (Period::Duration { start: s1, end: e1 }, Period::Duration { start: s2, end: e2 }) => str_eq(
            s1.as_str(),
            s2.as_str(),
        ) && str_eq(e1.as_str(), e2.as_str()),
        (Period::Forever, Period::Forever) => true,
        _ => false,
    }
}

/// Something an instance defines under an id (a context or a unit).
pub trait Definition: Sized {
    /// The id it is defined under.
    spec fn def_id(self) -> Seq<char>;

    /// Whether two definitions are the same.
    spec fn same_as(self, other: Self) -> bool;

    fn same_definition(&self, other: &Self) -> (r: bool)
        ensures
            r == self.same_as(*other),
    ;
}

impl Definition for Context {
    open spec fn def_id(self) -> Seq<char> {
        self.id@
    }

    open spec fn same_as(self, other: Self) -> bool {
        context_eq(self, other)
    }

    fn same_definition(&self, other: &Self) -> (r: bool) {
        str_eq(self.id.as_str(), other.id.as_str()) && str_eq(
            self.entity.scheme.as_str(),
            other.entity.scheme.as_str(),
        ) && str_eq(self.entity.identifier.as_str(), other.entity.identifier.as_str())
            && period_equal(&self.period, &other.period) && elements_equal(
            &self.segment,
            &other.segment,
        ) && elements_equal(&self.scenario, &other.scenario)
    }
}

impl Definition for Unit {
    open spec fn def_id(self) -> Seq<char> {
        self.id@
    }

    open spec fn same_as(self, other: Self) -> bool {
        unit_eq(self, other)
    }

    fn same_definition(&self, other: &Self) -> (r: bool) {
        str_eq(self.id.as_str(), other.id.as_str()) && qnames_equal(&self.numerator, &other.numerator)
            && qnames_equal(&self.denominator, &other.denominator)
    }
}

/// Adding definitions to `a` in order: a new id is added, a repeated id must
/// repeat the same definition, and the first id defined differently is the
/// error.
pub open spec fn merge_defs<V: Definition>(a: Map<Seq<char>, V>, kv: Seq<(Seq<char>, V)>) -> Result<
    Map<Seq<char>, V>,
    Seq<char>,
>
    decreases kv.len(),
{
    if kv.len() == 0 {
        Ok(a)
    } else {
        match merge_defs(a, kv.drop_last()) {
            Err(id) => Err(id),
            Ok(m) => {
                let (k, v) = kv.last();
                if !m.contains_key(k) {
                    Ok(m.insert(k, v))
                } else if m[k].same_as(v) {
                    Ok(m)
                } else {
                    Err(k)
                }
            },
        }
    }
}

/// Once a prefix of the definitions conflicts, the whole list does, at the same id.
proof fn lemma_merge_err_sticks<V: Definition>(a: Map<Seq<char>, V>, kv: Seq<(Seq<char>, V)>, i: int)
    requires
        0 <= i <= kv.len(),
        merge_defs(a, kv.take(i)) is Err,
    ensures
        merge_defs(a, kv) == merge_defs(a, kv.take(i)),
    decreases kv.len() - i,
{
    if i == kv.len() {
        assert(kv.take(i) =~= kv);
    } else {
        assert(kv.take(i + 1).drop_last() =~= kv.take(i));
        lemma_merge_err_sticks(a, kv, i + 1);
    }
}

/// Adds the definitions of `incoming` to `merged`; on a conflict returns the
/// conflicting id.
fn merge_definitions<V: Definition>(merged: &mut StrMap<V>, incoming: StrMap<V>) -> (r: Result<(), String>)
    ensures
        StrMap::<V>::sorted_kv(incoming.kv()),
        forall|i: int|
            0 <= i < incoming.kv().len() ==> incoming.view().contains_key(#[trigger] incoming.kv()[i].0)
                && incoming.view()[incoming.kv()[i].0] == incoming.kv()[i].1,
        match merge_defs(old(merged).view(), incoming.kv()) {
            Ok(m) => r is Ok && final(merged).view() == m,
            Err(id) => r matches Err(s) && s@ == id,
        },
{
    let ghost kv = incoming.kv();
    let ghost a = merged.view();
    let mut es = incoming.into_entries();
    let len: usize = es.len();
    let ghost n = es@.len();
    let mut i: usize = 0;
    while es.len() > 0
        invariant
            a == old(merged).view(),
            kv == incoming.kv(),
            StrMap::<V>::sorted_kv(kv),
            forall|j: int|
                0 <= j < kv.len() ==> incoming.view().contains_key(#[trigger] kv[j].0)
                    && incoming.view()[kv[j].0] == kv[j].1,
            n == kv.len(),
            n <= usize::MAX,
            i + es@.len() == n,
            kv_of(es@) == kv.skip(i as int),
            merge_defs(a, kv.take(i as int)) == Ok::<Map<Seq<char>, V>, Seq<char>>(merged.view()),
        decreases es@.len(),
    {
        let ghost es0 = es@;
        let (k, v) = es.remove(0);
        proof {
            assert(kv.take(i + 1).drop_last() =~= kv.take(i as int));
            assert(kv_of(es0)[0] == kv.skip(i as int)[0]);
            assert(kv.take(i + 1).last() == (k@, v));
            assert(kv_of(es@) =~= kv.skip(i + 1)) by {
                assert forall|j: int| 0 <= j < kv_of(es@).len() implies kv_of(es@)[j] == kv.skip(i + 1)[j] by {
                    assert(kv_of(es0)[j + 1] == kv.skip(i as int)[j + 1]);
                }
            }
        }
        let keep = match merged.get(k.as_str()) {
            None => true,
            Some(existing) => {
                if existing.same_definition(&v) {
                    false
                } else {
                    proof {
                        let pre = kv.take(i + 1);
                        assert(pre.drop_last() == kv.take(i as int));
                        assert(pre.last() == (k@, v));
                        assert(merge_defs(a, pre) == Err::<Map<Seq<char>, V>, Seq<char>>(k@));
                        lemma_merge_err_sticks(a, kv, i + 1);
                    }
                    return Err(k);
                }
            },
        };
        if keep {
            merged.insert(k, v);
        }
        i += 1;
    }
    proof {
        assert(kv.take(n as int) =~= kv);
    }
    Ok(())
}

/// Whether `v` holds a string equal to `s`.
pub open spec fn has_ref(v: Seq<String>, s: Seq<char>) -> bool {
    exists|i: int| 0 <= i < v.len() && #[trigger] v[i]@ == s
}

/// Schema references of `b` appended to `a`, each only once.
pub open spec fn merge_refs(a: Seq<String>, b: Seq<String>) -> Seq<String>
    decreases b.len(),
{
    if b.len() == 0 {
        a
    } else {
        let m = merge_refs(a, b.drop_last());
        if has_ref(m, b.last()@) {
            m
        } else {
            m.push(b.last())
        }
    }
}

/// What merging member `doc` into `merged` yields: the first context
/// defined differently, else the first unit defined differently, is a
/// conflict; otherwise the schema references are joined without repeats,
/// the definitions are joined, and the facts and footnotes are appended.
pub open spec fn merged_ok(m0: InstanceDocument, doc: InstanceDocument, m1: InstanceDocument) -> bool {
    &&& m1.schema_refs@ == merge_refs(m0.schema_refs@, doc.schema_refs@)
    &&& merge_defs(m0.contexts.view(), doc.contexts.kv()) == Ok::<Map<Seq<char>, Context>, Seq<char>>(
        m1.contexts.view(),
    )
    &&& merge_defs(m0.units.view(), doc.units.kv()) == Ok::<Map<Seq<char>, Unit>, Seq<char>>(
        m1.units.view(),
    )
    &&& m1.facts@ == m0.facts@ + doc.facts@
    &&& m1.footnotes@ == m0.footnotes@ + doc.footnotes@
}

/// The conflict, if any, of merging `doc` into `merged`.
pub open spec fn merge_conflict(m0: InstanceDocument, doc: InstanceDocument) -> Option<(Seq<char>, Seq<char>)> {
    match merge_defs(m0.contexts.view(), doc.contexts.kv()) {
        Err(id) => Some(("context"@, id)),
        Ok(_) => match merge_defs(m0.units.view(), doc.units.kv()) {
            Err(id) => Some(("unit"@, id)),
            Ok(_) => None,
        },
    }
}

/// The definitions of `kv` conflict with `a` at position `i`: the id is
/// already defined, differently.
pub open spec fn conflicts_at<V: Definition>(a: Map<Seq<char>, V>, kv: Seq<(Seq<char>, V)>, i: int) -> bool {
    0 <= i < kv.len() && a.contains_key(kv[i].0) && !a[kv[i].0].same_as(kv[i].1)
}

/// Merging definitions with distinct ids fails exactly when one of them
/// redefines an id of `a` differently, and then at the first such id;
/// otherwise every id of either side is defined, the definitions of `a`
/// are kept, and new ids take their new definitions.
pub proof fn lemma_merge_defs<V: Definition>(a: Map<Seq<char>, V>, kv: Seq<(Seq<char>, V)>)
    requires
        forall|i: int, j: int| 0 <= i < j < kv.len() ==> kv[i].0 != kv[j].0,
    ensures
        (merge_defs(a, kv) is Err) <==> exists|i: int| conflicts_at(a, kv, i),
        merge_defs(a, kv) matches Err(id) ==> exists|i: int|
            conflicts_at(a, kv, i) && kv[i].0 == id && forall|j: int| 0 <= j < i ==> !conflicts_at(a, kv, j),
        merge_defs(a, kv) matches Ok(m) ==> {
            &&& forall|k: Seq<char>| #[trigger] m.contains_key(k) <==> (a.contains_key(k) || exists|i: int|
                0 <= i < kv.len() && kv[i].0 == k)
            &&& forall|k: Seq<char>| #[trigger] a.contains_key(k) ==> m[k] == a[k]
            &&& forall|i: int|
                0 <= i < kv.len() && !a.contains_key(#[trigger] kv[i].0) ==> m[kv[i].0] == kv[i].1
        },
    decreases kv.len(),
{
    if kv.len() > 0 {
        let pre = kv.drop_last();
        let n = kv.len() - 1;
        assert forall|i: int, j: int| 0 <= i < j < pre.len() implies pre[i].0 != pre[j].0 by {
            assert(pre[i] == kv[i] && pre[j] == kv[j]);
        }
        lemma_merge_defs(a, pre);
        assert(kv.last() == kv[n]);
        assert forall|i: int| 0 <= i < n implies #[trigger] conflicts_at(a, pre, i) == conflicts_at(a, kv, i) by {
            assert(pre[i] == kv[i]);
        }
        match merge_defs(a, pre) {
            Err(id) => {
                let i = choose|i: int|
                    conflicts_at(a, pre, i) && pre[i].0 == id && forall|j: int| 0 <= j < i ==> !conflicts_at(a, pre, j);
                assert(conflicts_at(a, kv, i));
                assert forall|j: int| 0 <= j < i implies !conflicts_at(a, kv, j) by {
                    assert(!conflicts_at(a, pre, j));
                }
            },
            Ok(m) => {
                let k = kv[n].0;
                assert(!exists|i: int| conflicts_at(a, pre, i));
                assert forall|i: int| 0 <= i < n implies !conflicts_at(a, kv, i) by {
                    assert(!conflicts_at(a, pre, i));
                }
                if a.contains_key(k) {
                    assert(m[k] == a[k]);
                } else {
                    assert forall|i: int| 0 <= i < pre.len() implies pre[i].0 != k by {
                        assert(pre[i] == kv[i]);
                    }
                    assert(!m.contains_key(k));
                }
                match merge_defs(a, kv) {
                    Ok(m2) => {
                        assert forall|k2: Seq<char>| #[trigger] m2.contains_key(k2) <==> (a.contains_key(k2)
                            || exists|i: int| 0 <= i < kv.len() && kv[i].0 == k2) by {
                            if m.contains_key(k2) && !a.contains_key(k2) {
                                let i = choose|i: int| 0 <= i < pre.len() && pre[i].0 == k2;
                                assert(kv[i].0 == k2);
                            }
                            if exists|i: int| 0 <= i < kv.len() && kv[i].0 == k2 {
                                let i = choose|i: int| 0 <= i < kv.len() && kv[i].0 == k2;
                                if i < n {
                                    assert(pre[i].0 == k2);
                                }
                            }
                        }
                        assert forall|i: int| 0 <= i < kv.len() && !a.contains_key(#[trigger] kv[i].0) implies m2[kv[i].0]
                            == kv[i].1 by {
                            if i < n {
                                assert(pre[i] == kv[i]);
                                assert(kv[i].0 != k);
                            }
                        }
                    },
                    Err(id) => {
                        assert(conflicts_at(a, kv, n));
                        assert(id == k);
                    },
                }
            },
        }
    }
}

/// Keys in ascending order are distinct.
pub proof fn lemma_sorted_distinct<V>(kv: Seq<(Seq<char>, V)>)
    requires
        StrMap::<V>::sorted_kv(kv),
    ensures
        forall|i: int, j: int| 0 <= i < j < kv.len() ==> kv[i].0 != kv[j].0,
{
    assert forall|i: int, j: int| 0 <= i < j < kv.len() implies kv[i].0 != kv[j].0 by {
        assert(lex_lt(kv[i].0, kv[j].0));
        lemma_lex_irreflexive(kv[i].0);
    }
}

/// Merges one member of an Inline XBRL document set into the instance read
/// so far.
pub fn merge_into(merged: &mut InstanceDocument, doc: InstanceDocument) -> (r: Result<(), XbrlError>)
    ensures
        match merge_conflict(*old(merged), doc) {
            Some((kind, id)) => r matches Err(XbrlError::IxdsConflict { kind: k, id: i }) && k@ == kind
                && i@ == id,
            None => r is Ok && merged_ok(*old(merged), doc, *final(merged)),
        },
        r is Ok && doc_wf(*old(merged)) && doc_wf(doc) ==> doc_wf(*final(merged)),
        (merge_defs(old(merged).contexts.view(), doc.contexts.kv()) is Err) <==> exists|i: int|
            conflicts_at(old(merged).contexts.view(), doc.contexts.kv(), i),
        merge_defs(old(merged).contexts.view(), doc.contexts.kv()) is Ok ==> ((merge_defs(
            old(merged).units.view(),
            doc.units.kv(),
        ) is Err) <==> exists|i: int| conflicts_at(old(merged).units.view(), doc.units.kv(), i)),
{
    let ghost m0 = *merged;
    let ghost d = doc;
    let InstanceDocument { schema_refs, contexts, units, mut facts, mut footnotes } = doc;
    let mut i: usize = 0;
    while i < schema_refs.len()
        invariant
            i <= schema_refs@.len(),
            merged.schema_refs@ == merge_refs(m0.schema_refs@, schema_refs@.take(i as int)),
            merged.contexts == m0.contexts,
            merged.units == m0.units,
            merged.facts == m0.facts,
            merged.footnotes == m0.footnotes,
        decreases schema_refs@.len() - i,
    {
        proof {
            assert(schema_refs@.take(i + 1).drop_last() =~= schema_refs@.take(i as int));
        }
        if !contains_str(&merged.schema_refs, schema_refs[i].as_str()) {
            merged.schema_refs.push(schema_refs[i].clone());
        }
        i += 1;
    }
    proof {
        assert(schema_refs@.take(schema_refs@.len() as int) =~= schema_refs@);
    }
    let ghost ckv = contexts.kv();
    let ghost ukv = units.kv();
    let rc = merge_definitions(&mut merged.contexts, contexts);
    proof {
        lemma_sorted_distinct(ckv);
        lemma_merge_defs(m0.contexts.view(), ckv);
    }
    match rc {
        Ok(()) => {},
        Err(id) => {
            return Err(XbrlError::IxdsConflict { kind: "context".to_owned(), id });
        },
    }
    let ru = merge_definitions(&mut merged.units, units);
    proof {
        lemma_sorted_distinct(ukv);
        lemma_merge_defs(m0.units.view(), ukv);
    }
    match ru {
        Ok(()) => {},
        Err(id) => {
            return Err(XbrlError::IxdsConflict { kind: "unit".to_owned(), id });
        },
    }
    merged.facts.append(&mut facts);
    merged.footnotes.append(&mut footnotes);
    proof {
        if doc_wf(m0) && doc_wf(d) {
            assert forall|i: int| 0 <= i < ckv.len() implies (#[trigger] ckv[i]).1.def_id() == ckv[i].0 by {
                assert(d.contexts.view().contains_key(ckv[i].0));
            }
            assert forall|i: int| 0 <= i < ukv.len() implies (#[trigger] ukv[i]).1.def_id() == ukv[i].0 by {
                assert(d.units.view().contains_key(ukv[i].0));
            }
            lemma_merge_keyed(m0.contexts.view(), ckv);
            lemma_merge_keyed(m0.units.view(), ukv);
        }
    }
    Ok(())
}

/// `e` reports the merge conflict `c`.
pub open spec fn conflict_error(e: XbrlError, c: Option<(Seq<char>, Seq<char>)>) -> bool {
    match c {
        Some((kind, id)) => e matches XbrlError::IxdsConflict { kind: k, id: i } && k@ == kind && i@ == id,
        None => false,
    }
}

/// An instance with nothing in it.
pub open spec fn empty_doc(d: InstanceDocument) -> bool {
    &&& d.schema_refs@.len() == 0
    &&& d.contexts.view() == Map::<Seq<char>, Context>::empty()
    &&& d.units.view() == Map::<Seq<char>, Unit>::empty()
    &&& d.facts@.len() == 0
    &&& d.footnotes@.len() == 0
}

/// `ms` merges the documents `ds` one by one without conflict, starting
/// from nothing: `ms[i + 1]` is `ms[i]` with `ds[i]` merged into it.
pub open spec fn merge_chain(ds: Seq<InstanceDocument>, ms: Seq<InstanceDocument>) -> bool {
    &&& ms.len() == ds.len() + 1
    &&& empty_doc(ms[0])
    &&& forall|i: int|
        0 <= i < ds.len() ==> merge_conflict(ms[i], #[trigger] ds[i]) is None && merged_ok(ms[i], ds[i], ms[i + 1])
}

/// The first `ds.len()` members were read as `ds`.
pub open spec fn members_read(inputs: Seq<Vec<u8>>, ds: Seq<InstanceDocument>) -> bool {
    &&& ds.len() <= inputs.len()
    &&& forall|i: int| 0 <= i < ds.len() ==> parsed_from(inputs[i]@, #[trigger] ds[i]) && doc_wf(ds[i])
}

/// Reads an Inline XBRL document set: its members share one virtual
/// instance, and a context or unit defined differently by two members is a
/// conflict. On success the members were read in order and merged one by
/// one (facts and footnotes appended, contexts and units joined, schema
/// references kept once). On failure some members were read and merged,
/// and the next one either does not read, and the error is the one reading
/// it gives, or conflicts, and then the error names the conflict.
pub fn parse_instance_set(inputs: &[Vec<u8>]) -> (r: Result<InstanceDocument, XbrlError>)
    ensures
        r matches Ok(d) ==> doc_wf(d),
        r is Ok ==> forall|j: int| 0 <= j < inputs@.len() ==> vstd::utf8::valid_utf8((#[trigger] inputs@[j])@),
        inputs@.len() == 0 ==> (r matches Ok(d) && d.facts@.len() == 0 && d.footnotes@.len() == 0
            && d.schema_refs@.len() == 0 && d.contexts.view().len() == 0 && d.units.view().len() == 0),
        r matches Ok(d) ==> exists|ds: Seq<InstanceDocument>, ms: Seq<InstanceDocument>|
            {
                &&& ds.len() == inputs@.len()
                &&& members_read(inputs@, ds)
                &&& #[trigger] merge_chain(ds, ms)
                &&& d == ms.last()
                &&& merged_whole(ds, d)
            },
        r matches Err(e) ==> exists|ds: Seq<InstanceDocument>, ms: Seq<InstanceDocument>|
            {
                &&& ds.len() < inputs@.len()
                &&& members_read(inputs@, ds)
                &&& #[trigger] merge_chain(ds, ms)
                &&& {
                    let x = inputs@[ds.len() as int]@;
                    ||| read_error(x, e)
                    ||| exists|d: InstanceDocument|
                        parsed_from(x, d) && conflict_error(e, #[trigger] merge_conflict(ms.last(), d))
                }
            },
{
    let mut merged = InstanceDocument::empty();
    let mut i: usize = 0;
    let ghost mut ds: Seq<InstanceDocument> = Seq::empty();
    let ghost mut ms: Seq<InstanceDocument> = seq![merged];
    assert(merge_chain(ds, ms));
    while i < inputs.len()
        invariant
            i <= inputs@.len(),
            doc_wf(merged),
            i == 0 ==> merged.facts@.len() == 0 && merged.footnotes@.len() == 0
                && merged.schema_refs@.len() == 0 && merged.contexts.view().len() == 0
                && merged.units.view().len() == 0,
            forall|j: int| 0 <= j < i ==> vstd::utf8::valid_utf8((#[trigger] inputs@[j])@),
            ds.len() == i,
            members_read(inputs@, ds),
            merge_chain(ds, ms),
            ms.last() == merged,
        decreases inputs@.len() - i,
    {
        let doc = match parse_instance(inputs[i].as_slice()) {
            Ok(d) => d,
            Err(e) => {
                return Err(e);
            },
        };
        let ghost m0 = merged;
        let ghost d0 = doc;
        match merge_into(&mut merged, doc) {
            Ok(_) => {},
            Err(e) => {
                assert(parsed_from(inputs@[i as int]@, d0) && conflict_error(e, merge_conflict(ms.last(), d0)));
                return Err(e);
            },
        }
        proof {
            let ods = ds;
            let oms = ms;
            ds = ds.push(d0);
            ms = ms.push(merged);
            assert forall|j: int| 0 <= j < ds.len() implies merge_conflict(ms[j], #[trigger] ds[j]) is None
                && merged_ok(ms[j], ds[j], ms[j + 1]) by {
                if j < ods.len() {
                    assert(ms[j] == oms[j] && ds[j] == ods[j] && ms[j + 1] == oms[j + 1]);
                }
            }
            assert forall|j: int| 0 <= j < ds.len() implies parsed_from(inputs@[j]@, #[trigger] ds[j]) && doc_wf(
                ds[j],
            ) by {
                if j < ods.len() {
                    assert(ds[j] == ods[j]);
                }
            }
        }
        i += 1;
    }
    proof {
        lemma_merge_chain_whole(ds, ms);
    }
    Ok(merged)
}

/// Merging definitions kept under their ids keeps them under their ids.
pub proof fn lemma_merge_keyed<V: Definition>(a: Map<Seq<char>, V>, kv: Seq<(Seq<char>, V)>)
    requires
        forall|k: Seq<char>| #[trigger] a.contains_key(k) ==> a[k].def_id() == k,
        forall|i: int| 0 <= i < kv.len() ==> (#[trigger] kv[i]).1.def_id() == kv[i].0,
    ensures
        merge_defs(a, kv) matches Ok(m) ==> forall|k: Seq<char>| #[trigger] m.contains_key(k) ==> m[k].def_id() == k,
    decreases kv.len(),
{
    if kv.len() > 0 {
        lemma_merge_keyed(a, kv.drop_last());
        assert(kv.last() == kv[kv.len() - 1]);
    }
}

/// `m` defines the id of the definition `e` as `e` itself or as one that
/// is the same.
pub open spec fn defined_as<V: Definition>(m: Map<Seq<char>, V>, e: (Seq<char>, V)) -> bool {
    m.contains_key(e.0) && (m[e.0] == e.1 || m[e.0].same_as(e.1))
}

/// Merging definitions `kv` into `a` without conflict keeps what `a`
/// defines, defines each id of `kv` as its definition (or one that is the
/// same), and defines nothing else.
pub proof fn lemma_merge_defs_cover<V: Definition>(a: Map<Seq<char>, V>, kv: Seq<(Seq<char>, V)>)
    requires
        merge_defs(a, kv) is Ok,
    ensures
        ({
            let m = merge_defs(a, kv)->Ok_0;
            &&& forall|k: Seq<char>| #[trigger] a.contains_key(k) ==> m.contains_key(k) && m[k] == a[k]
            &&& forall|j: int| 0 <= j < kv.len() ==> defined_as(m, #[trigger] kv[j])
            &&& forall|k: Seq<char>|
                #[trigger] m.contains_key(k) ==> a.contains_key(k) || exists|j: int| 0 <= j < kv.len() && kv[j].0 == k
        }),
    decreases kv.len(),
{
    if kv.len() > 0 {
        let pre = kv.drop_last();
        lemma_merge_defs_cover(a, pre);
        let m0 = merge_defs(a, pre)->Ok_0;
        let m = merge_defs(a, kv)->Ok_0;
        let n = kv.len() - 1;
        assert(kv.last() == kv[n]);
        assert forall|j: int| 0 <= j < kv.len() implies defined_as(m, #[trigger] kv[j]) by {
            if j < n {
                assert(kv[j] == pre[j]);
                assert(defined_as(m0, pre[j]));
            }
        }
        assert forall|k: Seq<char>| #[trigger] m.contains_key(k) implies a.contains_key(k) || exists|j: int|
            0 <= j < kv.len() && kv[j].0 == k by {
            if k != kv[n].0 {
                assert(m0.contains_key(k));
                if !a.contains_key(k) {
                    let j = choose|j: int| 0 <= j < pre.len() && pre[j].0 == k;
                    assert(kv[j] == pre[j]);
                }
            }
        }
    }
}

/// Schema references joined in two steps are those joined in one.
pub proof fn lemma_merge_refs_append(a: Seq<String>, b: Seq<String>, c: Seq<String>)
    ensures
        merge_refs(merge_refs(a, b), c) == merge_refs(a, b + c),
    decreases c.len(),
{
    if c.len() > 0 {
        lemma_merge_refs_append(a, b, c.drop_last());
        assert((b + c).drop_last() =~= b + c.drop_last());
        assert((b + c).last() == c.last());
    }
}

/// The facts of the documents `ds`, in order.
pub open spec fn all_facts(ds: Seq<InstanceDocument>) -> Seq<RawFact>
    decreases ds.len(),
{
    if ds.len() == 0 {
        Seq::empty()
    } else {
        all_facts(ds.drop_last()) + ds.last().facts@
    }
}

/// The footnotes of the documents `ds`, in order.
pub open spec fn all_footnotes(ds: Seq<InstanceDocument>) -> Seq<Footnote>
    decreases ds.len(),
{
    if ds.len() == 0 {
        Seq::empty()
    } else {
        all_footnotes(ds.drop_last()) + ds.last().footnotes@
    }
}

/// The schema references of the documents `ds`, in order.
pub open spec fn all_refs(ds: Seq<InstanceDocument>) -> Seq<String>
    decreases ds.len(),
{
    if ds.len() == 0 {
        Seq::empty()
    } else {
        all_refs(ds.drop_last()) + ds.last().schema_refs@
    }
}

/// `m` is the documents `ds` merged as a whole: their facts and footnotes
/// in order, their schema references each kept once at its first
/// occurrence, every context and unit a member defines (as that definition
/// or one that is the same), and no other.
pub open spec fn merged_whole(ds: Seq<InstanceDocument>, m: InstanceDocument) -> bool {
    &&& m.facts@ == all_facts(ds)
    &&& m.footnotes@ == all_footnotes(ds)
    &&& m.schema_refs@ == merge_refs(Seq::empty(), all_refs(ds))
    &&& defs_whole(ds.map_values(|d: InstanceDocument| d.contexts.kv()), m.contexts.view())
    &&& defs_whole(ds.map_values(|d: InstanceDocument| d.units.kv()), m.units.view())
}

/// `m` defines every id that one of the definition lists `ks` defines, as
/// that definition or one that is the same, and no other.
pub open spec fn defs_whole<V: Definition>(ks: Seq<Seq<(Seq<char>, V)>>, m: Map<Seq<char>, V>) -> bool {
    &&& forall|i: int, j: int| 0 <= i < ks.len() && 0 <= j < ks[i].len() ==> defined_as(m, #[trigger] ks[i][j])
    &&& forall|k: Seq<char>|
        #[trigger] m.contains_key(k) ==> exists|i: int, j: int| 0 <= i < ks.len() && 0 <= j < ks[i].len() && ks[i][j].0 == k
}

/// Merging definition lists one by one without conflict, from nothing,
/// defines what they define as a whole.
pub proof fn lemma_defs_chain<V: Definition>(ks: Seq<Seq<(Seq<char>, V)>>, ms: Seq<Map<Seq<char>, V>>)
    requires
        ms.len() == ks.len() + 1,
        ms[0] == Map::<Seq<char>, V>::empty(),
        forall|i: int| 0 <= i < ks.len() ==> merge_defs(ms[i], #[trigger] ks[i]) == Ok::<Map<Seq<char>, V>, Seq<char>>(ms[i + 1]),
    ensures
        defs_whole(ks, ms.last()),
    decreases ks.len(),
{
    let n = ks.len() as int;
    if n > 0 {
        let pks = ks.drop_last();
        let pms = ms.drop_last();
        assert forall|i: int| 0 <= i < pks.len() implies merge_defs(pms[i], #[trigger] pks[i]) == Ok::<Map<Seq<char>, V>, Seq<char>>(pms[i + 1]) by {
            assert(pks[i] == ks[i] && pms[i] == ms[i] && pms[i + 1] == ms[i + 1]);
        }
        lemma_defs_chain(pks, pms);
        let m0 = ms[n - 1];
        let kv = ks[n - 1];
        let m1 = ms[n];
        assert(pms.last() == m0 && ms.last() == m1);
        assert(merge_defs(m0, kv) == Ok::<Map<Seq<char>, V>, Seq<char>>(m1));
        lemma_merge_defs_cover(m0, kv);
        assert forall|i: int, j: int| 0 <= i < n && 0 <= j < ks[i].len() implies defined_as(m1, #[trigger] ks[i][j]) by {
            if i < n - 1 {
                assert(ks[i] == pks[i]);
                assert(defined_as(m0, pks[i][j]));
            }
        }
        assert forall|k: Seq<char>| #[trigger] m1.contains_key(k) implies exists|i: int, j: int|
            0 <= i < n && 0 <= j < ks[i].len() && ks[i][j].0 == k by {
            if m0.contains_key(k) {
                let (i, j) = choose|i: int, j: int| 0 <= i < pks.len() && 0 <= j < pks[i].len() && pks[i][j].0 == k;
                assert(ks[i] == pks[i]);
            } else {
                let j = choose|j: int| 0 <= j < kv.len() && kv[j].0 == k;
                assert(ks[n - 1][j].0 == k);
            }
        }
    }
}

/// The facts, footnotes and schema references of a merge chain are those
/// of its members, in order.
proof fn lemma_lists_chain(ds: Seq<InstanceDocument>, ms: Seq<InstanceDocument>)
    requires
        merge_chain(ds, ms),
    ensures
        ms.last().facts@ == all_facts(ds),
        ms.last().footnotes@ == all_footnotes(ds),
        ms.last().schema_refs@ == merge_refs(Seq::empty(), all_refs(ds)),
    decreases ds.len(),
{
    let n = ds.len() as int;
    if n == 0 {
        assert(ms.last() == ms[0]);
    } else {
        let pds = ds.drop_last();
        let pms = ms.drop_last();
        assert forall|i: int| 0 <= i < pds.len() implies merge_conflict(pms[i], #[trigger] pds[i]) is None
            && merged_ok(pms[i], pds[i], pms[i + 1]) by {
            assert(pds[i] == ds[i] && pms[i] == ms[i] && pms[i + 1] == ms[i + 1]);
        }
        lemma_lists_chain(pds, pms);
        assert(pms.last() == ms[n - 1] && ds.last() == ds[n - 1]);
        assert(merged_ok(ms[n - 1], ds[n - 1], ms[n]));
        lemma_merge_refs_append(Seq::empty(), all_refs(pds), ds[n - 1].schema_refs@);
    }
}

/// Merging documents one by one without conflict, from nothing, merges
/// them as a whole.
pub proof fn lemma_merge_chain_whole(ds: Seq<InstanceDocument>, ms: Seq<InstanceDocument>)
    requires
        merge_chain(ds, ms),
    ensures
        merged_whole(ds, ms.last()),
{
    lemma_lists_chain(ds, ms);
    let cks = ds.map_values(|d: InstanceDocument| d.contexts.kv());
    let cms = ms.map_values(|d: InstanceDocument| d.contexts.view());
    assert forall|i: int| 0 <= i < cks.len() implies merge_defs(cms[i], #[trigger] cks[i]) == Ok::<Map<Seq<char>, Context>, Seq<char>>(cms[i + 1]) by {
        assert(merge_conflict(ms[i], ds[i]) is None && merged_ok(ms[i], ds[i], ms[i + 1]));
    }
    assert(cms[0] =~= Map::<Seq<char>, Context>::empty());
    lemma_defs_chain(cks, cms);
    let uks = ds.map_values(|d: InstanceDocument| d.units.kv());
    let ums = ms.map_values(|d: InstanceDocument| d.units.view());
    assert forall|i: int| 0 <= i < uks.len() implies merge_defs(ums[i], #[trigger] uks[i]) == Ok::<Map<Seq<char>, Unit>, Seq<char>>(ums[i + 1]) by {
        assert(merge_conflict(ms[i], ds[i]) is None && merged_ok(ms[i], ds[i], ms[i + 1]));
    }
    assert(ums[0] =~= Map::<Seq<char>, Unit>::empty());
    lemma_defs_chain(uks, ums);
    assert(cms.last() == ms.last().contexts.view());
    assert(ums.last() == ms.last().units.view());
}

/// A string-valued map with its values as character sequences.
pub open spec fn sview(m: Map<Seq<char>, String>) -> Map<Seq<char>, Seq<char>> {
    m.map_values(|s: String| s@)
}

/// An `explicitMember` opened inside a context and then given its text
/// adds one explicit dimension to the part of the context being read: to
/// its scenario inside `scenario`, to its segment inside `segment`; the
/// other part stays as it was, and outside both nothing is added.
pub proof fn law_explicit_member_placement(
    p0: InstanceParser,
    p1: InstanceParser,
    p2: InstanceParser,
    q: QName,
    attrs: StrMap<String>,
    ns: NamespaceMap,
    t: Seq<char>,
    r: Result<(), XbrlError>,
)
    requires
        p0.context is Some,
        q.local_name@ == "explicitMember"@,
        attr(attrs, "dimension"@) is Some,
        context_start_applied(p0, p1, q, attrs, ns),
        text_target_applied(p1, p2, t, r),
        r is Ok,
    ensures
        p2.context is Some,
        ({
            let c0 = p0.context.unwrap();
            let c2 = p2.context.unwrap();
            &&& c0.container == ContextContainer::Scenario ==> {
                &&& c2.segment@ == c0.segment@
                &&& c2.scenario@.len() == c0.scenario@.len() + 1
                &&& c2.scenario@.drop_last() == c0.scenario@
                &&& c2.scenario@.last() is ExplicitDimension
            }
            &&& c0.container == ContextContainer::Segment ==> {
                &&& c2.scenario@ == c0.scenario@
                &&& c2.segment@.len() == c0.segment@.len() + 1
                &&& c2.segment@.drop_last() == c0.segment@
                &&& c2.segment@.last() is ExplicitDimension
            }
            &&& c0.container == ContextContainer::Outside ==> c2.segment@ == c0.segment@ && c2.scenario@
                == c0.scenario@
        }),
{
    reveal_strlit("explicitMember");
    reveal_strlit("identifier");
    reveal_strlit("instant");
    reveal_strlit("startDate");
    reveal_strlit("endDate");
    reveal_strlit("forever");
    reveal_strlit("segment");
    reveal_strlit("scenario");
    assert(q.local_name@.len() == 14);
    assert(!is_local(q, "identifier"@) && !is_local(q, "instant"@) && !is_local(q, "startDate"@)
        && !is_local(q, "endDate"@) && !is_local(q, "forever"@) && !is_local(q, "segment"@)
        && !is_local(q, "scenario"@));
    assert(is_local(q, "explicitMember"@));
}

} // verus!
