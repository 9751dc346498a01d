//! The data model: a lossless instance (contexts, units, raw facts,
//! footnotes) and the normalized facts derived from it.

use vstd::prelude::*;

use crate::decimal::Decimal;
use crate::strmap::StrMap;
use crate::text::{chars_of, clone_opt, concat_chars, opt_str_eq, opt_view, str_eq, string_of};

verus! {

// --- Qualified name ---

/// An XML qualified name. Two names are equal when their namespace URI and
/// local name are; the lexical prefix does not take part.
#[derive(Debug)]
pub struct QName {
    pub namespace_uri: Option<String>,
    pub prefix: Option<String>,
    pub local_name: String,
}

/// Namespace URI and local name agree.
pub open spec fn qname_same(a: QName, b: QName) -> bool {
    opt_view(a.namespace_uri) == opt_view(b.namespace_uri) && a.local_name@ == b.local_name@
}

/// How a qualified name is displayed: `prefix:local`, `{namespace}local` or `local`.
pub open spec fn qname_display(q: QName) -> Seq<char> {
    match q.prefix {
        Some(p) => p@ + seq![':'] + q.local_name@,
        None => match q.namespace_uri {
            Some(ns) => seq!['{'] + ns@ + seq!['}'] + q.local_name@,
            None => q.local_name@,
        },
    }
}

impl QName {
    /// The displayed form of the name.
    pub fn to_string(&self) -> (s: String)
        ensures
            s@ == qname_display(*self),
    {
        match &self.prefix {
            Some(p) => {
                let mut v = chars_of(p.as_str());
                v.push(':');
                let l = chars_of(self.local_name.as_str());
                let r = concat_chars(v.as_slice(), l.as_slice());
                string_of(r.as_slice())
            },
            None => match &self.namespace_uri {
                Some(ns) => {
                    let mut v: Vec<char> = Vec::new();
                    v.push('{');
                    let n = chars_of(ns.as_str());
                    let mut w = concat_chars(v.as_slice(), n.as_slice());
                    w.push('}');
                    let l = chars_of(self.local_name.as_str());
                    let r = concat_chars(w.as_slice(), l.as_slice());
                    assert(r@ =~= seq!['{'] + ns@ + seq!['}'] + self.local_name@);
                    string_of(r.as_slice())
                },
                None => self.local_name.clone(),
            },
        }
    }

    /// Equality of namespace URI and local name.
    pub fn same(&self, other: &QName) -> (r: bool)
        ensures
            r == qname_same(*self, *other),
    {
        opt_str_eq(&self.namespace_uri, &other.namespace_uri) && str_eq(
            self.local_name.as_str(),
            other.local_name.as_str(),
        )
    }
}

impl Clone for QName {
    fn clone(&self) -> (r: Self)
        ensures
            r == *self,
    {
        QName {
            namespace_uri: clone_opt(&self.namespace_uri),
            prefix: clone_opt(&self.prefix),
            local_name: self.local_name.clone(),
        }
    }
}

impl PartialEq for QName {
    fn eq(&self, other: &QName) -> (r: bool) {
        self.same(other)
    }
}

impl vstd::std_specs::cmp::PartialEqSpecImpl for QName {
    open spec fn obeys_eq_spec() -> bool {
        true
    }

    open spec fn eq_spec(&self, other: &QName) -> bool {
        qname_same(*self, *other)
    }
}

impl Eq for QName {
}

// --- Lossless instance model ---

/// A parsed instance document.
#[derive(Debug)]
pub struct InstanceDocument {
    pub schema_refs: Vec<String>,
    pub contexts: StrMap<Context>,
    pub units: StrMap<Unit>,
    pub facts: Vec<RawFact>,
    pub footnotes: Vec<Footnote>,
}

impl InstanceDocument {
    /// An instance with nothing in it.
    pub fn empty() -> (d: InstanceDocument)
        ensures
            d.schema_refs@.len() == 0,
            d.contexts.view() == Map::<Seq<char>, Context>::empty(),
            d.units.view() == Map::<Seq<char>, Unit>::empty(),
            d.contexts.kv().len() == 0,
            d.units.kv().len() == 0,
            d.facts@.len() == 0,
            d.footnotes@.len() == 0,
    {
        InstanceDocument {
            schema_refs: Vec::new(),
            contexts: StrMap::new(),
            units: StrMap::new(),
            facts: Vec::new(),
            footnotes: Vec::new(),
        }
    }
}

/// A fact exactly as the document states it.
#[derive(Debug, PartialEq)]
pub struct RawFact {
    pub id: Option<String>,
    pub name: QName,
    pub value: RawFactValue,
    pub context_ref: String,
    pub unit_ref: Option<String>,
    pub decimals: Option<Decimals>,
    pub precision: Option<Precision>,
    pub lang: Option<String>,
    pub inline_meta: Option<InlineMeta>,
    /// Half-open byte range of the source element, when known.
    pub byte_range: Option<(u64, u64)>,
}

impl Clone for RawFact {
    fn clone(&self) -> (r: Self)
        ensures
            r == *self,
    {
        RawFact {
            id: clone_opt(&self.id),
            name: self.name.clone(),
            value: self.value.clone(),
            context_ref: self.context_ref.clone(),
            unit_ref: clone_opt(&self.unit_ref),
            decimals: self.decimals,
            precision: self.precision,
            lang: clone_opt(&self.lang),
            inline_meta: match &self.inline_meta {
                Some(m) => Some(m.clone()),
                None => None,
            },
            byte_range: self.byte_range,
        }
    }
}

/// The value of a raw fact.
#[derive(Debug, PartialEq)]
#[non_exhaustive]
pub enum RawFactValue {
    Numeric { raw: String },
    Text { value: String },
    Nil,
}

impl Clone for RawFactValue {
    fn clone(&self) -> (r: Self)
        ensures
            r == *self,
    {
        match self {
            RawFactValue::Numeric { raw } => RawFactValue::Numeric { raw: raw.clone() },
            RawFactValue::Text { value } => RawFactValue::Text { value: value.clone() },
            RawFactValue::Nil => RawFactValue::Nil,
        }
    }
}

/// Attributes of an inline (iXBRL) fact.
#[derive(Debug, PartialEq, Eq)]
pub struct InlineMeta {
    pub format: Option<String>,
    pub scale: Option<i32>,
    pub sign: Option<String>,
    pub target: Option<String>,
    pub continued_from: Option<String>,
    pub is_hidden: bool,
}

impl Clone for InlineMeta {
    fn clone(&self) -> (r: Self)
        ensures
            r == *self,
    {
        InlineMeta {
            format: clone_opt(&self.format),
            scale: self.scale,
            sign: clone_opt(&self.sign),
            target: clone_opt(&self.target),
            continued_from: clone_opt(&self.continued_from),
            is_hidden: self.is_hidden,
        }
    }
}

/// The `decimals` attribute.
#[derive(Debug, Clone, Copy, PartialEq, Eq)]
#[non_exhaustive]
pub enum Decimals {
    Infinite,
    Value { n: i32 },
}

/// The `precision` attribute.
#[derive(Debug, Clone, Copy, PartialEq, Eq)]
#[non_exhaustive]
pub enum Precision {
    Infinite,
    Value { n: u32 },
}

// --- Context ---

/// An XBRL context.
#[derive(Debug, PartialEq)]
pub struct Context {
    pub id: String,
    pub entity: Entity,
    pub period: Period,
    pub segment: Vec<ContextElement>,
    pub scenario: Vec<ContextElement>,
}

/// The reporting entity of a context.
#[derive(Debug, PartialEq, Eq)]
pub struct Entity {
    pub scheme: String,
    pub identifier: String,
}

impl Clone for Entity {
    fn clone(&self) -> (r: Self)
        ensures
            r == *self,
    {
        Entity { scheme: self.scheme.clone(), identifier: self.identifier.clone() }
    }
}

/// The period of a context.
#[derive(Debug, PartialEq, Eq)]
#[non_exhaustive]
pub enum Period {
    Instant { date: String },
    Duration { start: String, end: String },
    Forever,
}

impl Clone for Period {
    fn clone(&self) -> (r: Self)
        ensures
            r == *self,
    {
        match self {
            Period::Instant { date } => Period::Instant { date: date.clone() },
            Period::Duration { start, end } => Period::Duration {
                start: start.clone(),
                end: end.clone(),
            },
            Period::Forever => Period::Forever,
        }
    }
}

/// A child of a segment or scenario.
#[derive(Debug, PartialEq, Eq)]
#[non_exhaustive]
pub enum ContextElement {
    ExplicitDimension { dimension: QName, member: QName },
    TypedDimension { dimension: QName, raw_xml: String },
    Other { raw_xml: String },
}

impl Clone for ContextElement {
    fn clone(&self) -> (r: Self)
        ensures
            r == *self,
    {
        match self {
            ContextElement::ExplicitDimension { dimension, member } => {
                ContextElement::ExplicitDimension {
                    dimension: dimension.clone(),
                    member: member.clone(),
                }
            },
            ContextElement::TypedDimension { dimension, raw_xml } => {
                ContextElement::TypedDimension {
                    dimension: dimension.clone(),
                    raw_xml: raw_xml.clone(),
                }
            },
            ContextElement::Other { raw_xml } => ContextElement::Other { raw_xml: raw_xml.clone() },
        }
    }
}

// --- Unit ---

/// An XBRL unit: measures, divided by measures.
#[derive(Debug, PartialEq, Eq)]
pub struct Unit {
    pub id: String,
    pub numerator: Vec<QName>,
    pub denominator: Vec<QName>,
}

// --- Footnote ---

/// A footnote resource and the ids of the facts linked to it.
#[derive(Debug, PartialEq, Eq)]
pub struct Footnote {
    pub id: Option<String>,
    pub role: Option<String>,
    pub lang: Option<String>,
    pub content: String,
    pub fact_refs: Vec<String>,
}

// --- Normalized fact ---

/// A fact with its context and unit resolved and its value interpreted.
#[derive(Debug, PartialEq)]
pub struct NormalizedFact {
    pub name: QName,
    pub label: Option<String>,
    pub value: NormalizedValue,
    pub period: Period,
    pub entity: Entity,
    pub unit: Option<Unit>,
    pub dimensions: Vec<Dimension>,
    pub provenance: Provenance,
}

/// A normalized value.
#[derive(Debug, PartialEq)]
#[non_exhaustive]
pub enum NormalizedValue {
    Numeric { raw: String, decimal: Option<Decimal>, decimals: Option<Decimals> },
    Text { value: String, lang: Option<String> },
    Nil,
}

/// A dimension of a normalized fact's context.
#[derive(Debug, PartialEq, Eq)]
pub struct Dimension {
    pub dimension: QName,
    pub member: DimensionMember,
}

/// The member of a dimension.
#[derive(Debug, PartialEq, Eq)]
#[non_exhaustive]
pub enum DimensionMember {
    Explicit { member: QName },
    Typed { raw_xml: String },
}

/// Where a normalized fact came from.
#[derive(Debug, PartialEq, Eq)]
pub struct Provenance {
    pub doc_id: String,
    pub accession: Option<String>,
    pub source_url: Option<String>,
    pub element_id: Option<String>,
    pub fact_id: Option<String>,
    pub context_ref: String,
    pub byte_range: Option<(u64, u64)>,
}

/// Metadata of a filing.
#[derive(Debug, PartialEq, Eq)]
pub struct FilingMeta {
    pub doc_id: String,
    pub entity: Option<Entity>,
    pub filing_date: Option<String>,
    pub doc_type: Option<String>,
    pub taxonomy_version: Option<String>,
    pub source_url: Option<String>,
}

// --- Copies ---

/// A copy of a vector of names.
pub fn clone_qnames(v: &Vec<QName>) -> (r: Vec<QName>)
    ensures
        r@ == v@,
{
    let mut r: Vec<QName> = Vec::new();
    let mut i: usize = 0;
    while i < v.len()
        invariant
            i <= v@.len(),
            r@ == v@.take(i as int),
        decreases v@.len() - i,
    {
        r.push(v[i].clone());
        i += 1;
        assert(v@.take(i as int) == v@.take((i - 1) as int).push(v@[i - 1]));
    }
    assert(v@.take(i as int) == v@);
    r
}

/// A copy of a vector of context elements.
pub fn clone_elements(v: &Vec<ContextElement>) -> (r: Vec<ContextElement>)
    ensures
        r@ == v@,
{
    let mut r: Vec<ContextElement> = Vec::new();
    let mut i: usize = 0;
    while i < v.len()
        invariant
            i <= v@.len(),
            r@ == v@.take(i as int),
        decreases v@.len() - i,
    {
        r.push(v[i].clone());
        i += 1;
        assert(v@.take(i as int) == v@.take((i - 1) as int).push(v@[i - 1]));
    }
    assert(v@.take(i as int) == v@);
    r
}

/// A copy of a vector of strings.
pub fn clone_strings(v: &Vec<String>) -> (r: Vec<String>)
    ensures
        r@ == v@,
{
    let mut r: Vec<String> = Vec::new();
    let mut i: usize = 0;
    while i < v.len()
        invariant
            i <= v@.len(),
            r@ == v@.take(i as int),
        decreases v@.len() - i,
    {
        r.push(v[i].clone());
        i += 1;
        assert(v@.take(i as int) == v@.take((i - 1) as int).push(v@[i - 1]));
    }
    assert(v@.take(i as int) == v@);
    r
}

/// Field-wise copy of a context (vectors compared by content).
pub open spec fn context_copy(a: Context, b: Context) -> bool {
    a.id == b.id && a.entity == b.entity && a.period == b.period && a.segment@ == b.segment@
        && a.scenario@ == b.scenario@
}

/// Field-wise copy of a unit.
pub open spec fn unit_copy(a: Unit, b: Unit) -> bool {
    a.id == b.id && a.numerator@ == b.numerator@ && a.denominator@ == b.denominator@
}

/// Field-wise copy of a footnote.
pub open spec fn footnote_copy(a: Footnote, b: Footnote) -> bool {
    a.id == b.id && a.role == b.role && a.lang == b.lang && a.content == b.content
        && a.fact_refs@ == b.fact_refs@
}

impl Clone for Context {
    fn clone(&self) -> (r: Self)
        ensures
            context_copy(r, *self),
    {
        Context {
            id: self.id.clone(),
            entity: self.entity.clone(),
            period: self.period.clone(),
            segment: clone_elements(&self.segment),
            scenario: clone_elements(&self.scenario),
        }
    }
}

impl Clone for Unit {
    fn clone(&self) -> (r: Self)
        ensures
            unit_copy(r, *self),
    {
        Unit {
            id: self.id.clone(),
            numerator: clone_qnames(&self.numerator),
            denominator: clone_qnames(&self.denominator),
        }
    }
}

impl Clone for Footnote {
    fn clone(&self) -> (r: Self)
        ensures
            footnote_copy(r, *self),
    {
        Footnote {
            id: clone_opt(&self.id),
            role: clone_opt(&self.role),
            lang: clone_opt(&self.lang),
            content: self.content.clone(),
            fact_refs: clone_strings(&self.fact_refs),
        }
    }
}

} // verus!
