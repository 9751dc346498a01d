//! Normalization: each raw fact resolved against its context and unit, its
//! value interpreted (inline sign, scale and transforms applied), and its
//! concept label looked up.

use vstd::prelude::*;

use crate::error::XbrlError;
use crate::text::{clone_opt, opt_view};
use crate::transform::{apply_text_transform, numeric_value, parse_normalized_decimal, text_transform};
use crate::types::{
    unit_copy, Context, ContextElement, Dimension, DimensionMember, InstanceDocument, NormalizedFact,
    NormalizedValue, Provenance, QName, RawFact, RawFactValue,
};

verus! {

/// An optional string slice as characters.
pub open spec fn opt_str(s: Option<&str>) -> Option<Seq<char>> {
    match s {
        Some(x) => Some(x@),
        None => None,
    }
}

/// A source of concept labels, for users to implement.
pub trait TaxonomyResolver {
    /// The label this resolver gives `name` for `role` in `lang`; a resolver
    /// that gives labels states them here (by default it gives none).
    open spec fn label_of(&self, name: QName, role: Option<Seq<char>>, lang: Option<Seq<char>>) -> Option<Seq<char>> {
        None
    }

    /// The label of `name` for `role` (the standard label when `None`) in `lang`.
    fn label(&self, name: &QName, role: Option<&str>, lang: Option<&str>) -> (r: Option<String>)
        ensures
            opt_view(r) == self.label_of(*name, opt_str(role), opt_str(lang)),
    ;
}

/// A resolver that knows no labels.
pub struct NoLabels;

impl TaxonomyResolver for NoLabels {
    fn label(&self, name: &QName, role: Option<&str>, lang: Option<&str>) -> (r: Option<String>)
        ensures
            r is None,
    {
        None
    }
}

/// The dimension a segment or scenario member declares, if it is one.
pub open spec fn dimension_of(e: ContextElement) -> Option<Dimension> {
    match e {
        ContextElement::ExplicitDimension { dimension, member } => Some(
            Dimension { dimension, member: DimensionMember::Explicit { member } },
        ),
        ContextElement::TypedDimension { dimension, raw_xml } => Some(
            Dimension { dimension, member: DimensionMember::Typed { raw_xml } },
        ),
        ContextElement::Other { .. } => None,
    }
}

/// The dimensions among some members, in order.
pub open spec fn dimensions_of(s: Seq<ContextElement>) -> Seq<Dimension>
    decreases s.len(),
{
    if s.len() == 0 {
        Seq::empty()
    } else {
        let rest = dimensions_of(s.drop_last());
        match dimension_of(s.last()) {
            Some(d) => rest.push(d),
            None => rest,
        }
    }
}

fn push_dimensions(out: &mut Vec<Dimension>, elements: &Vec<ContextElement>)
    ensures
        final(out)@ == old(out)@ + dimensions_of(elements@),
{
    let mut i: usize = 0;
    while i < elements.len()
        invariant
            i <= elements@.len(),
            out@ == old(out)@ + dimensions_of(elements@.take(i as int)),
        decreases elements@.len() - i,
    {
        proof {
            assert(elements@.take(i + 1).drop_last() =~= elements@.take(i as int));
        }
        match &elements[i] {
            ContextElement::ExplicitDimension { dimension, member } => {
                out.push(
                    Dimension {
                        dimension: dimension.clone(),
                        member: DimensionMember::Explicit { member: member.clone() },
                    },
                );
            },
            ContextElement::TypedDimension { dimension, raw_xml } => {
                out.push(
                    Dimension {
                        dimension: dimension.clone(),
                        member: DimensionMember::Typed { raw_xml: raw_xml.clone() },
                    },
                );
            },
            ContextElement::Other { .. } => {},
        }
        i += 1;
    }
    proof {
        assert(elements@.take(elements@.len() as int) =~= elements@);
    }
}

/// The dimensions of a context: those of its segment, then of its scenario.
pub fn context_dimensions(context: &Context) -> (r: Vec<Dimension>)
    ensures
        r@ == dimensions_of(context.segment@) + dimensions_of(context.scenario@),
{
    let mut out: Vec<Dimension> = Vec::new();
    push_dimensions(&mut out, &context.segment);
    push_dimensions(&mut out, &context.scenario);
    proof {
        assert(Seq::<Dimension>::empty() + dimensions_of(context.segment@) =~= dimensions_of(
            context.segment@,
        ));
    }
    out
}

/// What normalizing `fact` of `instance` gives: its context must exist, and
/// its unit if it names one; numeric values are parsed into decimals (with
/// the inline sign and scale) and text values take their inline transform.
/// The label is the taxonomy's, which this does not constrain.
pub open spec fn normalized_outcome(
    r: Result<NormalizedFact, XbrlError>,
    instance: InstanceDocument,
    doc_id: Seq<char>,
    fact: RawFact,
) -> bool {
    let contexts = instance.contexts.view();
    let units = instance.units.view();
    if !contexts.contains_key(fact.context_ref@) {
        r matches Err(XbrlError::MissingContext { context_ref }) && context_ref@ == fact.context_ref@
    } else if fact.unit_ref is Some && !units.contains_key(fact.unit_ref.unwrap()@) {
        r matches Err(XbrlError::MissingUnit { unit_ref }) && unit_ref@ == fact.unit_ref.unwrap()@
    } else if fact.value is Numeric && numeric_value(fact.value->raw@, fact.inline_meta) is None {
        r matches Err(XbrlError::InvalidDecimal { raw }) && raw@ == fact.value->raw@
    } else {
        let ctx = contexts[fact.context_ref@];
        r matches Ok(n) && {
            &&& n.name == fact.name
            &&& n.period == ctx.period
            &&& n.entity == ctx.entity
            &&& match fact.unit_ref {
                Some(u) => n.unit matches Some(x) && unit_copy(x, units[u@]),
                None => n.unit is None,
            }
            &&& n.dimensions@ == dimensions_of(ctx.segment@) + dimensions_of(ctx.scenario@)
            &&& match fact.value {
                RawFactValue::Numeric { raw } => n.value matches NormalizedValue::Numeric {
                    raw: r2,
                    decimal: Some(d),
                    decimals,
                } && r2 == raw && numeric_value(raw@, fact.inline_meta) == Some(d.parts()) && decimals
                    == fact.decimals,
                RawFactValue::Text { value } => n.value matches NormalizedValue::Text { value: v2, lang }
                    && v2@ == text_transform(value@, fact.inline_meta) && lang == fact.lang,
                RawFactValue::Nil => n.value is Nil,
            }
            &&& n.provenance.doc_id@ == doc_id
            &&& n.provenance.accession is None
            &&& n.provenance.source_url is None
            &&& n.provenance.element_id is None
            &&& n.provenance.fact_id == fact.id
            &&& n.provenance.context_ref == fact.context_ref
            &&& n.provenance.byte_range == fact.byte_range
        }
    }
}

/// Normalizes one raw fact of `instance`.
pub fn normalize_fact<T: TaxonomyResolver>(
    instance: &InstanceDocument,
    taxonomy: &T,
    doc_id: &str,
    fact: &RawFact,
) -> (r: Result<NormalizedFact, XbrlError>)
    ensures
        normalized_outcome(r, *instance, doc_id@, *fact),
        r matches Ok(n) ==> opt_view(n.label) == taxonomy.label_of(fact.name, None, opt_view(fact.lang)),
{
    let context = match instance.contexts.get(fact.context_ref.as_str()) {
        Some(c) => c,
        None => {
            return Err(XbrlError::MissingContext { context_ref: fact.context_ref.clone() });
        },
    };
    let unit = match &fact.unit_ref {
        Some(u) => match instance.units.get(u.as_str()) {
            Some(x) => Some(x.clone()),
            None => {
                return Err(XbrlError::MissingUnit { unit_ref: u.clone() });
            },
        },
        None => None,
    };
    let value = match &fact.value {
        RawFactValue::Numeric { raw } => {
            let d = parse_normalized_decimal(raw.as_str(), &fact.inline_meta)?;
            NormalizedValue::Numeric { raw: raw.clone(), decimal: Some(d), decimals: fact.decimals }
        },
        RawFactValue::Text { value } => NormalizedValue::Text {
            value: apply_text_transform(value.as_str(), &fact.inline_meta),
            lang: clone_opt(&fact.lang),
        },
        RawFactValue::Nil => NormalizedValue::Nil,
    };
    let lang: Option<&str> = match &fact.lang {
        Some(l) => Some(l.as_str()),
        None => None,
    };
    let label = taxonomy.label(&fact.name, None, lang);
    Ok(
        NormalizedFact {
            name: fact.name.clone(),
            label,
            value,
            period: context.period.clone(),
            entity: context.entity.clone(),
            unit,
            dimensions: context_dimensions(context),
            provenance: Provenance {
                doc_id: doc_id.to_owned(),
                accession: None,
                source_url: None,
                element_id: None,
                fact_id: clone_opt(&fact.id),
                context_ref: fact.context_ref.clone(),
                byte_range: fact.byte_range,
            },
        },
    )
}

/// Normalizes every raw fact of `instance`, in order; each fact succeeds or
/// fails on its own.
pub fn normalize_facts<T: TaxonomyResolver>(instance: &InstanceDocument, taxonomy: &T, doc_id: &str) -> (r: Vec<
    Result<NormalizedFact, XbrlError>,
>)
    ensures
        r@.len() == instance.facts@.len(),
        forall|i: int|
            0 <= i < r@.len() ==> normalized_outcome(
                #[trigger] r@[i],
                *instance,
                doc_id@,
                instance.facts@[i],
            ),
        forall|i: int|
            0 <= i < r@.len() ==> (#[trigger] r@[i] matches Ok(n) ==> opt_view(n.label) == taxonomy.label_of(
                instance.facts@[i].name,
                None,
                opt_view(instance.facts@[i].lang),
            )),
{
    let mut out: Vec<Result<NormalizedFact, XbrlError>> = Vec::new();
    let mut i: usize = 0;
    while i < instance.facts.len()
        invariant
            i <= instance.facts@.len(),
            out@.len() == i,
            forall|j: int|
                0 <= j < i ==> normalized_outcome(
                    #[trigger] out@[j],
                    *instance,
                    doc_id@,
                    instance.facts@[j],
                ),
            forall|j: int|
                0 <= j < i ==> (#[trigger] out@[j] matches Ok(n) ==> opt_view(n.label) == taxonomy.label_of(
                    instance.facts@[j].name,
                    None,
                    opt_view(instance.facts@[j].lang),
                )),
        decreases instance.facts@.len() - i,
    {
        out.push(normalize_fact(instance, taxonomy, doc_id, &instance.facts[i]));
        i += 1;
    }
    out
}

} // verus!
