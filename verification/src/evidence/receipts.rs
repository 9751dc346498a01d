//! Building and verifying receipts: the receipt id, the operations of
//! derived claims, stated receipts for the numeric facts of an instance,
//! and the checks a verifier re-runs against the source.

use vstd::prelude::*;

use crate::decimal::{
    decimal_div, decimal_from_str, decimal_round_dp, decimal_sub, display, normalize_parts,
    lemma_normalized_same, lemma_same_parts_trans, max_magnitude, parse_error_message, pow10, same_parts,
    signed_parts, well_formed_parts, Decimal,
};
use crate::evidence::roundtrip::{lemma_derived_receipt_verifies, lemma_issued, lemma_stated_receipt_verifies, reads_back};
use crate::error::starts_with;
use crate::evidence::crypto::{
    bytes_of_hex, ed25519_accepts, ed25519_public, ed25519_public_key, ed25519_sign, ed25519_signature,
    ed25519_verify, hex_decode, hex_encode, hex_of, lemma_hex_roundtrip, random_secret, sha256,
    sha256_digest,
};
use crate::evidence::json::{body_json, encode_body};
use crate::error::XbrlError;
use crate::evidence::{
    Attestation, Check, CheckName, Claim, ClaimKind, Derivation, DerivationInput, Evidence,
    EvidenceError, Extraction, Locator, Operation, Receipt, SourceArtifact, ValidationStatus,
    VerificationReport, XbrlLocator,
};
use crate::normalize::{normalize_facts, normalized_outcome, NoLabels};
use crate::parser::{distinct_ranges, doc_wf, parse_fails, parse_instance, parsed_from};
use crate::text::{clone_opt, opt_str_eq, opt_view, str_eq};
use crate::transform::numeric_value;
use crate::types::{qname_display, InstanceDocument, NormalizedFact, NormalizedValue, RawFact};
use crate::text::{dec_string, u64_to_string};
use vstd::utf8::encode_utf8;

verus! {

/// The receipt schema version; the canonical encoding is pinned per version.
pub const SCHEMA_VERSION: &'static str = "er/0.1";

/// The extraction engine recorded in receipts.
pub const ENGINE: &'static str = "xbrl-facts-evidence@0.1.0";

// ---------------------------------------------------------------------------
// Receipt ids
// ---------------------------------------------------------------------------

/// The canonical body of a receipt under the current schema version.
pub open spec fn canonical_body_of(c: Claim, es: Seq<Evidence>, d: Option<Derivation>) -> Seq<char> {
    body_json(SCHEMA_VERSION@, c, es, d)
}

/// The content-derived id of a receipt: `er_` and the hexadecimal SHA-256
/// of the UTF-8 bytes of its canonical body (the full digest).
pub open spec fn receipt_id_of(c: Claim, es: Seq<Evidence>, d: Option<Derivation>) -> Seq<char> {
    "er_"@ + hex_of(sha256_digest(encode_utf8(canonical_body_of(c, es, d))))
}

/// The hexadecimal SHA-256 of some bytes.
pub fn sha256_hex(bytes: &[u8]) -> (r: String)
    ensures
        r@ == hex_of(sha256_digest(bytes@)),
{
    let d = sha256(bytes);
    hex_encode(d.as_slice())
}

/// The canonical body of a receipt; encoding cannot fail.
pub fn canonical_body(claim: &Claim, evidence: &[Evidence], derivation: &Option<Derivation>) -> (r: Result<
    String,
    EvidenceError,
>)
    ensures
        r matches Ok(s) && s@ == canonical_body_of(*claim, evidence@, *derivation),
{
    Ok(encode_body(SCHEMA_VERSION, claim, evidence, derivation))
}

/// The id a receipt with this body must carry.
pub fn receipt_id_for(claim: &Claim, evidence: &[Evidence], derivation: &Option<Derivation>) -> (r: Result<
    String,
    EvidenceError,
>)
    ensures
        r matches Ok(s) && s@ == receipt_id_of(*claim, evidence@, *derivation),
{
    let body = encode_body(SCHEMA_VERSION, claim, evidence, derivation);
    let h = sha256_hex(body.as_str().as_bytes());
    let mut id = "er_".to_owned();
    id.append(h.as_str());
    Ok(id)
}

// ---------------------------------------------------------------------------
// Operations
// ---------------------------------------------------------------------------

/// The absolute value of an integer.
pub open spec fn abs_int(x: int) -> nat {
    if x < 0 {
        (-x) as nat
    } else {
        x as nat
    }
}

/// A decimal without trailing fractional zeros, as (sign, signed mantissa, scale).
pub open spec fn norm_parts(p: (bool, int, int)) -> (bool, int, int) {
    let (n, m, s) = normalize_parts(p.0, abs_int(p.1), p.2 as nat);
    (n, if n {
        -m
    } else {
        m as int
    }, s as int)
}

/// The canonical text of a decimal: normalized, then displayed.
pub open spec fn canonical_text(p: (bool, int, int)) -> Seq<char> {
    let (n, m, s) = normalize_parts(p.0, abs_int(p.1), p.2 as nat);
    display(n, m, s)
}

/// Rounding to `dp` places (halves away from zero) when asked, then normalizing.
pub open spec fn rounded(p: (bool, int, int), dp: Option<u32>) -> (bool, int, int) {
    match dp {
        Some(k) => norm_parts(decimal_round_dp(p, k as int)),
        None => norm_parts(p),
    }
}

/// The absolute value of a decimal.
pub open spec fn abs_parts(p: (bool, int, int)) -> (bool, int, int) {
    (false, abs_int(p.1) as int, p.2)
}

/// What an operation computes from its inputs, or the message it fails
/// with: it takes exactly two inputs; a ratio or growth rate over a zero
/// denominator fails, and so does arithmetic that overflows.
pub open spec fn operation_result(op: Operation, xs: Seq<(bool, int, int)>) -> Result<(bool, int, int), Seq<char>> {
    if xs.len() != 2 {
        Err("operation needs 2 inputs, got "@ + dec_string(xs.len()))
    } else {
        match op {
            Operation::Ratio { round_dp } => if xs[1].1 == 0 {
                Err("division by zero"@)
            } else {
                match decimal_div(xs[0], xs[1]) {
                    Some(q) => Ok(rounded(q, round_dp)),
                    None => Err("arithmetic overflow"@),
                }
            },
            Operation::Difference => match decimal_sub(xs[0], xs[1]) {
                Some(d) => Ok(norm_parts(d)),
                None => Err("arithmetic overflow"@),
            },
            Operation::GrowthRate { round_dp } => if xs[1].1 == 0 {
                Err("division by zero"@)
            } else {
                match decimal_sub(xs[0], xs[1]) {
                    Some(d) => match decimal_div(d, abs_parts(xs[1])) {
                        Some(q) => Ok(rounded(q, round_dp)),
                        None => Err("arithmetic overflow"@),
                    },
                    None => Err("arithmetic overflow"@),
                }
            },
        }
    }
}

/// The parts of each decimal.
pub open spec fn parts_of(ds: Seq<Decimal>) -> Seq<(bool, int, int)> {
    ds.map_values(|d: Decimal| d.parts())
}

proof fn lemma_norm_parts(d: Decimal, r: Decimal)
    requires
        (r.is_negative(), r.magnitude(), r.scale()) == normalize_parts(d.is_negative(), d.magnitude(), d.scale()),
    ensures
        r.parts() == norm_parts(d.parts()),
{
    assert(abs_int(d.signed()) == d.magnitude());
}

fn derivation_error(message: &str) -> (e: EvidenceError)
    ensures
        e matches EvidenceError::Derivation(m) && m@ == message@,
{
    EvidenceError::Derivation(message.to_owned())
}

impl Operation {
    fn round(v: Decimal, dp: Option<u32>) -> (r: Decimal)
        ensures
            r.parts() == rounded(v.parts(), dp),
    {
        match dp {
            Some(k) => {
                let x = v.round_dp_away(k);
                let n = x.normalize();
                proof {
                    lemma_norm_parts(x, n);
                }
                n
            },
            None => {
                let n = v.normalize();
                proof {
                    lemma_norm_parts(v, n);
                }
                n
            },
        }
    }

    /// Applies the operation to its inputs, in order.
    pub fn apply(&self, inputs: &[Decimal]) -> (r: Result<Decimal, EvidenceError>)
        ensures
            match operation_result(*self, parts_of(inputs@)) {
                Ok(p) => r matches Ok(d) && d.parts() == p,
                Err(msg) => r matches Err(EvidenceError::Derivation(m)) && m@ == msg,
            },
    {
        if inputs.len() != 2 {
            let mut m = "operation needs 2 inputs, got ".to_owned();
            let n = u64_to_string(inputs.len() as u64);
            m.append(n.as_str());
            return Err(EvidenceError::Derivation(m));
        }
        let a = inputs[0];
        let b = inputs[1];
        proof {
            assert(parts_of(inputs@)[0] == a.parts());
            assert(parts_of(inputs@)[1] == b.parts());
        }
        match *self {
            Operation::Ratio { round_dp } => {
                if b.is_zero() {
                    return Err(derivation_error("division by zero"));
                }
                match a.checked_div(&b) {
                    Some(q) => Ok(Self::round(q, round_dp)),
                    None => Err(derivation_error("arithmetic overflow")),
                }
            },
            Operation::Difference => match a.checked_sub(&b) {
                Some(d) => {
                    let n = d.normalize();
                    proof {
                        lemma_norm_parts(d, n);
                    }
                    Ok(n)
                },
                None => Err(derivation_error("arithmetic overflow")),
            },
            Operation::GrowthRate { round_dp } => {
                if b.is_zero() {
                    return Err(derivation_error("division by zero"));
                }
                match a.checked_sub(&b) {
                    Some(d) => {
                        let m = b.abs();
                        assert(m.parts() == abs_parts(b.parts()));
                        match d.checked_div(&m) {
                            Some(q) => Ok(Self::round(q, round_dp)),
                            None => Err(derivation_error("arithmetic overflow")),
                        }
                    },
                    None => Err(derivation_error("arithmetic overflow")),
                }
            },
        }
    }
}

// ---------------------------------------------------------------------------
// Stated receipts
// ---------------------------------------------------------------------------

/// The canonical value of a normalized value: numeric values only, as the
/// canonical text of the decimal (or the raw text when there is none).
pub open spec fn canonical_of(v: NormalizedValue) -> Option<(Seq<char>, Option<Decimal>)> {
    match v {
        NormalizedValue::Numeric { raw, decimal, .. } => Some(
            (
                match decimal {
                    Some(d) => canonical_text(d.parts()),
                    None => raw@,
                },
                decimal,
            ),
        ),
        _ => None,
    }
}

/// The canonical value of a normalized value.
pub fn canonical_value(v: &NormalizedValue) -> (r: Option<(String, Option<Decimal>)>)
    ensures
        match (r, canonical_of(*v)) {
            (Some((s, d)), Some((t, e))) => s@ == t && d == e,
            (None, None) => true,
            _ => false,
        },
{
    match v {
        NormalizedValue::Numeric { raw, decimal, .. } => {
            let text = match decimal {
                Some(d) => {
                    let n = d.normalize();
                    proof {
                        assert(abs_int(d.signed()) == d.magnitude());
                    }
                    n.to_string()
                },
                None => raw.clone(),
            };
            Some((text, *decimal))
        },
        _ => None,
    }
}

/// The decimal a fact of `instance` normalizes to, when it normalizes to a
/// number: its context (and unit, if it names one) exist, it is numeric,
/// and its text parses.
pub open spec fn fact_number(instance: InstanceDocument, fact: RawFact) -> Option<(bool, int, int)> {
    if instance.contexts.view().contains_key(fact.context_ref@) && (fact.unit_ref is None
        || instance.units.view().contains_key(fact.unit_ref.unwrap()@)) && fact.value is Numeric {
        numeric_value(fact.value->raw@, fact.inline_meta)
    } else {
        None
    }
}

/// A fact that gets a receipt: it normalizes to a number and has a byte range.
pub open spec fn issues_receipt(instance: InstanceDocument, fact: RawFact) -> bool {
    fact_number(instance, fact) is Some && fact.byte_range is Some
}

/// The positions, among the first `n` facts, of those that get receipts.
pub open spec fn issued(instance: InstanceDocument, n: int) -> Seq<int>
    decreases n,
{
    if n <= 0 {
        Seq::empty()
    } else {
        let prev = issued(instance, n - 1);
        if issues_receipt(instance, instance.facts@[n - 1]) {
            prev.push(n - 1)
        } else {
            prev
        }
    }
}

/// `r` is the stated receipt of fact `i` of `instance`.
pub open spec fn stated_receipt(
    r: Receipt,
    instance: InstanceDocument,
    i: int,
    doc_id: Seq<char>,
    artifact: SourceArtifact,
) -> bool {
    let f = instance.facts@[i];
    let l = r.evidence@[0].locator->Xbrl_0;
    &&& r.schema@ == SCHEMA_VERSION@
    &&& r.claim.value@ == canonical_text(fact_number(instance, f).unwrap())
    &&& r.claim.unit == f.unit_ref
    &&& r.claim.kind == ClaimKind::Stated
    &&& r.claim.doc_id@ == doc_id
    &&& r.evidence@.len() == 1
    &&& r.evidence@[0].source_artifact == artifact
    &&& l.concept@ == qname_display(f.name)
    &&& l.context_ref == f.context_ref
    &&& l.unit_ref == f.unit_ref
    &&& l.byte_range == f.byte_range
    &&& r.evidence@[0].extraction.engine@ == ENGINE@
    &&& r.derivation is None
    &&& r.attestation is None
    &&& r.receipt_id@ == receipt_id_of(r.claim, r.evidence@, r.derivation)
}

/// The canonical value of a normalization outcome matches the fact's number.
proof fn lemma_outcome_number(
    r: Result<NormalizedFact, XbrlError>,
    instance: InstanceDocument,
    doc_id: Seq<char>,
    f: RawFact,
)
    requires
        normalized_outcome(r, instance, doc_id, f),
    ensures
        (r matches Ok(n) && canonical_of(n.value) is Some) <==> fact_number(instance, f) is Some,
        fact_number(instance, f) matches Some(p) ==> (r matches Ok(n) && canonical_of(n.value)
            matches Some((text, Some(d))) && d.parts() == p && text == canonical_text(p)),
{
}

/// Builds a stated receipt for every fact of `instance` that normalizes to
/// a number and has a byte range, in document order; every other fact is
/// skipped, since a receipt must never be issued for evidence that cannot
/// be re-derived.
#[verifier::spinoff_prover]
pub fn build_receipts(instance: &InstanceDocument, doc_id: &str, artifact: &SourceArtifact) -> (r: Result<
    Vec<Receipt>,
    EvidenceError,
>)
    ensures
        r matches Ok(rs) && rs@.len() == issued(*instance, instance.facts@.len() as int).len() && forall|k: int|
            0 <= k < rs@.len() ==> stated_receipt(
                #[trigger] rs@[k],
                *instance,
                issued(*instance, instance.facts@.len() as int)[k],
                doc_id@,
                *artifact,
            ),
{
    let normalized = normalize_facts(instance, &NoLabels, doc_id);
    let mut receipts: Vec<Receipt> = Vec::new();
    let mut i: usize = 0;
    while i < instance.facts.len()
        invariant
            i <= instance.facts@.len(),
            normalized@.len() == instance.facts@.len(),
            forall|j: int|
                0 <= j < normalized@.len() ==> normalized_outcome(
                    #[trigger] normalized@[j],
                    *instance,
                    doc_id@,
                    instance.facts@[j],
                ),
            receipts@.len() == issued(*instance, i as int).len(),
            forall|k: int|
                0 <= k < receipts@.len() ==> stated_receipt(
                    #[trigger] receipts@[k],
                    *instance,
                    issued(*instance, i as int)[k],
                    doc_id@,
                    *artifact,
                ),
        decreases instance.facts@.len() - i,
    {
        let raw = &instance.facts[i];
        proof {
            lemma_outcome_number(normalized@[i as int], *instance, doc_id@, instance.facts@[i as int]);
        }
        let value = match &normalized[i] {
            Ok(n) => canonical_value(&n.value),
            Err(_) => None,
        };
        match (value, raw.byte_range) {
            (Some((value, _)), Some(_)) => {
                let claim = Claim {
                    value,
                    unit: clone_opt(&raw.unit_ref),
                    kind: ClaimKind::Stated,
                    doc_id: doc_id.to_owned(),
                };
                let evidence = vec![
                    Evidence {
                        source_artifact: artifact.clone(),
                        locator: Locator::Xbrl(
                            XbrlLocator {
                                concept: raw.name.to_string(),
                                context_ref: raw.context_ref.clone(),
                                unit_ref: clone_opt(&raw.unit_ref),
                                byte_range: raw.byte_range,
                            },
                        ),
                        extraction: Extraction { engine: ENGINE.to_owned() },
                    },
                ];
                let receipt_id = match receipt_id_for(&claim, evidence.as_slice(), &None) {
                    Ok(id) => id,
                    Err(e) => {
                        return Err(e);
                    },
                };
                let ghost before = receipts@;
                receipts.push(
                    Receipt {
                        schema: SCHEMA_VERSION.to_owned(),
                        receipt_id,
                        claim,
                        evidence,
                        derivation: None,
                        attestation: None,
                    },
                );
                proof {
                    assert forall|k: int| 0 <= k < receipts@.len() implies stated_receipt(
                        #[trigger] receipts@[k],
                        *instance,
                        issued(*instance, i + 1)[k],
                        doc_id@,
                        *artifact,
                    ) by {
                        if k < before.len() {
                            assert(receipts@[k] == before[k]);
                        }
                    }
                }
            },
            _ => {},
        }
        i += 1;
    }
    Ok(receipts)
}

// ---------------------------------------------------------------------------
// Source contexts
// ---------------------------------------------------------------------------

/// A parsed source document, read once to verify many receipts against it.
pub struct SourceContext {
    /// Hexadecimal SHA-256 of the source bytes.
    sha256: String,
    instance: InstanceDocument,
    /// For each fact, its canonical numeric value, when it has one.
    values: Vec<Option<(String, Option<Decimal>)>>,
}

impl SourceContext {
    /// Each fact has its value entry.
    #[verifier::type_invariant]
    spec fn entries_match(self) -> bool {
        ctx_ok(self)
    }

    /// The hexadecimal SHA-256 of the source bytes.
    pub closed spec fn hash_view(self) -> Seq<char> {
        self.sha256@
    }

    /// The instance read from the source.
    pub closed spec fn instance_view(self) -> InstanceDocument {
        self.instance
    }

    /// For each fact, its canonical numeric value, when it has one.
    pub closed spec fn values_view(self) -> Seq<Option<(String, Option<Decimal>)>> {
        self.values@
    }

    /// The hexadecimal SHA-256 of the source bytes.
    pub fn sha256(&self) -> (r: &str)
        ensures
            r@ == self.hash_view(),
    {
        self.sha256.as_str()
    }

    /// The instance read from the source.
    pub fn instance(&self) -> (r: &InstanceDocument)
        ensures
            *r == self.instance_view(),
    {
        &self.instance
    }

    /// For each fact, its canonical numeric value, when it has one.
    pub fn values(&self) -> (r: &[Option<(String, Option<Decimal>)>])
        ensures
            r@ == self.values_view(),
            r@.len() == self.instance_view().facts@.len(),
    {
        proof {
            use_type_invariant(self);
        }
        self.values.as_slice()
    }
}

/// A context's value entry agrees with the number its fact normalizes to.
pub open spec fn value_entry_ok(v: Option<(String, Option<Decimal>)>, p: Option<(bool, int, int)>) -> bool {
    match (v, p) {
        (Some((s, Some(d))), Some(q)) => s@ == canonical_text(q) && d.parts() == q,
        (None, None) => true,
        _ => false,
    }
}

/// `ctx` was read from `bytes`: it holds their hash, the instance read from
/// them, and the canonical value of each of its facts.
pub open spec fn loaded_from(ctx: SourceContext, bytes: Seq<u8>) -> bool {
    &&& ctx.hash_view() == hex_of(sha256_digest(bytes))
    &&& vstd::utf8::valid_utf8(bytes)
    &&& parsed_from(bytes, ctx.instance_view())
    &&& ctx_ok(ctx)
}

/// What every source context holds: a well-formed instance whose facts
/// have byte ranges of their own, and for each fact the canonical value of
/// the number it normalizes to, as well-formed decimal parts.
pub open spec fn ctx_ok(ctx: SourceContext) -> bool {
    &&& doc_wf(ctx.instance_view())
    &&& distinct_ranges(ctx.instance_view().facts@)
    &&& ctx.values_view().len() == ctx.instance_view().facts@.len()
    &&& forall|i: int|
        0 <= i < ctx.values_view().len() ==> value_entry_ok(
            #[trigger] ctx.values_view()[i],
            fact_number(ctx.instance_view(), ctx.instance_view().facts@[i]),
        )
    &&& forall|i: int|
        0 <= i < ctx.values_view().len() ==> (#[trigger] ctx.values_view()[i] matches Some((_, Some(d)))
            ==> well_formed_parts(d.parts()))
}

/// `r` is one of the receipts `build_receipts` gives for the instance of
/// `ctx`, with an artifact that records `ctx`'s hash.
pub open spec fn stated_from(ctx: SourceContext, r: Receipt) -> bool {
    exists|k: int, doc_id: Seq<char>, artifact: SourceArtifact|
        {
            &&& 0 <= k < issued(ctx.instance_view(), ctx.instance_view().facts@.len() as int).len()
            &&& #[trigger] stated_receipt(
                r,
                ctx.instance_view(),
                issued(ctx.instance_view(), ctx.instance_view().facts@.len() as int)[k],
                doc_id,
                artifact,
            )
            &&& artifact.sha256@ == ctx.hash_view()
        }
}

/// The message of an evidence error.
pub open spec fn evidence_error_text(e: EvidenceError) -> Option<Seq<char>> {
    match e {
        EvidenceError::Parse(m) => Some("source parse failed: "@ + m@),
        EvidenceError::Derivation(m) => Some("derivation failed: "@ + m@),
        EvidenceError::Signing(m) => Some("signing failed: "@ + m@),
        EvidenceError::Serialize(_) => None,
    }
}

/// The message of a serialization error (its `Display`).
#[verifier::external_body]
fn serde_json_message(e: &serde_json::Error) -> String {
    format!("{}", e)
}

fn joined(a: &str, b: &str) -> (r: String)
    ensures
        r@ == a@ + b@,
{
    let mut s = a.to_owned();
    s.append(b);
    s
}

impl EvidenceError {
    /// The error's message.
    pub fn to_string(&self) -> (r: String)
        ensures
            evidence_error_text(*self) matches Some(t) ==> r@ == t,
    {
        match self {
            EvidenceError::Parse(m) => joined("source parse failed: ", m.as_str()),
            EvidenceError::Serialize(e) => joined("receipt serialization failed: ", serde_json_message(e).as_str()),
            EvidenceError::Derivation(m) => joined("derivation failed: ", m.as_str()),
            EvidenceError::Signing(m) => joined("signing failed: ", m.as_str()),
        }
    }
}

impl SourceContext {
    /// Reads a source document: its hash, its instance and the canonical
    /// value of each fact. A document that does not parse is an error.
    pub fn load(source_bytes: &[u8]) -> (r: Result<SourceContext, EvidenceError>)
        ensures
            !vstd::utf8::valid_utf8(source_bytes@) ==> r matches Err(EvidenceError::Parse(_)),
            r matches Ok(ctx) ==> loaded_from(ctx, source_bytes@),
            r is Err ==> (r matches Err(EvidenceError::Parse(_))) && (!vstd::utf8::valid_utf8(source_bytes@)
                || parse_fails(source_bytes@)),
    {
        let instance = match parse_instance(source_bytes) {
            Ok(d) => d,
            Err(e) => {
                return Err(EvidenceError::Parse(e.to_string()));
            },
        };
        let normalized = normalize_facts(&instance, &NoLabels, "");
        let mut values: Vec<Option<(String, Option<Decimal>)>> = Vec::new();
        let mut i: usize = 0;
        while i < normalized.len()
            invariant
                i <= normalized@.len(),
                normalized@.len() == instance.facts@.len(),
                forall|j: int|
                    0 <= j < normalized@.len() ==> normalized_outcome(
                        #[trigger] normalized@[j],
                        instance,
                        ""@,
                        instance.facts@[j],
                    ),
                values@.len() == i,
                forall|j: int|
                    0 <= j < i ==> value_entry_ok(#[trigger] values@[j], fact_number(instance, instance.facts@[j])),
                forall|j: int|
                    0 <= j < i ==> (#[trigger] values@[j] matches Some((_, Some(d))) ==> well_formed_parts(
                        d.parts(),
                    )),
            decreases normalized@.len() - i,
        {
            proof {
                lemma_outcome_number(normalized@[i as int], instance, ""@, instance.facts@[i as int]);
            }
            let v = match &normalized[i] {
                Ok(n) => canonical_value(&n.value),
                Err(_) => None,
            };
            match &v {
                Some((_, Some(d))) => {
                    proof {
                        use_type_invariant(d);
                    }
                },
                _ => {},
            }
            values.push(v);
            i += 1;
        }
        Ok(SourceContext { sha256: sha256_hex(source_bytes), instance, values })
    }
}

/// Whether fact `f` answers to locator `l`: same displayed concept,
/// context and unit.
pub open spec fn answers(f: RawFact, l: XbrlLocator) -> bool {
    &&& qname_display(f.name) == l.concept@
    &&& f.context_ref@ == l.context_ref@
    &&& opt_view(f.unit_ref) == opt_view(l.unit_ref)
}

/// The positions, among the first `n` facts, of those answering `l`.
pub open spec fn candidates(facts: Seq<RawFact>, l: XbrlLocator, n: int) -> Seq<int>
    decreases n,
{
    if n <= 0 {
        Seq::empty()
    } else {
        let prev = candidates(facts, l, n - 1);
        if answers(facts[n - 1], l) {
            prev.push(n - 1)
        } else {
            prev
        }
    }
}

/// The positions in `cs` of facts with the locator's byte range.
pub open spec fn with_range(facts: Seq<RawFact>, l: XbrlLocator, cs: Seq<int>) -> Seq<int>
    decreases cs.len(),
{
    if cs.len() == 0 {
        Seq::empty()
    } else {
        let prev = with_range(facts, l, cs.drop_last());
        if facts[cs.last()].byte_range == l.byte_range {
            prev.push(cs.last())
        } else {
            prev
        }
    }
}

/// The facts a locator resolves to: those answering it, narrowed to the
/// ones with its byte range when several answer and some have it.
pub open spec fn located(facts: Seq<RawFact>, l: XbrlLocator) -> Seq<int> {
    let cs = candidates(facts, l, facts.len() as int);
    let exact = with_range(facts, l, cs);
    if cs.len() > 1 && l.byte_range is Some && exact.len() > 0 {
        exact
    } else {
        cs
    }
}

/// The values of positions as integers.
pub open spec fn ints(v: Seq<usize>) -> Seq<int> {
    v.map_values(|x: usize| x as int)
}

proof fn lemma_ints_push(v: Seq<usize>, x: usize)
    ensures
        ints(v.push(x)) == ints(v).push(x as int),
{
    assert(ints(v.push(x)) =~= ints(v).push(x as int));
}

proof fn lemma_candidates_bound(facts: Seq<RawFact>, l: XbrlLocator, n: int)
    ensures
        forall|k: int| 0 <= k < candidates(facts, l, n).len() ==> 0 <= #[trigger] candidates(facts, l, n)[k] < n,
    decreases n,
{
    if n > 0 {
        lemma_candidates_bound(facts, l, n - 1);
        let prev = candidates(facts, l, n - 1);
        assert forall|k: int| 0 <= k < candidates(facts, l, n).len() implies 0 <= #[trigger] candidates(
            facts,
            l,
            n,
        )[k] < n by {
            if k < prev.len() {
                assert(candidates(facts, l, n)[k] == prev[k]);
            }
        }
    }
}

impl SourceContext {
    /// The facts a locator resolves to, in document order.
    pub fn locate(&self, locator: &XbrlLocator) -> (r: Vec<usize>)
        ensures
            ints(r@) == located(self.instance_view().facts@, *locator),
            forall|k: int| 0 <= k < r@.len() ==> r@[k] < self.instance_view().facts@.len(),
    {
        let facts = &self.instance.facts;
        let mut cs: Vec<usize> = Vec::new();
        let mut i: usize = 0;
        while i < facts.len()
            invariant
                i <= facts@.len(),
                ints(cs@) == candidates(facts@, *locator, i as int),
            decreases facts@.len() - i,
        {
            let f = &facts[i];
            let concept = f.name.to_string();
            if str_eq(concept.as_str(), locator.concept.as_str()) && str_eq(
                f.context_ref.as_str(),
                locator.context_ref.as_str(),
            ) && opt_str_eq(&f.unit_ref, &locator.unit_ref) {
                proof {
                    lemma_ints_push(cs@, i);
                }
                cs.push(i);
            }
            i += 1;
        }
        proof {
            lemma_candidates_bound(facts@, *locator, facts@.len() as int);
        }
        assert forall|k: int| 0 <= k < cs@.len() implies cs@[k] < facts@.len() by {
            assert(ints(cs@)[k] == cs@[k] as int);
        }
        if cs.len() > 1 && locator.byte_range.is_some() {
            let mut exact: Vec<usize> = Vec::new();
            let mut j: usize = 0;
            while j < cs.len()
                invariant
                    j <= cs@.len(),
                    ints(cs@) == candidates(facts@, *locator, facts@.len() as int),
                    forall|k: int| 0 <= k < cs@.len() ==> cs@[k] < facts@.len(),
                    ints(exact@) == with_range(facts@, *locator, ints(cs@).take(j as int)),
                    forall|k: int| 0 <= k < exact@.len() ==> exact@[k] < facts@.len(),
                decreases cs@.len() - j,
            {
                proof {
                    assert(ints(cs@).take(j + 1).drop_last() =~= ints(cs@).take(j as int));
                    assert(ints(cs@).take(j + 1).last() == cs@[j as int] as int);
                }
                if facts[cs[j]].byte_range == locator.byte_range {
                    proof {
                        lemma_ints_push(exact@, cs@[j as int]);
                    }
                    exact.push(cs[j]);
                }
                j += 1;
            }
            proof {
                assert(ints(cs@).take(cs@.len() as int) =~= ints(cs@));
            }
            if exact.len() > 0 {
                return exact;
            }
        }
        cs
    }
}

// ---------------------------------------------------------------------------
// Verification
// ---------------------------------------------------------------------------

/// A check as (name, pass, detail).
pub open spec fn check_view(c: Check) -> (CheckName, bool, Option<Seq<char>>) {
    (c.name, c.pass, opt_view(c.detail))
}

/// The checks as (name, pass, detail).
pub open spec fn checks_view(v: Seq<Check>) -> Seq<(CheckName, bool, Option<Seq<char>>)> {
    v.map_values(|c: Check| check_view(c))
}

/// A check with its detail given only when it fails.
pub open spec fn check_of(name: CheckName, pass: bool, detail: Seq<char>) -> (CheckName, bool, Option<Seq<char>>) {
    (name, pass, if pass {
        None
    } else {
        Some(detail)
    })
}

/// The receipt carries the id of its own body under the current schema.
pub open spec fn id_ok(r: Receipt) -> bool {
    r.receipt_id@ == receipt_id_of(r.claim, r.evidence@, r.derivation) && r.schema@ == SCHEMA_VERSION@
}

/// How an optional byte range is shown (`Debug` of `Option<(u64, u64)>`).
pub open spec fn debug_range(r: Option<(u64, u64)>) -> Seq<char> {
    match r {
        Some((a, b)) => "Some(("@ + dec_string(a as nat) + ", "@ + dec_string(b as nat) + "))"@,
        None => "None"@,
    }
}

/// Numeric equality of decimals given as parts.
pub open spec fn parts_same(p: (bool, int, int), q: (bool, int, int)) -> bool {
    p.1 * pow10(q.2 as nat) == q.1 * pow10(p.2 as nat)
}

/// The value check: the claimed value must equal the located fact's value
/// (as decimals when both parse, else as text).
pub open spec fn value_check(v: Option<(String, Option<Decimal>)>, claim: Claim) -> (CheckName, bool, Option<Seq<char>>) {
    match v {
        Some((canon, dec)) => {
            let pass = match (dec, decimal_from_str(claim.value@)) {
                (Some(a), Some(b)) => parts_same(a.parts(), b),
                _ => canon@ == claim.value@,
            };
            check_of(CheckName::ValueMatch, pass, "claimed "@ + claim.value@ + ", source has "@ + canon@)
        },
        None => (CheckName::ValueMatch, false, Some("located fact has no re-derivable numeric value"@)),
    }
}

/// The attestation verifies: Ed25519, with a 32-byte public key and a
/// 64-byte signature in hexadecimal that the key accepts over the UTF-8
/// canonical body.
pub open spec fn attestation_valid(r: Receipt) -> bool {
    let a = r.attestation.unwrap();
    &&& a.alg@ == "ed25519"@
    &&& match (bytes_of_hex(a.public_key@), bytes_of_hex(a.sig@)) {
        (Some(pk), Some(sg)) => pk.len() == 32 && sg.len() == 64 && ed25519_accepts(
            pk,
            encode_utf8(canonical_body_of(r.claim, r.evidence@, r.derivation)),
            sg,
        ),
        _ => false,
    }
}

/// The attestation check, present when the receipt is signed.
pub open spec fn attestation_checks(r: Receipt) -> Seq<(CheckName, bool, Option<Seq<char>>)> {
    match r.attestation {
        Some(_) => seq![
            check_of(CheckName::Attestation, attestation_valid(r), "signature invalid over canonical body"@),
        ],
        None => Seq::empty(),
    }
}

/// The checks of a stated receipt against a source: its id; exactly one
/// evidence item; for the first item, the artifact hash and that the
/// locator resolves to exactly one fact; for the first fact it resolves
/// to, the byte range and the value; then the attestation, if signed.
#[verifier::opaque]
pub open spec fn source_checks(ctx: SourceContext, r: Receipt) -> Seq<(CheckName, bool, Option<Seq<char>>)> {
    let n = r.evidence@.len();
    let head = seq![
        check_of(CheckName::ReceiptId, id_ok(r), "receipt body does not hash to receipt_id"@),
        check_of(CheckName::EvidenceShape, n == 1, dec_string(n) + " evidence items, expected exactly 1"@),
    ];
    let body = if n > 0 {
        let e = r.evidence@[0];
        let l = e.locator->Xbrl_0;
        let found = located(ctx.instance_view().facts@, l);
        let hash = check_of(
            CheckName::ArtifactHash,
            ctx.hash_view() == e.source_artifact.sha256@,
            "expected "@ + e.source_artifact.sha256@ + ", got "@ + ctx.hash_view(),
        );
        let locate = check_of(
            CheckName::Locate,
            found.len() == 1,
            "matched "@ + dec_string(found.len()) + " facts, expected exactly 1"@,
        );
        let tail = if found.len() > 0 {
            let idx = found[0];
            let fact = ctx.instance_view().facts@[idx];
            seq![
                check_of(
                    CheckName::ByteRange,
                    l.byte_range is Some && fact.byte_range == l.byte_range,
                    "recorded "@ + debug_range(l.byte_range) + ", re-parsed "@ + debug_range(fact.byte_range),
                ),
                value_check(ctx.values_view()[idx], r.claim),
            ]
        } else {
            Seq::empty()
        };
        seq![hash, locate] + tail
    } else {
        Seq::empty()
    };
    head + body + attestation_checks(r)
}

/// Verified exactly when every check passes.
pub open spec fn status_of(checks: Seq<Check>) -> ValidationStatus {
    if forall|i: int| 0 <= i < checks.len() ==> #[trigger] checks[i].pass {
        ValidationStatus::Verified
    } else {
        ValidationStatus::Failed
    }
}

fn make_check(name: CheckName, pass: bool, detail: String) -> (c: Check)
    ensures
        check_view(c) == check_of(name, pass, detail@),
{
    Check { name, pass, detail: if pass {
        None
    } else {
        Some(detail)
    } }
}

fn push_check(checks: &mut Vec<Check>, c: Check)
    ensures
        checks_view(final(checks)@) == checks_view(old(checks)@).push(check_view(c)),
{
    checks.push(c);
    assert(checks_view(checks@) =~= checks_view(old(checks)@).push(check_view(c)));
}

fn range_text(r: Option<(u64, u64)>) -> (s: String)
    ensures
        s@ == debug_range(r),
{
    match r {
        Some((a, b)) => {
            let t = joined("Some((", u64_to_string(a).as_str());
            let t = joined(t.as_str(), ", ");
            let t = joined(t.as_str(), u64_to_string(b).as_str());
            joined(t.as_str(), "))")
        },
        None => "None".to_owned(),
    }
}

fn all_pass(checks: &Vec<Check>) -> (s: ValidationStatus)
    ensures
        s == status_of(checks@),
{
    let mut i: usize = 0;
    while i < checks.len()
        invariant
            i <= checks@.len(),
            forall|j: int| 0 <= j < i ==> #[trigger] checks@[j].pass,
        decreases checks@.len() - i,
    {
        if !checks[i].pass {
            return ValidationStatus::Failed;
        }
        i += 1;
    }
    ValidationStatus::Verified
}

/// Whether a receipt's id is the hash of its body under the current schema.
fn receipt_id_matches(receipt: &Receipt) -> (ok: bool)
    ensures
        ok == id_ok(*receipt),
{
    match receipt_id_for(&receipt.claim, receipt.evidence.as_slice(), &receipt.derivation) {
        Ok(expected) => str_eq(expected.as_str(), receipt.receipt_id.as_str()) && str_eq(
            receipt.schema.as_str(),
            SCHEMA_VERSION,
        ),
        Err(_) => false,
    }
}

fn attestation_pass(receipt: &Receipt) -> (ok: bool)
    requires
        receipt.attestation is Some,
    ensures
        ok == attestation_valid(*receipt),
{
    let att = match &receipt.attestation {
        Some(a) => a,
        None => {
            return false;
        },
    };
    if !str_eq(att.alg.as_str(), "ed25519") {
        return false;
    }
    let pk = match hex_decode(att.public_key.as_str()) {
        Some(v) => v,
        None => {
            return false;
        },
    };
    let sg = match hex_decode(att.sig.as_str()) {
        Some(v) => v,
        None => {
            return false;
        },
    };
    if pk.len() != 32 || sg.len() != 64 {
        return false;
    }
    let body = encode_body(SCHEMA_VERSION, &receipt.claim, receipt.evidence.as_slice(), &receipt.derivation);
    ed25519_verify(pk.as_slice(), body.as_str().as_bytes(), sg.as_slice())
}

/// The attestation check, or `None` when the receipt is unsigned.
pub fn attestation_check(receipt: &Receipt) -> (r: Option<Check>)
    ensures
        match r {
            Some(c) => receipt.attestation is Some && seq![check_view(c)] == attestation_checks(*receipt),
            None => receipt.attestation is None,
        },
{
    if receipt.attestation.is_none() {
        return None;
    }
    let pass = attestation_pass(receipt);
    Some(make_check(CheckName::Attestation, pass, "signature invalid over canonical body".to_owned()))
}

/// `report` is the verification of `receipt` against `ctx`.
pub open spec fn report_for(ctx: SourceContext, receipt: Receipt, report: VerificationReport) -> bool {
    &&& report.receipt_id == receipt.receipt_id
    &&& checks_view(report.checks@) == source_checks(ctx, receipt)
    &&& report.status == status_of(report.checks@)
}

/// Verifies a stated receipt against a prepared source. Every check runs
/// even after an earlier failure, so the report shows every failure.
pub fn verify_in(ctx: &SourceContext, receipt: &Receipt) -> (report: VerificationReport)
    ensures
        report_for(*ctx, *receipt, report),
        stated_from(*ctx, *receipt) ==> report.status == ValidationStatus::Verified,
{
    proof {
        use_type_invariant(ctx);
    }
    let claimed = Decimal::parse(receipt.claim.value.as_str());
    let mut checks: Vec<Check> = Vec::new();
    assert(checks_view(checks@) =~= Seq::<(CheckName, bool, Option<Seq<char>>)>::empty());
    let id_pass = receipt_id_matches(receipt);
    push_check(
        &mut checks,
        make_check(CheckName::ReceiptId, id_pass, "receipt body does not hash to receipt_id".to_owned()),
    );
    let n = receipt.evidence.len();
    let shape_detail = joined(u64_to_string(n as u64).as_str(), " evidence items, expected exactly 1");
    push_check(&mut checks, make_check(CheckName::EvidenceShape, n == 1, shape_detail));
    if n > 0 {
        let evidence = &receipt.evidence[0];
        let locator = evidence.locator.xbrl();
        let hash_pass = str_eq(ctx.sha256.as_str(), evidence.source_artifact.sha256.as_str());
        let t = joined("expected ", evidence.source_artifact.sha256.as_str());
        let t = joined(t.as_str(), ", got ");
        let hash_detail = joined(t.as_str(), ctx.sha256.as_str());
        push_check(&mut checks, make_check(CheckName::ArtifactHash, hash_pass, hash_detail));
        let found = ctx.locate(locator);
        let t = joined("matched ", u64_to_string(found.len() as u64).as_str());
        let locate_detail = joined(t.as_str(), " facts, expected exactly 1");
        push_check(&mut checks, make_check(CheckName::Locate, found.len() == 1, locate_detail));
        if found.len() > 0 {
            let idx = found[0];
            assert(ints(found@)[0] == idx as int);
            let fact = &ctx.instance.facts[idx];
            let range_pass = locator.byte_range.is_some() && fact.byte_range == locator.byte_range;
            let t = joined("recorded ", range_text(locator.byte_range).as_str());
            let t = joined(t.as_str(), ", re-parsed ");
            let range_detail = joined(t.as_str(), range_text(fact.byte_range).as_str());
            push_check(&mut checks, make_check(CheckName::ByteRange, range_pass, range_detail));
            let value = match &ctx.values[idx] {
                Some((canon, dec)) => {
                    let pass = match (dec, &claimed) {
                        (Some(a), Some(b)) => a.value_eq(b),
                        _ => str_eq(canon.as_str(), receipt.claim.value.as_str()),
                    };
                    let t = joined("claimed ", receipt.claim.value.as_str());
                    let t = joined(t.as_str(), ", source has ");
                    let detail = joined(t.as_str(), canon.as_str());
                    make_check(CheckName::ValueMatch, pass, detail)
                },
                None => Check {
                    name: CheckName::ValueMatch,
                    pass: false,
                    detail: Some("located fact has no re-derivable numeric value".to_owned()),
                },
            };
            push_check(&mut checks, value);
        }
    }
    match attestation_check(receipt) {
        Some(c) => push_check(&mut checks, c),
        None => {},
    }
    proof {
        reveal(source_checks);
        assert(checks_view(checks@) =~= source_checks(*ctx, *receipt));
    }
    let status = all_pass(&checks);
    let report = VerificationReport { receipt_id: receipt.receipt_id.clone(), status, checks };
    proof {
        if stated_from(*ctx, *receipt) {
            lemma_stated_verified(*ctx, *receipt, claimed, report);
        }
    }
    report
}

/// A receipt built from a context's instance, checked against that context
/// with the claimed text parsed as `claimed`, is verified: the claimed text
/// is the canonical text of the fact's number, which the decimal parser
/// reads back as that number.
proof fn lemma_stated_verified(ctx: SourceContext, receipt: Receipt, claimed: Option<Decimal>, report: VerificationReport)
    requires
        ctx_ok(ctx),
        stated_from(ctx, receipt),
        report_for(ctx, receipt, report),
        match claimed {
            Some(d) => decimal_from_str(receipt.claim.value@) == Some(d.parts()),
            None => decimal_from_str(receipt.claim.value@) is None,
        },
        forall|q: (bool, nat, nat)|
            #[trigger] display(q.0, q.1, q.2) == receipt.claim.value@ && q.1 <= max_magnitude() && q.2 <= 28 ==> (
            claimed matches Some(d) && same_parts(d.parts(), signed_parts(q.0, q.1, q.2))),
    ensures
        report.status == ValidationStatus::Verified,
{
    let inst = ctx.instance_view();
    let n = inst.facts@.len() as int;
    let (k, doc_id, artifact) = choose|k: int, doc_id: Seq<char>, artifact: SourceArtifact|
        {
            &&& 0 <= k < issued(inst, n).len()
            &&& #[trigger] stated_receipt(receipt, inst, issued(inst, n)[k], doc_id, artifact)
            &&& artifact.sha256@ == ctx.hash_view()
        };
    lemma_issued(inst, n);
    let i = issued(inst, n)[k];
    let q = fact_number(inst, inst.facts@[i]).unwrap();
    assert(value_entry_ok(ctx.values_view()[i], fact_number(inst, inst.facts@[i])));
    assert(ctx.values_view()[i] matches Some((_, Some(d))) ==> well_formed_parts(d.parts()));
    assert(well_formed_parts(q));
    lemma_normalized_same(q);
    let r = normalize_parts(q.0, abs_int(q.1), q.2 as nat);
    assert(display(r.0, r.1, r.2) == receipt.claim.value@);
    let c = claimed.unwrap().parts();
    lemma_same_parts_trans(c, signed_parts(r.0, r.1, r.2), q);
    assert(reads_back(receipt.claim.value@, q));
    lemma_stated_receipt_verifies(ctx, receipt, k, doc_id, artifact);
}

/// Verifies one receipt against source bytes: a source that does not parse
/// fails the `Locate` check; otherwise the receipt is verified against the
/// source read from the bytes.
pub fn verify(receipt: &Receipt, source_bytes: &[u8]) -> (report: VerificationReport)
    ensures
        report.receipt_id == receipt.receipt_id,
        ({
            ||| exists|ctx: SourceContext|
                #[trigger] loaded_from(ctx, source_bytes@) && report_for(ctx, *receipt, report) && (stated_from(ctx, *receipt)
                    ==> report.status == ValidationStatus::Verified)
            ||| (report.status == ValidationStatus::Failed && report.checks@.len() == 1
                && report.checks@[0].name == CheckName::Locate && !report.checks@[0].pass && (
            !vstd::utf8::valid_utf8(source_bytes@) || parse_fails(source_bytes@)))
        }),
        !vstd::utf8::valid_utf8(source_bytes@) ==> (report.status == ValidationStatus::Failed
            && report.checks@.len() == 1 && report.checks@[0].name == CheckName::Locate),
{
    match SourceContext::load(source_bytes) {
        Ok(ctx) => {
            let report = verify_in(&ctx, receipt);
            assert(loaded_from(ctx, source_bytes@) && report_for(ctx, *receipt, report) && (stated_from(ctx, *receipt)
                ==> report.status == ValidationStatus::Verified));
            report
        },
        Err(e) => {
            let detail = joined("source re-parse failed: ", e.to_string().as_str());
            let checks = vec![Check { name: CheckName::Locate, pass: false, detail: Some(detail) }];
            VerificationReport { receipt_id: receipt.receipt_id.clone(), status: ValidationStatus::Failed, checks }
        },
    }
}

// ---------------------------------------------------------------------------
// Derived receipts
// ---------------------------------------------------------------------------

/// Every parent's claimed value parses as a decimal.
pub open spec fn parents_parse(ps: Seq<(&Receipt, &str)>) -> bool {
    forall|i: int| 0 <= i < ps.len() ==> (#[trigger] decimal_from_str(ps[i].0.claim.value@)) is Some
}

/// The parents' claimed values as decimals.
pub open spec fn parent_values(ps: Seq<(&Receipt, &str)>) -> Seq<(bool, int, int)> {
    ps.map_values(|p: (&Receipt, &str)| decimal_from_str(p.0.claim.value@).unwrap())
}

/// How a decimal given as parts is displayed.
pub open spec fn display_parts(p: (bool, int, int)) -> Seq<char> {
    display(p.0, abs_int(p.1), p.2 as nat)
}

/// `r` is the derived receipt of `op` over `ps` with value `p`: its claim,
/// the lineage of each parent (id, value consumed, role) and its own id.
pub open spec fn derived_receipt(
    r: Receipt,
    op: Operation,
    ps: Seq<(&Receipt, &str)>,
    doc_id: Seq<char>,
    p: (bool, int, int),
) -> bool {
    &&& r.schema@ == SCHEMA_VERSION@
    &&& r.claim.value@ == display_parts(p)
    &&& r.claim.unit is None
    &&& r.claim.kind == ClaimKind::Derived
    &&& r.claim.doc_id@ == doc_id
    &&& r.evidence@.len() == 0
    &&& r.derivation matches Some(d) && d.operation == op && d.inputs@.len() == ps.len() && forall|i: int|
        0 <= i < ps.len() ==> {
            &&& (#[trigger] d.inputs@[i]).receipt_id == ps[i].0.receipt_id
            &&& d.inputs@[i].value == ps[i].0.claim.value
            &&& d.inputs@[i].role@ == ps[i].1@
        }
    &&& r.attestation is None
    &&& r.receipt_id@ == receipt_id_of(r.claim, r.evidence@, r.derivation)
}

/// Builds a derived receipt: the operation is applied to the parents'
/// claimed values in the given order, and each parent is recorded with the
/// value consumed and its role.
pub fn build_derived_receipt(operation: Operation, parents: &[(&Receipt, &str)], doc_id: &str) -> (r: Result<
    Receipt,
    EvidenceError,
>)
    ensures
        !parents_parse(parents@) ==> (r matches Err(EvidenceError::Derivation(m)) && starts_with(
            m@,
            "parent value not decimal: "@,
        )),
        parents_parse(parents@) ==> match operation_result(operation, parent_values(parents@)) {
            Err(msg) => r matches Err(EvidenceError::Derivation(m)) && m@ == msg,
            Ok(p) => r matches Ok(rc) && derived_receipt(rc, operation, parents@, doc_id@, p) && well_formed_parts(p),
        },
{
    let mut values: Vec<Decimal> = Vec::new();
    let mut i: usize = 0;
    while i < parents.len()
        invariant
            i <= parents@.len(),
            values@.len() == i,
            forall|j: int| 0 <= j < i ==> (#[trigger] decimal_from_str(parents@[j].0.claim.value@)) is Some,
            forall|j: int| 0 <= j < i ==> decimal_from_str(parents@[j].0.claim.value@) == Some(#[trigger] values@[j].parts()),
        decreases parents@.len() - i,
    {
        let v = parents[i].0.claim.value.as_str();
        match Decimal::parse(v) {
            Some(d) => values.push(d),
            None => {
                let m = joined("parent value not decimal: ", parse_error_message(v).as_str());
                assert(m@.subrange(0, "parent value not decimal: "@.len() as int) =~= "parent value not decimal: "@);
                return Err(EvidenceError::Derivation(m));
            },
        }
        i += 1;
    }
    assert(parts_of(values@) =~= parent_values(parents@));
    let result = operation.apply(values.as_slice())?;
    proof {
        use_type_invariant(&result);
    }
    let claim = Claim {
        value: result.to_string(),
        unit: None,
        kind: ClaimKind::Derived,
        doc_id: doc_id.to_owned(),
    };
    assert(abs_int(result.signed()) == result.magnitude());
    let mut inputs: Vec<DerivationInput> = Vec::new();
    let mut j: usize = 0;
    while j < parents.len()
        invariant
            j <= parents@.len(),
            inputs@.len() == j,
            forall|k: int|
                0 <= k < j ==> {
                    &&& (#[trigger] inputs@[k]).receipt_id == parents@[k].0.receipt_id
                    &&& inputs@[k].value == parents@[k].0.claim.value
                    &&& inputs@[k].role@ == parents@[k].1@
                },
        decreases parents@.len() - j,
    {
        let (p, role) = parents[j];
        inputs.push(
            DerivationInput {
                receipt_id: p.receipt_id.clone(),
                value: p.claim.value.clone(),
                role: role.to_owned(),
            },
        );
        j += 1;
    }
    let derivation = Some(Derivation { operation, inputs });
    let no_evidence: Vec<Evidence> = Vec::new();
    let receipt_id = receipt_id_for(&claim, no_evidence.as_slice(), &derivation)?;
    Ok(
        Receipt {
            schema: SCHEMA_VERSION.to_owned(),
            receipt_id,
            claim,
            evidence: no_evidence,
            derivation,
            attestation: None,
        },
    )
}

/// The parent registered under `id` (the latest registration wins).
pub open spec fn parent_lookup(ps: Seq<(String, &Receipt)>, id: Seq<char>) -> Option<Receipt>
    decreases ps.len(),
{
    if ps.len() == 0 {
        None
    } else if ps.last().0@ == id {
        Some(*ps.last().1)
    } else {
        parent_lookup(ps.drop_last(), id)
    }
}

/// What is wrong with a derivation input, if anything: an unknown parent,
/// a parent whose id is not the hash of its body, or a consumed value that
/// is not the parent's claimed value.
pub open spec fn input_failure(ps: Seq<(String, &Receipt)>, i: DerivationInput) -> Option<Seq<char>> {
    match parent_lookup(ps, i.receipt_id@) {
        None => Some(i.receipt_id@ + ": unknown parent"@),
        Some(p) => if p.receipt_id@ != receipt_id_of(p.claim, p.evidence@, p.derivation) {
            Some(i.receipt_id@ + ": parent fails integrity"@)
        } else if p.claim.value@ != i.value@ {
            Some(i.receipt_id@ + ": consumed "@ + i.value@ + " but parent claims "@ + p.claim.value@)
        } else {
            None
        },
    }
}

/// The failures of the inputs, in order.
pub open spec fn input_failures(ps: Seq<(String, &Receipt)>, inputs: Seq<DerivationInput>) -> Seq<Seq<char>>
    decreases inputs.len(),
{
    if inputs.len() == 0 {
        Seq::empty()
    } else {
        let prev = input_failures(ps, inputs.drop_last());
        match input_failure(ps, inputs.last()) {
            Some(f) => prev.push(f),
            None => prev,
        }
    }
}

/// The consumed values that parse as decimals, in order.
pub open spec fn consumed_values(inputs: Seq<DerivationInput>) -> Seq<(bool, int, int)>
    decreases inputs.len(),
{
    if inputs.len() == 0 {
        Seq::empty()
    } else {
        let prev = consumed_values(inputs.drop_last());
        match decimal_from_str(inputs.last().value@) {
            Some(v) => prev.push(v),
            None => prev,
        }
    }
}

/// Messages separated by `"; "`.
pub open spec fn join_messages(items: Seq<Seq<char>>) -> Seq<char>
    decreases items.len(),
{
    if items.len() == 0 {
        Seq::empty()
    } else if items.len() == 1 {
        items[0]
    } else {
        join_messages(items.drop_last()) + "; "@ + items.last()
    }
}

/// The recomputation check: the operation over the consumed values must
/// give the claimed value.
pub open spec fn recompute_check(d: Derivation, claim: Claim) -> (CheckName, bool, Option<Seq<char>>) {
    match operation_result(d.operation, consumed_values(d.inputs@)) {
        Ok(p) => check_of(
            CheckName::Recompute,
            decimal_from_str(claim.value@) matches Some(c) && parts_same(c, p),
            "recomputed "@ + display_parts(p) + ", claimed "@ + claim.value@,
        ),
        Err(msg) => (CheckName::Recompute, false, Some("recompute failed: "@ + ("derivation failed: "@ + msg))),
    }
}

/// The checks of a derived receipt: its id; its shape (derived, no
/// evidence, inputs present); the resolution of its inputs and the
/// recomputation; then the attestation, if signed.
#[verifier::opaque]
pub open spec fn derived_checks(r: Receipt, ps: Seq<(String, &Receipt)>) -> Seq<(CheckName, bool, Option<Seq<char>>)> {
    let shape_ok = r.claim.kind == ClaimKind::Derived && r.evidence@.len() == 0 && (r.derivation matches Some(
        d,
    ) && d.inputs@.len() > 0);
    let head = seq![
        check_of(CheckName::ReceiptId, id_ok(r), "receipt body does not hash to receipt_id"@),
        check_of(
            CheckName::EvidenceShape,
            shape_ok,
            "derived receipt must have kind=derived, empty evidence, non-empty derivation"@,
        ),
    ];
    let body = match r.derivation {
        Some(d) => {
            let fs = input_failures(ps, d.inputs@);
            seq![check_of(CheckName::InputResolution, fs.len() == 0, join_messages(fs)), recompute_check(d, r.claim)]
        },
        None => Seq::empty(),
    };
    head + body + attestation_checks(r)
}

fn find_parent<'a>(parents: &[(String, &'a Receipt)], id: &str) -> (r: Option<&'a Receipt>)
    ensures
        match r {
            Some(p) => parent_lookup(parents@, id@) == Some(*p),
            None => parent_lookup(parents@, id@) is None,
        },
{
    let mut i: usize = parents.len();
    assert(parents@.take(i as int) =~= parents@);
    while i > 0
        invariant
            i <= parents@.len(),
            parent_lookup(parents@, id@) == parent_lookup(parents@.take(i as int), id@),
        decreases i,
    {
        proof {
            assert(parents@.take(i as int).drop_last() =~= parents@.take(i - 1));
            assert(parents@.take(i as int).last() == parents@[i - 1]);
        }
        if str_eq(parents[i - 1].0.as_str(), id) {
            return Some(parents[i - 1].1);
        }
        i -= 1;
    }
    None
}

fn join_failures(items: &Vec<String>) -> (r: String)
    ensures
        r@ == join_messages(items@.map_values(|s: String| s@)),
{
    let ghost views = items@.map_values(|s: String| s@);
    let mut out = String::new();
    let mut i: usize = 0;
    while i < items.len()
        invariant
            i <= items@.len(),
            views == items@.map_values(|s: String| s@),
            out@ == join_messages(views.take(i as int)),
        decreases items@.len() - i,
    {
        proof {
            assert(views.take(i + 1).drop_last() =~= views.take(i as int));
        }
        if i > 0 {
            out.append("; ");
        }
        out.append(items[i].as_str());
        proof {
            if i == 0 {
                assert(views.take(1) =~= seq![items@[0]@]);
                assert(out@ == Seq::<char>::empty() + items@[0]@);
            }
        }
        i += 1;
    }
    assert(views.take(items@.len() as int) =~= views);
    out
}

fn input_failure_of(parents: &[(String, &Receipt)], input: &DerivationInput) -> (r: Option<String>)
    ensures
        opt_view(r) == input_failure(parents@, *input),
{
    match find_parent(parents, input.receipt_id.as_str()) {
        None => Some(joined(input.receipt_id.as_str(), ": unknown parent")),
        Some(parent) => {
            let parent_ok = match receipt_id_for(&parent.claim, parent.evidence.as_slice(), &parent.derivation) {
                Ok(expected) => str_eq(expected.as_str(), parent.receipt_id.as_str()),
                Err(_) => false,
            };
            if !parent_ok {
                Some(joined(input.receipt_id.as_str(), ": parent fails integrity"))
            } else if !str_eq(parent.claim.value.as_str(), input.value.as_str()) {
                let t = joined(input.receipt_id.as_str(), ": consumed ");
                let t = joined(t.as_str(), input.value.as_str());
                let t = joined(t.as_str(), " but parent claims ");
                Some(joined(t.as_str(), parent.claim.value.as_str()))
            } else {
                None
            }
        },
    }
}

/// The failures of a derivation's inputs and the consumed values that parse.
fn resolve_inputs(derivation: &Derivation, parents: &[(String, &Receipt)]) -> (r: (Vec<String>, Vec<Decimal>))
    ensures
        r.0@.map_values(|s: String| s@) == input_failures(parents@, derivation.inputs@),
        parts_of(r.1@) == consumed_values(derivation.inputs@),
{
    let mut failures: Vec<String> = Vec::new();
    let mut values: Vec<Decimal> = Vec::new();
    let mut i: usize = 0;
    while i < derivation.inputs.len()
        invariant
            i <= derivation.inputs@.len(),
            failures@.map_values(|s: String| s@) == input_failures(parents@, derivation.inputs@.take(i as int)),
            parts_of(values@) == consumed_values(derivation.inputs@.take(i as int)),
        decreases derivation.inputs@.len() - i,
    {
        let input = &derivation.inputs[i];
        proof {
            assert(derivation.inputs@.take(i + 1).drop_last() =~= derivation.inputs@.take(i as int));
            assert(derivation.inputs@.take(i + 1).last() == derivation.inputs@[i as int]);
        }
        match input_failure_of(parents, input) {
            Some(f) => {
                let ghost before = failures@;
                failures.push(f);
                assert(failures@.map_values(|s: String| s@) =~= before.map_values(|s: String| s@).push(f@));
            },
            None => {},
        }
        match Decimal::parse(input.value.as_str()) {
            Some(v) => {
                let ghost before = values@;
                values.push(v);
                assert(parts_of(values@) =~= parts_of(before).push(v.parts()));
            },
            None => {},
        }
        i += 1;
    }
    proof {
        assert(derivation.inputs@.take(derivation.inputs@.len() as int) =~= derivation.inputs@);
    }
    (failures, values)
}

/// The input-resolution and recomputation checks of a derivation.
fn derivation_checks(
    derivation: &Derivation,
    claim: &Claim,
    claimed: &Option<Decimal>,
    parents: &[(String, &Receipt)],
) -> (r: (Check, Check))
    requires
        match *claimed {
            Some(d) => decimal_from_str(claim.value@) == Some(d.parts()),
            None => decimal_from_str(claim.value@) is None,
        },
    ensures
        check_view(r.0) == check_of(
            CheckName::InputResolution,
            input_failures(parents@, derivation.inputs@).len() == 0,
            join_messages(input_failures(parents@, derivation.inputs@)),
        ),
        check_view(r.1) == recompute_check(*derivation, *claim),
{
    let (failures, values) = resolve_inputs(derivation, parents);
    let res_pass = failures.len() == 0;
    let resolution = make_check(CheckName::InputResolution, res_pass, join_failures(&failures));
    let recompute = match derivation.operation.apply(values.as_slice()) {
        Ok(v) => {
            let pass = match claimed {
                Some(c) => c.value_eq(&v),
                None => false,
            };
            assert(abs_int(v.signed()) == v.magnitude());
            let t = joined("recomputed ", v.to_string().as_str());
            let t = joined(t.as_str(), ", claimed ");
            make_check(CheckName::Recompute, pass, joined(t.as_str(), claim.value.as_str()))
        },
        Err(e) => Check {
            name: CheckName::Recompute,
            pass: false,
            detail: Some(joined("recompute failed: ", e.to_string().as_str())),
        },
    };
    (resolution, recompute)
}

/// Verifies a derived receipt against its parents: parent resolution,
/// parent self-consistency and recomputation. The chain to primary sources
/// is completed by verifying each stated parent with `verify_in`.
#[verifier::spinoff_prover]
pub fn verify_derived(receipt: &Receipt, parents: &[(String, &Receipt)]) -> (report: VerificationReport)
    ensures
        report.receipt_id == receipt.receipt_id,
        checks_view(report.checks@) == derived_checks(*receipt, parents@),
        report.status == status_of(report.checks@),
        derived_from(*receipt, parents@) ==> report.status == ValidationStatus::Verified,
{
    let claimed = Decimal::parse(receipt.claim.value.as_str());
    let mut checks: Vec<Check> = Vec::new();
    assert(checks_view(checks@) =~= Seq::<(CheckName, bool, Option<Seq<char>>)>::empty());
    let id_pass = receipt_id_matches(receipt);
    push_check(
        &mut checks,
        make_check(CheckName::ReceiptId, id_pass, "receipt body does not hash to receipt_id".to_owned()),
    );
    let shape_pass = receipt.claim.kind == ClaimKind::Derived && receipt.evidence.len() == 0 && match &receipt.derivation {
        Some(d) => d.inputs.len() > 0,
        None => false,
    };
    push_check(
        &mut checks,
        make_check(
            CheckName::EvidenceShape,
            shape_pass,
            "derived receipt must have kind=derived, empty evidence, non-empty derivation".to_owned(),
        ),
    );
    if let Some(derivation) = &receipt.derivation {
        let (a, b) = derivation_checks(derivation, &receipt.claim, &claimed, parents);
        push_check(&mut checks, a);
        push_check(&mut checks, b);
    }
    match attestation_check(receipt) {
        Some(c) => push_check(&mut checks, c),
        None => {},
    }
    proof {
        reveal(derived_checks);
        assert(checks_view(checks@) =~= derived_checks(*receipt, parents@));
    }
    let status = all_pass(&checks);
    let report = VerificationReport { receipt_id: receipt.receipt_id.clone(), status, checks };
    proof {
        if derived_from(*receipt, parents@) {
            let (op, ps, doc_id, p) = choose|op: Operation, ps: Seq<(&Receipt, &str)>, doc_id: Seq<char>, p: (bool, int, int)|
                #[trigger] derived_receipt(*receipt, op, ps, doc_id, p) && derived_by(*receipt, parents@, op, ps, p);
            let q = (p.0, abs_int(p.1), p.2 as nat);
            assert(display(q.0, q.1, q.2) == receipt.claim.value@);
            assert(signed_parts(q.0, q.1, q.2) == p);
            assert(reads_back(receipt.claim.value@, p));
            lemma_derived_receipt_verifies(*receipt, op, ps, doc_id, p, parents@);
        }
    }
    report
}

/// `r` is the derived receipt of `op` over the parents `ps` with the
/// well-formed value `p`, and `reg` resolves each parent's id to that
/// parent, which carries the id of its own body.
pub open spec fn derived_by(
    r: Receipt,
    reg: Seq<(String, &Receipt)>,
    op: Operation,
    ps: Seq<(&Receipt, &str)>,
    p: (bool, int, int),
) -> bool {
    &&& parents_parse(ps)
    &&& operation_result(op, parent_values(ps)) == Ok::<(bool, int, int), Seq<char>>(p)
    &&& well_formed_parts(p)
    &&& forall|i: int|
        0 <= i < ps.len() ==> parent_lookup(reg, (#[trigger] ps[i]).0.receipt_id@) == Some(*ps[i].0) && id_ok(
            *ps[i].0,
        )
}

/// `r` is a receipt `build_derived_receipt` gives over parents that `reg`
/// resolves by id, each carrying the id of its own body.
pub open spec fn derived_from(r: Receipt, reg: Seq<(String, &Receipt)>) -> bool {
    exists|op: Operation, ps: Seq<(&Receipt, &str)>, doc_id: Seq<char>, p: (bool, int, int)|
        #[trigger] derived_receipt(r, op, ps, doc_id, p) && derived_by(r, reg, op, ps, p)
}

// ---------------------------------------------------------------------------
// Signing
// ---------------------------------------------------------------------------

/// An Ed25519 signing key for receipt attestations.
pub struct SigningKey {
    secret: [u8; 32],
}

impl SigningKey {
    /// The 32 secret bytes.
    pub closed spec fn secret(self) -> Seq<u8> {
        self.secret@
    }

    /// A fresh key from the operating system's generator.
    pub fn generate() -> SigningKey {
        SigningKey { secret: random_secret() }
    }

    /// The key with the given secret bytes.
    pub fn from_bytes(bytes: &[u8; 32]) -> (k: SigningKey)
        ensures
            k.secret() == bytes@,
    {
        SigningKey { secret: *bytes }
    }

    /// The secret bytes.
    pub fn to_bytes(&self) -> (r: [u8; 32])
        ensures
            r@ == self.secret(),
    {
        self.secret
    }
}

/// Signs the canonical receipt body: the attestation carries the key's
/// public key and the signature, both in hexadecimal, over exactly the
/// bytes the receipt id hashes.
pub fn sign_receipt(receipt: &mut Receipt, key: &SigningKey) -> (r: Result<(), EvidenceError>)
    ensures
        r is Ok,
        *final(receipt) == (Receipt { attestation: final(receipt).attestation, ..*old(receipt) }),
        final(receipt).attestation matches Some(a) && a.alg@ == "ed25519"@ && a.public_key@ == hex_of(
            ed25519_public(key.secret()),
        ) && a.sig@ == hex_of(
            ed25519_signature(
                key.secret(),
                encode_utf8(canonical_body_of(old(receipt).claim, old(receipt).evidence@, old(receipt).derivation)),
            ),
        ),
        attestation_valid(*final(receipt)),
{
    let body = encode_body(SCHEMA_VERSION, &receipt.claim, receipt.evidence.as_slice(), &receipt.derivation);
    let secret = key.secret.as_slice();
    let sig = ed25519_sign(secret, body.as_str().as_bytes());
    let pk = ed25519_public_key(secret);
    let public_key = hex_encode(pk.as_slice());
    let sig_text = hex_encode(sig.as_slice());
    proof {
        lemma_hex_roundtrip(pk@);
        lemma_hex_roundtrip(sig@);
    }
    receipt.attestation = Some(Attestation { alg: "ed25519".to_owned(), public_key, sig: sig_text });
    Ok(())
}

// ---------------------------------------------------------------------------
// Laws
// ---------------------------------------------------------------------------

/// A growth rate is the change over the size of the base: for inputs `x0`
/// and a nonzero `x1`, the growth rate is the ratio, rounded alike, of the
/// difference `x0 - x1` to `|x1|` (so the change keeps its sign and a
/// decline reads as a negative rate); when the difference overflows, so
/// does the growth rate.
pub proof fn law_growth_is_change_over_base(x0: (bool, int, int), x1: (bool, int, int), dp: Option<u32>)
    requires
        x1.1 != 0,
    ensures
        operation_result(Operation::GrowthRate { round_dp: dp }, seq![x0, x1]) == match decimal_sub(x0, x1) {
            Some(d) => operation_result(
                Operation::Ratio { round_dp: dp },
                seq![d, (false, if x1.1 < 0 { -x1.1 } else { x1.1 }, x1.2)],
            ),
            None => Err("arithmetic overflow"@),
        },
{
    let b = (false, if x1.1 < 0 { -x1.1 } else { x1.1 }, x1.2);
    assert(abs_parts(x1) == b);
    assert(b.1 != 0);
}

/// A ratio divides the first input by the second: with a zero divisor it
/// fails, and otherwise it is the rounded quotient of the two, in order.
pub proof fn law_ratio_is_quotient(x0: (bool, int, int), x1: (bool, int, int), dp: Option<u32>)
    ensures
        x1.1 == 0 ==> operation_result(Operation::Ratio { round_dp: dp }, seq![x0, x1]) is Err,
        x1.1 != 0 ==> operation_result(Operation::Ratio { round_dp: dp }, seq![x0, x1]) == match decimal_div(x0, x1) {
            Some(q) => Ok(rounded(q, dp)),
            None => Err::<(bool, int, int), Seq<char>>("arithmetic overflow"@),
        },
{
}

/// A stated receipt claims what its fact states: the fact's unit, as a
/// stated claim of the document; and its locator names the fact's concept,
/// context, unit and byte range.
pub proof fn law_stated_claim_is_the_fact(
    r: Receipt,
    instance: InstanceDocument,
    i: int,
    doc_id: Seq<char>,
    artifact: SourceArtifact,
)
    requires
        stated_receipt(r, instance, i, doc_id, artifact),
    ensures
        r.claim.unit == instance.facts@[i].unit_ref,
        r.claim.kind == ClaimKind::Stated,
        r.claim.doc_id@ == doc_id,
        r.evidence@.len() == 1,
        r.evidence@[0].locator matches Locator::Xbrl(l) && l.concept@ == qname_display(instance.facts@[i].name)
            && l.context_ref == instance.facts@[i].context_ref && l.unit_ref == instance.facts@[i].unit_ref
            && l.byte_range == instance.facts@[i].byte_range,
        r.evidence@[0].source_artifact == artifact,
{
}

} // verus!
