//! Evidence receipts: deterministic, machine-verifiable records that bind a
//! stated numeric claim to the primary-source evidence that supports it
//! (the artifact hash, a locator for the fact, the extraction engine).
//! The verifier re-derives everything from the source bytes.

pub mod json;
pub mod crypto;
pub mod receipts;
pub mod batch;
pub mod roundtrip;

use vstd::prelude::*;

use crate::text::clone_opt;

verus! {

/// What can go wrong while building or signing receipts.
#[derive(Debug)]
pub enum EvidenceError {
    /// The source document could not be parsed.
    Parse(String),
    /// A receipt could not be serialized.
    Serialize(serde_json::Error),
    /// A derivation could not be computed.
    Derivation(String),
    /// A receipt could not be signed.
    Signing(String),
}

#[verifier::external_type_specification]
#[verifier::external_body]
pub struct ExSerdeJsonError(serde_json::Error);

/// The source document a receipt was built from.
#[derive(Debug)]
pub struct SourceArtifact {
    pub uri: String,
    /// Hex SHA-256 of the exact source bytes.
    pub sha256: String,
    pub retrieved_at: Option<String>,
    /// Issuing authority identifier (such as `jp.fsa.edinet`).
    pub authority: Option<String>,
}

/// The XBRL locator profile: which fact of the source a claim comes from.
#[derive(Debug)]
pub struct XbrlLocator {
    /// Concept name as displayed (`prefix:localName`).
    pub concept: String,
    pub context_ref: String,
    pub unit_ref: Option<String>,
    /// Half-open byte range of the source element, when known.
    pub byte_range: Option<(u64, u64)>,
}

/// The extraction engine that produced a claim.
#[derive(Debug)]
pub struct Extraction {
    pub engine: String,
}

/// A profile-tagged locator.
#[derive(Debug)]
pub enum Locator {
    Xbrl(XbrlLocator),
}

impl Locator {
    /// The XBRL locator.
    pub fn xbrl(&self) -> (r: &XbrlLocator)
        ensures
            *r == self->Xbrl_0,
    {
        match self {
            Locator::Xbrl(l) => l,
        }
    }

    /// The XBRL locator, to modify.
    pub fn xbrl_mut(&mut self) -> (r: &mut XbrlLocator)
        ensures
            *r == old(self)->Xbrl_0,
            *final(self) == Locator::Xbrl(*final(r)),
    {
        match self {
            Locator::Xbrl(l) => l,
        }
    }
}

/// One piece of evidence: the artifact, where in it, and by what engine.
#[derive(Debug)]
pub struct Evidence {
    pub source_artifact: SourceArtifact,
    pub locator: Locator,
    pub extraction: Extraction,
}

/// Whether a claim is stated in a source or derived from other receipts.
#[derive(Debug, Clone, Copy, PartialEq, Eq, Structural)]
pub enum ClaimKind {
    /// The value as stated in the source document.
    Stated,
    /// A value computed from other receipts by a deterministic operation.
    Derived,
}

/// A claimed value.
#[derive(Debug)]
pub struct Claim {
    /// Canonical decimal string of the claimed value.
    pub value: String,
    pub unit: Option<String>,
    pub kind: ClaimKind,
    /// Document the claim was drawn from.
    pub doc_id: String,
}

/// Deterministic operations over parent receipt values; rounding (halves
/// away from zero) is part of the recorded operation.
#[derive(Debug, Clone, Copy, PartialEq, Eq, Structural)]
pub enum Operation {
    /// inputs[0] / inputs[1]
    Ratio { round_dp: Option<u32> },
    /// inputs[0] - inputs[1]
    Difference,
    /// (inputs[0] - inputs[1]) / |inputs[1]|
    GrowthRate { round_dp: Option<u32> },
}

/// A parent receipt consumed by a derivation.
#[derive(Debug)]
pub struct DerivationInput {
    /// Content-hash id of the parent receipt.
    pub receipt_id: String,
    /// The parent's claimed value as consumed.
    pub value: String,
    /// Role in the operation (such as `numerator`).
    pub role: String,
}

/// The lineage of a derived claim.
#[derive(Debug)]
pub struct Derivation {
    pub operation: Operation,
    pub inputs: Vec<DerivationInput>,
}

/// A detached signature over the canonical receipt body.
#[derive(Debug)]
pub struct Attestation {
    pub alg: String,
    pub public_key: String,
    pub sig: String,
}

/// An evidence receipt.
#[derive(Debug)]
pub struct Receipt {
    /// Receipt schema version.
    pub schema: String,
    pub receipt_id: String,
    pub claim: Claim,
    pub evidence: Vec<Evidence>,
    pub derivation: Option<Derivation>,
    pub attestation: Option<Attestation>,
}

/// The checks a verification runs.
#[derive(Debug, Clone, Copy, PartialEq, Eq, Structural)]
pub enum CheckName {
    /// The receipt id matches the canonical hash of its own body.
    ReceiptId,
    /// The evidence has the expected shape.
    EvidenceShape,
    /// The source bytes hash to the recorded artifact hash.
    ArtifactHash,
    /// The locator resolves to exactly one fact of the source.
    Locate,
    /// The located fact's byte range matches the recorded one.
    ByteRange,
    /// The located fact's value equals the claimed value.
    ValueMatch,
    /// Every derivation input resolves to a known, self-consistent parent.
    InputResolution,
    /// Re-applying the recorded operation reproduces the claimed value.
    Recompute,
    /// The attestation signature is valid over the canonical body.
    Attestation,
}

/// The outcome of one check.
#[derive(Debug)]
pub struct Check {
    pub name: CheckName,
    pub pass: bool,
    pub detail: Option<String>,
}

/// The overall outcome of a verification.
#[derive(Debug, Clone, Copy, PartialEq, Eq, Structural)]
pub enum ValidationStatus {
    Verified,
    Failed,
}

/// The report of a verification.
#[derive(Debug)]
pub struct VerificationReport {
    pub receipt_id: String,
    pub status: ValidationStatus,
    pub checks: Vec<Check>,
}

// --- Copies ---

impl Clone for SourceArtifact {
    fn clone(&self) -> (r: Self)
        ensures
            r == *self,
    {
        SourceArtifact {
            uri: self.uri.clone(),
            sha256: self.sha256.clone(),
            retrieved_at: clone_opt(&self.retrieved_at),
            authority: clone_opt(&self.authority),
        }
    }
}

impl Clone for XbrlLocator {
    fn clone(&self) -> (r: Self)
        ensures
            r == *self,
    {
        XbrlLocator {
            concept: self.concept.clone(),
            context_ref: self.context_ref.clone(),
            unit_ref: clone_opt(&self.unit_ref),
            byte_range: self.byte_range,
        }
    }
}

impl Clone for Extraction {
    fn clone(&self) -> (r: Self)
        ensures
            r == *self,
    {
        Extraction { engine: self.engine.clone() }
    }
}

impl Clone for Locator {
    fn clone(&self) -> (r: Self)
        ensures
            r == *self,
    {
        match self {
            Locator::Xbrl(l) => Locator::Xbrl(l.clone()),
        }
    }
}

impl Clone for Evidence {
    fn clone(&self) -> (r: Self)
        ensures
            r == *self,
    {
        Evidence {
            source_artifact: self.source_artifact.clone(),
            locator: self.locator.clone(),
            extraction: self.extraction.clone(),
        }
    }
}

impl Clone for Claim {
    fn clone(&self) -> (r: Self)
        ensures
            r == *self,
    {
        Claim {
            value: self.value.clone(),
            unit: clone_opt(&self.unit),
            kind: self.kind,
            doc_id: self.doc_id.clone(),
        }
    }
}

impl Clone for DerivationInput {
    fn clone(&self) -> (r: Self)
        ensures
            r == *self,
    {
        DerivationInput {
            receipt_id: self.receipt_id.clone(),
            value: self.value.clone(),
            role: self.role.clone(),
        }
    }
}

impl Clone for Attestation {
    fn clone(&self) -> (r: Self)
        ensures
            r == *self,
    {
        Attestation {
            alg: self.alg.clone(),
            public_key: self.public_key.clone(),
            sig: self.sig.clone(),
        }
    }
}

/// A copy of a list of evidence.
pub fn clone_evidence(v: &Vec<Evidence>) -> (r: Vec<Evidence>)
    ensures
        r@ == v@,
{
    let mut r: Vec<Evidence> = Vec::new();
    let mut i: usize = 0;
    while i < v.len()
        invariant
            i <= v@.len(),
            r@ == v@.take(i as int),
        decreases v@.len() - i,
    {
        r.push(v[i].clone());
        i += 1;
        assert(v@.take(i as int) == v@.take((i - 1) as int).push(v@[i - 1]));
    }
    assert(v@.take(i as int) == v@);
    r
}

/// A copy of a derivation (its inputs compared by content).
pub fn clone_derivation(d: &Derivation) -> (r: Derivation)
    ensures
        r.operation == d.operation,
        r.inputs@ == d.inputs@,
{
    let mut inputs: Vec<DerivationInput> = Vec::new();
    let mut i: usize = 0;
    while i < d.inputs.len()
        invariant
            i <= d.inputs@.len(),
            inputs@ == d.inputs@.take(i as int),
        decreases d.inputs@.len() - i,
    {
        inputs.push(d.inputs[i].clone());
        i += 1;
        assert(d.inputs@.take(i as int) == d.inputs@.take((i - 1) as int).push(d.inputs@[i - 1]));
    }
    assert(d.inputs@.take(i as int) == d.inputs@);
    Derivation { operation: d.operation, inputs }
}

/// `b` is a copy of `a`: the same fields, lists by content.
pub open spec fn receipt_copy(a: Receipt, b: Receipt) -> bool {
    &&& b.schema == a.schema
    &&& b.receipt_id == a.receipt_id
    &&& b.claim == a.claim
    &&& b.evidence@ == a.evidence@
    &&& match (a.derivation, b.derivation) {
        (Some(x), Some(y)) => x.operation == y.operation && x.inputs@ == y.inputs@,
        (None, None) => true,
        _ => false,
    }
    &&& b.attestation == a.attestation
}

impl Clone for Receipt {
    fn clone(&self) -> (r: Self)
        ensures
            receipt_copy(*self, r),
    {
        Receipt {
            schema: self.schema.clone(),
            receipt_id: self.receipt_id.clone(),
            claim: self.claim.clone(),
            evidence: clone_evidence(&self.evidence),
            derivation: match &self.derivation {
                Some(d) => Some(clone_derivation(d)),
                None => None,
            },
            attestation: match &self.attestation {
                Some(a) => Some(a.clone()),
                None => None,
            },
        }
    }
}

} // verus!
