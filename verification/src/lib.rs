//! XBRL / Inline XBRL instance parsing, fact normalization, label linkbases
//! and evidence receipts, with the logic verified by Verus.

pub mod text;
pub mod strmap;
pub mod decimal;
pub mod error;
pub mod xml;
pub mod types;
pub mod transform;
pub mod parser;
pub mod normalize;
pub mod linkbase;
pub mod evidence;

pub use decimal::Decimal;
pub use error::XbrlError;
pub use evidence::batch::{verify_receipts, BatchOutcome};
pub use evidence::receipts::{
    build_derived_receipt, build_receipts, receipt_id_for, sha256_hex, sign_receipt, verify,
    verify_derived, verify_in, SigningKey, SourceContext, ENGINE, SCHEMA_VERSION,
};
pub use evidence::{
    Attestation, Check, CheckName, Claim, ClaimKind, Derivation, DerivationInput, Evidence,
    EvidenceError, Extraction, Locator, Operation, Receipt, SourceArtifact, ValidationStatus,
    VerificationReport, XbrlLocator,
};
pub use linkbase::{LabelLinkbase, LangPreferringResolver, SchemaIndex};
pub use normalize::{normalize_facts, NoLabels, TaxonomyResolver};
pub use parser::{parse_instance, parse_instance_set};
pub use transform::apply_text_transform;
pub use types::{
    Context, ContextElement, Decimals, Dimension, DimensionMember, Entity, FilingMeta, Footnote,
    InlineMeta, InstanceDocument, NormalizedFact, NormalizedValue, Period, Precision, Provenance,
    QName, RawFact, RawFactValue, Unit,
};
