//! Verifying a batch of receipts against one source: stated receipts
//! first, then derived ones, each derived receipt counting only when every
//! parent it consumes was itself verified (the chain rule).

use vstd::prelude::*;

use crate::evidence::receipts::{
    checks_view, derived_checks, report_for, source_checks, status_of, verify_derived, verify_in,
    SourceContext,
};
use crate::evidence::{CheckName, Receipt, ValidationStatus, VerificationReport};
use crate::text::str_eq;

verus! {

/// A check as (name, pass, detail).
pub type CheckView = (CheckName, bool, Option<Seq<char>>);

/// Verified exactly when every check passes.
pub open spec fn status_of_views(cs: Seq<CheckView>) -> ValidationStatus {
    if forall|i: int| 0 <= i < cs.len() ==> #[trigger] cs[i].1 {
        ValidationStatus::Verified
    } else {
        ValidationStatus::Failed
    }
}

/// A report as (receipt id, checks, status).
pub open spec fn report_view(r: VerificationReport) -> (Seq<char>, Seq<CheckView>, ValidationStatus) {
    (r.receipt_id@, checks_view(r.checks@), r.status)
}

/// The state of a batch: the ids verified so far, the counts of passes and
/// failures, and each failure's report with whether its parents were all
/// verified.
pub type BatchState = (Seq<Seq<char>>, nat, nat, Seq<((Seq<char>, Seq<CheckView>, ValidationStatus), bool)>);

/// Whether `ids` holds `id`.
pub open spec fn holds(ids: Seq<Seq<char>>, id: Seq<char>) -> bool {
    exists|i: int| 0 <= i < ids.len() && #[trigger] ids[i] == id
}

/// Records one outcome.
pub open spec fn record(
    st: BatchState,
    id: Seq<char>,
    report: (Seq<char>, Seq<CheckView>, ValidationStatus),
    chain_ok: bool,
) -> BatchState {
    if report.2 == ValidationStatus::Verified && chain_ok {
        (st.0.push(id), st.1 + 1, st.2, st.3)
    } else {
        (st.0, st.1, st.2 + 1, st.3.push((report, chain_ok)))
    }
}

/// The stated receipts of `rs` verified against `ctx`, in order.
pub open spec fn stated_pass(ctx: SourceContext, rs: Seq<Receipt>, st: BatchState) -> BatchState
    decreases rs.len(),
{
    if rs.len() == 0 {
        st
    } else {
        let prev = stated_pass(ctx, rs.drop_last(), st);
        let r = rs.last();
        if r.derivation is None {
            let cs = source_checks(ctx, r);
            record(prev, r.receipt_id@, (r.receipt_id@, cs, status_of_views(cs)), true)
        } else {
            prev
        }
    }
}

/// Every parent a derived receipt consumes was verified.
pub open spec fn chain_ok(ids: Seq<Seq<char>>, r: Receipt) -> bool {
    r.derivation matches Some(d) && forall|i: int|
        0 <= i < d.inputs@.len() ==> holds(ids, (#[trigger] d.inputs@[i]).receipt_id@)
}

/// The derived receipts of `rs` verified against `parents`, in order.
pub open spec fn derived_pass(parents: Seq<(String, &Receipt)>, rs: Seq<Receipt>, st: BatchState) -> BatchState
    decreases rs.len(),
{
    if rs.len() == 0 {
        st
    } else {
        let prev = derived_pass(parents, rs.drop_last(), st);
        let r = rs.last();
        if r.derivation is Some {
            let cs = derived_checks(r, parents);
            record(prev, r.receipt_id@, (r.receipt_id@, cs, status_of_views(cs)), chain_ok(prev.0, r))
        } else {
            prev
        }
    }
}

/// `ps` registers every receipt of `rs` under its id, in order.
pub open spec fn is_registry(ps: Seq<(String, &Receipt)>, rs: Seq<Receipt>) -> bool {
    ps.len() == rs.len() && forall|i: int| 0 <= i < rs.len() ==> (#[trigger] ps[i]).0 == rs[i].receipt_id && *ps[i].1 == rs[i]
}

/// The outcome of a batch: stated receipts, then derived ones against the
/// registry of all receipts.
pub open spec fn batch_outcome(ctx: SourceContext, rs: Seq<Receipt>, ps: Seq<(String, &Receipt)>) -> BatchState {
    derived_pass(ps, rs, stated_pass(ctx, rs, (Seq::empty(), 0, 0, Seq::empty())))
}

/// The outcome of verifying a batch of receipts.
pub struct BatchOutcome {
    /// Receipts that verified (and, if derived, whose parents verified).
    pub passed: usize,
    /// Receipts that did not.
    pub failed: usize,
    /// Each failure's report, with whether all its parents were verified.
    pub failures: Vec<(VerificationReport, bool)>,
}

/// The failures as views.
pub open spec fn failures_view(v: Seq<(VerificationReport, bool)>) -> Seq<((Seq<char>, Seq<CheckView>, ValidationStatus), bool)> {
    v.map_values(|f: (VerificationReport, bool)| (report_view(f.0), f.1))
}

proof fn lemma_status_views(cs: Seq<crate::evidence::Check>)
    ensures
        status_of(cs) == status_of_views(checks_view(cs)),
{
    if forall|i: int| 0 <= i < cs.len() ==> #[trigger] cs[i].pass {
        assert forall|i: int| 0 <= i < checks_view(cs).len() implies #[trigger] checks_view(cs)[i].1 by {
            assert(cs[i].pass);
        }
    } else {
        let i = choose|i: int| 0 <= i < cs.len() && !#[trigger] cs[i].pass;
        assert(!checks_view(cs)[i].1);
    }
}

fn holds_id(ids: &Vec<String>, id: &str) -> (r: bool)
    ensures
        r == holds(ids@.map_values(|s: String| s@), id@),
{
    let ghost v = ids@.map_values(|s: String| s@);
    let mut i: usize = 0;
    while i < ids.len()
        invariant
            i <= ids@.len(),
            v == ids@.map_values(|s: String| s@),
            forall|j: int| 0 <= j < i ==> v[j] != id@,
        decreases ids@.len() - i,
    {
        if str_eq(ids[i].as_str(), id) {
            assert(v[i as int] == id@);
            return true;
        }
        i += 1;
    }
    false
}

/// The state of a batch as views.
pub open spec fn state_view(verified: Seq<String>, passed: usize, failed: usize, failures: Seq<(VerificationReport, bool)>) -> BatchState {
    (verified.map_values(|s: String| s@), passed as nat, failed as nat, failures_view(failures))
}

/// Checks one derived receipt and records the outcome.
fn check_derived(
    r: &Receipt,
    parents: &[(String, &Receipt)],
    verified: &mut Vec<String>,
    passed: &mut usize,
    failed: &mut usize,
    failures: &mut Vec<(VerificationReport, bool)>,
)
    requires
        r.derivation is Some,
        *old(passed) + *old(failed) < usize::MAX,
    ensures
        ({
            let st = state_view(old(verified)@, *old(passed), *old(failed), old(failures)@);
            let cs = derived_checks(*r, parents@);
            state_view(final(verified)@, *final(passed), *final(failed), final(failures)@) == record(
                st,
                r.receipt_id@,
                (r.receipt_id@, cs, status_of_views(cs)),
                chain_ok(st.0, *r),
            )
        }),
{
    let d = match &r.derivation {
        Some(d) => d,
        None => {
            return;
        },
    };
    let report = verify_derived(r, parents);
    proof {
        lemma_status_views(report.checks@);
    }
    let ghost ids = verified@.map_values(|s: String| s@);
    let mut all_verified = true;
    let mut m: usize = 0;
    while m < d.inputs.len()
        invariant
            m <= d.inputs@.len(),
            ids == verified@.map_values(|s: String| s@),
            all_verified == forall|q: int| 0 <= q < m ==> holds(ids, (#[trigger] d.inputs@[q]).receipt_id@),
        decreases d.inputs@.len() - m,
    {
        let h = holds_id(verified, d.inputs[m].receipt_id.as_str());
        all_verified = all_verified && h;
        m += 1;
    }
    if report.status == ValidationStatus::Verified && all_verified {
        let ghost before = verified@;
        verified.push(r.receipt_id.clone());
        assert(verified@.map_values(|s: String| s@) =~= before.map_values(|s: String| s@).push(r.receipt_id@));
        *passed = *passed + 1;
    } else {
        let ghost before = failures@;
        failures.push((report, all_verified));
        assert(failures_view(failures@) =~= failures_view(before).push((report_view(report), all_verified)));
        *failed = *failed + 1;
    }
}

/// How many receipts of `rs` are stated.
pub open spec fn n_stated(rs: Seq<Receipt>) -> nat
    decreases rs.len(),
{
    if rs.len() == 0 {
        0
    } else {
        n_stated(rs.drop_last()) + if rs.last().derivation is None {
            1nat
        } else {
            0nat
        }
    }
}

/// How many receipts of `rs` are derived.
pub open spec fn n_derived(rs: Seq<Receipt>) -> nat
    decreases rs.len(),
{
    if rs.len() == 0 {
        0
    } else {
        n_derived(rs.drop_last()) + if rs.last().derivation is Some {
            1nat
        } else {
            0nat
        }
    }
}

proof fn lemma_counts(rs: Seq<Receipt>)
    ensures
        n_stated(rs) + n_derived(rs) == rs.len(),
    decreases rs.len(),
{
    if rs.len() > 0 {
        lemma_counts(rs.drop_last());
    }
}

proof fn lemma_derived_prefix(rs: Seq<Receipt>, j: int)
    requires
        0 <= j <= rs.len(),
    ensures
        n_derived(rs.take(j)) <= n_derived(rs),
    decreases rs.len() - j,
{
    if j < rs.len() {
        lemma_derived_prefix(rs, j + 1);
        assert(rs.take(j + 1).drop_last() =~= rs.take(j));
    } else {
        assert(rs.take(j) =~= rs);
    }
}

proof fn lemma_stated_counts(ctx: SourceContext, rs: Seq<Receipt>, st: BatchState)
    ensures
        stated_pass(ctx, rs, st).1 + stated_pass(ctx, rs, st).2 == st.1 + st.2 + n_stated(rs),
    decreases rs.len(),
{
    if rs.len() > 0 {
        lemma_stated_counts(ctx, rs.drop_last(), st);
    }
}

proof fn lemma_derived_counts(ps: Seq<(String, &Receipt)>, rs: Seq<Receipt>, st: BatchState)
    ensures
        derived_pass(ps, rs, st).1 + derived_pass(ps, rs, st).2 == st.1 + st.2 + n_derived(rs),
    decreases rs.len(),
{
    if rs.len() > 0 {
        lemma_derived_counts(ps, rs.drop_last(), st);
    }
}

/// Verifies every receipt against one source. Stated receipts are checked
/// against the source; derived receipts against the other receipts of the
/// batch (registered by id, the later one winning), and a derived receipt
/// passes only when it verifies and every parent it consumes passed before it.
pub fn verify_receipts(ctx: &SourceContext, receipts: &Vec<Receipt>) -> (out: BatchOutcome)
    ensures
        exists|ps: Seq<(String, &Receipt)>|
            {
                let o = batch_outcome(*ctx, receipts@, ps);
                &&& #[trigger] is_registry(ps, receipts@)
                &&& out.passed == o.1
                &&& out.failed == o.2
                &&& failures_view(out.failures@) == o.3
            },
{
    let mut parents: Vec<(String, &Receipt)> = Vec::new();
    let mut k: usize = 0;
    while k < receipts.len()
        invariant
            k <= receipts@.len(),
            is_registry(parents@, receipts@.take(k as int)),
        decreases receipts@.len() - k,
    {
        parents.push((receipts[k].receipt_id.clone(), &receipts[k]));
        k += 1;
    }
    assert(receipts@.take(receipts@.len() as int) =~= receipts@);
    let mut verified: Vec<String> = Vec::new();
    let mut passed: usize = 0;
    let mut failed: usize = 0;
    let mut failures: Vec<(VerificationReport, bool)> = Vec::new();
    let ghost init: BatchState = (Seq::empty(), 0, 0, Seq::empty());
    assert(failures_view(failures@) =~= init.3);
    assert(verified@.map_values(|s: String| s@) =~= init.0);
    let mut i: usize = 0;
    while i < receipts.len()
        invariant
            i <= receipts@.len(),
            ({
                let st = stated_pass(*ctx, receipts@.take(i as int), init);
                &&& verified@.map_values(|s: String| s@) == st.0
                &&& passed == st.1
                &&& failed == st.2
                &&& failures_view(failures@) == st.3
                &&& st.1 + st.2 <= i
            }),
        decreases receipts@.len() - i,
    {
        let r = &receipts[i];
        proof {
            assert(receipts@.take(i + 1).drop_last() =~= receipts@.take(i as int));
            assert(receipts@.take(i + 1).last() == receipts@[i as int]);
        }
        if r.derivation.is_none() {
            let report = verify_in(ctx, r);
            proof {
                lemma_status_views(report.checks@);
            }
            if report.status == ValidationStatus::Verified {
                let ghost before = verified@;
                verified.push(r.receipt_id.clone());
                assert(verified@.map_values(|s: String| s@) =~= before.map_values(|s: String| s@).push(
                    r.receipt_id@,
                ));
                passed += 1;
            } else {
                let ghost before = failures@;
                failures.push((report, true));
                assert(failures_view(failures@) =~= failures_view(before).push((report_view(report), true)));
                failed += 1;
            }
        }
        i += 1;
    }
    let ghost mid = stated_pass(*ctx, receipts@, init);
    proof {
        lemma_stated_counts(*ctx, receipts@, init);
    }
    let mut j: usize = 0;
    while j < receipts.len()
        invariant
            j <= receipts@.len(),
            is_registry(parents@, receipts@),
            mid.1 + mid.2 == n_stated(receipts@),
            ({
                let st = derived_pass(parents@, receipts@.take(j as int), mid);
                &&& verified@.map_values(|s: String| s@) == st.0
                &&& passed == st.1
                &&& failed == st.2
                &&& failures_view(failures@) == st.3
            }),
        decreases receipts@.len() - j,
    {
        let r = &receipts[j];
        proof {
            assert(receipts@.take(j + 1).drop_last() =~= receipts@.take(j as int));
            assert(receipts@.take(j + 1).last() == receipts@[j as int]);
        }
        proof {
            lemma_derived_counts(parents@, receipts@.take(j as int), mid);
            lemma_derived_counts(parents@, receipts@.take(j + 1), mid);
            lemma_derived_prefix(receipts@, j + 1);
            lemma_counts(receipts@);
        }
        if r.derivation.is_some() {
            check_derived(r, parents.as_slice(), &mut verified, &mut passed, &mut failed, &mut failures);
        }
        j += 1;
    }
    assert(receipts@.take(receipts@.len() as int) =~= receipts@);
    BatchOutcome { passed, failed, failures }
}

} // verus!
