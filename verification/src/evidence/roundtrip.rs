//! What a built receipt gives back when it is verified: a stated receipt
//! verifies against the source it was built from, and a derived receipt
//! against the parents it was built from.

use vstd::prelude::*;

use crate::decimal::decimal_from_str;
use crate::evidence::receipts::{
    answers, candidates, checks_view, consumed_values, derived_checks, derived_receipt, fact_number, id_ok,
    input_failure, input_failures, issued, issues_receipt, ctx_ok, located, operation_result, parent_lookup,
    parent_values, parents_parse, parts_same, recompute_check, source_checks, stated_receipt, status_of, with_range,
};
use crate::evidence::{CheckName, DerivationInput, Receipt, SourceArtifact, ValidationStatus, VerificationReport};
use crate::evidence::receipts::SourceContext;
use crate::parser::distinct_ranges;
use crate::types::RawFact;

verus! {

/// The decimal parser reads the text `t` back as the number `p`.
pub open spec fn reads_back(t: Seq<char>, p: (bool, int, int)) -> bool {
    decimal_from_str(t) matches Some(c) && parts_same(c, p)
}

/// Every check passes.
pub open spec fn all_checks_pass(cs: Seq<(CheckName, bool, Option<Seq<char>>)>) -> bool {
    forall|k: int| 0 <= k < cs.len() ==> #[trigger] cs[k].1
}

/// A report whose checks are `cs` and whose status follows them is
/// verified when every check of `cs` passes.
proof fn lemma_status_verified(cs: Seq<(CheckName, bool, Option<Seq<char>>)>, rep: VerificationReport)
    requires
        all_checks_pass(cs),
        checks_view(rep.checks@) == cs,
        rep.status == status_of(rep.checks@),
    ensures
        rep.status == ValidationStatus::Verified,
{
    assert forall|k: int| 0 <= k < rep.checks@.len() implies #[trigger] rep.checks@[k].pass by {
        assert(checks_view(rep.checks@)[k].1 == rep.checks@[k].pass);
    }
}

/// The facts answering `l` among the first `n`: in range, answering, in
/// ascending order, and all of them.
proof fn lemma_candidates(facts: Seq<RawFact>, l: crate::evidence::XbrlLocator, n: int)
    requires
        0 <= n <= facts.len(),
    ensures
        forall|k: int|
            0 <= k < candidates(facts, l, n).len() ==> 0 <= #[trigger] candidates(facts, l, n)[k] < n && answers(
                facts[candidates(facts, l, n)[k]],
                l,
            ),
        forall|k1: int, k2: int|
            0 <= k1 < k2 < candidates(facts, l, n).len() ==> #[trigger] candidates(facts, l, n)[k1]
                < #[trigger] candidates(facts, l, n)[k2],
        forall|j: int| 0 <= j < n && answers(facts[j], l) ==> #[trigger] candidates(facts, l, n).contains(j),
    decreases n,
{
    if n > 0 {
        lemma_candidates(facts, l, n - 1);
        let prev = candidates(facts, l, n - 1);
        let cs = candidates(facts, l, n);
        assert forall|j: int| 0 <= j < n && answers(facts[j], l) implies #[trigger] cs.contains(j) by {
            if j < n - 1 {
                assert(prev.contains(j));
                let k = choose|k: int| 0 <= k < prev.len() && prev[k] == j;
                if answers(facts[n - 1], l) {
                    assert(cs[k] == j);
                }
            } else {
                assert(cs[cs.len() - 1] == j);
            }
        }
    }
}

/// Narrowing ascending candidates to a byte range that only fact `i` has
/// among them leaves `i` alone, if it was there.
proof fn lemma_with_range_single(facts: Seq<RawFact>, l: crate::evidence::XbrlLocator, cs: Seq<int>, i: int)
    requires
        forall|k: int| 0 <= k < cs.len() ==> 0 <= #[trigger] cs[k] < facts.len(),
        forall|k1: int, k2: int| 0 <= k1 < k2 < cs.len() ==> #[trigger] cs[k1] < #[trigger] cs[k2],
        forall|k: int| 0 <= k < cs.len() && #[trigger] cs[k] != i ==> facts[cs[k]].byte_range != l.byte_range,
        0 <= i < facts.len(),
        facts[i].byte_range == l.byte_range,
    ensures
        with_range(facts, l, cs) == (if cs.contains(i) {
            seq![i]
        } else {
            Seq::<int>::empty()
        }),
    decreases cs.len(),
{
    if cs.len() > 0 {
        let p = cs.drop_last();
        assert forall|k: int| 0 <= k < p.len() && #[trigger] p[k] != i implies facts[p[k]].byte_range
            != l.byte_range by {
            assert(p[k] == cs[k]);
        }
        assert forall|k1: int, k2: int| 0 <= k1 < k2 < p.len() implies #[trigger] p[k1] < #[trigger] p[k2] by {
            assert(p[k1] == cs[k1] && p[k2] == cs[k2]);
        }
        lemma_with_range_single(facts, l, p, i);
        if cs.last() == i {
            assert(!p.contains(i)) by {
                if p.contains(i) {
                    let k = choose|k: int| 0 <= k < p.len() && p[k] == i;
                    assert(cs[k] < cs[cs.len() - 1]);
                }
            }
            assert(cs[cs.len() - 1] == i);
            assert(cs.contains(i));
        } else {
            assert(cs.last() == cs[cs.len() - 1]);
            assert(cs.contains(i) == p.contains(i)) by {
                if cs.contains(i) {
                    let k = choose|k: int| 0 <= k < cs.len() && cs[k] == i;
                    assert(k < cs.len() - 1);
                    assert(p[k] == i);
                }
                if p.contains(i) {
                    let k = choose|k: int| 0 <= k < p.len() && p[k] == i;
                    assert(cs[k] == i);
                }
            }
        }
    }
}

/// A locator that fact `i` answers, with its byte range, resolves to `i`
/// alone when no other answering fact has that range.
proof fn lemma_located_one(facts: Seq<RawFact>, l: crate::evidence::XbrlLocator, i: int)
    requires
        0 <= i < facts.len(),
        answers(facts[i], l),
        l.byte_range is Some,
        facts[i].byte_range == l.byte_range,
        forall|j: int|
            0 <= j < facts.len() && j != i && answers(#[trigger] facts[j], l) ==> facts[j].byte_range
                != l.byte_range,
    ensures
        located(facts, l) == seq![i],
{
    let n = facts.len() as int;
    lemma_candidates(facts, l, n);
    let cs = candidates(facts, l, n);
    assert(cs.contains(i));
    assert forall|k: int| 0 <= k < cs.len() && #[trigger] cs[k] != i implies facts[cs[k]].byte_range
        != l.byte_range by {
        assert(answers(facts[cs[k]], l));
    }
    lemma_with_range_single(facts, l, cs, i);
    if cs.len() <= 1 {
        let k = choose|k: int| 0 <= k < cs.len() && cs[k] == i;
        assert(k == 0);
        assert(cs =~= seq![i]);
    }
}

/// The positions of `issued` are facts that get receipts.
pub(crate) proof fn lemma_issued(instance: crate::types::InstanceDocument, n: int)
    requires
        0 <= n <= instance.facts@.len(),
    ensures
        forall|k: int|
            0 <= k < issued(instance, n).len() ==> 0 <= #[trigger] issued(instance, n)[k] < n && issues_receipt(
                instance,
                instance.facts@[issued(instance, n)[k]],
            ),
    decreases n,
{
    if n > 0 {
        lemma_issued(instance, n - 1);
        let prev = issued(instance, n - 1);
        let cur = issued(instance, n);
        assert forall|k: int| 0 <= k < cur.len() implies 0 <= #[trigger] cur[k] < n && issues_receipt(
            instance,
            instance.facts@[cur[k]],
        ) by {
            if k < prev.len() {
                assert(cur[k] == prev[k]);
            }
        }
    }
}

/// Every receipt `build_receipts` issues verifies against a source context
/// holding the instance it was built from, when the artifact records that
/// source's hash and the decimal parser reads the claimed text back as the
/// fact's number (which `verify_in` learns from its own parse of the
/// claimed text): every check passes, and so the report is verified.
#[verifier::spinoff_prover]
#[verifier::rlimit(40)]
pub proof fn lemma_stated_receipt_verifies(
    ctx: SourceContext,
    r: Receipt,
    k: int,
    doc_id: Seq<char>,
    artifact: SourceArtifact,
)
    requires
        ctx_ok(ctx),
        0 <= k < issued(ctx.instance_view(), ctx.instance_view().facts@.len() as int).len(),
        stated_receipt(r, ctx.instance_view(), issued(ctx.instance_view(), ctx.instance_view().facts@.len() as int)[k], doc_id, artifact),
        artifact.sha256@ == ctx.hash_view(),
        reads_back(
            r.claim.value@,
            fact_number(ctx.instance_view(), ctx.instance_view().facts@[issued(ctx.instance_view(), ctx.instance_view().facts@.len() as int)[k]]).unwrap(),
        ),
    ensures
        all_checks_pass(source_checks(ctx, r)),
        forall|rep: VerificationReport|
            #[trigger] checks_view(rep.checks@) == source_checks(ctx, r) && rep.status == status_of(rep.checks@)
                ==> rep.status == ValidationStatus::Verified,
{
    let facts = ctx.instance_view().facts@;
    let n = facts.len() as int;
    lemma_issued(ctx.instance_view(), n);
    let i = issued(ctx.instance_view(), n)[k];
    let f = facts[i];
    let l = r.evidence@[0].locator->Xbrl_0;
    let q = fact_number(ctx.instance_view(), f).unwrap();
    assert(answers(f, l));
    assert forall|j: int| 0 <= j < facts.len() && j != i && answers(#[trigger] facts[j], l) implies facts[j].byte_range
        != l.byte_range by {
        assert(distinct_ranges(facts));
        assert(facts[j].byte_range != facts[i].byte_range);
    }
    lemma_located_one(facts, l, i);
    let c = decimal_from_str(r.claim.value@).unwrap();
    assert(parts_same(q, c));
    reveal(source_checks);
    let cs = source_checks(ctx, r);
    assert(cs.len() == 6);
    assert forall|m: int| 0 <= m < cs.len() implies #[trigger] cs[m].1 by {}
    assert forall|rep: VerificationReport|
        #[trigger] checks_view(rep.checks@) == source_checks(ctx, r) && rep.status == status_of(rep.checks@)
            implies rep.status == ValidationStatus::Verified by {
        lemma_status_verified(source_checks(ctx, r), rep);
    }
}

/// Inputs that all resolve raise no failure.
proof fn lemma_no_input_failures(reg: Seq<(String, &Receipt)>, inputs: Seq<DerivationInput>)
    requires
        forall|k: int| 0 <= k < inputs.len() ==> input_failure(reg, #[trigger] inputs[k]) is None,
    ensures
        input_failures(reg, inputs).len() == 0,
    decreases inputs.len(),
{
    if inputs.len() > 0 {
        let p = inputs.drop_last();
        assert forall|k: int| 0 <= k < p.len() implies input_failure(reg, #[trigger] p[k]) is None by {
            assert(p[k] == inputs[k]);
        }
        lemma_no_input_failures(reg, p);
        assert(inputs.last() == inputs[inputs.len() - 1]);
    }
}

/// When every consumed value parses, the consumed values are the parsed
/// values, in order.
proof fn lemma_consumed_values(inputs: Seq<DerivationInput>)
    requires
        forall|k: int| 0 <= k < inputs.len() ==> (#[trigger] decimal_from_str(inputs[k].value@)) is Some,
    ensures
        consumed_values(inputs) == inputs.map_values(|x: DerivationInput| decimal_from_str(x.value@).unwrap()),
    decreases inputs.len(),
{
    if inputs.len() > 0 {
        let p = inputs.drop_last();
        assert forall|k: int| 0 <= k < p.len() implies (#[trigger] decimal_from_str(p[k].value@)) is Some by {
            assert(p[k] == inputs[k]);
            assert(decimal_from_str(inputs[k].value@) is Some);
        }
        lemma_consumed_values(p);
        assert(decimal_from_str(inputs[inputs.len() - 1].value@) is Some);
        assert(consumed_values(inputs) =~= inputs.map_values(
            |x: DerivationInput| decimal_from_str(x.value@).unwrap(),
        ));
    }
}

/// The recomputation passes when the operation over the consumed values
/// gives `p` and the claimed text reads back as `p`.
proof fn lemma_recompute_passes(d: crate::evidence::Derivation, claim: crate::evidence::Claim, p: (bool, int, int))
    requires
        operation_result(d.operation, consumed_values(d.inputs@)) == Ok::<(bool, int, int), Seq<char>>(p),
        reads_back(claim.value@, p),
    ensures
        recompute_check(d, claim).1,
{
}

/// The checks of a derived receipt all pass when its id and shape are
/// right, its inputs resolve and its recomputation passes.
proof fn lemma_derived_checks_pass(r: Receipt, reg: Seq<(String, &Receipt)>)
    requires
        id_ok(r),
        r.claim.kind == crate::evidence::ClaimKind::Derived,
        r.evidence@.len() == 0,
        r.derivation matches Some(d) && d.inputs@.len() > 0 && input_failures(reg, d.inputs@).len() == 0
            && recompute_check(d, r.claim).1,
        r.attestation is None,
    ensures
        all_checks_pass(derived_checks(r, reg)),
{
    reveal(derived_checks);
    let cs = derived_checks(r, reg);
    assert(cs.len() == 4);
    assert forall|m: int| 0 <= m < cs.len() implies #[trigger] cs[m].1 by {}
}

/// A derived receipt verifies against any registry that resolves each of
/// its parents' ids to that parent, when every parent carries the id of
/// its own body and the decimal parser reads the derived value back: every
/// check passes (id, shape, input resolution, recomputation), and so the
/// report is verified.
pub proof fn lemma_derived_receipt_verifies(
    r: Receipt,
    op: crate::evidence::Operation,
    ps: Seq<(&Receipt, &str)>,
    doc_id: Seq<char>,
    p: (bool, int, int),
    reg: Seq<(String, &Receipt)>,
)
    requires
        parents_parse(ps),
        operation_result(op, parent_values(ps)) == Ok::<(bool, int, int), Seq<char>>(p),
        derived_receipt(r, op, ps, doc_id, p),
        forall|i: int|
            0 <= i < ps.len() ==> parent_lookup(reg, (#[trigger] ps[i]).0.receipt_id@) == Some(*ps[i].0) && id_ok(
                *ps[i].0,
            ),
        reads_back(r.claim.value@, p),
    ensures
        all_checks_pass(derived_checks(r, reg)),
        forall|rep: VerificationReport|
            #[trigger] checks_view(rep.checks@) == derived_checks(r, reg) && rep.status == status_of(rep.checks@)
                ==> rep.status == ValidationStatus::Verified,
{
    let d = r.derivation.unwrap();
    let inputs = d.inputs@;
    assert(parent_values(ps).len() == ps.len());
    assert(ps.len() == 2);
    assert forall|k: int| 0 <= k < inputs.len() implies input_failure(reg, #[trigger] inputs[k]) is None by {
        assert(inputs[k].receipt_id == ps[k].0.receipt_id);
        assert(parent_lookup(reg, ps[k].0.receipt_id@) == Some(*ps[k].0));
        assert(id_ok(*ps[k].0));
    }
    lemma_no_input_failures(reg, inputs);
    assert forall|k: int| 0 <= k < inputs.len() implies (#[trigger] decimal_from_str(inputs[k].value@)) is Some by {
        assert(inputs[k].value == ps[k].0.claim.value);
        assert(decimal_from_str(ps[k].0.claim.value@) is Some);
    }
    lemma_consumed_values(inputs);
    assert(consumed_values(inputs) =~= parent_values(ps)) by {
        assert forall|k: int| 0 <= k < inputs.len() implies #[trigger] consumed_values(inputs)[k] == parent_values(
            ps,
        )[k] by {
            assert(inputs[k].value == ps[k].0.claim.value);
        }
    }
    assert(recompute_check(d, r.claim).1) by {
        lemma_recompute_passes(d, r.claim, p);
    }
    assert(input_failures(reg, inputs).len() == 0);
    lemma_derived_checks_pass(r, reg);
    assert forall|rep: VerificationReport|
        #[trigger] checks_view(rep.checks@) == derived_checks(r, reg) && rep.status == status_of(rep.checks@)
            implies rep.status == ValidationStatus::Verified by {
        lemma_status_verified(derived_checks(r, reg), rep);
    }
}

} // verus!
