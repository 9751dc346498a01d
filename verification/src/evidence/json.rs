//! The canonical encoding of a receipt body: compact JSON with fields in
//! declaration order, absent optional fields left out (except the rounding
//! of an operation, written as `null`), the locator tagged by `profile` and
//! the operation by `op`. The receipt id hashes exactly these characters.

use vstd::prelude::*;

use crate::evidence::{
    Claim, ClaimKind, Derivation, DerivationInput, Evidence, Extraction, Locator, Operation,
    SourceArtifact, XbrlLocator,
};
use crate::text::{chars_of, dec_string, string_of, u64_to_chars};

verus! {

// ---------------------------------------------------------------------------
// JSON text
// ---------------------------------------------------------------------------

/// A lowercase hexadecimal digit.
pub open spec fn hex_digit(d: int) -> char {
    if d < 10 {
        ((48 + d) as u32) as char
    } else {
        ((87 + d) as u32) as char
    }
}

/// A character inside a JSON string: `"` and `\` are escaped, and so are
/// control characters (the usual short forms, else `\u00XX`).
pub open spec fn escape_char(c: char) -> Seq<char> {
    if c == '"' {
        seq!['\\', '"']
    } else if c == '\\' {
        seq!['\\', '\\']
    } else if c == '\u{8}' {
        seq!['\\', 'b']
    } else if c == '\t' {
        seq!['\\', 't']
    } else if c == '\n' {
        seq!['\\', 'n']
    } else if c == '\u{c}' {
        seq!['\\', 'f']
    } else if c == '\r' {
        seq!['\\', 'r']
    } else if (c as u32) < 32 {
        seq!['\\', 'u', '0', '0', hex_digit(((c as u32) / 16) as int), hex_digit(((c as u32) % 16) as int)]
    } else {
        seq![c]
    }
}

/// The escaped characters of a string.
pub open spec fn escape(s: Seq<char>) -> Seq<char>
    decreases s.len(),
{
    if s.len() == 0 {
        Seq::empty()
    } else {
        escape(s.drop_last()) + escape_char(s.last())
    }
}

/// A JSON string.
pub open spec fn json_str(s: Seq<char>) -> Seq<char> {
    seq!['"'] + escape(s) + seq!['"']
}

/// Items separated by commas.
pub open spec fn join(items: Seq<Seq<char>>) -> Seq<char>
    decreases items.len(),
{
    if items.len() == 0 {
        Seq::empty()
    } else if items.len() == 1 {
        items[0]
    } else {
        join(items.drop_last()) + seq![','] + items.last()
    }
}

/// A JSON object of already encoded `"name":value` members.
pub open spec fn json_object(members: Seq<Seq<char>>) -> Seq<char> {
    seq!['{'] + join(members) + seq!['}']
}

/// A JSON array of already encoded items.
pub open spec fn json_array(items: Seq<Seq<char>>) -> Seq<char> {
    seq!['['] + join(items) + seq![']']
}

/// An object member.
pub open spec fn member(name: Seq<char>, value: Seq<char>) -> Seq<char> {
    json_str(name) + seq![':'] + value
}

/// Members with an optional string member appended when present.
pub open spec fn with_opt_str(members: Seq<Seq<char>>, name: Seq<char>, v: Option<String>) -> Seq<Seq<char>> {
    match v {
        Some(s) => members.push(member(name, json_str(s@))),
        None => members,
    }
}

// ---------------------------------------------------------------------------
// The receipt body
// ---------------------------------------------------------------------------

/// The claim kind's name.
pub open spec fn kind_name(k: ClaimKind) -> Seq<char> {
    match k {
        ClaimKind::Stated => "stated"@,
        ClaimKind::Derived => "derived"@,
    }
}

/// A claim.
pub open spec fn claim_json(c: Claim) -> Seq<char> {
    json_object(
        with_opt_str(seq![member("value"@, json_str(c.value@))], "unit"@, c.unit).push(
            member("kind"@, json_str(kind_name(c.kind))),
        ).push(member("doc_id"@, json_str(c.doc_id@))),
    )
}

/// A source artifact.
pub open spec fn artifact_json(a: SourceArtifact) -> Seq<char> {
    json_object(
        with_opt_str(
            with_opt_str(
                seq![member("uri"@, json_str(a.uri@)), member("sha256"@, json_str(a.sha256@))],
                "retrieved_at"@,
                a.retrieved_at,
            ),
            "authority"@,
            a.authority,
        ),
    )
}

/// A byte range as a two-number array.
pub open spec fn range_json(r: (u64, u64)) -> Seq<char> {
    json_array(seq![dec_string(r.0 as nat), dec_string(r.1 as nat)])
}

/// A locator, tagged with its profile.
pub open spec fn locator_json(l: Locator) -> Seq<char> {
    let x = l->Xbrl_0;
    let m = with_opt_str(
        seq![
            member("profile"@, json_str("xbrl"@)),
            member("concept"@, json_str(x.concept@)),
            member("context_ref"@, json_str(x.context_ref@)),
        ],
        "unit_ref"@,
        x.unit_ref,
    );
    json_object(
        match x.byte_range {
            Some(r) => m.push(member("byte_range"@, range_json(r))),
            None => m,
        },
    )
}

/// An extraction.
pub open spec fn extraction_json(e: Extraction) -> Seq<char> {
    json_object(seq![member("engine"@, json_str(e.engine@))])
}

/// One piece of evidence.
pub open spec fn evidence_json(e: Evidence) -> Seq<char> {
    json_object(
        seq![
            member("source_artifact"@, artifact_json(e.source_artifact)),
            member("locator"@, locator_json(e.locator)),
            member("extraction"@, extraction_json(e.extraction)),
        ],
    )
}

/// The encodings of a list of evidence.
pub open spec fn evidence_items(es: Seq<Evidence>) -> Seq<Seq<char>> {
    es.map_values(|e: Evidence| evidence_json(e))
}

/// A rounding: a number or `null`.
pub open spec fn round_json(dp: Option<u32>) -> Seq<char> {
    match dp {
        Some(d) => dec_string(d as nat),
        None => "null"@,
    }
}

/// An operation, tagged by `op`.
pub open spec fn operation_json(o: Operation) -> Seq<char> {
    match o {
        Operation::Ratio { round_dp } => json_object(
            seq![member("op"@, json_str("ratio"@)), member("round_dp"@, round_json(round_dp))],
        ),
        Operation::Difference => json_object(seq![member("op"@, json_str("difference"@))]),
        Operation::GrowthRate { round_dp } => json_object(
            seq![member("op"@, json_str("growth_rate"@)), member("round_dp"@, round_json(round_dp))],
        ),
    }
}

/// A derivation input.
pub open spec fn input_json(i: DerivationInput) -> Seq<char> {
    json_object(
        seq![
            member("receipt_id"@, json_str(i.receipt_id@)),
            member("value"@, json_str(i.value@)),
            member("role"@, json_str(i.role@)),
        ],
    )
}

/// A derivation.
pub open spec fn derivation_json(d: Derivation) -> Seq<char> {
    json_object(
        seq![
            member("operation"@, operation_json(d.operation)),
            member("inputs"@, json_array(d.inputs@.map_values(|i: DerivationInput| input_json(i)))),
        ],
    )
}

/// The canonical body of a receipt: the schema version, the claim, the
/// evidence and the derivation (or `null`), as one JSON array.
pub open spec fn body_json(schema: Seq<char>, c: Claim, es: Seq<Evidence>, d: Option<Derivation>) -> Seq<char> {
    json_array(
        seq![
            json_str(schema),
            claim_json(c),
            json_array(evidence_items(es)),
            match d {
                Some(x) => derivation_json(x),
                None => "null"@,
            },
        ],
    )
}

// ---------------------------------------------------------------------------
// Encoding
// ---------------------------------------------------------------------------

fn push_all(out: &mut Vec<char>, s: &[char])
    ensures
        final(out)@ == old(out)@ + s@,
{
    let mut i: usize = 0;
    while i < s.len()
        invariant
            i <= s@.len(),
            out@ == old(out)@ + s@.take(i as int),
        decreases s@.len() - i,
    {
        out.push(s[i]);
        i += 1;
        assert(s@.take(i as int) =~= s@.take(i - 1).push(s@[i - 1]));
    }
    assert(s@.take(s@.len() as int) =~= s@);
}

fn escape_one(c: char) -> (r: Vec<char>)
    ensures
        r@ == escape_char(c),
{
    if c == '"' {
        vec!['\\', '"']
    } else if c == '\\' {
        vec!['\\', '\\']
    } else if c == '\u{8}' {
        vec!['\\', 'b']
    } else if c == '\t' {
        vec!['\\', 't']
    } else if c == '\n' {
        vec!['\\', 'n']
    } else if c == '\u{c}' {
        vec!['\\', 'f']
    } else if c == '\r' {
        vec!['\\', 'r']
    } else if (c as u32) < 32 {
        let n = c as u32;
        let hi = n / 16;
        let lo = n % 16;
        let h = if hi < 10 {
            ((48 + hi) as u8) as char
        } else {
            ((87 + hi) as u8) as char
        };
        let l = if lo < 10 {
            ((48 + lo) as u8) as char
        } else {
            ((87 + lo) as u8) as char
        };
        vec!['\\', 'u', '0', '0', h, l]
    } else {
        vec![c]
    }
}

/// The JSON string for `s`.
pub fn encode_str(s: &str) -> (r: Vec<char>)
    ensures
        r@ == json_str(s@),
{
    let cs = chars_of(s);
    let mut out: Vec<char> = vec!['"'];
    let mut i: usize = 0;
    while i < cs.len()
        invariant
            i <= cs@.len(),
            cs@ == s@,
            out@ == seq!['"'] + escape(cs@.take(i as int)),
        decreases cs@.len() - i,
    {
        proof {
            assert(cs@.take(i + 1).drop_last() =~= cs@.take(i as int));
        }
        let e = escape_one(cs[i]);
        push_all(&mut out, e.as_slice());
        i += 1;
    }
    assert(cs@.take(cs@.len() as int) =~= cs@);
    out.push('"');
    out
}

/// Items separated by commas.
pub fn encode_join(items: &Vec<Vec<char>>) -> (r: Vec<char>)
    ensures
        r@ == join(items@.map_values(|v: Vec<char>| v@)),
{
    let ghost views = items@.map_values(|v: Vec<char>| v@);
    let mut out: Vec<char> = Vec::new();
    let mut i: usize = 0;
    while i < items.len()
        invariant
            i <= items@.len(),
            views == items@.map_values(|v: Vec<char>| v@),
            out@ == join(views.take(i as int)),
        decreases items@.len() - i,
    {
        proof {
            assert(views.take(i + 1).drop_last() =~= views.take(i as int));
        }
        if i > 0 {
            out.push(',');
        }
        push_all(&mut out, items[i].as_slice());
        proof {
            if i == 0 {
                assert(views.take(1) =~= seq![items@[0]@]);
            }
        }
        i += 1;
    }
    assert(views.take(items@.len() as int) =~= views);
    out
}

fn wrap(open: char, inner: Vec<char>, close: char) -> (r: Vec<char>)
    ensures
        r@ == seq![open] + inner@ + seq![close],
{
    let mut out: Vec<char> = vec![open];
    push_all(&mut out, inner.as_slice());
    out.push(close);
    out
}

/// A JSON object of encoded members.
pub fn encode_object(members: &Vec<Vec<char>>) -> (r: Vec<char>)
    ensures
        r@ == json_object(members@.map_values(|v: Vec<char>| v@)),
{
    wrap('{', encode_join(members), '}')
}

/// A JSON array of encoded items.
pub fn encode_array(items: &Vec<Vec<char>>) -> (r: Vec<char>)
    ensures
        r@ == json_array(items@.map_values(|v: Vec<char>| v@)),
{
    wrap('[', encode_join(items), ']')
}

/// An object member with an encoded value.
pub fn encode_member(name: &str, value: Vec<char>) -> (r: Vec<char>)
    ensures
        r@ == member(name@, value@),
{
    let mut out = encode_str(name);
    out.push(':');
    push_all(&mut out, value.as_slice());
    out
}

fn push_opt_str(members: &mut Vec<Vec<char>>, name: &str, v: &Option<String>)
    ensures
        final(members)@.map_values(|x: Vec<char>| x@) == with_opt_str(
            old(members)@.map_values(|x: Vec<char>| x@),
            name@,
            *v,
        ),
{
    match v {
        Some(s) => {
            let m = encode_member(name, encode_str(s.as_str()));
            members.push(m);
            assert(members@.map_values(|x: Vec<char>| x@) =~= old(members)@.map_values(|x: Vec<char>| x@).push(
                member(name@, json_str(s@)),
            ));
        },
        None => {},
    }
}

proof fn lemma_views_push(v: Seq<Vec<char>>, x: Vec<char>)
    ensures
        v.push(x).map_values(|y: Vec<char>| y@) == v.map_values(|y: Vec<char>| y@).push(x@),
{
    assert(v.push(x).map_values(|y: Vec<char>| y@) =~= v.map_values(|y: Vec<char>| y@).push(x@));
}

/// The encoding of a claim.
pub fn encode_claim(c: &Claim) -> (r: Vec<char>)
    ensures
        r@ == claim_json(*c),
{
    let mut m: Vec<Vec<char>> = Vec::new();
    let ghost m0 = m@;
    m.push(encode_member("value", encode_str(c.value.as_str())));
    proof {
        lemma_views_push(m0, m@[0]);
        assert(m0.map_values(|y: Vec<char>| y@) =~= Seq::<Seq<char>>::empty());
    }
    push_opt_str(&mut m, "unit", &c.unit);
    let kind = match c.kind {
        ClaimKind::Stated => "stated",
        ClaimKind::Derived => "derived",
    };
    let ghost m1 = m@;
    let k = encode_member("kind", encode_str(kind));
    m.push(k);
    proof {
        lemma_views_push(m1, k);
    }
    let ghost m2 = m@;
    let d = encode_member("doc_id", encode_str(c.doc_id.as_str()));
    m.push(d);
    proof {
        lemma_views_push(m2, d);
    }
    encode_object(&m)
}

/// Pushes an encoded member onto a member list.
fn push_member(members: &mut Vec<Vec<char>>, name: &str, value: Vec<char>)
    ensures
        final(members)@.map_values(|x: Vec<char>| x@) == old(members)@.map_values(|x: Vec<char>| x@).push(
            member(name@, value@),
        ),
{
    let m = encode_member(name, value);
    let ghost before = members@;
    members.push(m);
    proof {
        lemma_views_push(before, m);
    }
}

fn empty_members() -> (m: Vec<Vec<char>>)
    ensures
        m@.map_values(|x: Vec<char>| x@) == Seq::<Seq<char>>::empty(),
{
    let m: Vec<Vec<char>> = Vec::new();
    assert(m@.map_values(|x: Vec<char>| x@) =~= Seq::<Seq<char>>::empty());
    m
}

/// The encoding of a source artifact.
pub fn encode_artifact(a: &SourceArtifact) -> (r: Vec<char>)
    ensures
        r@ == artifact_json(*a),
{
    let mut m = empty_members();
    push_member(&mut m, "uri", encode_str(a.uri.as_str()));
    push_member(&mut m, "sha256", encode_str(a.sha256.as_str()));
    assert(m@.map_values(|x: Vec<char>| x@) =~= seq![
        member("uri"@, json_str(a.uri@)),
        member("sha256"@, json_str(a.sha256@)),
    ]);
    push_opt_str(&mut m, "retrieved_at", &a.retrieved_at);
    push_opt_str(&mut m, "authority", &a.authority);
    encode_object(&m)
}

/// The encoding of a byte range.
pub fn encode_range(r: (u64, u64)) -> (out: Vec<char>)
    ensures
        out@ == range_json(r),
{
    let mut items: Vec<Vec<char>> = Vec::new();
    items.push(u64_to_chars(r.0));
    items.push(u64_to_chars(r.1));
    assert(items@.map_values(|v: Vec<char>| v@) =~= seq![dec_string(r.0 as nat), dec_string(r.1 as nat)]);
    encode_array(&items)
}

/// The encoding of a locator.
pub fn encode_locator(l: &Locator) -> (r: Vec<char>)
    ensures
        r@ == locator_json(*l),
{
    let x = l.xbrl();
    let mut m = empty_members();
    push_member(&mut m, "profile", encode_str("xbrl"));
    push_member(&mut m, "concept", encode_str(x.concept.as_str()));
    push_member(&mut m, "context_ref", encode_str(x.context_ref.as_str()));
    assert(m@.map_values(|y: Vec<char>| y@) =~= seq![
        member("profile"@, json_str("xbrl"@)),
        member("concept"@, json_str(x.concept@)),
        member("context_ref"@, json_str(x.context_ref@)),
    ]);
    push_opt_str(&mut m, "unit_ref", &x.unit_ref);
    match x.byte_range {
        Some(r) => push_member(&mut m, "byte_range", encode_range(r)),
        None => {},
    }
    encode_object(&m)
}

/// The encoding of an extraction.
pub fn encode_extraction(e: &Extraction) -> (r: Vec<char>)
    ensures
        r@ == extraction_json(*e),
{
    let mut m = empty_members();
    push_member(&mut m, "engine", encode_str(e.engine.as_str()));
    encode_object(&m)
}

/// The encoding of one piece of evidence.
pub fn encode_evidence(e: &Evidence) -> (r: Vec<char>)
    ensures
        r@ == evidence_json(*e),
{
    let mut m = empty_members();
    push_member(&mut m, "source_artifact", encode_artifact(&e.source_artifact));
    push_member(&mut m, "locator", encode_locator(&e.locator));
    push_member(&mut m, "extraction", encode_extraction(&e.extraction));
    assert(m@.map_values(|x: Vec<char>| x@) =~= seq![
        member("source_artifact"@, artifact_json(e.source_artifact)),
        member("locator"@, locator_json(e.locator)),
        member("extraction"@, extraction_json(e.extraction)),
    ]);
    encode_object(&m)
}

/// The encoding of a list of evidence.
pub fn encode_evidence_list(es: &[Evidence]) -> (r: Vec<char>)
    ensures
        r@ == json_array(evidence_items(es@)),
{
    let mut items: Vec<Vec<char>> = Vec::new();
    let mut i: usize = 0;
    while i < es.len()
        invariant
            i <= es@.len(),
            items@.map_values(|v: Vec<char>| v@) == evidence_items(es@.take(i as int)),
        decreases es@.len() - i,
    {
        let e = encode_evidence(&es[i]);
        let ghost before = items@;
        items.push(e);
        proof {
            lemma_views_push(before, e);
            assert(evidence_items(es@.take(i + 1)) =~= evidence_items(es@.take(i as int)).push(
                evidence_json(es@[i as int]),
            ));
        }
        i += 1;
    }
    assert(es@.take(es@.len() as int) =~= es@);
    encode_array(&items)
}

fn encode_round(dp: Option<u32>) -> (r: Vec<char>)
    ensures
        r@ == round_json(dp),
{
    match dp {
        Some(d) => u64_to_chars(d as u64),
        None => chars_of("null"),
    }
}

/// The encoding of an operation.
pub fn encode_operation(o: Operation) -> (r: Vec<char>)
    ensures
        r@ == operation_json(o),
{
    let mut m = empty_members();
    match o {
        Operation::Ratio { round_dp } => {
            push_member(&mut m, "op", encode_str("ratio"));
            push_member(&mut m, "round_dp", encode_round(round_dp));
            assert(m@.map_values(|x: Vec<char>| x@) =~= seq![
                member("op"@, json_str("ratio"@)),
                member("round_dp"@, round_json(round_dp)),
            ]);
        },
        Operation::Difference => {
            push_member(&mut m, "op", encode_str("difference"));
            assert(m@.map_values(|x: Vec<char>| x@) =~= seq![member("op"@, json_str("difference"@))]);
        },
        Operation::GrowthRate { round_dp } => {
            push_member(&mut m, "op", encode_str("growth_rate"));
            push_member(&mut m, "round_dp", encode_round(round_dp));
            assert(m@.map_values(|x: Vec<char>| x@) =~= seq![
                member("op"@, json_str("growth_rate"@)),
                member("round_dp"@, round_json(round_dp)),
            ]);
        },
    }
    encode_object(&m)
}

/// The encoding of a derivation input.
pub fn encode_input(i: &DerivationInput) -> (r: Vec<char>)
    ensures
        r@ == input_json(*i),
{
    let mut m = empty_members();
    push_member(&mut m, "receipt_id", encode_str(i.receipt_id.as_str()));
    push_member(&mut m, "value", encode_str(i.value.as_str()));
    push_member(&mut m, "role", encode_str(i.role.as_str()));
    assert(m@.map_values(|x: Vec<char>| x@) =~= seq![
        member("receipt_id"@, json_str(i.receipt_id@)),
        member("value"@, json_str(i.value@)),
        member("role"@, json_str(i.role@)),
    ]);
    encode_object(&m)
}

/// The encoding of a derivation.
pub fn encode_derivation(d: &Derivation) -> (r: Vec<char>)
    ensures
        r@ == derivation_json(*d),
{
    let mut items: Vec<Vec<char>> = Vec::new();
    let mut i: usize = 0;
    while i < d.inputs.len()
        invariant
            i <= d.inputs@.len(),
            items@.map_values(|v: Vec<char>| v@) == d.inputs@.take(i as int).map_values(
                |x: DerivationInput| input_json(x),
            ),
        decreases d.inputs@.len() - i,
    {
        let e = encode_input(&d.inputs[i]);
        let ghost before = items@;
        items.push(e);
        proof {
            lemma_views_push(before, e);
            assert(d.inputs@.take(i + 1).map_values(|x: DerivationInput| input_json(x)) =~= d.inputs@.take(
                i as int,
            ).map_values(|x: DerivationInput| input_json(x)).push(input_json(d.inputs@[i as int])));
        }
        i += 1;
    }
    assert(d.inputs@.take(d.inputs@.len() as int) =~= d.inputs@);
    let mut m = empty_members();
    push_member(&mut m, "operation", encode_operation(d.operation));
    push_member(&mut m, "inputs", encode_array(&items));
    assert(m@.map_values(|x: Vec<char>| x@) =~= seq![
        member("operation"@, operation_json(d.operation)),
        member("inputs"@, json_array(d.inputs@.map_values(|i: DerivationInput| input_json(i)))),
    ]);
    encode_object(&m)
}

/// The canonical body of a receipt as a string.
pub fn encode_body(schema: &str, c: &Claim, es: &[Evidence], d: &Option<Derivation>) -> (r: String)
    ensures
        r@ == body_json(schema@, *c, es@, *d),
{
    let mut items: Vec<Vec<char>> = Vec::new();
    items.push(encode_str(schema));
    items.push(encode_claim(c));
    items.push(encode_evidence_list(es));
    match d {
        Some(x) => items.push(encode_derivation(x)),
        None => items.push(chars_of("null")),
    }
    assert(items@.map_values(|v: Vec<char>| v@) =~= seq![
        json_str(schema@),
        claim_json(*c),
        json_array(evidence_items(es@)),
        match *d {
            Some(x) => derivation_json(x),
            None => "null"@,
        },
    ]);
    string_of(encode_array(&items).as_slice())
}

} // verus!
