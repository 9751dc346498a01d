//! Label linkbases (XBRL 2.1 §5.2.2.1) and the slice of XML Schema needed
//! to resolve `xlink:href` fragments to concept names.

pub mod role;

use vstd::prelude::*;
use vstd::string::StringSliceAdditionalSpecFns;

use crate::error::XbrlError;
use crate::normalize::{opt_str, TaxonomyResolver};
use crate::parser::{event_budget, sview};
use crate::strmap::StrMap;
use crate::text::{
    chars_of, clone_opt, is_lit, opt_str_eq, opt_view, split_once, split_once_chars, str_eq, string_of,
    strip_prefix, strip_prefix_chars,
};
use crate::types::QName;
use crate::xml::{
    attrs_text, decode_escaped, item_checked, item_name, new_reader, pairs_text, read_attributes, read_event,
    reader_items, start_attrs_checked, str_from_utf8, utf8_chars, utf8_error_message, utf8_valid_up_to,
    xml_items, XmlEvent, XmlItem,
};
use vstd::utf8::decode_utf8;

verus! {

// ---------------------------------------------------------------------------
// Local names of raw tag names
// ---------------------------------------------------------------------------

/// The bytes of a qualified name after its last `:`.
pub open spec fn local_bytes(q: Seq<u8>) -> Seq<u8>
    decreases q.len(),
{
    if q.len() == 0 {
        q
    } else if q.last() == 58u8 {
        Seq::empty()
    } else {
        local_bytes(q.drop_last()).push(q.last())
    }
}

/// The bytes of an ASCII string.
pub open spec fn ascii_bytes(s: Seq<char>) -> Seq<u8> {
    s.map_values(|c: char| c as u8)
}

/// The local part of a raw qualified name.
pub fn local_name(qualified: &[u8]) -> (r: Vec<u8>)
    ensures
        r@ == local_bytes(qualified@),
{
    let mut out: Vec<u8> = Vec::new();
    let mut i: usize = 0;
    while i < qualified.len()
        invariant
            i <= qualified@.len(),
            out@ == local_bytes(qualified@.take(i as int)),
        decreases qualified@.len() - i,
    {
        proof {
            assert(qualified@.take(i + 1).drop_last() =~= qualified@.take(i as int));
        }
        if qualified[i] == 58u8 {
            out = Vec::new();
        } else {
            out.push(qualified[i]);
        }
        i += 1;
    }
    proof {
        assert(qualified@.take(qualified@.len() as int) =~= qualified@);
    }
    out
}

/// Whether raw bytes spell an ASCII literal.
fn bytes_are(v: &[u8], lit: &str) -> (r: bool)
    ensures
        r == (v@ == ascii_bytes(lit@)),
{
    let l = chars_of(lit);
    if l.len() != v.len() {
        return false;
    }
    let mut i: usize = 0;
    while i < l.len()
        invariant
            l@ == lit@,
            l@.len() == v@.len(),
            i <= l@.len(),
            forall|j: int| 0 <= j < i ==> v@[j] == (l@[j] as u8),
        decreases l@.len() - i,
    {
        if l[i] as u8 != v[i] {
            assert(v@ != ascii_bytes(lit@)) by {
                assert(ascii_bytes(lit@)[i as int] == (l@[i as int] as u8));
            }
            return false;
        }
        i += 1;
    }
    assert(v@ =~= ascii_bytes(lit@));
    true
}

/// Attributes as a map: a repeated name keeps its last value.
pub open spec fn attrs_map(pairs: Seq<(String, String)>) -> Map<Seq<char>, String>
    decreases pairs.len(),
{
    if pairs.len() == 0 {
        Map::empty()
    } else {
        attrs_map(pairs.drop_last()).insert(pairs.last().0@, pairs.last().1)
    }
}

fn attr_table(pairs: &Vec<(String, String)>) -> (m: StrMap<String>)
    ensures
        m.view() == attrs_map(pairs@),
{
    let mut m: StrMap<String> = StrMap::new();
    let mut i: usize = 0;
    while i < pairs.len()
        invariant
            i <= pairs@.len(),
            m.view() == attrs_map(pairs@.take(i as int)),
        decreases pairs@.len() - i,
    {
        proof {
            assert(pairs@.take(i + 1).drop_last() =~= pairs@.take(i as int));
        }
        m.insert(pairs[i].0.clone(), pairs[i].1.clone());
        i += 1;
    }
    proof {
        assert(pairs@.take(pairs@.len() as int) =~= pairs@);
    }
    m
}

fn lookup(m: &StrMap<String>, key: &str) -> (r: Option<String>)
    ensures
        r == (if m.view().contains_key(key@) {
            Some(m.view()[key@])
        } else {
            None
        }),
{
    match m.get(key) {
        Some(v) => Some(v.clone()),
        None => None,
    }
}

// ---------------------------------------------------------------------------
// Schema index
// ---------------------------------------------------------------------------

/// The name recorded for `(href, id)`: the latest entry for that pair.
pub open spec fn schema_lookup(es: Seq<(String, String, QName)>, href: Seq<char>, id: Seq<char>) -> Option<QName>
    decreases es.len(),
{
    if es.len() == 0 {
        None
    } else if es.last().0@ == href && es.last().1@ == id {
        Some(es.last().2)
    } else {
        schema_lookup(es.drop_last(), href, id)
    }
}

/// Index from `(schema_href, element_id)` to the concept's qualified name.
pub struct SchemaIndex {
    entries: Vec<(String, String, QName)>,
}

impl SchemaIndex {
    /// The recorded entries, oldest first.
    pub closed spec fn entries(self) -> Seq<(String, String, QName)> {
        self.entries@
    }

    /// The index as a map from `(schema_href, element_id)` to names.
    pub open spec fn view(self) -> Map<(Seq<char>, Seq<char>), QName> {
        Map::new(
            |k: (Seq<char>, Seq<char>)| schema_lookup(self.entries(), k.0, k.1) is Some,
            |k: (Seq<char>, Seq<char>)| schema_lookup(self.entries(), k.0, k.1).unwrap(),
        )
    }

    /// An empty index.
    pub fn new() -> (s: SchemaIndex)
        ensures
            s.view() == Map::<(Seq<char>, Seq<char>), QName>::empty(),
    {
        let s = SchemaIndex { entries: Vec::new() };
        assert(s.view() =~= Map::<(Seq<char>, Seq<char>), QName>::empty());
        s
    }

    /// Records `q` under `(href, id)`, replacing an earlier name.
    fn record(&mut self, href: String, id: String, q: QName)
        ensures
            final(self).view() == old(self).view().insert((href@, id@), q),
    {
        let ghost before = self.entries@;
        self.entries.push((href, id, q));
        proof {
            assert(self.entries@.drop_last() =~= before);
            assert(self.view() =~= old(self).view().insert((href@, id@), q));
        }
    }

    /// The name recorded for `(schema_href, fragment)`.
    pub fn resolve(&self, schema_href: &str, fragment: &str) -> (r: Option<&QName>)
        ensures
            match r {
                Some(q) => self.view().contains_key((schema_href@, fragment@)) && *q == self.view()[(
                    schema_href@,
                    fragment@,
                )],
                None => !self.view().contains_key((schema_href@, fragment@)),
            },
    {
        let mut i: usize = self.entries.len();
        assert(self.entries@.take(i as int) =~= self.entries@);
        while i > 0
            invariant
                i <= self.entries@.len(),
                schema_lookup(self.entries@, schema_href@, fragment@) == schema_lookup(
                    self.entries@.take(i as int),
                    schema_href@,
                    fragment@,
                ),
            decreases i,
        {
            let e = &self.entries[i - 1];
            proof {
                assert(self.entries@.take(i as int).drop_last() =~= self.entries@.take(i - 1));
            }
            if crate::text::str_eq(e.0.as_str(), schema_href) && crate::text::str_eq(e.1.as_str(), fragment) {
                return Some(&e.2);
            }
            i -= 1;
        }
        None
    }

    /// A name recorded for `fragment` under any schema.
    pub fn resolve_by_fragment(&self, fragment: &str) -> (r: Option<&QName>)
        ensures
            match r {
                Some(q) => exists|h: Seq<char>|
                    #[trigger] self.view().contains_key((h, fragment@)) && *q == self.view()[(h, fragment@)],
                None => forall|h: Seq<char>| !(#[trigger] self.view().contains_key((h, fragment@))),
            },
    {
        let mut i: usize = self.entries.len();
        while i > 0
            invariant
                i <= self.entries@.len(),
                forall|j: int| i <= j < self.entries@.len() ==> (#[trigger] self.entries@[j]).1@ != fragment@,
            decreases i,
        {
            let e = &self.entries[i - 1];
            if crate::text::str_eq(e.1.as_str(), fragment) {
                proof {
                    lemma_schema_latest(self.entries@, (i - 1) as int);
                    assert(self.view().contains_key((e.0@, fragment@)));
                }
                return Some(&e.2);
            }
            i -= 1;
        }
        proof {
            assert forall|h: Seq<char>| !(#[trigger] self.view().contains_key((h, fragment@))) by {
                lemma_schema_lookup_none(self.entries@, h, fragment@);
            }
        }
        None
    }
}

/// An entry with no later entry of its id is the one its pair resolves to.
proof fn lemma_schema_latest(es: Seq<(String, String, QName)>, i: int)
    requires
        0 <= i < es.len(),
        forall|j: int| i < j < es.len() ==> (#[trigger] es[j]).1@ != es[i].1@,
    ensures
        schema_lookup(es, es[i].0@, es[i].1@) == Some(es[i].2),
    decreases es.len(),
{
    if i < es.len() - 1 {
        assert(es.last() == es[es.len() - 1]);
        lemma_schema_latest(es.drop_last(), i);
    }
}

/// No entry has the id, so no pair with it resolves.
proof fn lemma_schema_lookup_none(es: Seq<(String, String, QName)>, h: Seq<char>, id: Seq<char>)
    requires
        forall|j: int| 0 <= j < es.len() ==> (#[trigger] es[j]).1@ != id,
    ensures
        schema_lookup(es, h, id) is None,
    decreases es.len(),
{
    if es.len() > 0 {
        assert(es.last() == es[es.len() - 1]);
        lemma_schema_lookup_none(es.drop_last(), h, id);
    }
}

/// The namespace declarations seen so far while reading a schema.
pub struct SchemaScope {
    pub target_namespace: Option<String>,
    pub prefixes: StrMap<String>,
}

/// The declarations after reading one attribute: `targetNamespace` sets
/// the target namespace and `xmlns:p` binds `p`.
pub open spec fn scope_step(
    st: (Option<Seq<char>>, Map<Seq<char>, Seq<char>>),
    kv: (String, String),
) -> (Option<Seq<char>>, Map<Seq<char>, Seq<char>>) {
    if kv.0@ == "targetNamespace"@ {
        (Some(kv.1@), st.1)
    } else if strip_prefix(kv.0@, "xmlns:"@) is Some {
        (st.0, st.1.insert(strip_prefix(kv.0@, "xmlns:"@).unwrap(), kv.1@))
    } else {
        st
    }
}

/// `scope_step` over a tag's attributes, in order.
pub open spec fn scope_fold(
    pairs: Seq<(String, String)>,
    st: (Option<Seq<char>>, Map<Seq<char>, Seq<char>>),
) -> (Option<Seq<char>>, Map<Seq<char>, Seq<char>>)
    decreases pairs.len(),
{
    if pairs.len() == 0 {
        st
    } else {
        scope_step(scope_fold(pairs.drop_last(), st), pairs.last())
    }
}

/// The declarations as views.
pub open spec fn scope_view(s: SchemaScope) -> (Option<Seq<char>>, Map<Seq<char>, Seq<char>>) {
    (opt_view(s.target_namespace), sview(s.prefixes.view()))
}

/// The name an `element` declaration gets: the target namespace, a prefix
/// bound to it (if any is), and its `name`.
pub open spec fn declared_name(q: QName, scope: (Option<Seq<char>>, Map<Seq<char>, Seq<char>>), name: Seq<char>) -> bool {
    &&& opt_view(q.namespace_uri) == scope.0
    &&& q.local_name@ == name
    &&& match q.prefix {
        Some(p) => scope.0 is Some && scope.1.contains_key(p@) && scope.1[p@] == scope.0.unwrap(),
        None => scope.0 is None || forall|p: Seq<char>| #[trigger] scope.1.contains_key(p) ==> scope.1[p]
            != scope.0.unwrap(),
    }
}

/// A prefix bound to `ns`, if any is.
fn prefix_of(prefixes: &StrMap<String>, ns: &str) -> (r: Option<String>)
    ensures
        match r {
            Some(p) => prefixes.view().contains_key(p@) && prefixes.view()[p@]@ == ns@,
            None => forall|p: Seq<char>| #[trigger] prefixes.view().contains_key(p) ==> prefixes.view()[p]@
                != ns@,
        },
{
    let n = prefixes.len();
    let mut i: usize = 0;
    while i < n
        invariant
            n == prefixes.kv().len(),
            i <= n,
            forall|j: int| 0 <= j < i ==> (#[trigger] prefixes.kv()[j]).1@ != ns@,
        decreases n - i,
    {
        let (k, v) = prefixes.entry(i);
        if crate::text::str_eq(v.as_str(), ns) {
            return Some(k.clone());
        }
        i += 1;
    }
    proof {
        assert forall|p: Seq<char>| #[trigger] prefixes.view().contains_key(p) implies prefixes.view()[p]@ != ns@ by {
            let j = StrMap::<String>::key_index(prefixes.kv(), p);
            assert(prefixes.has(p));
            assert(0 <= j < prefixes.kv().len() && prefixes.kv()[j].0 == p);
        }
    }
    None
}

/// What one tag of a schema, with raw name `name` and attributes `pairs`,
/// does to the index `v0` and the declarations in scope `sc0`, as
/// `schema_tag` states.
pub open spec fn schema_tag_applied(
    v0: Map<(Seq<char>, Seq<char>), QName>,
    sc0: (Option<Seq<char>>, Map<Seq<char>, Seq<char>>),
    v1: Map<(Seq<char>, Seq<char>), QName>,
    sc1: (Option<Seq<char>>, Map<Seq<char>, Seq<char>>),
    href: Seq<char>,
    name: Seq<u8>,
    pairs: Seq<(String, String)>,
) -> bool {
    let attrs = attrs_map(pairs);
    &&& sc1 == scope_fold(pairs, sc0)
    &&& if local_bytes(name) == ascii_bytes("element"@) && attrs.contains_key("id"@) && attrs.contains_key("name"@) {
        let key = (href, attrs["id"@]@);
        &&& v1 == v0.insert(key, v1[key])
        &&& declared_name(v1[key], sc1, attrs["name"@]@)
    } else {
        v1 == v0
    }
}

/// One event of a schema, read without error: a start or empty tag, its
/// attributes read (checked for repeated names), applied as
/// `schema_tag_applied`; any other event but the end of input or an error
/// changes nothing.
pub open spec fn schema_event_step(
    v0: Map<(Seq<char>, Seq<char>), QName>,
    sc0: (Option<Seq<char>>, Map<Seq<char>, Seq<char>>),
    v1: Map<(Seq<char>, Seq<char>), QName>,
    sc1: (Option<Seq<char>>, Map<Seq<char>, Seq<char>>),
    href: Seq<char>,
    item: XmlItem,
) -> bool {
    if item is Start || item is Empty {
        &&& attrs_text(item_checked(item)) is Some
        &&& exists|pairs: Seq<(String, String)>|
            pairs_text(pairs) == attrs_text(item_checked(item)).unwrap() && #[trigger] schema_tag_applied(
                v0,
                sc0,
                v1,
                sc1,
                href,
                item_name(item).unwrap(),
                pairs,
            )
    } else if item is Eof || item is Error || item is Begin {
        false
    } else {
        v1 == v0 && sc1 == sc0
    }
}

/// The first `vs.len() - 1` events `ev` take the index and scope through
/// `vs` and `ss`, one event at a time.
pub open spec fn schema_path(
    vs: Seq<Map<(Seq<char>, Seq<char>), QName>>,
    ss: Seq<(Option<Seq<char>>, Map<Seq<char>, Seq<char>>)>,
    href: Seq<char>,
    ev: Seq<XmlItem>,
) -> bool {
    &&& vs.len() > 0
    &&& ss.len() == vs.len()
    &&& vs.len() <= ev.len()
    &&& ss[0] == (None::<Seq<char>>, Map::<Seq<char>, Seq<char>>::empty())
    &&& forall|k: int| 0 <= k < vs.len() - 1 ==> schema_event_step(#[trigger] vs[k], ss[k], vs[k + 1], ss[k + 1], href, ev[k])
}

/// Reading the schema whose events are `ev` under `href` takes the index
/// from `v0` to `v`: the events up to the end of input apply in order.
pub open spec fn schema_read(
    v0: Map<(Seq<char>, Seq<char>), QName>,
    href: Seq<char>,
    ev: Seq<XmlItem>,
    v: Map<(Seq<char>, Seq<char>), QName>,
) -> bool {
    exists|vs: Seq<Map<(Seq<char>, Seq<char>), QName>>, ss: Seq<(Option<Seq<char>>, Map<Seq<char>, Seq<char>>)>|
        {
            &&& #[trigger] schema_path(vs, ss, href, ev)
            &&& vs[0] == v0
            &&& ev[vs.len() - 1] is Eof
            &&& v == vs.last()
        }
}

/// Reading the schema whose events are `ev` fails: some events apply in
/// order, then the next one is an error or a tag whose attributes do not
/// read, or the event budget runs out.
pub open spec fn schema_fails(
    v0: Map<(Seq<char>, Seq<char>), QName>,
    href: Seq<char>,
    ev: Seq<XmlItem>,
    budget: int,
) -> bool {
    exists|vs: Seq<Map<(Seq<char>, Seq<char>), QName>>, ss: Seq<(Option<Seq<char>>, Map<Seq<char>, Seq<char>>)>|
        {
            &&& #[trigger] schema_path(vs, ss, href, ev)
            &&& vs[0] == v0
            &&& ({
                let item = ev[vs.len() - 1];
                ||| item is Error
                ||| ((item is Start || item is Empty) && attrs_text(item_checked(item)) is None)
                ||| vs.len() - 1 == budget
            })
        }
}

impl SchemaIndex {
    /// Reads one start tag of a schema document: its attributes update the
    /// namespace declarations, and an `element` with an `id` and a `name`
    /// records its concept name under `(schema_href, id)`.
    pub fn schema_tag(
        &mut self,
        scope: &mut SchemaScope,
        schema_href: &str,
        name: &[u8],
        pairs: &Vec<(String, String)>,
    )
        ensures
            scope_view(*final(scope)) == scope_fold(pairs@, scope_view(*old(scope))),
            ({
                let attrs = attrs_map(pairs@);
                if local_bytes(name@) == ascii_bytes("element"@) && attrs.contains_key("id"@)
                    && attrs.contains_key("name"@) {
                    let key = (schema_href@, attrs["id"@]@);
                    &&& final(self).view() == old(self).view().insert(key, final(self).view()[key])
                    &&& declared_name(final(self).view()[key], scope_view(*final(scope)), attrs["name"@]@)
                } else {
                    final(self).view() == old(self).view()
                }
            }),
    {
        let mut i: usize = 0;
        while i < pairs.len()
            invariant
                i <= pairs@.len(),
                scope_view(*scope) == scope_fold(pairs@.take(i as int), scope_view(*old(scope))),
            decreases pairs@.len() - i,
        {
            proof {
                assert(pairs@.take(i + 1).drop_last() =~= pairs@.take(i as int));
            }
            let k = chars_of(pairs[i].0.as_str());
            let xmlns: [char; 6] = ['x', 'm', 'l', 'n', 's', ':'];
            proof {
                reveal_strlit("xmlns:");
                assert(xmlns@ =~= "xmlns:"@);
            }
            if is_lit(k.as_slice(), "targetNamespace") {
                scope.target_namespace = Some(pairs[i].1.clone());
            } else {
                match strip_prefix_chars(k.as_slice(), xmlns.as_slice()) {
                    Some(p) => {
                        let ghost before = sview(scope.prefixes.view());
                        scope.prefixes.insert(string_of(p.as_slice()), pairs[i].1.clone());
                        assert(sview(scope.prefixes.view()) =~= before.insert(p@, pairs@[i as int].1@));
                    },
                    None => {},
                }
            }
            i += 1;
        }
        proof {
            assert(pairs@.take(pairs@.len() as int) =~= pairs@);
        }
        let local = local_name(name);
        if !bytes_are(local.as_slice(), "element") {
            return;
        }
        let attrs = attr_table(pairs);
        let id = match lookup(&attrs, "id") {
            Some(v) => v,
            None => {
                return;
            },
        };
        let elem_name = match lookup(&attrs, "name") {
            Some(v) => v,
            None => {
                return;
            },
        };
        let prefix = match &scope.target_namespace {
            Some(ns) => prefix_of(&scope.prefixes, ns.as_str()),
            None => None,
        };
        let q = QName {
            namespace_uri: clone_opt(&scope.target_namespace),
            prefix,
            local_name: elem_name,
        };
        self.record(schema_href.to_owned(), id, q);
    }

    /// Reads an XBRL taxonomy schema and records its element declarations
    /// under `schema_href` (the name used in `xlink:href`). Input that is
    /// not UTF-8 is an error that gives the offset of the first bad byte.
    pub fn ingest_schema(&mut self, schema_href: &str, input: &[u8]) -> (r: Result<(), XbrlError>)
        ensures
            !vstd::utf8::valid_utf8(input@) ==> (r matches Err(XbrlError::Xml { byte_offset: Some(_), .. })
                && final(self).view() == old(self).view()),
            forall|k: (Seq<char>, Seq<char>)|
                #[trigger] old(self).view().contains_key(k) ==> final(self).view().contains_key(k),
            forall|k: (Seq<char>, Seq<char>)|
                k.0 != schema_href@ ==> #[trigger] final(self).view().get(k) == old(self).view().get(k),
            r is Ok ==> schema_read(old(self).view(), schema_href@, xml_items(decode_utf8(input@)), final(self).view()),
            r is Err && vstd::utf8::valid_utf8(input@) ==> schema_fails(
                old(self).view(),
                schema_href@,
                xml_items(decode_utf8(input@)),
                event_budget(input@.len() as int),
            ),
    {
        let s = match str_from_utf8(input) {
            Ok(s) => s,
            Err(e) => {
                let message = utf8_error_message(&e);
                let offset = utf8_valid_up_to(&e) as u64;
                return Err(XbrlError::Xml { message, byte_offset: Some(offset) });
            },
        };
        let mut reader = new_reader(s);
        let ghost ev = xml_items(s@);
        let ghost all = reader_items(reader);
        assert(all.drop_first() =~= ev);
        let mut scope = SchemaScope { target_namespace: None, prefixes: StrMap::new() };
        let mut remaining: usize = if input.len() < usize::MAX {
            input.len() + 1
        } else {
            usize::MAX
        };
        let ghost budget = remaining as int;
        let ghost mut vs: Seq<Map<(Seq<char>, Seq<char>), QName>> = seq![self.view()];
        let ghost mut ss: Seq<(Option<Seq<char>>, Map<Seq<char>, Seq<char>>)> = seq![scope_view(scope)];
        assert(scope_view(scope).1 =~= Map::<Seq<char>, Seq<char>>::empty());
        loop
            invariant
                vstd::utf8::valid_utf8(input@),
                ev == xml_items(decode_utf8(input@)),
                crate::xml::items_end_well(ev, s.spec_bytes().len() as int),
                forall|k: (Seq<char>, Seq<char>)|
                    #[trigger] old(self).view().contains_key(k) ==> self.view().contains_key(k),
                forall|k: (Seq<char>, Seq<char>)|
                    k.0 != schema_href@ ==> #[trigger] self.view().get(k) == old(self).view().get(k),
                schema_path(vs, ss, schema_href@, ev),
                vs[0] == old(self).view(),
                vs.last() == self.view(),
                ss.last() == scope_view(scope),
                vs.len() - 1 + remaining == budget,
                budget == event_budget(input@.len() as int),
                vs.len() <= ev.len(),
                forall|k: int| 0 <= k < vs.len() - 1 ==> !(#[trigger] ev[k] is Eof) && !(ev[k] is Error),
                reader_items(reader).len() > 0,
                reader_items(reader).drop_first() == ev.skip(vs.len() - 1),
            decreases remaining,
        {
            let ghost k = vs.len() - 1;
            if remaining == 0 {
                assert(schema_fails(old(self).view(), schema_href@, ev, budget));
                return Err(XbrlError::Xml { message: "document does not end".to_string(), byte_offset: None });
            }
            remaining -= 1;
            proof {
                assert(k < ev.len());
                assert(ev.skip(k)[0] == ev[k]);
                assert(ev.skip(k).len() > 0);
                assert(reader_items(reader).len() > 1);
                assert(reader_items(reader).drop_first()[0] == reader_items(reader)[1]);
                assert(reader_items(reader)[1] == ev[k]);
            }
            let event = match read_event(&mut reader) {
                Ok(e) => e,
                Err(e) => {
                    assert(schema_fails(old(self).view(), schema_href@, ev, budget));
                    return Err(XbrlError::QuickXml(e));
                },
            };
            let ghost v0 = self.view();
            let ghost sc0 = scope_view(scope);
            match event {
                XmlEvent::Start(e, name) | XmlEvent::Empty(e, name) => {
                    let pairs = match read_attributes(&e, true) {
                        Ok(p) => p,
                        Err(err) => {
                            assert(schema_fails(old(self).view(), schema_href@, ev, budget));
                            return Err(err);
                        },
                    };
                    let ghost before = self.view();
                    self.schema_tag(&mut scope, schema_href, name.as_slice(), &pairs);
                    assert forall|k: (Seq<char>, Seq<char>)| k.0 != schema_href@ implies #[trigger] self.view().get(
                        k,
                    ) == before.get(k) by {
                        assert(self.view().contains_key(k) == before.contains_key(k));
                        if before.contains_key(k) {
                            assert(self.view()[k] == before[k]);
                        }
                    }
                    assert(schema_tag_applied(v0, sc0, self.view(), scope_view(scope), schema_href@, name@, pairs@));
                    assert(ev[k] is Start || ev[k] is Empty);
                    assert(item_checked(ev[k]) == start_attrs_checked(e));
                    assert(item_name(ev[k]) == Some(name@));
                    assert(attrs_text(item_checked(ev[k])) == Some(pairs_text(pairs@)));
                    assert(schema_tag_applied(
                        v0,
                        sc0,
                        self.view(),
                        scope_view(scope),
                        schema_href@,
                        item_name(ev[k]).unwrap(),
                        pairs@,
                    ));
                    assert(schema_event_step(v0, sc0, self.view(), scope_view(scope), schema_href@, ev[k]));
                },
                XmlEvent::Eof => {
                    assert(schema_read(old(self).view(), schema_href@, ev, self.view()));
                    return Ok(());
                },
                _ => {
                    assert(schema_event_step(v0, sc0, self.view(), scope_view(scope), schema_href@, ev[k]));
                },
            }
            proof {
                assert(k < ev.len() - 1) by {
                    if k == ev.len() - 1 {
                        assert(ev[k] == ev.last());
                    }
                }
                let ovs = vs;
                let oss = ss;
                vs = vs.push(self.view());
                ss = ss.push(scope_view(scope));
                assert forall|j: int| 0 <= j < vs.len() - 1 implies schema_event_step(
                    #[trigger] vs[j],
                    ss[j],
                    vs[j + 1],
                    ss[j + 1],
                    schema_href@,
                    ev[j],
                ) by {
                    if j < ovs.len() - 1 {
                        assert(vs[j] == ovs[j] && ss[j] == oss[j] && vs[j + 1] == ovs[j + 1] && ss[j + 1] == oss[j + 1]);
                    }
                }
                assert(ev.skip(k).drop_first() =~= ev.skip(k + 1));
            }
        }
    }
}

// ---------------------------------------------------------------------------
// Label linkbase
// ---------------------------------------------------------------------------

/// One label: the concept (namespace and local name), role, language and text.
pub struct LabelEntry {
    pub namespace: Option<String>,
    pub local: String,
    pub role: String,
    pub lang: String,
    pub text: String,
}

/// The key of a label: concept namespace, local name, role, language.
pub open spec fn label_key(e: LabelEntry) -> (Option<Seq<char>>, Seq<char>, Seq<char>, Seq<char>) {
    (opt_view(e.namespace), e.local@, e.role@, e.lang@)
}

/// The latest label recorded under key `k`.
pub open spec fn label_exact(
    es: Seq<LabelEntry>,
    k: (Option<Seq<char>>, Seq<char>, Seq<char>, Seq<char>),
) -> Option<Seq<char>>
    decreases es.len(),
{
    if es.len() == 0 {
        None
    } else if label_key(es.last()) == k {
        Some(es.last().text@)
    } else {
        label_exact(es.drop_last(), k)
    }
}

/// The latest label recorded for a concept and role, in any language.
pub open spec fn label_any_lang(es: Seq<LabelEntry>, ns: Option<Seq<char>>, local: Seq<char>, role: Seq<char>) -> Option<
    Seq<char>,
>
    decreases es.len(),
{
    if es.len() == 0 {
        None
    } else if opt_view(es.last().namespace) == ns && es.last().local@ == local && es.last().role@ == role {
        Some(es.last().text@)
    } else {
        label_any_lang(es.drop_last(), ns, local, role)
    }
}

/// The language key of a lookup: the language, or empty.
pub open spec fn lang_key(lang: Option<&str>) -> Seq<char> {
    match lang {
        Some(l) => l@,
        None => ""@,
    }
}

/// A parsed label linkbase, indexed by concept (namespace and local name;
/// the prefix plays no part), role and language.
pub struct LabelLinkbase {
    entries: Vec<LabelEntry>,
}

impl LabelLinkbase {
    /// The recorded labels, oldest first.
    pub closed spec fn entries(self) -> Seq<LabelEntry> {
        self.entries@
    }

    /// The labels as a map from (namespace, local name, role, language).
    pub open spec fn view(self) -> Map<(Option<Seq<char>>, Seq<char>, Seq<char>, Seq<char>), Seq<char>> {
        Map::new(
            |k: (Option<Seq<char>>, Seq<char>, Seq<char>, Seq<char>)| label_exact(self.entries(), k) is Some,
            |k: (Option<Seq<char>>, Seq<char>, Seq<char>, Seq<char>)| label_exact(self.entries(), k).unwrap(),
        )
    }

    /// The label `lookup` gives: the one for the language, else the latest
    /// one for the concept and role in any language.
    pub open spec fn label_text(self, name: QName, role: Seq<char>, lang: Seq<char>) -> Option<Seq<char>> {
        let ns = opt_view(name.namespace_uri);
        match label_exact(self.entries(), (ns, name.local_name@, role, lang)) {
            Some(t) => Some(t),
            None => label_any_lang(self.entries(), ns, name.local_name@, role),
        }
    }

    /// An empty linkbase.
    pub fn new() -> (l: LabelLinkbase)
        ensures
            l.view() == Map::<(Option<Seq<char>>, Seq<char>, Seq<char>, Seq<char>), Seq<char>>::empty(),
    {
        let l = LabelLinkbase { entries: Vec::new() };
        assert(l.view() =~= Map::<(Option<Seq<char>>, Seq<char>, Seq<char>, Seq<char>), Seq<char>>::empty());
        l
    }

    /// Records `text` as the label of `q` for `role` and `lang`.
    fn record(&mut self, q: &QName, role: String, lang: String, text: String)
        ensures
            final(self).view() == old(self).view().insert(
                (opt_view(q.namespace_uri), q.local_name@, role@, lang@),
                text@,
            ),
    {
        let ghost before = self.entries@;
        self.entries.push(
            LabelEntry {
                namespace: clone_opt(&q.namespace_uri),
                local: q.local_name.clone(),
                role,
                lang,
                text,
            },
        );
        proof {
            assert(self.entries@.drop_last() =~= before);
            assert(self.view() =~= old(self).view().insert(
                (opt_view(q.namespace_uri), q.local_name@, role@, lang@),
                text@,
            ));
        }
    }

    /// The label of `name` for `role` in `lang` (no language: the empty
    /// one); failing that, a label for the concept and role in any language.
    pub fn lookup(&self, name: &QName, role: &str, lang: Option<&str>) -> (r: Option<&str>)
        ensures
            opt_str(r) == self.label_text(*name, role@, lang_key(lang)),
            ({
                let k = (opt_view(name.namespace_uri), name.local_name@, role@, lang_key(lang));
                self.view().contains_key(k) ==> opt_str(r) == Some(self.view()[k])
            }),
            r matches Some(t) ==> exists|lg: Seq<char>|
                #[trigger] self.view().contains_key((opt_view(name.namespace_uri), name.local_name@, role@, lg))
                    && self.view()[(opt_view(name.namespace_uri), name.local_name@, role@, lg)] == t@,
            r is None ==> forall|lg: Seq<char>|
                !(#[trigger] self.view().contains_key((opt_view(name.namespace_uri), name.local_name@, role@, lg))),
    {
        let lg: &str = match lang {
            Some(l) => l,
            None => "",
        };
        let ghost ns = opt_view(name.namespace_uri);
        let ghost k = (ns, name.local_name@, role@, lg@);
        assert(lg@ == lang_key(lang));
        let mut i: usize = self.entries.len();
        assert(self.entries@.take(i as int) =~= self.entries@);
        while i > 0
            invariant
                ns == opt_view(name.namespace_uri),
                k == (ns, name.local_name@, role@, lg@),
                lg@ == lang_key(lang),
                i <= self.entries@.len(),
                label_exact(self.entries@, k) == label_exact(self.entries@.take(i as int), k),
            decreases i,
        {
            let e = &self.entries[i - 1];
            proof {
                assert(self.entries@.take(i as int).drop_last() =~= self.entries@.take(i - 1));
                assert(self.entries@.take(i as int).last() == self.entries@[i - 1]);
            }
            if opt_str_eq(&e.namespace, &name.namespace_uri) && str_eq(e.local.as_str(), name.local_name.as_str())
                && str_eq(e.role.as_str(), role) && str_eq(e.lang.as_str(), lg) {
                assert(label_key(self.entries@[i - 1]) == k);
                assert(self.view().contains_key(k));
                return Some(e.text.as_str());
            }
            i -= 1;
        }
        let mut j: usize = self.entries.len();
        assert(self.entries@.take(j as int) =~= self.entries@);
        while j > 0
            invariant
                ns == opt_view(name.namespace_uri),
                k == (ns, name.local_name@, role@, lg@),
                lg@ == lang_key(lang),
                j <= self.entries@.len(),
                label_exact(self.entries@, k) is None,
                forall|m: int|
                    j <= m < self.entries@.len() ==> !(opt_view((#[trigger] self.entries@[m]).namespace) == ns
                        && self.entries@[m].local@ == name.local_name@ && self.entries@[m].role@ == role@),
                label_any_lang(self.entries@, ns, name.local_name@, role@) == label_any_lang(
                    self.entries@.take(j as int),
                    ns,
                    name.local_name@,
                    role@,
                ),
            decreases j,
        {
            let e = &self.entries[j - 1];
            proof {
                assert(self.entries@.take(j as int).drop_last() =~= self.entries@.take(j - 1));
                assert(self.entries@.take(j as int).last() == self.entries@[j - 1]);
            }
            if opt_str_eq(&e.namespace, &name.namespace_uri) && str_eq(e.local.as_str(), name.local_name.as_str())
                && str_eq(e.role.as_str(), role) {
                proof {
                    lemma_any_lang_found(self.entries@, (j - 1) as int, ns, name.local_name@, role@);
                    assert(self.view().contains_key(label_key(self.entries@[j - 1])));
                }
                return Some(e.text.as_str());
            }
            j -= 1;
        }
        proof {
            assert forall|l2: Seq<char>| !(#[trigger] self.view().contains_key((ns, name.local_name@, role@, l2))) by {
                lemma_any_lang_none(self.entries@, ns, name.local_name@, role@, l2);
            }
        }
        None
    }
}

/// What the any-language lookup finds is the live label of its own key.
proof fn lemma_any_lang_found(es: Seq<LabelEntry>, i: int, ns: Option<Seq<char>>, local: Seq<char>, role: Seq<char>)
    requires
        0 <= i < es.len(),
        opt_view(es[i].namespace) == ns && es[i].local@ == local && es[i].role@ == role,
        forall|j: int|
            i < j < es.len() ==> !(opt_view((#[trigger] es[j]).namespace) == ns && es[j].local@ == local
                && es[j].role@ == role),
    ensures
        label_any_lang(es, ns, local, role) == Some(es[i].text@),
        label_exact(es, label_key(es[i])) == Some(es[i].text@),
    decreases es.len(),
{
    if i < es.len() - 1 {
        assert(es.last() == es[es.len() - 1]);
        lemma_any_lang_found(es.drop_last(), i, ns, local, role);
    }
}

/// With no label for the concept and role, no language has one.
proof fn lemma_any_lang_none(es: Seq<LabelEntry>, ns: Option<Seq<char>>, local: Seq<char>, role: Seq<char>, lang: Seq<char>)
    requires
        label_any_lang(es, ns, local, role) is None,
    ensures
        label_exact(es, (ns, local, role, lang)) is None,
    decreases es.len(),
{
    if es.len() > 0 {
        lemma_any_lang_none(es.drop_last(), ns, local, role, lang);
    }
}

/// The role key of a label request: the role, or the standard label.
pub open spec fn role_key(role: Option<&str>) -> Seq<char> {
    match role {
        Some(r) => r@,
        None => role::LABEL@,
    }
}

impl TaxonomyResolver for LabelLinkbase {
    open spec fn label_of(&self, name: QName, role: Option<Seq<char>>, lang: Option<Seq<char>>) -> Option<Seq<char>> {
        self.label_text(
            name,
            match role {
                Some(r) => r,
                None => role::LABEL@,
            },
            match lang {
                Some(l) => l,
                None => ""@,
            },
        )
    }

    fn label(&self, name: &QName, role: Option<&str>, lang: Option<&str>) -> (r: Option<String>)
        ensures
            opt_view(r) == self.label_text(*name, role_key(role), lang_key(lang)),
    {
        let role: &str = match role {
            Some(r) => r,
            None => role::LABEL,
        };
        match self.lookup(name, role, lang) {
            Some(t) => Some(t.to_owned()),
            None => None,
        }
    }
}

/// A resolver that prefers a given language when the caller names none.
pub struct LangPreferringResolver {
    pub linkbase: LabelLinkbase,
    pub lang: String,
}

impl TaxonomyResolver for LangPreferringResolver {
    open spec fn label_of(&self, name: QName, role: Option<Seq<char>>, lang: Option<Seq<char>>) -> Option<Seq<char>> {
        self.linkbase.label_text(
            name,
            match role {
                Some(r) => r,
                None => role::LABEL@,
            },
            match lang {
                Some(l) => l,
                None => self.lang@,
            },
        )
    }

    fn label(&self, name: &QName, role: Option<&str>, lang: Option<&str>) -> (r: Option<String>)
        ensures
            opt_view(r) == self.linkbase.label_text(
                *name,
                role_key(role),
                match lang {
                    Some(l) => l@,
                    None => self.lang@,
                },
            ),
    {
        let preferred: &str = match lang {
            Some(l) => l,
            None => self.lang.as_str(),
        };
        self.linkbase.label(name, role, Some(preferred))
    }
}

/// What has been read of a label linkbase so far.
pub struct LabelReader {
    /// Locator label to the concept its `href` resolves to.
    pub loc_to_qname: StrMap<QName>,
    /// Label resource label to (role, language, text).
    pub label_resources: StrMap<(String, String, String)>,
    /// Arcs from locator labels to resource labels.
    pub arcs: Vec<(String, String)>,
    /// The label resource being read: (label, role, language).
    pub current: Option<(String, String, String)>,
    /// The text of the label resource being read.
    pub text: String,
}

/// The value of attribute `key`.
pub open spec fn attr_of(attrs: StrMap<String>, key: Seq<char>) -> Option<String> {
    if attrs.view().contains_key(key) {
        Some(attrs.view()[key])
    } else {
        None
    }
}

/// What a start tag does to the reader: a `loc` whose `xlink:href`
/// resolves (through its schema, else through any schema) maps its
/// `xlink:label` to the concept; a `labelArc` records its arc; a `label`
/// with an `xlink:label` starts a resource with its role (the standard
/// label by default) and `xml:lang` (empty by default).
pub open spec fn label_start_applied(
    r0: LabelReader,
    r1: LabelReader,
    local: Seq<char>,
    attrs: StrMap<String>,
    index: SchemaIndex,
) -> bool {
    if local == "loc"@ {
        &&& r1 == LabelReader { loc_to_qname: r1.loc_to_qname, ..r0 }
        &&& match (attr_of(attrs, "xlink:href"@), attr_of(attrs, "xlink:label"@)) {
            (Some(h), Some(l)) => match split_once(h@, '#') {
                Some((sch, fr)) => if index.view().contains_key((sch, fr)) {
                    r1.loc_to_qname.view() == r0.loc_to_qname.view().insert(l@, index.view()[(sch, fr)])
                } else if exists|h2: Seq<char>| #[trigger] index.view().contains_key((h2, fr)) {
                    &&& r1.loc_to_qname.view() == r0.loc_to_qname.view().insert(l@, r1.loc_to_qname.view()[l@])
                    &&& exists|h2: Seq<char>|
                        #[trigger] index.view().contains_key((h2, fr)) && index.view()[(h2, fr)]
                            == r1.loc_to_qname.view()[l@]
                } else {
                    r1.loc_to_qname.view() == r0.loc_to_qname.view()
                },
                None => r1.loc_to_qname.view() == r0.loc_to_qname.view(),
            },
            _ => r1.loc_to_qname.view() == r0.loc_to_qname.view(),
        }
    } else if local == "labelArc"@ {
        &&& r1 == LabelReader { arcs: r1.arcs, ..r0 }
        &&& r1.arcs@ == match (attr_of(attrs, "xlink:from"@), attr_of(attrs, "xlink:to"@)) {
            (Some(f), Some(t)) => r0.arcs@.push((f, t)),
            _ => r0.arcs@,
        }
    } else if local == "label"@ {
        match attr_of(attrs, "xlink:label"@) {
            Some(id) => {
                &&& r1 == LabelReader { current: r1.current, text: r1.text, ..r0 }
                &&& r1.current matches Some((id2, role, lang)) && id2 == id && role@ == match attr_of(
                    attrs,
                    "xlink:role"@,
                ) {
                    Some(x) => x@,
                    None => role::LABEL@,
                } && lang@ == match attr_of(attrs, "xml:lang"@) {
                    Some(x) => x@,
                    None => ""@,
                }
                &&& r1.text@.len() == 0
            },
            None => r1 == r0,
        }
    } else {
        r1 == r0
    }
}

/// The labels after applying arcs in order: an arc whose locator and
/// resource are both known sets the concept's label for the resource's
/// role and language.
pub open spec fn arcs_applied(
    m: Map<(Option<Seq<char>>, Seq<char>, Seq<char>, Seq<char>), Seq<char>>,
    arcs: Seq<(String, String)>,
    locs: Map<Seq<char>, QName>,
    res: Map<Seq<char>, (String, String, String)>,
) -> Map<(Option<Seq<char>>, Seq<char>, Seq<char>, Seq<char>), Seq<char>>
    decreases arcs.len(),
{
    if arcs.len() == 0 {
        m
    } else {
        let prev = arcs_applied(m, arcs.drop_last(), locs, res);
        let (from, to) = arcs.last();
        if locs.contains_key(from@) && res.contains_key(to@) {
            let q = locs[from@];
            let (role, lang, text) = res[to@];
            prev.insert((opt_view(q.namespace_uri), q.local_name@, role@, lang@), text@)
        } else {
            prev
        }
    }
}

impl LabelReader {
    /// A reader that has read nothing.
    pub fn new() -> (r: LabelReader)
        ensures
            r.loc_to_qname.view() == Map::<Seq<char>, QName>::empty(),
            r.label_resources.view() == Map::<Seq<char>, (String, String, String)>::empty(),
            r.arcs@.len() == 0,
            r.current is None,
            r.text@.len() == 0,
    {
        LabelReader {
            loc_to_qname: StrMap::new(),
            label_resources: StrMap::new(),
            arcs: Vec::new(),
            current: None,
            text: String::new(),
        }
    }

    /// Reacts to a start tag with local name `local`.
    pub fn start_tag(&mut self, local: &str, attrs: &StrMap<String>, index: &SchemaIndex)
        ensures
            label_start_applied(*old(self), *final(self), local@, *attrs, *index),
    {
        let lc = chars_of(local);
        if is_lit(lc.as_slice(), "loc") {
            let href = match attrs.get("xlink:href") {
                Some(h) => h,
                None => {
                    return;
                },
            };
            let label = match attrs.get("xlink:label") {
                Some(l) => l,
                None => {
                    return;
                },
            };
            let (sch, fr) = match split_once_chars(chars_of(href.as_str()).as_slice(), '#') {
                Some(p) => p,
                None => {
                    return;
                },
            };
            let sch = string_of(sch.as_slice());
            let fr = string_of(fr.as_slice());
            let q = match index.resolve(sch.as_str(), fr.as_str()) {
                Some(q) => q,
                None => match index.resolve_by_fragment(fr.as_str()) {
                    Some(q) => q,
                    None => {
                        return;
                    },
                },
            };
            self.loc_to_qname.insert(label.clone(), q.clone());
        } else if is_lit(lc.as_slice(), "labelArc") {
            match (lookup(attrs, "xlink:from"), lookup(attrs, "xlink:to")) {
                (Some(f), Some(t)) => self.arcs.push((f, t)),
                _ => {},
            }
        } else if is_lit(lc.as_slice(), "label") {
            if let Some(id) = lookup(attrs, "xlink:label") {
                let role = match lookup(attrs, "xlink:role") {
                    Some(r) => r,
                    None => role::LABEL.to_owned(),
                };
                let lang = match lookup(attrs, "xml:lang") {
                    Some(l) => l,
                    None => "".to_owned(),
                };
                self.current = Some((id, role, lang));
                self.text = String::new();
            }
        }
    }

    /// Character data: it belongs to the label resource being read, if any.
    pub fn text(&mut self, t: &str)
        ensures
            old(self).current is Some ==> *final(self) == (LabelReader { text: final(self).text, ..*old(self) })
                && final(self).text@ == old(self).text@ + t@,
            old(self).current is None ==> *final(self) == *old(self),
    {
        if self.current.is_some() {
            self.text.append(t);
        }
    }

    /// A closing tag: closing a `label` completes the resource being read.
    pub fn end_tag(&mut self, is_label: bool)
        ensures
            (is_label && old(self).current is Some) ==> ({
                let (id, role, lang) = old(self).current.unwrap();
                &&& *final(self) == (LabelReader {
                    current: None,
                    label_resources: final(self).label_resources,
                    text: final(self).text,
                    ..*old(self)
                })
                &&& final(self).label_resources.view() == old(self).label_resources.view().insert(
                    id@,
                    (role, lang, old(self).text),
                )
                &&& final(self).text@.len() == 0
            }),
            !(is_label && old(self).current is Some) ==> *final(self) == *old(self),
    {
        if is_label {
            if let Some((id, role, lang)) = self.current.take() {
                self.label_resources.insert(id, (role, lang, self.text.clone()));
                self.text = String::new();
            }
        }
    }

    /// Applies the arcs read to `linkbase`.
    pub fn finish(&self, linkbase: &mut LabelLinkbase)
        ensures
            final(linkbase).view() == arcs_applied(
                old(linkbase).view(),
                self.arcs@,
                self.loc_to_qname.view(),
                self.label_resources.view(),
            ),
    {
        let mut i: usize = 0;
        while i < self.arcs.len()
            invariant
                i <= self.arcs@.len(),
                linkbase.view() == arcs_applied(
                    old(linkbase).view(),
                    self.arcs@.take(i as int),
                    self.loc_to_qname.view(),
                    self.label_resources.view(),
                ),
            decreases self.arcs@.len() - i,
        {
            proof {
                assert(self.arcs@.take(i + 1).drop_last() =~= self.arcs@.take(i as int));
            }
            let (from, to) = (&self.arcs[i].0, &self.arcs[i].1);
            match (self.loc_to_qname.get(from.as_str()), self.label_resources.get(to.as_str())) {
                (Some(q), Some(res)) => {
                    linkbase.record(q, res.0.clone(), res.1.clone(), res.2.clone());
                },
                _ => {},
            }
            i += 1;
        }
        proof {
            assert(self.arcs@.take(self.arcs@.len() as int) =~= self.arcs@);
        }
    }
}

/// A label reader that has read nothing.
pub open spec fn fresh_label_reader(r: LabelReader) -> bool {
    &&& r.loc_to_qname.view() == Map::<Seq<char>, QName>::empty()
    &&& r.label_resources.view() == Map::<Seq<char>, (String, String, String)>::empty()
    &&& r.arcs@.len() == 0
    &&& r.current is None
    &&& r.text@.len() == 0
}

/// Text `t` read inside a label resource is appended to it; elsewhere it
/// changes nothing.
pub open spec fn label_text_applied(r0: LabelReader, r1: LabelReader, t: Seq<char>) -> bool {
    if r0.current is Some {
        r1 == (LabelReader { text: r1.text, ..r0 }) && r1.text@ == r0.text@ + t
    } else {
        r1 == r0
    }
}

/// The local part of a tag's raw name as text (empty when not UTF-8).
pub open spec fn local_text(name: Seq<u8>) -> Seq<char> {
    if vstd::utf8::valid_utf8(local_bytes(name)) {
        decode_utf8(local_bytes(name))
    } else {
        Seq::empty()
    }
}

/// One event of a label linkbase, read without error, takes the reader from
/// `r0` to `r1`: a start or empty tag, its attributes read (checked for
/// repeated names), as `label_start_applied`; text (decoded, references
/// resolved) or CDATA (UTF-8, else nothing) inside a label resource is
/// appended to it; a closing tag ends a label resource if it is `label`;
/// any other event but the end of input or an error changes nothing.
pub open spec fn label_event_step(r0: LabelReader, r1: LabelReader, index: SchemaIndex, item: XmlItem) -> bool {
    if item is Start || item is Empty {
        &&& attrs_text(item_checked(item)) is Some
        &&& exists|pairs: Seq<(String, String)>, attrs: StrMap<String>|
            #![trigger pairs_text(pairs), label_start_applied(r0, r1, local_text(item_name(item).unwrap()), attrs, index)]
            pairs_text(pairs) == attrs_text(item_checked(item)).unwrap() && attrs.view() == attrs_map(pairs)
                && label_start_applied(r0, r1, local_text(item_name(item).unwrap()), attrs, index)
    } else {
        match item {
            XmlItem::Text { raw, .. } => if r0.current is Some {
                &&& vstd::utf8::valid_utf8(raw)
                &&& crate::xml::xml_unescape(decode_utf8(raw)) is Some
                &&& label_text_applied(r0, r1, crate::xml::xml_unescape(decode_utf8(raw)).unwrap())
            } else {
                r1 == r0
            },
            XmlItem::CData { raw, .. } => label_text_applied(
                r0,
                r1,
                if vstd::utf8::valid_utf8(raw) {
                    decode_utf8(raw)
                } else {
                    Seq::empty()
                },
            ),
            XmlItem::End { name, .. } => {
                let is_label = local_bytes(name) == ascii_bytes("label"@);
                if is_label && r0.current is Some {
                    let (id, role, lang) = r0.current.unwrap();
                    &&& r1 == (LabelReader {
                        current: None,
                        label_resources: r1.label_resources,
                        text: r1.text,
                        ..r0
                    })
                    &&& r1.label_resources.view() == r0.label_resources.view().insert(id@, (role, lang, r0.text))
                    &&& r1.text@.len() == 0
                } else {
                    r1 == r0
                }
            },
            XmlItem::Other { .. } => r1 == r0,
            _ => false,
        }
    }
}

/// The first `rs.len() - 1` events `ev` take a reader that has read nothing
/// through `rs`, one event at a time.
pub open spec fn label_path(rs: Seq<LabelReader>, index: SchemaIndex, ev: Seq<XmlItem>) -> bool {
    &&& rs.len() > 0
    &&& rs.len() <= ev.len()
    &&& fresh_label_reader(rs[0])
    &&& forall|k: int| 0 <= k < rs.len() - 1 ==> label_event_step(#[trigger] rs[k], rs[k + 1], index, ev[k])
}

/// Reading the label linkbase whose events are `ev` takes the labels from
/// `v0` to `v`: the events up to the end of input are read in order, then
/// each arc whose locator resolved and whose resource was read adds a label.
pub open spec fn labels_read(
    v0: Map<(Option<Seq<char>>, Seq<char>, Seq<char>, Seq<char>), Seq<char>>,
    index: SchemaIndex,
    ev: Seq<XmlItem>,
    v: Map<(Option<Seq<char>>, Seq<char>, Seq<char>, Seq<char>), Seq<char>>,
) -> bool {
    exists|rs: Seq<LabelReader>|
        {
            &&& #[trigger] label_path(rs, index, ev)
            &&& ev[rs.len() - 1] is Eof
            &&& v == arcs_applied(v0, rs.last().arcs@, rs.last().loc_to_qname.view(), rs.last().label_resources.view())
        }
}

/// Reading the label linkbase whose events are `ev` fails: some events are
/// read in order, then the next one is an error, a tag whose attributes do
/// not read, or text in a label resource that does not decode; or the event
/// budget runs out.
pub open spec fn labels_fail(index: SchemaIndex, ev: Seq<XmlItem>, budget: int) -> bool {
    exists|rs: Seq<LabelReader>|
        {
            &&& #[trigger] label_path(rs, index, ev)
            &&& ({
                let item = ev[rs.len() - 1];
                ||| item is Error
                ||| ((item is Start || item is Empty) && attrs_text(item_checked(item)) is None)
                ||| (item matches XmlItem::Text { raw, .. } && rs.last().current is Some && (!vstd::utf8::valid_utf8(raw)
                    || crate::xml::xml_unescape(decode_utf8(raw)) is None))
                ||| rs.len() - 1 == budget
            })
        }
}

impl LabelLinkbase {
    /// Reads a label linkbase, resolving `xlink:href` fragments through
    /// `schema_index`; locators whose fragment is unknown are skipped. Input
    /// that is not UTF-8 is an error that gives the offset of the first bad byte.
    pub fn ingest(&mut self, input: &[u8], schema_index: &SchemaIndex) -> (r: Result<(), XbrlError>)
        ensures
            !vstd::utf8::valid_utf8(input@) ==> r matches Err(XbrlError::Xml { byte_offset: Some(_), .. }),
            r is Err ==> *final(self) == *old(self),
            r is Ok ==> labels_read(old(self).view(), *schema_index, xml_items(decode_utf8(input@)), final(self).view()),
            r is Err && vstd::utf8::valid_utf8(input@) ==> labels_fail(
                *schema_index,
                xml_items(decode_utf8(input@)),
                event_budget(input@.len() as int),
            ),
    {
        let s = match str_from_utf8(input) {
            Ok(s) => s,
            Err(e) => {
                let message = utf8_error_message(&e);
                let offset = utf8_valid_up_to(&e) as u64;
                return Err(XbrlError::Xml { message, byte_offset: Some(offset) });
            },
        };
        let mut reader = new_reader(s);
        let ghost ev = xml_items(s@);
        let ghost all = reader_items(reader);
        assert(all.drop_first() =~= ev);
        let mut state = LabelReader::new();
        let mut remaining: usize = if input.len() < usize::MAX {
            input.len() + 1
        } else {
            usize::MAX
        };
        let ghost budget = remaining as int;
        let ghost mut rs: Seq<LabelReader> = seq![state];
        loop
            invariant
                vstd::utf8::valid_utf8(input@),
                ev == xml_items(decode_utf8(input@)),
                crate::xml::items_end_well(ev, s.spec_bytes().len() as int),
                label_path(rs, *schema_index, ev),
                rs.last() == state,
                rs.len() - 1 + remaining == budget,
                budget == event_budget(input@.len() as int),
                forall|k: int| 0 <= k < rs.len() - 1 ==> !(#[trigger] ev[k] is Eof) && !(ev[k] is Error),
                reader_items(reader).len() > 0,
                reader_items(reader).drop_first() == ev.skip(rs.len() - 1),
                *self == *old(self),
            decreases remaining,
        {
            let ghost k = rs.len() - 1;
            if remaining == 0 {
                assert(labels_fail(*schema_index, ev, budget));
                return Err(XbrlError::Xml { message: "document does not end".to_string(), byte_offset: None });
            }
            remaining -= 1;
            proof {
                assert(ev.skip(k)[0] == ev[k]);
                assert(ev.skip(k).len() > 0);
                assert(reader_items(reader).len() > 1);
                assert(reader_items(reader).drop_first()[0] == reader_items(reader)[1]);
            }
            let event = match read_event(&mut reader) {
                Ok(e) => e,
                Err(e) => {
                    assert(labels_fail(*schema_index, ev, budget));
                    return Err(XbrlError::QuickXml(e));
                },
            };
            let ghost r0 = state;
            match event {
                XmlEvent::Start(e, name) | XmlEvent::Empty(e, name) => {
                    let local_raw = local_name(name.as_slice());
                    let local = match utf8_chars(local_raw.as_slice()) {
                        Ok(v) => string_of(v.as_slice()),
                        Err(_) => String::new(),
                    };
                    let pairs = match read_attributes(&e, true) {
                        Ok(p) => p,
                        Err(err) => {
                            assert(labels_fail(*schema_index, ev, budget));
                            return Err(err);
                        },
                    };
                    let attrs = attr_table(&pairs);
                    state.start_tag(local.as_str(), &attrs, schema_index);
                    proof {
                        assert(local@ == local_text(name@));
                        assert(item_name(ev[k]) == Some(name@));
                        assert(attrs_text(item_checked(ev[k])) == Some(pairs_text(pairs@)));
                        assert(label_start_applied(r0, state, local_text(item_name(ev[k]).unwrap()), attrs, *schema_index));
                        assert(label_event_step(r0, state, *schema_index, ev[k]));
                    }
                },
                XmlEvent::Text(b) => {
                    if state.current.is_some() {
                        let t = match decode_escaped(b.as_slice()) {
                            Ok(t) => t,
                            Err(err) => {
                                assert(labels_fail(*schema_index, ev, budget));
                                return Err(err);
                            },
                        };
                        state.text(t.as_str());
                    }
                    assert(label_event_step(r0, state, *schema_index, ev[k]));
                },
                XmlEvent::CData(b) => {
                    if state.current.is_some() {
                        let t = match str_from_utf8(b.as_slice()) {
                            Ok(s) => s.to_owned(),
                            Err(_) => String::new(),
                        };
                        state.text(t.as_str());
                    }
                    assert(label_event_step(r0, state, *schema_index, ev[k]));
                },
                XmlEvent::End(name) => {
                    let local_raw = local_name(name.as_slice());
                    let is_label = bytes_are(local_raw.as_slice(), "label");
                    state.end_tag(is_label);
                    assert(label_event_step(r0, state, *schema_index, ev[k]));
                },
                XmlEvent::Eof => {
                    let ghost v0 = self.view();
                    state.finish(self);
                    assert(labels_read(v0, *schema_index, ev, self.view()));
                    return Ok(());
                },
                XmlEvent::Other => {
                    assert(label_event_step(r0, state, *schema_index, ev[k]));
                },
            }
            proof {
                assert(k < ev.len() - 1) by {
                    if k == ev.len() - 1 {
                        assert(ev[k] == ev.last());
                    }
                }
                let ors = rs;
                rs = rs.push(state);
                assert forall|j: int| 0 <= j < rs.len() - 1 implies label_event_step(
                    #[trigger] rs[j],
                    rs[j + 1],
                    *schema_index,
                    ev[j],
                ) by {
                    if j < ors.len() - 1 {
                        assert(rs[j] == ors[j] && rs[j + 1] == ors[j + 1]);
                    }
                }
                assert(ev.skip(k).drop_first() =~= ev.skip(k + 1));
            }
        }
    }
}

} // verus!
