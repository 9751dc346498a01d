//! Label linkbases resolved through a schema index.

use xbrl_facts::linkbase::role;
use xbrl_facts::{LabelLinkbase, QName, SchemaIndex, TaxonomyResolver};

const SCHEMA: &str = r#"<?xml version="1.0"?>
<schema xmlns="http://www.w3.org/2001/XMLSchema"
        xmlns:ex="http://example.com/taxonomy"
        targetNamespace="http://example.com/taxonomy">
  <element id="ex_NetSales" name="NetSales"/>
  <element id="ex_TotalAssets" name="TotalAssets"/>
</schema>"#;

    const LAB: &str = r#"<?xml version="1.0"?>
<link:linkbase xmlns:xlink="http://www.w3.org/1999/xlink"
               xmlns:link="http://www.xbrl.org/2003/linkbase">
  <link:labelLink xlink:type="extended" xlink:role="http://www.xbrl.org/2003/role/link">
    <link:label xml:lang="ja" xlink:type="resource"
                xlink:label="net_sales_ja_label"
                xlink:role="http://www.xbrl.org/2003/role/label">売上高</link:label>
    <link:label xml:lang="en" xlink:type="resource"
                xlink:label="net_sales_en_label"
                xlink:role="http://www.xbrl.org/2003/role/label">Net Sales</link:label>
    <link:loc xlink:type="locator"
              xlink:href="example.xsd#ex_NetSales"
              xlink:label="net_sales_loc"/>
    <link:labelArc xlink:type="arc"
                   xlink:from="net_sales_loc"
                   xlink:to="net_sales_ja_label"
                   xlink:arcrole="http://www.xbrl.org/2003/arcrole/concept-label"/>
    <link:labelArc xlink:type="arc"
                   xlink:from="net_sales_loc"
                   xlink:to="net_sales_en_label"
                   xlink:arcrole="http://www.xbrl.org/2003/arcrole/concept-label"/>
  </link:labelLink>
</link:linkbase>"#;

fn loaded() -> LabelLinkbase {
    let mut schema = SchemaIndex::new();
    schema
        .ingest_schema("example.xsd", SCHEMA.as_bytes())
        .unwrap();
    let mut lab = LabelLinkbase::new();
    lab.ingest(LAB.as_bytes(), &schema).unwrap();
    lab
}

#[test]
fn resolves_ja_label_for_concept() {
    let lab = loaded();
    let qname = QName {
        namespace_uri: Some("http://example.com/taxonomy".into()),
        prefix: Some("ex".into()),
        local_name: "NetSales".into(),
    };
    assert_eq!(
        lab.label(&qname, Some(role::LABEL), Some("ja")).as_deref(),
        Some("売上高")
    );
    assert_eq!(
        lab.label(&qname, Some(role::LABEL), Some("en")).as_deref(),
        Some("Net Sales")
    );
}

#[test]
fn returns_none_for_unknown_concept() {
    let lab = loaded();
    let qname = QName {
        namespace_uri: Some("http://example.com/taxonomy".into()),
        prefix: Some("ex".into()),
        local_name: "Unknown".into(),
    };
    assert!(lab.label(&qname, None, Some("ja")).is_none());
}

#[test]
fn ignores_prefix_in_lookup() {
    let lab = loaded();
    let qname = QName {
        namespace_uri: Some("http://example.com/taxonomy".into()),
        prefix: Some("different".into()),
        local_name: "NetSales".into(),
    };
    assert_eq!(
        lab.label(&qname, None, Some("ja")).as_deref(),
        Some("売上高")
    );
}
