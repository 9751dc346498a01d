//! Reading XBRL 2.1 instances and Inline XBRL documents, and normalizing their facts.

use xbrl_facts::normalize::TaxonomyResolver;
use xbrl_facts::strmap::StrMap;
use xbrl_facts::{
    apply_text_transform, normalize_facts, parse_instance, ContextElement, Decimal, Decimals,
    DimensionMember, InlineMeta, InstanceDocument, NormalizedValue, Period, QName, RawFact,
    RawFactValue, XbrlError,
};

const MINIMAL_XBRL: &str = r#"
<xbrli:xbrl
    xmlns:xbrli="http://www.xbrl.org/2003/instance"
    xmlns:link="http://www.xbrl.org/2003/linkbase"
    xmlns:xlink="http://www.w3.org/1999/xlink"
    xmlns:xbrldi="http://xbrl.org/2006/xbrldi"
    xmlns:iso4217="http://www.xbrl.org/2003/iso4217"
    xmlns:ex="http://example.com/taxonomy">
  <link:schemaRef xlink:href="example.xsd" xlink:type="simple"/>
  <xbrli:context id="ctx1">
    <xbrli:entity>
      <xbrli:identifier scheme="http://example.com/entity">E00001</xbrli:identifier>
      <xbrli:segment>
        <xbrldi:explicitMember dimension="ex:ConsolidatedAxis">ex:ConsolidatedMember</xbrldi:explicitMember>
      </xbrli:segment>
    </xbrli:entity>
    <xbrli:period>
      <xbrli:instant>2025-03-31</xbrli:instant>
    </xbrli:period>
  </xbrli:context>
  <xbrli:unit id="JPY">
    <xbrli:measure>iso4217:JPY</xbrli:measure>
  </xbrli:unit>
  <ex:NetSales id="f1" contextRef="ctx1" unitRef="JPY" decimals="0">1000000</ex:NetSales>
  <ex:CompanyName contextRef="ctx1" xml:lang="ja">Example株式会社</ex:CompanyName>
</xbrli:xbrl>
"#;

    const ADVANCED_XBRL: &str = r#"
<xbrli:xbrl
    xmlns:xbrli="http://www.xbrl.org/2003/instance"
    xmlns:xbrldi="http://xbrl.org/2006/xbrldi"
    xmlns:iso4217="http://www.xbrl.org/2003/iso4217"
    xmlns:xsi="http://www.w3.org/2001/XMLSchema-instance"
    xmlns:ex="http://example.com/taxonomy">
  <xbrli:context id="ctx_typed">
    <xbrli:entity>
      <xbrli:identifier scheme="http://example.com/entity">E00001</xbrli:identifier>
      <xbrli:scenario>
        <xbrldi:typedMember dimension="ex:StoreAxis"><ex:StoreCode>001</ex:StoreCode></xbrldi:typedMember>
      </xbrli:scenario>
    </xbrli:entity>
    <xbrli:period>
      <xbrli:startDate>2024-04-01</xbrli:startDate>
      <xbrli:endDate>2025-03-31</xbrli:endDate>
    </xbrli:period>
  </xbrli:context>
  <xbrli:unit id="JPYPerShare">
    <xbrli:divide>
      <xbrli:unitNumerator>
        <xbrli:measure>iso4217:JPY</xbrli:measure>
      </xbrli:unitNumerator>
      <xbrli:unitDenominator>
        <xbrli:measure>xbrli:shares</xbrli:measure>
      </xbrli:unitDenominator>
    </xbrli:divide>
  </xbrli:unit>
  <ex:EarningsPerShare contextRef="ctx_typed" unitRef="JPYPerShare" decimals="INF">123.45</ex:EarningsPerShare>
  <ex:OptionalDisclosure contextRef="ctx_typed" xsi:nil="true"/>
</xbrli:xbrl>
"#;

    const INLINE_XBRL: &str = r#"
<html
    xmlns="http://www.w3.org/1999/xhtml"
    xmlns:ix="http://www.xbrl.org/2013/inlineXBRL"
    xmlns:xbrli="http://www.xbrl.org/2003/instance"
    xmlns:iso4217="http://www.xbrl.org/2003/iso4217"
    xmlns:ex="http://example.com/taxonomy">
  <head>
    <ix:hidden>
      <ix:resources>
        <xbrli:context id="c1">
          <xbrli:entity>
            <xbrli:identifier scheme="http://example.com/entity">E00001</xbrli:identifier>
          </xbrli:entity>
          <xbrli:period>
            <xbrli:instant>2025-03-31</xbrli:instant>
          </xbrli:period>
        </xbrli:context>
        <xbrli:unit id="JPY">
          <xbrli:measure>iso4217:JPY</xbrli:measure>
        </xbrli:unit>
        <ix:nonFraction name="ex:HiddenLoss" contextRef="c1" unitRef="JPY" decimals="0" sign="-">42</ix:nonFraction>
      </ix:resources>
    </ix:hidden>
  </head>
  <body>
    <p>Revenue: <ix:nonFraction name="ex:Revenue" contextRef="c1" unitRef="JPY" decimals="-3" scale="3">1,234</ix:nonFraction></p>
    <p>EU amount: <ix:nonFraction name="ex:EuAmount" contextRef="c1" unitRef="JPY" decimals="2" format="ixt:numcommadecimal">1.234,56</ix:nonFraction></p>
    <p>Dash amount: <ix:nonFraction name="ex:DashAmount" contextRef="c1" unitRef="JPY" decimals="0" format="ixt:zerodash">-</ix:nonFraction></p>
    <p>Parenthesized loss: <ix:nonFraction name="ex:ParenthesizedLoss" contextRef="c1" unitRef="JPY" decimals="0">(1,234)</ix:nonFraction></p>
    <p>Name: <ix:nonNumeric name="ex:CompanyName" contextRef="c1" xml:lang="ja" continuedAt="name-cont-1">Example</ix:nonNumeric></p>
    <ix:continuation id="name-cont-1">株式会社</ix:continuation>
  </body>
</html>
"#;

    const FOOTNOTE_XBRL: &str = r##"
<xbrli:xbrl
    xmlns:xbrli="http://www.xbrl.org/2003/instance"
    xmlns:link="http://www.xbrl.org/2003/linkbase"
    xmlns:xlink="http://www.w3.org/1999/xlink"
    xmlns:iso4217="http://www.xbrl.org/2003/iso4217"
    xmlns:ex="http://example.com/taxonomy">
  <xbrli:context id="ctx1">
    <xbrli:entity>
      <xbrli:identifier scheme="http://example.com/entity">E00001</xbrli:identifier>
    </xbrli:entity>
    <xbrli:period>
      <xbrli:instant>2025-03-31</xbrli:instant>
    </xbrli:period>
  </xbrli:context>
  <xbrli:unit id="JPY">
    <xbrli:measure>iso4217:JPY</xbrli:measure>
  </xbrli:unit>
  <ex:NetSales id="f1" contextRef="ctx1" unitRef="JPY" decimals="0">1000</ex:NetSales>
  <link:footnoteLink xlink:type="extended">
    <link:loc xlink:type="locator" xlink:href="#f1" xlink:label="fact_f1"/>
    <link:footnote xlink:type="resource" xlink:label="fn1" xlink:role="http://www.xbrl.org/2003/role/footnote" xml:lang="en">Includes overseas sales.</link:footnote>
    <link:footnoteArc xlink:type="arc" xlink:arcrole="http://www.xbrl.org/2003/arcrole/fact-footnote" xlink:from="fact_f1" xlink:to="fn1"/>
  </link:footnoteLink>
</xbrli:xbrl>
"##;

struct Labels;

impl TaxonomyResolver for Labels {
    fn label(&self, name: &QName, _role: Option<&str>, _lang: Option<&str>) -> Option<String> {
        (name.local_name == "NetSales").then(|| "Net sales".to_owned())
    }
}

#[test]
fn parse_minimal_xbrl_instance() {
    let instance = parse_instance(MINIMAL_XBRL.as_bytes()).unwrap();

    assert_eq!(instance.schema_refs, vec!["example.xsd"]);
    assert_eq!(instance.contexts.len(), 1);
    assert_eq!(instance.units.len(), 1);
    assert_eq!(instance.facts.len(), 2);

    let context = instance.contexts.get("ctx1").unwrap();
    assert_eq!(context.entity.identifier, "E00001");
    assert_eq!(
        context.period,
        Period::Instant {
            date: "2025-03-31".into()
        }
    );
    assert_eq!(context.segment.len(), 1);

    let unit = instance.units.get("JPY").unwrap();
    assert_eq!(unit.numerator[0].local_name, "JPY");

    let fact = &instance.facts[0];
    assert_eq!(fact.name.local_name, "NetSales");
    assert_eq!(fact.context_ref, "ctx1");
    assert_eq!(fact.unit_ref.as_deref(), Some("JPY"));
    assert_eq!(fact.decimals, Some(Decimals::Value { n: 0 }));
    assert_eq!(
        fact.value,
        RawFactValue::Numeric {
            raw: "1000000".into()
        }
    );
}

#[test]
fn normalize_minimal_fact() {
    let instance = parse_instance(MINIMAL_XBRL.as_bytes()).unwrap();
    let normalized = normalize_facts(&instance, &Labels, "doc1");

    assert_eq!(normalized.len(), 2);
    let fact = normalized[0].as_ref().unwrap();
    assert_eq!(fact.label.as_deref(), Some("Net sales"));
    assert_eq!(
        fact.value,
        NormalizedValue::Numeric {
            raw: "1000000".into(),
            decimal: Some(Decimal::new(1_000_000, 0)),
            decimals: Some(Decimals::Value { n: 0 }),
        }
    );
    assert_eq!(fact.dimensions.len(), 1);
    assert_eq!(fact.dimensions[0].dimension.local_name, "ConsolidatedAxis");
    assert_eq!(fact.provenance.doc_id, "doc1");
}

#[test]
fn normalize_reports_missing_context() {
    let instance = InstanceDocument {
        schema_refs: vec![],
        contexts: StrMap::new(),
        units: StrMap::new(),
        facts: vec![RawFact {
            id: None,
            name: QName {
                namespace_uri: None,
                prefix: None,
                local_name: "NetSales".into(),
            },
            value: RawFactValue::Numeric { raw: "1".into() },
            context_ref: "missing".into(),
            unit_ref: None,
            decimals: None,
            precision: None,
            lang: None,
            inline_meta: None,
            byte_range: None,
        }],
        footnotes: vec![],
    };

    let result = normalize_facts(&instance, &Labels, "doc1").remove(0);
    assert!(matches!(
        result,
        Err(XbrlError::MissingContext { context_ref }) if context_ref == "missing"
    ));
}

#[test]
fn parse_typed_dimension_divide_unit_and_nil_fact() {
    let instance = parse_instance(ADVANCED_XBRL.as_bytes()).unwrap();

    let context = instance.contexts.get("ctx_typed").unwrap();
    assert_eq!(
        context.period,
        Period::Duration {
            start: "2024-04-01".into(),
            end: "2025-03-31".into()
        }
    );
    assert_eq!(context.scenario.len(), 1);
    match &context.scenario[0] {
        ContextElement::TypedDimension { dimension, raw_xml } => {
            assert_eq!(dimension.local_name, "StoreAxis");
            assert!(raw_xml.contains("<ex:StoreCode>001</ex:StoreCode>"));
        }
        other => panic!("expected typed dimension, got {other:?}"),
    }

    let unit = instance.units.get("JPYPerShare").unwrap();
    assert_eq!(unit.numerator[0].local_name, "JPY");
    assert_eq!(unit.denominator[0].local_name, "shares");

    assert_eq!(instance.facts.len(), 2);
    assert_eq!(instance.facts[0].decimals, Some(Decimals::Infinite));
    assert_eq!(instance.facts[1].value, RawFactValue::Nil);
}

#[test]
fn normalize_preserves_typed_dimension_and_inf_decimals() {
    let instance = parse_instance(ADVANCED_XBRL.as_bytes()).unwrap();
    let normalized = normalize_facts(&instance, &Labels, "doc2");
    let fact = normalized[0].as_ref().unwrap();

    assert_eq!(
        fact.value,
        NormalizedValue::Numeric {
            raw: "123.45".into(),
            decimal: Some(Decimal::new(12345, 2)),
            decimals: Some(Decimals::Infinite),
        }
    );
    assert_eq!(fact.dimensions.len(), 1);
    assert!(matches!(
        &fact.dimensions[0].member,
        DimensionMember::Typed { raw_xml } if raw_xml.contains("StoreCode")
    ));
}

#[test]
fn parse_inline_xbrl_non_fraction_and_non_numeric() {
    let instance = parse_instance(INLINE_XBRL.as_bytes()).unwrap();

    assert_eq!(instance.contexts.len(), 1);
    assert_eq!(instance.units.len(), 1);
    assert_eq!(instance.facts.len(), 6);

    let hidden = &instance.facts[0];
    assert_eq!(hidden.name.local_name, "HiddenLoss");
    assert!(hidden.inline_meta.as_ref().unwrap().is_hidden);
    assert_eq!(
        hidden.inline_meta.as_ref().unwrap().sign.as_deref(),
        Some("-")
    );

    let revenue = &instance.facts[1];
    assert_eq!(revenue.name.local_name, "Revenue");
    assert_eq!(
        revenue.value,
        RawFactValue::Numeric {
            raw: "1,234".into()
        }
    );
    assert_eq!(revenue.inline_meta.as_ref().unwrap().scale, Some(3));

    let name = &instance.facts[5];
    assert_eq!(name.name.local_name, "CompanyName");
    assert_eq!(
        name.value,
        RawFactValue::Text {
            value: "Example株式会社".into()
        }
    );
    assert_eq!(
        name.inline_meta
            .as_ref()
            .and_then(|meta| meta.continued_from.as_deref()),
        Some("name-cont-1")
    );
}

#[test]
fn normalize_inline_xbrl_applies_sign_and_scale() {
    let instance = parse_instance(INLINE_XBRL.as_bytes()).unwrap();
    let normalized = normalize_facts(&instance, &Labels, "inline-doc");

    assert_eq!(
        normalized[0].as_ref().unwrap().value,
        NormalizedValue::Numeric {
            raw: "42".into(),
            decimal: Some(Decimal::new(-42, 0)),
            decimals: Some(Decimals::Value { n: 0 }),
        }
    );
    assert_eq!(
        normalized[1].as_ref().unwrap().value,
        NormalizedValue::Numeric {
            raw: "1,234".into(),
            decimal: Some(Decimal::new(1_234_000, 0)),
            decimals: Some(Decimals::Value { n: -3 }),
        }
    );
    assert_eq!(
        normalized[2].as_ref().unwrap().value,
        NormalizedValue::Numeric {
            raw: "1.234,56".into(),
            decimal: Some(Decimal::new(123_456, 2)),
            decimals: Some(Decimals::Value { n: 2 }),
        }
    );
    assert_eq!(
        normalized[3].as_ref().unwrap().value,
        NormalizedValue::Numeric {
            raw: "-".into(),
            decimal: Some(Decimal::new(0, 0)),
            decimals: Some(Decimals::Value { n: 0 }),
        }
    );
    assert_eq!(
        normalized[4].as_ref().unwrap().value,
        NormalizedValue::Numeric {
            raw: "(1,234)".into(),
            decimal: Some(Decimal::new(-1234, 0)),
            decimals: Some(Decimals::Value { n: 0 }),
        }
    );
}

#[test]
fn transform_dates_to_iso() {
    let meta = |fmt: &str| {
        Some(InlineMeta {
            format: Some(fmt.to_owned()),
            scale: None,
            sign: None,
            target: None,
            continued_from: None,
            is_hidden: false,
        })
    };

    assert_eq!(
        apply_text_transform("2025年6月26日", &meta("ixt:dateyearmonthdaycjk")),
        "2025-06-26"
    );
    assert_eq!(
        apply_text_transform("２０２５年６月２６日", &meta("ixt:dateyearmonthdaycjk")),
        "2025-06-26"
    );
    assert_eq!(
        apply_text_transform("2025年3月", &meta("ixt:dateyearmonthcjk")),
        "2025-03"
    );
    assert_eq!(
        apply_text_transform("令和7年6月26日", &meta("ixt:dateerayearmonthdayjp")),
        "2025-06-26"
    );
    assert_eq!(
        apply_text_transform("anything", &meta("ixt:fixed-false")),
        "false"
    );
    assert_eq!(apply_text_transform("anything", &meta("ixt:nocontent")), "");

    // Unknown format → passthrough
    assert_eq!(apply_text_transform("raw", &meta("ixt:made-up")), "raw");
    // Malformed input → passthrough
    assert_eq!(
        apply_text_transform("not a date", &meta("ixt:dateyearmonthdaycjk")),
        "not a date"
    );
}

#[test]
fn parse_basic_fact_footnote_link() {
    let instance = parse_instance(FOOTNOTE_XBRL.as_bytes()).unwrap();

    assert_eq!(instance.facts.len(), 1);
    assert_eq!(instance.footnotes.len(), 1);
    let footnote = &instance.footnotes[0];
    assert_eq!(footnote.content, "Includes overseas sales.");
    assert_eq!(footnote.lang.as_deref(), Some("en"));
    assert_eq!(footnote.fact_refs, vec!["f1"]);
}
