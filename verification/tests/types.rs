//! Qualified names and contexts of the instance model.

use xbrl_facts::{Context, ContextElement, Entity, Period, QName};

#[test]
fn qname_display_with_prefix() {
    let q = QName {
        namespace_uri: Some("http://example.com".into()),
        prefix: Some("ex".into()),
        local_name: "NetSales".into(),
    };
    assert_eq!(q.to_string(), "ex:NetSales");
}

#[test]
fn qname_display_namespace_only() {
    let q = QName {
        namespace_uri: Some("http://example.com".into()),
        prefix: None,
        local_name: "NetSales".into(),
    };
    assert_eq!(q.to_string(), "{http://example.com}NetSales");
}

#[test]
fn qname_display_local_only() {
    let q = QName {
        namespace_uri: None,
        prefix: None,
        local_name: "NetSales".into(),
    };
    assert_eq!(q.to_string(), "NetSales");
}

#[test]
fn context_segment_scenario_distinction() {
    let ctx = Context {
        id: "ctx1".into(),
        entity: Entity {
            scheme: "http://disclosure.edinet-fsa.go.jp".into(),
            identifier: "E02144".into(),
        },
        period: Period::Duration {
            start: "2024-04-01".into(),
            end: "2025-03-31".into(),
        },
        segment: vec![ContextElement::ExplicitDimension {
            dimension: QName {
                namespace_uri: None,
                prefix: Some("jppfs".into()),
                local_name: "ConsolidatedOrNonConsolidatedAxis".into(),
            },
            member: QName {
                namespace_uri: None,
                prefix: Some("jppfs".into()),
                local_name: "ConsolidatedMember".into(),
            },
        }],
        scenario: vec![],
    };
    assert_eq!(ctx.segment.len(), 1);
    assert!(ctx.scenario.is_empty());
}
