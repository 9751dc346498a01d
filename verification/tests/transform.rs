//! Inline XBRL transforms on concrete values.

use xbrl_facts::transform::{
    apply_scale, english_words_to_number, normalize_numeric_text, parse_normalized_decimal,
    transform_date_era_ymd_jp, transform_date_md_cjk, transform_date_ym_cjk, transform_date_ymd_cjk,
};
use xbrl_facts::{apply_text_transform, Decimal, InlineMeta, XbrlError};

fn chars(s: &str) -> Vec<char> {
    s.chars().collect()
}

fn text(v: Option<Vec<char>>) -> Option<String> {
    v.map(|c| c.into_iter().collect())
}

fn meta(format: Option<&str>, scale: Option<i32>, sign: Option<&str>) -> Option<InlineMeta> {
    Some(InlineMeta {
        format: format.map(|f| f.to_owned()),
        scale,
        sign: sign.map(|s| s.to_owned()),
        target: None,
        continued_from: None,
        is_hidden: false,
    })
}

#[test]
fn english_number_words() {
    assert_eq!(text(english_words_to_number(&chars("One Hundred Twenty-Three"))).as_deref(), Some("123"));
    assert_eq!(
        text(english_words_to_number(&chars("two million three hundred thousand and five"))).as_deref(),
        Some("2300005")
    );
    assert_eq!(text(english_words_to_number(&chars("thousand"))).as_deref(), Some("1000"));
    assert_eq!(text(english_words_to_number(&chars("zero"))).as_deref(), Some("0"));
    assert_eq!(text(english_words_to_number(&chars("one banana"))), None);
    assert_eq!(text(english_words_to_number(&chars("  and  "))), None);
}

#[test]
fn numeric_text_normalization() {
    let s = |raw: &str, m: &Option<InlineMeta>| normalize_numeric_text(&chars(raw), m).into_iter().collect::<String>();
    assert_eq!(s(" (1,234) ", &None), "-1234");
    assert_eq!(s("1 234\u{a0}567", &None), "1234567");
    assert_eq!(s("1.234,5", &meta(Some("ixt:numcommadecimal"), None, None)), "1234.5");
    assert_eq!(s("-", &meta(Some("ixt:zerodash"), None, None)), "0");
    assert_eq!(s("－", &meta(Some("ixt-sec:numdash"), None, None)), "0");
    assert_eq!(s("-", &None), "-");
    assert_eq!(s("forty-two", &meta(Some("ixt-sec:numwordsen"), None, None)), "42");
}

#[test]
fn scale_multiplies_and_divides_by_ten() {
    let d = Decimal::parse("1.5").unwrap();
    let up = apply_scale(d, 3).unwrap();
    assert!(up.value_eq(&Decimal::parse("1500").unwrap()));
    let down = apply_scale(Decimal::parse("1500").unwrap(), -2).unwrap();
    assert!(down.value_eq(&Decimal::parse("15").unwrap()));
    let same = apply_scale(Decimal::parse("7").unwrap(), 0).unwrap();
    assert!(same.value_eq(&Decimal::parse("7").unwrap()));
}

#[test]
fn normalized_decimal_applies_format_sign_and_scale() {
    let d = parse_normalized_decimal("1,234", &meta(None, Some(3), Some("-"))).unwrap();
    assert!(d.value_eq(&Decimal::parse("-1234000").unwrap()));
    let d = parse_normalized_decimal("(5)", &None).unwrap();
    assert!(d.value_eq(&Decimal::parse("-5").unwrap()));
    match parse_normalized_decimal("n/a", &None) {
        Err(XbrlError::InvalidDecimal { raw }) => assert_eq!(raw, "n/a"),
        other => panic!("unexpected {other:?}"),
    }
}

#[test]
fn japanese_dates() {
    assert_eq!(text(transform_date_ymd_cjk(&chars("２０２５年６月２６日"))).as_deref(), Some("2025-06-26"));
    assert_eq!(text(transform_date_ymd_cjk(&chars("二〇二五年六月二六日"))).as_deref(), Some("2025-06-26"));
    assert_eq!(text(transform_date_ym_cjk(&chars("2025年3月"))).as_deref(), Some("2025-03"));
    assert_eq!(text(transform_date_md_cjk(&chars("3月31日"))).as_deref(), Some("--03-31"));
    assert_eq!(text(transform_date_era_ymd_jp(&chars("令和7年6月26日"))).as_deref(), Some("2025-06-26"));
    assert_eq!(text(transform_date_era_ymd_jp(&chars("平成31年4月30日"))).as_deref(), Some("2019-04-30"));
    assert_eq!(text(transform_date_era_ymd_jp(&chars("西暦7年6月26日"))), None);
    assert_eq!(text(transform_date_ymd_cjk(&chars("2025-06-26"))), None);
}

#[test]
fn text_transforms_by_format() {
    assert_eq!(apply_text_transform("令和7年6月26日", &meta(Some("ixt:dateerayearmonthdayjp"), None, None)), "2025-06-26");
    assert_eq!(apply_text_transform("whatever", &meta(Some("ixt:booleantrue"), None, None)), "true");
    assert_eq!(apply_text_transform("whatever", &meta(Some("ixt:fixed-false"), None, None)), "false");
    assert_eq!(apply_text_transform("x", &meta(Some("ixt:nocontent"), None, None)), "");
    assert_eq!(apply_text_transform("raw", &meta(Some("ixt:unknown"), None, None)), "raw");
    assert_eq!(apply_text_transform("bad date", &meta(Some("ixt:dateyearmonthdaycjk"), None, None)), "bad date");
    assert_eq!(apply_text_transform("raw", &None), "raw");
}
