use mailfang::search::{parse_search_query, SearchField};

#[test]
fn test_basic_field_parsing() {
    let result = parse_search_query("subject:foo");
    assert_eq!(result.field_terms.len(), 1);
    assert_eq!(result.field_terms[0].field, SearchField::Subject);
    assert_eq!(result.field_terms[0].value, "foo");
    assert_eq!(result.default_terms.len(), 0);
}

#[test]
fn test_multiple_fields() {
    let result = parse_search_query("subject:paypal recipient:john");
    assert_eq!(result.field_terms.len(), 2);
    assert_eq!(result.field_terms[0].field, SearchField::Subject);
    assert_eq!(result.field_terms[0].value, "paypal");
    assert_eq!(result.field_terms[1].field, SearchField::Recipient);
    assert_eq!(result.field_terms[1].value, "john");
}

#[test]
fn test_default_search() {
    let result = parse_search_query("simple search");
    assert_eq!(result.field_terms.len(), 0);
    assert_eq!(result.default_terms.len(), 2);
    assert_eq!(result.default_terms[0], "simple");
    assert_eq!(result.default_terms[1], "search");
}

#[test]
fn test_mixed_search() {
    let result = parse_search_query("subject:paypal test");
    assert_eq!(result.field_terms.len(), 1);
    assert_eq!(result.field_terms[0].field, SearchField::Subject);
    assert_eq!(result.field_terms[0].value, "paypal");
    assert_eq!(result.default_terms.len(), 1);
    assert_eq!(result.default_terms[0], "test");
}

#[test]
fn test_mixed_search_with_from() {
    let result = parse_search_query("from:paypal birthdayparty");
    assert_eq!(result.field_terms.len(), 1);
    assert_eq!(result.field_terms[0].field, SearchField::From);
    assert_eq!(result.field_terms[0].value, "paypal");
    assert_eq!(result.default_terms.len(), 1);
    assert_eq!(result.default_terms[0], "birthdayparty");
}

#[test]
fn test_field_aliases() {
    let result1 = parse_search_query("to:john");
    let result2 = parse_search_query("recipient:john");
    assert_eq!(result1.field_terms[0].field, SearchField::Recipient);
    assert_eq!(result2.field_terms[0].field, SearchField::Recipient);
}

#[test]
fn test_empty_string() {
    let result = parse_search_query("");
    assert_eq!(result.field_terms.len(), 0);
    assert_eq!(result.default_terms.len(), 0);
}

#[test]
fn test_whitespace_only() {
    let result = parse_search_query("   ");
    assert_eq!(result.field_terms.len(), 0);
    assert_eq!(result.default_terms.len(), 0);
}

#[test]
fn test_malformed_field() {
    let result = parse_search_query("invalid:field test");
    assert_eq!(result.field_terms.len(), 0);
    assert_eq!(result.default_terms.len(), 2);
}

#[test]
fn test_multiple_default_terms() {
    let result = parse_search_query("test search query");
    assert_eq!(result.default_terms.len(), 3);
    assert_eq!(result.default_terms[0], "test");
    assert_eq!(result.default_terms[1], "search");
    assert_eq!(result.default_terms[2], "query");
}

#[test]
fn test_all_field_types() {
    let result = parse_search_query(
        "subject:test from:sender recipient:recv text:body html:content attachment:file",
    );
    assert_eq!(result.field_terms.len(), 6);
    assert_eq!(result.field_terms[0].field, SearchField::Subject);
    assert_eq!(result.field_terms[1].field, SearchField::From);
    assert_eq!(result.field_terms[2].field, SearchField::Recipient);
    assert_eq!(result.field_terms[3].field, SearchField::Text);
    assert_eq!(result.field_terms[4].field, SearchField::Html);
    assert_eq!(result.field_terms[5].field, SearchField::Attachment);
}

#[test]
fn test_complex_mixed() {
    let result = parse_search_query("from:paypal subject:invoice payment");
    assert_eq!(result.field_terms.len(), 2);
    assert_eq!(result.field_terms[0].field, SearchField::From);
    assert_eq!(result.field_terms[1].field, SearchField::Subject);
    assert_eq!(result.default_terms.len(), 1);
    assert_eq!(result.default_terms[0], "payment");
}

#[test]
fn test_value_with_underscore() {
    let result = parse_search_query("subject:test_value");
    assert_eq!(result.field_terms.len(), 1);
    assert_eq!(result.field_terms[0].value, "test_value");
}

#[test]
fn test_value_with_dash() {
    let result = parse_search_query("subject:test-value");
    assert_eq!(result.field_terms.len(), 1);
    assert_eq!(result.field_terms[0].value, "test-value");
}

#[test]
fn field_names_match_without_regard_to_case() {
    let result = parse_search_query("SUBJECT:foo From:bar");
    assert_eq!(result.field_terms.len(), 2);
    assert_eq!(result.field_terms[0].field, SearchField::Subject);
    assert_eq!(result.field_terms[1].field, SearchField::From);
}

#[test]
fn sql_condition_escapes_quotes() {
    let q = parse_search_query("subject:o'brien");
    let sql = mailfang::search::build_search_sql_condition(&q, false).unwrap();
    assert!(sql.contains("%o''brien%"));
    assert!(!sql.contains("%o'brien%"));
}

#[test]
fn sql_condition_empty_query_is_none() {
    let q = parse_search_query("   ");
    assert!(mailfang::search::build_search_sql_condition(&q, false).is_none());
}

#[test]
fn sql_condition_for_field_and_bareword() {
    let q = parse_search_query("from:paypal birthdayparty");
    let sql = mailfang::search::build_search_sql_condition(&q, false).unwrap();
    assert!(sql.contains("emails.envelope_from LIKE '%paypal%'"));
    assert!(sql.contains("emails.body_text LIKE '%birthdayparty%'"));
    assert!(sql.contains(" AND "));
}
