use httpreq::fields::FormFields;
use httpreq::multipart::parse_upload;
use httpreq::query::parse_parameters;

fn pairs(fields: &FormFields) -> Vec<(String, String)> {
    fields.entries()
}

fn owned(list: &[(&str, &str)]) -> Vec<(String, String)> {
    list.iter().map(|(k, v)| (k.to_string(), v.to_string())).collect()
}

#[test]
fn query_flag_and_pair() {
    let fields = parse_parameters("a&b=1").unwrap();
    assert_eq!(pairs(&fields), owned(&[("a", ""), ("b", "1")]));
}

#[test]
fn query_empty_input_has_one_empty_entry() {
    let fields = parse_parameters("").unwrap();
    assert_eq!(pairs(&fields), owned(&[("", "")]));
    assert_eq!(fields.len(), 1);
    assert!(!fields.is_empty());
}

#[test]
fn query_later_key_replaces_earlier() {
    let fields = parse_parameters("k=1&j=2&k=3").unwrap();
    assert_eq!(pairs(&fields), owned(&[("j", "2"), ("k", "3")]));
}

#[test]
fn query_trims_keys_and_values() {
    let fields = parse_parameters(" a = x y \t&\u{a0}b\u{3000}=\n").unwrap();
    assert_eq!(pairs(&fields), owned(&[("a", "x y"), ("b", "")]));
}

#[test]
fn query_splits_once_on_equals() {
    let fields = parse_parameters("a=b=c&=v&&x=").unwrap();
    assert_eq!(pairs(&fields), owned(&[("", ""), ("a", "b=c"), ("x", "")]));
}

#[test]
fn query_entries_are_sorted_by_key() {
    let fields = parse_parameters("b=2&a=1&ab=3&B=4&\u{e9}=5").unwrap();
    assert_eq!(
        pairs(&fields),
        owned(&[("B", "4"), ("a", "1"), ("ab", "3"), ("b", "2"), ("\u{e9}", "5")])
    );
    assert_eq!(fields.get("ab"), Some("3".to_string()));
    assert_eq!(fields.get("c"), None);
    assert!(fields.contains_key("B"));
    assert!(!fields.contains_key("A"));
}

#[test]
fn multipart_single_field() {
    let body = "-----x\r\nContent-Disposition: form-data; name=\"field1\"\r\n\r\nhello";
    let fields = parse_upload(body).unwrap();
    assert_eq!(pairs(&fields), owned(&[("field1", "hello")]));
}

#[test]
fn multipart_two_fields_and_closing_boundary() {
    let body = "-----x\r\nContent-Disposition: form-data; name=\"a\"\r\n\r\n1\r\n-----x\r\nContent-Disposition: form-data; name=\"b\"\r\n\r\n2\r\n-----x--\r\n";
    let fields = parse_upload(body).unwrap();
    assert_eq!(pairs(&fields), owned(&[("a", "1"), ("b", "2")]));
}

#[test]
fn multipart_value_keeps_later_lines() {
    let body = "--x\r\nContent-Disposition: form-data; name=\"t\"\r\n\r\nline1\r\nline2";
    let fields = parse_upload(body).unwrap();
    assert_eq!(pairs(&fields), owned(&[("t", "line1\r\nline2")]));
}

#[test]
fn multipart_extra_header_line_before_value() {
    let body = "--x\r\nContent-Disposition: form-data; name=\"f\"; filename=\"a.txt\"\r\nContent-Type: text/plain\r\n\r\ndata\r\nmore";
    let fields = parse_upload(body).unwrap();
    assert_eq!(pairs(&fields), owned(&[("f", "data\r\nmore")]));
}

#[test]
fn multipart_extra_header_line_without_value_fails() {
    let body = "--x\r\nContent-Disposition: form-data; name=\"f\"\r\nContent-Type: text/plain\r\n";
    assert!(parse_upload(body).is_none());
}

#[test]
fn multipart_short_name_clause_fails() {
    assert!(parse_upload("--x\r\nname=\"\r\n\r\nv").is_none());
    assert!(parse_upload("--x\r\nform-data; name=\r\n\r\nv").is_none());
}

#[test]
fn multipart_shortest_name_clause_is_empty_name() {
    let fields = parse_upload("--x\r\nname=\"\"\r\n\r\nv").unwrap();
    assert_eq!(pairs(&fields), owned(&[("", "v")]));
}

#[test]
fn multipart_missing_name_clause_gives_empty_name() {
    let fields = parse_upload("--x\r\nContent-Disposition: form-data\r\n\r\nv").unwrap();
    assert_eq!(pairs(&fields), owned(&[("", "v")]));
}

#[test]
fn multipart_missing_header_line_fails() {
    assert!(parse_upload("").is_none());
    assert!(parse_upload("no line break").is_none());
}

#[test]
fn multipart_header_line_alone_holds_no_field() {
    let fields = parse_upload("--x\r\nContent-Disposition: form-data; name=\"a\"").unwrap();
    assert!(fields.is_empty());
    assert_eq!(fields.len(), 0);
}

#[test]
fn multipart_blank_line_without_value_fails() {
    assert!(parse_upload("--x\r\nname=\"a\"\r\n").is_none());
}

#[test]
fn multipart_later_field_replaces_earlier() {
    let body = "--x\r\nname=\"a\"\r\n\r\n1\r\n---x\r\nname=\"a\"\r\n\r\n2";
    let fields = parse_upload(body).unwrap();
    assert_eq!(pairs(&fields), owned(&[("a", "2")]));
}

#[test]
fn fields_put_and_get() {
    let mut fields = FormFields::new();
    assert!(fields.is_empty());
    fields.put("b", "1");
    fields.put("a", "2");
    fields.put("b", "3");
    assert_eq!(fields.len(), 2);
    assert_eq!(pairs(&fields), owned(&[("a", "2"), ("b", "3")]));
}
