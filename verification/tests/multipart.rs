use mik_sdk::constants::MAX_MULTIPART_PARTS;
use mik_sdk::request::multipart::{
    extract_boundary, extract_quoted_param, parse_multipart, parse_single_part, MultipartError,
};

#[test]
fn test_extract_boundary_basic() {
    let ct = "multipart/form-data; boundary=----WebKitFormBoundary7MA4YWxk";
    assert_eq!(extract_boundary(ct), Some("----WebKitFormBoundary7MA4YWxk"));
}

#[test]
fn test_extract_boundary_quoted() {
    let ct = r#"multipart/form-data; boundary="----Boundary""#;
    assert_eq!(extract_boundary(ct), Some("----Boundary"));
}

#[test]
fn test_extract_boundary_not_multipart() {
    let ct = "application/json";
    assert_eq!(extract_boundary(ct), None);
}

#[test]
fn test_extract_boundary_no_boundary() {
    let ct = "multipart/form-data";
    assert_eq!(extract_boundary(ct), None);
}

#[test]
fn test_extract_boundary_case_insensitive() {
    let ct = "Multipart/Form-Data; charset=utf-8; BOUNDARY= abc ";
    assert_eq!(extract_boundary(ct), Some("abc"));
}

#[test]
fn test_parse_multipart_single_field() {
    let boundary = "----Boundary";
    let body = b"------Boundary\r\n\
        Content-Disposition: form-data; name=\"field1\"\r\n\
        \r\n\
        value1\r\n\
        ------Boundary--";

    let parts = parse_multipart(body, boundary).unwrap();
    assert_eq!(parts.len(), 1);
    assert_eq!(parts[0].name(), "field1");
    assert_eq!(parts[0].text(), Some("value1"));
    assert!(parts[0].filename().is_none());
}

#[test]
fn test_parse_multipart_multiple_fields() {
    let boundary = "----Boundary";
    let body = b"------Boundary\r\n\
        Content-Disposition: form-data; name=\"field1\"\r\n\
        \r\n\
        value1\r\n\
        ------Boundary\r\n\
        Content-Disposition: form-data; name=\"field2\"\r\n\
        \r\n\
        value2\r\n\
        ------Boundary--";

    let parts = parse_multipart(body, boundary).unwrap();
    assert_eq!(parts.len(), 2);
    assert_eq!(parts[0].name(), "field1");
    assert_eq!(parts[0].text(), Some("value1"));
    assert_eq!(parts[1].name(), "field2");
    assert_eq!(parts[1].text(), Some("value2"));
}

#[test]
fn test_parse_multipart_file_upload() {
    let boundary = "----Boundary";
    let body = b"------Boundary\r\n\
        Content-Disposition: form-data; name=\"file\"; filename=\"test.txt\"\r\n\
        Content-Type: text/plain\r\n\
        \r\n\
        file content here\r\n\
        ------Boundary--";

    let parts = parse_multipart(body, boundary).unwrap();
    assert_eq!(parts.len(), 1);
    assert_eq!(parts[0].name(), "file");
    assert_eq!(parts[0].filename(), Some("test.txt"));
    assert_eq!(parts[0].content_type(), Some("text/plain"));
    assert_eq!(parts[0].text(), Some("file content here"));
}

#[test]
fn test_parse_multipart_binary_data() {
    let boundary = "----Boundary";
    let mut body = Vec::new();
    body.extend_from_slice(b"------Boundary\r\n");
    body.extend_from_slice(b"Content-Disposition: form-data; name=\"binary\"\r\n");
    body.extend_from_slice(b"\r\n");
    body.extend_from_slice(b"Hello");
    body.extend_from_slice(b"\r\n------Boundary--");

    let parts = parse_multipart(&body, boundary).unwrap();
    assert_eq!(parts.len(), 1);
    assert_eq!(parts[0].data(), b"Hello");
}

#[test]
fn test_parse_multipart_empty_body() {
    let boundary = "----Boundary";
    let body = b"------Boundary--";
    let parts = parse_multipart(body, boundary).unwrap();
    assert!(parts.is_empty());
}

#[test]
fn test_parse_multipart_invalid_no_boundary() {
    let boundary = "----Boundary";
    let body = b"no boundary here";

    let result = parse_multipart(body, boundary);
    assert_eq!(result, Err(MultipartError::InvalidFormat));
}

#[test]
fn test_parse_multipart_invalid_utf8_body() {
    let body = [0x2d, 0x2d, 0x62, 0xff, 0x0d, 0x0a];
    assert_eq!(parse_multipart(&body, "b"), Err(MultipartError::InvalidFormat));
}

#[test]
fn test_parse_multipart_too_many_parts() {
    let mut body = String::new();
    for i in 0..(MAX_MULTIPART_PARTS + 1) {
        body.push_str(&format!("--b\r\nContent-Disposition: form-data; name=\"f{i}\"\r\n\r\nv\r\n"));
    }
    body.push_str("--b--");
    assert_eq!(parse_multipart(body.as_bytes(), "b"), Err(MultipartError::TooManyParts));

    let mut ok = String::new();
    for i in 0..MAX_MULTIPART_PARTS {
        ok.push_str(&format!("--b\r\nContent-Disposition: form-data; name=\"f{i}\"\r\n\r\nv\r\n"));
    }
    ok.push_str("--b--");
    assert_eq!(parse_multipart(ok.as_bytes(), "b").unwrap().len(), MAX_MULTIPART_PARTS);
}

#[test]
fn test_parse_multipart_skips_nameless_and_lf_parts() {
    let body = b"preamble\n--b\nContent-Type: text/plain\n\nno name\n--b\nContent-Disposition: form-data; NAME=x\n\ndata\n\n--b--";
    let parts = parse_multipart(body, "b").unwrap();
    assert_eq!(parts.len(), 1);
    assert_eq!(parts[0].name(), "x");
    assert_eq!(parts[0].data(), b"data");
}

#[test]
fn test_parse_single_part_directly() {
    let p = parse_single_part("Content-Disposition: form-data; name=\"a\"; filename=b.txt\r\n\r\nxyz\r\n").unwrap();
    assert_eq!(p.name(), "a");
    assert_eq!(p.filename(), Some("b.txt"));
    assert_eq!(p.data(), b"xyz");
    assert!(parse_single_part("Content-Disposition: form-data; name=\"a\"").is_none());
    assert!(parse_single_part("Content-Type: x\r\n\r\ndata").is_none());
}

#[test]
fn test_extract_quoted_param() {
    assert_eq!(
        extract_quoted_param(r#"name="field""#, "name="),
        Some("field")
    );
    assert_eq!(extract_quoted_param("name=field", "name="), Some("field"));
    assert_eq!(
        extract_quoted_param(r#"filename="test.txt""#, "filename="),
        Some("test.txt")
    );
    assert_eq!(extract_quoted_param("other=value", "name="), None);
}

#[test]
fn test_extract_quoted_param_edges() {
    assert_eq!(extract_quoted_param("NAME=\"x\"", "name="), Some("x"));
    assert_eq!(extract_quoted_param("name=\"", "name="), Some("\""));
    assert_eq!(extract_quoted_param("name=", "name="), Some(""));
    assert_eq!(extract_quoted_param("nam", "name="), None);
}

#[test]
fn test_multipart_error_display() {
    assert_eq!(
        MultipartError::NotMultipart.to_string(),
        "Content-Type is not multipart/form-data"
    );
    assert_eq!(
        MultipartError::NoBoundary.to_string(),
        "No boundary parameter in Content-Type"
    );
    assert_eq!(
        MultipartError::InvalidFormat.to_string(),
        "Invalid multipart format"
    );
    assert_eq!(MultipartError::NoBody.to_string(), "No body in request");
    assert_eq!(
        MultipartError::TooManyParts.to_string(),
        format!("Too many parts (max: {MAX_MULTIPART_PARTS})")
    );
}

#[test]
fn test_boundary_law_examples() {
    for b in ["x", "----WebKitFormBoundary7MA4YWxk", "a b", "é"] {
        let ct = format!("multipart/form-data; boundary={b}");
        assert_eq!(extract_boundary(&ct), Some(b));
        let quoted = format!("multipart/form-data; boundary=\"{b}\"");
        assert_eq!(extract_boundary(&quoted), Some(b));
    }
    assert_eq!(extract_boundary("multipart/form-data; boundary="), Some(""));
}

#[test]
fn test_multipart_binary_data_invalid_utf8() {
    let boundary = "----Boundary";
    let mut body = Vec::new();
    body.extend_from_slice(format!("--{boundary}\r\n").as_bytes());
    body.extend_from_slice(b"Content-Disposition: form-data; name=\"data\"\r\n\r\n");
    body.extend_from_slice(&[0x80, 0x81, 0x82]);
    body.extend_from_slice(format!("\r\n--{boundary}--").as_bytes());

    let content_type = format!("multipart/form-data; boundary={boundary}");
    let b = extract_boundary(&content_type).unwrap();
    let result = parse_multipart(&body, b);
    assert_eq!(result, Err(MultipartError::InvalidFormat));
}

#[test]
fn test_multipart_too_many_parts() {
    let boundary = "----Boundary";
    let mut body = Vec::new();
    for i in 0..=MAX_MULTIPART_PARTS {
        body.extend_from_slice(format!("--{boundary}\r\n").as_bytes());
        body.extend_from_slice(
            format!("Content-Disposition: form-data; name=\"field{i}\"\r\n\r\n").as_bytes(),
        );
        body.extend_from_slice(format!("value{i}\r\n").as_bytes());
    }
    body.extend_from_slice(format!("--{boundary}--").as_bytes());

    let content_type = format!("multipart/form-data; boundary={boundary}");
    let b = extract_boundary(&content_type).unwrap();
    let result = parse_multipart(&body, b);
    assert_eq!(result, Err(MultipartError::TooManyParts));
}
