use webarchive::{
    from_bytes, from_document, to_binary, to_document, to_xml, DecodeError, Document, ReadError,
    WebArchive, WebResource,
};

fn resource(url: &str, mime: &str, data: &[u8]) -> WebResource {
    WebResource {
        data: data.to_vec(),
        url: url.to_string(),
        frame_name: None,
        mime_type: mime.to_string(),
        text_encoding_name: None,
        response: None,
    }
}

fn sample() -> WebArchive {
    let mut main = resource("https://example.com/", "text/html", b"<html></html>");
    main.text_encoding_name = Some("UTF-8".to_string());
    let mut png = resource("https://example.com/a.png", "image/png", &[137, 80, 78, 71]);
    png.response = Some(vec![98, 112, 108, 105, 115, 116]);
    let css = resource("https://example.com/s.css", "text/css", b"body{}");
    let mut frame_main = resource("https://example.com/frame.html", "text/html", b"<p>f</p>");
    frame_main.frame_name = Some("left".to_string());
    let frame = WebArchive {
        main_resource: frame_main,
        subresources: None,
        subframe_archives: None,
    };
    WebArchive {
        main_resource: main,
        subresources: Some(vec![png, css]),
        subframe_archives: Some(vec![frame]),
    }
}

fn same_resource(a: &WebResource, b: &WebResource) -> bool {
    a.data == b.data
        && a.url == b.url
        && a.frame_name == b.frame_name
        && a.mime_type == b.mime_type
        && a.text_encoding_name == b.text_encoding_name
        && a.response == b.response
}

fn same_archive(a: &WebArchive, b: &WebArchive) -> bool {
    let subs = match (&a.subresources, &b.subresources) {
        (None, None) => true,
        (Some(x), Some(y)) => x.len() == y.len() && x.iter().zip(y).all(|(p, q)| same_resource(p, q)),
        _ => false,
    };
    let frames = match (&a.subframe_archives, &b.subframe_archives) {
        (None, None) => true,
        (Some(x), Some(y)) => x.len() == y.len() && x.iter().zip(y).all(|(p, q)| same_archive(p, q)),
        _ => false,
    };
    same_resource(&a.main_resource, &b.main_resource) && subs && frames
}

fn entries(d: &Document) -> &Vec<(String, Document)> {
    match d {
        Document::Dictionary(es) => es,
        _ => panic!("not a dictionary"),
    }
}

fn text(s: &str) -> Document {
    Document::Text(s.to_string())
}

fn resource_doc(extra: Vec<(String, Document)>) -> Document {
    let mut es = vec![
        ("WebResourceData".to_string(), Document::Data(vec![1, 2, 3])),
        ("WebResourceURL".to_string(), text("https://example.com/")),
        ("WebResourceMIMEType".to_string(), text("text/html")),
    ];
    es.extend(extra);
    Document::Dictionary(es)
}

#[test]
fn round_trip_xml() {
    let a = sample();
    let bytes = to_xml(&a);
    assert!(bytes.starts_with(b"<?xml"));
    let b = from_bytes(&bytes).expect("decode");
    assert!(same_archive(&a, &b));
}

#[test]
fn round_trip_binary() {
    let a = sample();
    let bytes = to_binary(&a);
    assert!(bytes.starts_with(b"bplist00"));
    let b = from_bytes(&bytes).expect("decode");
    assert!(same_archive(&a, &b));
}

#[test]
fn xml_holds_present_keys_only() {
    let a = WebArchive {
        main_resource: resource("about:hello", "text/plain", b"hello world"),
        subresources: None,
        subframe_archives: None,
    };
    let xml = String::from_utf8(to_xml(&a)).expect("utf-8");
    assert!(xml.contains("<key>WebMainResource</key>"));
    assert!(xml.contains("aGVsbG8gd29ybGQ="));
    assert!(xml.contains("<string>about:hello</string>"));
    assert!(!xml.contains("WebSubresources"));
    assert!(!xml.contains("WebSubframeArchives"));
    assert!(!xml.contains("WebResourceTextEncodingName"));
    assert!(!xml.contains("WebResourceResponse"));
}

#[test]
fn encoded_keys_in_order() {
    let d = to_document(&sample());
    let keys: Vec<&str> = entries(&d).iter().map(|(k, _)| k.as_str()).collect();
    assert_eq!(keys, vec!["WebMainResource", "WebSubresources", "WebSubframeArchives"]);
    let main_keys: Vec<&str> = entries(&entries(&d)[0].1).iter().map(|(k, _)| k.as_str()).collect();
    assert_eq!(
        main_keys,
        vec!["WebResourceData", "WebResourceURL", "WebResourceMIMEType", "WebResourceTextEncodingName"]
    );
}

#[test]
fn empty_names_decode_as_absent() {
    let d = Document::Dictionary(vec![(
        "WebMainResource".to_string(),
        resource_doc(vec![
            ("WebResourceTextEncodingName".to_string(), text("")),
            ("WebResourceFrameName".to_string(), text("")),
        ]),
    )]);
    let a = from_document(&d).expect("decode");
    assert!(a.main_resource.text_encoding_name.is_none());
    assert!(a.main_resource.frame_name.is_none());
    assert_eq!(a.main_resource.data, vec![1, 2, 3]);
}

#[test]
fn non_empty_names_are_kept() {
    let d = Document::Dictionary(vec![(
        "WebMainResource".to_string(),
        resource_doc(vec![("WebResourceTextEncodingName".to_string(), text("UTF-8"))]),
    )]);
    let a = from_document(&d).expect("decode");
    assert_eq!(a.main_resource.text_encoding_name, Some("UTF-8".to_string()));
}

#[test]
fn absent_subresources_are_omitted() {
    let a = WebArchive {
        main_resource: resource("https://example.com/", "text/html", b"x"),
        subresources: None,
        subframe_archives: None,
    };
    let d = to_document(&a);
    assert!(entries(&d).iter().all(|(k, _)| k != "WebSubresources"));
    let b = from_document(&d).expect("decode");
    assert!(b.subresources.is_none());
    assert!(b.subframe_archives.is_none());
}

#[test]
fn empty_subresource_list_stays_a_list() {
    let a = WebArchive {
        main_resource: resource("https://example.com/", "text/html", b"x"),
        subresources: Some(Vec::new()),
        subframe_archives: None,
    };
    let b = from_document(&to_document(&a)).expect("decode");
    assert_eq!(b.subresources.map(|v| v.len()), Some(0));
}

#[test]
fn unknown_top_level_key_rejected() {
    let d = Document::Dictionary(vec![
        ("WebMainResource".to_string(), resource_doc(vec![])),
        ("Extra".to_string(), text("x")),
    ]);
    assert!(matches!(from_document(&d), Err(DecodeError::UnknownKey)));
}

#[test]
fn unknown_nested_key_rejected() {
    let frame = Document::Dictionary(vec![(
        "WebMainResource".to_string(),
        resource_doc(vec![("Surprise".to_string(), text("x"))]),
    )]);
    let d = Document::Dictionary(vec![
        ("WebMainResource".to_string(), resource_doc(vec![])),
        ("WebSubframeArchives".to_string(), Document::Array(vec![frame])),
    ]);
    assert!(matches!(from_document(&d), Err(DecodeError::UnknownKey)));
}

#[test]
fn missing_main_resource_rejected() {
    let d = Document::Dictionary(vec![("WebSubresources".to_string(), Document::Array(vec![]))]);
    assert!(matches!(from_document(&d), Err(DecodeError::MissingKey)));
}

#[test]
fn missing_url_rejected() {
    let d = Document::Dictionary(vec![(
        "WebMainResource".to_string(),
        Document::Dictionary(vec![
            ("WebResourceData".to_string(), Document::Data(vec![])),
            ("WebResourceMIMEType".to_string(), text("text/html")),
        ]),
    )]);
    assert!(matches!(from_document(&d), Err(DecodeError::MissingKey)));
}

#[test]
fn wrong_kinds_rejected() {
    let list_for_map = Document::Dictionary(vec![("WebMainResource".to_string(), Document::Array(vec![]))]);
    assert!(matches!(from_document(&list_for_map), Err(DecodeError::WrongType)));
    let text_for_data = Document::Dictionary(vec![(
        "WebMainResource".to_string(),
        Document::Dictionary(vec![
            ("WebResourceData".to_string(), text("abc")),
            ("WebResourceURL".to_string(), text("https://example.com/")),
            ("WebResourceMIMEType".to_string(), text("text/html")),
        ]),
    )]);
    assert!(matches!(from_document(&text_for_data), Err(DecodeError::WrongType)));
    assert!(matches!(from_document(&text("x")), Err(DecodeError::WrongType)));
}

#[test]
fn not_a_property_list() {
    assert!(matches!(from_bytes(b"certainly not a plist"), Err(ReadError::NotAPropertyList)));
}

#[test]
fn property_list_of_another_shape() {
    let xml = b"<?xml version=\"1.0\" encoding=\"UTF-8\"?>\n<plist version=\"1.0\"><dict><key>Name</key><string>x</string></dict></plist>";
    assert!(matches!(from_bytes(xml), Err(ReadError::Schema(DecodeError::UnknownKey))));
}
