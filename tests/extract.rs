use webarchive::{
    index_file_extension, path_for, plan_extraction, relative_path, ExtractionRun, ListingEntry,
    PathError, WebArchive, WebResource,
};

fn resource(url: &str, mime: &str, data: &[u8]) -> WebResource {
    WebResource {
        data: data.to_vec(),
        url: url.to_string(),
        frame_name: None,
        mime_type: mime.to_string(),
        text_encoding_name: None,
        response: None,
    }
}

fn exts(v: &[&str]) -> Option<Vec<String>> {
    Some(v.iter().map(|s| s.to_string()).collect())
}

#[test]
fn directory_url_gets_index_name() {
    assert_eq!(
        path_for("http://example.com/assets/", &exts(&["png"])),
        Ok("example.com/assets/_unnamed_index.png".to_string())
    );
}

#[test]
fn file_url_keeps_its_name() {
    assert_eq!(path_for("http://example.com/a.png", &exts(&["png"])), Ok("example.com/a.png".to_string()));
}

#[test]
fn last_extension_is_taken() {
    assert_eq!(
        path_for("https://crouton.net/", &exts(&["htm", "html", "shtml"])),
        Ok("crouton.net/_unnamed_index.shtml".to_string())
    );
    assert_eq!(index_file_extension(&exts(&["jpe", "jpeg", "jpg"])), "jpg");
}

#[test]
fn unknown_type_falls_back_to_txt() {
    assert_eq!(path_for("http://example.com/", &None), Ok("example.com/_unnamed_index.txt".to_string()));
    assert_eq!(index_file_extension(&Some(Vec::new())), "txt");
    let r = resource("http://example.com/", "application/x-no-such-type", b"");
    assert_eq!(relative_path(&r), Ok("example.com/_unnamed_index.txt".to_string()));
}

#[test]
fn mime_table_lookup_for_html() {
    let r = resource("https://crouton.net/", "text/html", b"<html>");
    assert_eq!(relative_path(&r), Ok("crouton.net/_unnamed_index.shtml".to_string()));
}

#[test]
fn only_first_double_slash_is_split() {
    assert_eq!(
        path_for("https://example.com/a//b.txt", &None),
        Ok("example.com/a//b.txt".to_string())
    );
    assert_eq!(path_for("about:blank", &None), Ok("about:blank".to_string()));
}

#[test]
fn unsafe_paths_rejected() {
    assert_eq!(path_for("http://", &None), Err(PathError::NoFileName));
    assert_eq!(path_for("file:///etc/passwd", &None), Err(PathError::EscapesDestination));
    assert_eq!(path_for("http://example.com/../up.txt", &None), Err(PathError::EscapesDestination));
    assert_eq!(path_for("http://example.com/a/..", &None), Err(PathError::EscapesDestination));
    assert_eq!(path_for("http://../x", &None), Err(PathError::EscapesDestination));
    assert_eq!(path_for("http://example.com/a..b/c", &None), Ok("example.com/a..b/c".to_string()));
}

#[test]
fn total_size_adds_every_level() {
    let inner = WebArchive {
        main_resource: resource("http://e.com/f.html", "text/html", &[0; 7]),
        subresources: Some(vec![resource("http://e.com/g.png", "image/png", &[0; 11])]),
        subframe_archives: None,
    };
    let a = WebArchive {
        main_resource: resource("http://e.com/", "text/html", &[0; 134]),
        subresources: Some(vec![resource("http://e.com/crouton.png", "image/png", &[0; 5182])]),
        subframe_archives: Some(vec![inner]),
    };
    assert_eq!(a.total_size(), 134 + 5182 + 7 + 11);
    assert_eq!(a.subresource_count(), 1);
    assert_eq!(a.subframe_archive_count(), 1);
}

#[test]
fn total_size_of_bare_archive() {
    let a = WebArchive {
        main_resource: resource("http://e.com/", "text/html", &[1, 2, 3]),
        subresources: None,
        subframe_archives: None,
    };
    assert_eq!(a.total_size(), 3);
    assert_eq!(a.subresource_count(), 0);
    assert_eq!(a.subframe_archive_count(), 0);
}

#[test]
fn plan_is_depth_first_pre_order() {
    let inner = WebArchive {
        main_resource: resource("http://e.com/frame.html", "text/html", b"f"),
        subresources: Some(vec![resource("http://e.com/frame.css", "text/css", b"fc")]),
        subframe_archives: None,
    };
    let a = WebArchive {
        main_resource: resource("https://crouton.net/", "text/html", b"m"),
        subresources: Some(vec![resource("https://crouton.net/crouton.png", "image/png", b"p")]),
        subframe_archives: Some(vec![inner]),
    };
    let plan = plan_extraction(&a).expect("plan");
    let paths: Vec<&str> = plan.iter().map(|f| f.path.as_str()).collect();
    assert_eq!(
        paths,
        vec![
            "crouton.net/_unnamed_index.shtml",
            "crouton.net/crouton.png",
            "e.com/frame.html",
            "e.com/frame.css",
        ]
    );
    let data: Vec<&[u8]> = plan.iter().map(|f| f.data.as_slice()).collect();
    assert_eq!(data, vec![&b"m"[..], &b"p"[..], &b"f"[..], &b"fc"[..]]);
}

#[test]
fn plan_refuses_escaping_path() {
    let a = WebArchive {
        main_resource: resource("https://e.com/index.html", "text/html", b"m"),
        subresources: Some(vec![
            resource("https://e.com/../evil", "text/plain", b"x"),
            resource("http://", "text/plain", b"y"),
        ]),
        subframe_archives: None,
    };
    let e = match plan_extraction(&a) {
        Err(e) => e,
        Ok(_) => panic!("an unsafe path was planned"),
    };
    assert_eq!(e.url, "https://e.com/../evil");
    assert_eq!(e.reason, PathError::EscapesDestination);
}

#[test]
fn run_stops_at_first_failure() {
    let mut run = ExtractionRun::new(3);
    assert_eq!(run.next_file(), Some(0));
    run.record(true);
    assert_eq!(run.next_file(), Some(1));
    run.record(false);
    assert_eq!(run.next_file(), None);
    assert_eq!(run.written, 1);
}

#[test]
fn run_finishes_after_all_files() {
    let mut run = ExtractionRun::new(2);
    run.record(true);
    run.record(true);
    assert_eq!(run.next_file(), None);
    assert!(!run.failed);
    assert_eq!(ExtractionRun::new(0).next_file(), None);
}

#[test]
fn listing_is_pre_order() {
    let inner = WebArchive {
        main_resource: resource("http://e.com/frame.html", "text/html", &[0; 7]),
        subresources: Some(vec![resource("http://e.com/g.png", "image/png", &[0; 11])]),
        subframe_archives: None,
    };
    let a = WebArchive {
        main_resource: resource("https://crouton.net/", "text/html", &[0; 134]),
        subresources: Some(vec![resource("https://crouton.net/crouton.png", "image/png", &[0; 5182])]),
        subframe_archives: Some(vec![inner]),
    };
    let lines: Vec<String> = a
        .listing()
        .into_iter()
        .map(|e| match e {
            ListingEntry::Archive { url, mime_type, size, subresource_count, subframe_archive_count, total_size } => {
                format!("A {} {} {} {} {} {}", url, mime_type, size, subresource_count, subframe_archive_count, total_size)
            }
            ListingEntry::Subresource { url, mime_type, size } => format!("S {} {} {}", url, mime_type, size),
        })
        .collect();
    assert_eq!(
        lines,
        vec![
            "A https://crouton.net/ text/html 134 1 1 5334",
            "S https://crouton.net/crouton.png image/png 5182",
            "A http://e.com/frame.html text/html 7 1 0 18",
            "S http://e.com/g.png image/png 11",
        ]
    );
}
