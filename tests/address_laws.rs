use marmotte::url::GopherURL;

fn address(host: &str, port: u16, item_type: char, selector: &str) -> GopherURL {
    GopherURL {
        host: host.to_string(),
        port,
        item_type,
        selector: selector.to_string(),
    }
}

#[test]
fn parsing_never_fails_and_defaults() {
    assert_eq!(address("", 70, '1', ""), GopherURL::from(""));
    assert_eq!(address("host", 70, '1', ""), GopherURL::from("host/"));
    assert_eq!(address("", 70, '1', ""), GopherURL::from(":"));
    assert_eq!(address("", 70, '1', ""), GopherURL::from("gopher://"));
    assert_eq!(address("h", 70, '0', "x"), GopherURL::from("h:abc/0x"));
    assert_eq!(address("h", 70, '1', ""), GopherURL::from("h:99999"));
    assert_eq!(address("h", 65535, '1', ""), GopherURL::from("h:65535"));
    assert_eq!(address("h", 70, '1', ""), GopherURL::from("h:"));
    assert_eq!(address("é", 70, 'é', "/ü"), GopherURL::from("é/é/ü"));
    assert_eq!(address("a", 7, '9', ":b/c"), GopherURL::from("a:7/9:b/c"));
}

#[test]
fn non_standard_port_scenario() {
    let u = GopherURL::from("khzae.net:105/1/");
    assert_eq!(u.host, "khzae.net");
    assert_eq!(u.port, 105);
    assert_eq!(u.item_type, '1');
    assert_eq!(u.selector, "/");
}

#[test]
fn canonical_text_reads_back() {
    let samples = vec![
        address("khzae.net", 105, '1', "/"),
        address("h", 0, '0', ""),
        address("sdf.org", 65535, '/', "//x y"),
        address("host", 70, 'i', "gopher://other:1/1"),
    ];
    for a in samples {
        let text = a.get_url().unwrap();
        assert_eq!(a, GopherURL::from(&text));
    }
    assert_eq!(
        Some("gopher://h:0/0".to_string()),
        address("h", 0, '0', "").get_url()
    );
}

#[test]
fn no_resource_has_no_text() {
    assert_eq!(None, GopherURL::new().get_url());
    assert_eq!(None, address("", 70, '1', "/x").get_url());
}

#[test]
fn parent_is_none_only_at_root_or_without_host() {
    assert_eq!(None, address("", 70, '1', "/a/b").get_url_parent_selector());
    assert_eq!(None, address("h", 70, '1', "").get_url_parent_selector());
    assert_eq!(
        Some("gopher://h:70".to_string()),
        address("h", 70, '1', "/").get_url_parent_selector()
    );
    assert_eq!(
        Some("gopher://h:70/1".to_string()),
        address("h", 70, '1', "//").get_url_parent_selector()
    );
    // Only one trailing slash is dropped before looking for the last one.
    assert_eq!(
        Some("gopher://h:70/1/a".to_string()),
        address("h", 70, '1', "/a//").get_url_parent_selector()
    );
}

#[test]
fn ascent_reaches_root_within_segment_count() {
    // "/a/b/c.txt" has four pieces between its slashes.
    let mut current = address("h", 70, '0', "/a/b/c.txt");
    let mut steps = 0;
    while let Some(text) = current.get_url_parent_selector() {
        current = GopherURL::from(&text);
        steps += 1;
        assert!(steps <= 4);
    }
    assert_eq!(current.selector, "");
    assert_eq!(current.host, "h");
    assert_eq!(steps, 3);
}
