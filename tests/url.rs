use marmotte::url::GopherURL;

fn address(host: &str, port: u16, item_type: char, selector: &str) -> GopherURL {
    GopherURL {
        host: host.to_string(),
        port,
        item_type,
        selector: selector.to_string(),
    }
}

#[test]
fn should_import_any_valid_url() {
    let mut expected = address("zaibatsu.circumlunar.space", 70, '1', "/~solderpunk/");
    // Complete Gopher URL
    assert_eq!(
        expected,
        GopherURL::from("gopher://zaibatsu.circumlunar.space:70/1/~solderpunk/")
    );
    // Without gopher://
    assert_eq!(
        expected,
        GopherURL::from("zaibatsu.circumlunar.space:70/1/~solderpunk/")
    );
    // With gopher:// but without port number
    assert_eq!(
        expected,
        GopherURL::from("gopher://zaibatsu.circumlunar.space/1/~solderpunk/")
    );
    // Without gopher:// and without port number
    assert_eq!(
        expected,
        GopherURL::from("zaibatsu.circumlunar.space/1/~solderpunk/")
    );

    expected = address("zaibatsu.circumlunar.space", 70, '1', "");
    // Hostname only
    assert_eq!(expected, GopherURL::from("zaibatsu.circumlunar.space"));

    expected = address(
        "zaibatsu.circumlunar.space",
        70,
        '0',
        "/~solderpunk/phlog/project-gemini.txt",
    );
    // Text resource URL
    assert_eq!(
        expected,
        GopherURL::from("zaibatsu.circumlunar.space/0/~solderpunk/phlog/project-gemini.txt")
    );

    expected = address("khzae.net", 105, '1', "/");
    // Non-standard port
    assert_eq!(expected, GopherURL::from("khzae.net:105/1/"));

    expected = address("alexschroeder.ch", 70, '0', "Alex_Schroeder");
    // Selector without '/'
    assert_eq!(
        expected,
        GopherURL::from("gopher://alexschroeder.ch/0Alex_Schroeder")
    );
}

#[test]
fn should_return_formatted_attributes() {
    // get_server()
    assert_eq!(
        "zaibatsu.circumlunar.space:70".to_string(),
        GopherURL::from("gopher://zaibatsu.circumlunar.space:70/1/~solderpunk/").get_server()
    );
    // get_url()
    assert_eq!(
        Some("gopher://zaibatsu.circumlunar.space:70/1/~solderpunk".to_string()),
        GopherURL::from("gopher://zaibatsu.circumlunar.space:70/1/~solderpunk").get_url()
    );
}

#[test]
fn should_return_parent_selector_option() {
    // None when already at root even with resource type
    assert_eq!(
        None,
        GopherURL::from("gopher://zaibatsu.circumlunar.space:70/1").get_url_parent_selector()
    );
    // None when already at root
    assert_eq!(
        None,
        GopherURL::from("gopher://zaibatsu.circumlunar.space:70").get_url_parent_selector()
    );
    // Menu parent for a text resource
    assert_eq!(
        Some("gopher://zaibatsu.circumlunar.space:70/1/~solderpunk/phlog".to_string()),
        GopherURL::from("zaibatsu.circumlunar.space/0/~solderpunk/phlog/project-gemini.txt")
            .get_url_parent_selector()
    );
    // Menu parent for a text resource without '/'
    assert_eq!(
        Some("gopher://alexschroeder.ch:70".to_string()),
        GopherURL::from("gopher://alexschroeder.ch:70/0Alex_Schroeder").get_url_parent_selector()
    );
    // Menu parent for a menu resource
    assert_eq!(
        Some("gopher://zaibatsu.circumlunar.space:70/1/~solderpunk".to_string()),
        GopherURL::from("gopher://zaibatsu.circumlunar.space:70/1/~solderpunk/phlog")
            .get_url_parent_selector()
    );
    // Root menu parent for a menu resource
    assert_eq!(
        Some("gopher://zaibatsu.circumlunar.space:70/1".to_string()),
        GopherURL::from("gopher://zaibatsu.circumlunar.space:70/1/~solderpunk")
            .get_url_parent_selector()
    );
    // Root menu parent for a menu resource
    assert_eq!(
        Some("gopher://zaibatsu.circumlunar.space:70/1".to_string()),
        GopherURL::from("gopher://zaibatsu.circumlunar.space:70/1/~solderpunk/")
            .get_url_parent_selector()
    );
}
