use marmotte::document::{GopherResponse, GopherTextResponse};
use marmotte::navigation::ClientState;
use marmotte::url::GopherURL;

const MENU: &str = "i info\t\terror.host\t1\r\n1About\t/about\tkhzae.net\t70\r\n0Doc\t/doc.txt\tkhzae.net\t70\r\n.";

fn session_with(history: &[&str]) -> ClientState {
    let mut state = ClientState::new();
    for text in history.iter().rev() {
        state.open(GopherURL::from(text), "").unwrap();
    }
    state
}

fn hosts(state: &ClientState) -> Vec<String> {
    state.history.iter().map(|u| u.host.clone()).collect()
}

#[test]
fn going_back_refetches_previous_and_shrinks_history() {
    // B was visited after A.
    let mut state = session_with(&["b.example", "a.example"]);
    let target = state.back_target().unwrap();
    assert_eq!(GopherURL::from("a.example"), target);
    assert_eq!(
        Ok("Went back to previous document".to_string()),
        state.go_back("line\n.")
    );
    assert_eq!(vec![GopherURL::from("a.example")], state.history);
}

#[test]
fn going_back_repeatedly_loses_one_entry_each_time() {
    let mut state = session_with(&["d", "c", "b", "a"]);
    assert_eq!(4, state.history.len());
    assert!(state.go_back("").is_ok());
    assert_eq!(vec!["c", "b", "a"], hosts(&state));
    assert!(state.go_back("").is_ok());
    assert_eq!(vec!["b", "a"], hosts(&state));
    assert!(state.go_back("").is_ok());
    assert_eq!(vec!["a"], hosts(&state));
    assert_eq!(
        Err("There is no previous document to go back".to_string()),
        state.go_back("")
    );
    assert_eq!(vec!["a"], hosts(&state));
    let mut empty = ClientState::new();
    assert!(empty.go_back("").is_err());
    assert!(empty.history.is_empty());
    assert!(empty.back_target().is_err());
}

#[test]
fn prepare_going_back_needs_two_entries() {
    let mut state = session_with(&["only"]);
    assert_eq!(
        Err("There is no previous document to go back".to_string()),
        state.prepare_going_back()
    );
    assert_eq!(1, state.history.len());
}

#[test]
fn opening_reads_by_address_type() {
    let mut state = ClientState::new();
    state.open(GopherURL::from("khzae.net"), MENU).unwrap();
    assert!(matches!(state.last_response, GopherResponse::Menu(_)));
    state.open(GopherURL::from("khzae.net/0/doc.txt"), MENU).unwrap();
    match &state.last_response {
        GopherResponse::Text(t) => assert_eq!(3, t.lines().len()),
        GopherResponse::Menu(_) => panic!("a text address gives a text"),
    }
    assert_eq!(2, state.history.len());
    assert_eq!(
        Err("There is no host to request".to_string()),
        state.open(GopherURL::new(), MENU)
    );
    assert_eq!(2, state.history.len());
}

#[test]
fn menu_scenario_resolves_links() {
    let mut state = ClientState::new();
    state.open(GopherURL::from("khzae.net"), MENU).unwrap();
    match &state.last_response {
        GopherResponse::Menu(m) => {
            assert_eq!(3, m.lines().len());
            assert_eq!(&vec![1usize, 2], m.links());
        }
        GopherResponse::Text(_) => panic!("a menu address gives a menu"),
    }
    let about = state.link_target("1").unwrap();
    assert_eq!(about.host, "khzae.net");
    assert_eq!(about.port, 70);
    assert_eq!(about.item_type, '1');
    assert_eq!(about.selector, "/about");
    let doc = state.link_target("2").unwrap();
    assert_eq!(doc.item_type, '0');
    assert_eq!(doc.selector, "/doc.txt");
    assert_eq!(
        Err("Given index is out of bounds".to_string()),
        state.link_target("3")
    );
    assert_eq!(
        Err("Link index can't be negative".to_string()),
        state.link_target("one")
    );
}

#[test]
fn text_documents_have_no_links() {
    let doc = GopherResponse::Text(GopherTextResponse::from("1About\t/about\tkhzae.net\t70"));
    assert_eq!(
        Err("There is no link in the current document".to_string()),
        doc.get_link_url("1")
    );
    assert_eq!(
        Err("There is no link in the current document".to_string()),
        doc.get_link_url("-3")
    );
}

#[test]
fn going_up() {
    let mut state = ClientState::new();
    assert_eq!(
        Err("There is no current document".to_string()),
        state.up_target()
    );
    state.open(GopherURL::from("h/1"), "").unwrap();
    assert_eq!(
        Err("Seems there is no parent for this document".to_string()),
        state.up_target()
    );
    state.open(GopherURL::from("h:71/0/a/b.txt"), "").unwrap();
    assert_eq!(GopherURL::from("gopher://h:71/1/a"), state.up_target().unwrap());
}

#[test]
fn bookmarks_are_added_followed_and_removed() {
    let mut state = ClientState::new();
    assert_eq!(vec!["".to_string(), "There are no bookmarks".to_string()], state.render_bookmarks());
    state.add_bookmark("gopherpedia.com").unwrap();
    state.add_bookmark("khzae.net:105/0/x").unwrap();
    state.add_bookmark("gopherpedia.com").unwrap();
    assert_eq!(
        Err("There is no host in this address".to_string()),
        state.add_bookmark("")
    );
    assert_eq!(3, state.bookmarks.len());
    assert_eq!(
        vec![
            "Bookmarks:".to_string(),
            "[bk 0] gopher://gopherpedia.com:70/1".to_string(),
            "[bk 1] gopher://khzae.net:105/0/x".to_string(),
            "[bk 2] gopher://gopherpedia.com:70/1".to_string(),
        ],
        state.render_bookmarks()
    );
    assert_eq!(GopherURL::from("khzae.net:105/0/x"), state.bookmark_target("1").unwrap());
    assert_eq!(3, state.bookmarks.len());
    assert_eq!(
        Err("There is no bookmark at this index".to_string()),
        state.bookmark_target("3")
    );
    assert_eq!(
        Err("Could not parse the bookmarks index".to_string()),
        state.bookmark_target("x")
    );
    assert_eq!(
        Err("There is no bookmark at this index".to_string()),
        state.remove_bookmark("7")
    );
    assert_eq!(
        Err("Could not parse the bookmarks index".to_string()),
        state.remove_bookmark("-1")
    );
    assert_eq!(GopherURL::from("khzae.net:105/0/x"), state.remove_bookmark("1").unwrap());
    assert_eq!(
        vec![GopherURL::from("gopherpedia.com"), GopherURL::from("gopherpedia.com")],
        state.bookmarks
    );
}

#[test]
fn bookmarks_are_stored_and_loaded() {
    let mut state = ClientState::new();
    state.add_bookmark("a.example/0/x").unwrap();
    state.add_bookmark("b.example:7").unwrap();
    let stored = state.save_bookmarks();
    assert_eq!("gopher://a.example:70/0/x\ngopher://b.example:7/1\n", stored);
    let mut other = ClientState::new();
    other.load_bookmarks(&stored);
    assert_eq!(state.bookmarks, other.bookmarks);
    other.load_bookmarks("\n  gopher://c.example:70/1\n\n:70\n");
    assert_eq!(vec![GopherURL::from("c.example")], other.bookmarks);
    other.load_bookmarks("");
    assert!(other.bookmarks.is_empty());
}

#[test]
fn loading_keeps_each_line_as_written() {
    let mut state = ClientState::new();
    state.load_bookmarks("h/1x \nk");
    assert_eq!(2, state.bookmarks.len());
    assert_eq!("x ", state.bookmarks[0].selector);
    assert_eq!("k", state.bookmarks[1].host);
}

#[test]
fn bookmarks_with_trailing_space_round_trip() {
    let mut state = ClientState::new();
    state.add_bookmark("h/1x ").unwrap();
    state.add_bookmark("g:71/0 a b  ").unwrap();
    state.add_bookmark("k").unwrap();
    let stored = state.save_bookmarks();
    let mut other = ClientState::new();
    other.load_bookmarks(&stored);
    assert_eq!(state.bookmarks, other.bookmarks);
    assert_eq!("x ", other.bookmarks[0].selector);
    assert_eq!(" a b  ", other.bookmarks[1].selector);
}

#[test]
fn indices_may_carry_a_plus_sign() {
    let mut state = ClientState::new();
    state.open(GopherURL::from("khzae.net"), MENU).unwrap();
    assert_eq!("/doc.txt", state.link_target("+2").unwrap().selector);
    assert_eq!(
        Ok("gopher://khzae.net:70/1/about".to_string()),
        state.last_response.get_link_url("+1")
    );
    assert_eq!(
        Err("Given index is out of bounds".to_string()),
        state.last_response.get_link_url("+0")
    );
    assert_eq!(
        Err("Link index can't be negative".to_string()),
        state.last_response.get_link_url("+")
    );
    assert_eq!(
        Err("Link index can't be negative".to_string()),
        state.last_response.get_link_url("++1")
    );
    state.add_bookmark("a.example").unwrap();
    state.add_bookmark("b.example").unwrap();
    assert_eq!(GopherURL::from("b.example"), state.bookmark_target("+1").unwrap());
    assert_eq!(GopherURL::from("a.example"), state.remove_bookmark("+0").unwrap());
    assert_eq!(vec![GopherURL::from("b.example")], state.bookmarks);
}

#[test]
fn links_are_followed_from_the_entry_fields() {
    let mut state = ClientState::new();
    state
        .open(
            GopherURL::from("menu.example"),
            "1Six\t/v6\t::1\tabc\r\n0Port\t/p\tp.example\t7070\r\n.",
        )
        .unwrap();
    let six = state.link_target("1").unwrap();
    assert_eq!("::1", six.host);
    assert_eq!(70, six.port);
    assert_eq!('1', six.item_type);
    assert_eq!("/v6", six.selector);
    let port = state.link_target("2").unwrap();
    assert_eq!("p.example", port.host);
    assert_eq!(7070, port.port);
    assert_eq!('0', port.item_type);
}

#[test]
fn white_space_only_store_loads_no_bookmarks() {
    let mut state = ClientState::new();
    state.add_bookmark("a.example").unwrap();
    state.load_bookmarks(" ");
    assert!(state.bookmarks.is_empty());
    state.load_bookmarks("\n \t\r\n  ");
    assert!(state.bookmarks.is_empty());
    assert_eq!(
        vec!["".to_string(), "There are no bookmarks".to_string()],
        state.render_bookmarks()
    );
}

#[test]
fn padded_store_is_trimmed_as_a_whole() {
    let mut state = ClientState::new();
    state.load_bookmarks("  x  ");
    assert_eq!(vec![GopherURL::from("x")], state.bookmarks);
    state.load_bookmarks(" \n gopher://a.example:70/0/t \nb.example\n\t");
    assert_eq!(2, state.bookmarks.len());
    assert_eq!("a.example", state.bookmarks[0].host);
    assert_eq!("/t ", state.bookmarks[0].selector);
    assert_eq!(GopherURL::from("b.example"), state.bookmarks[1]);
}
