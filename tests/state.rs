use marmotte::document::{GopherResponse, GopherTextResponse};
use marmotte::navigation::ClientState;
use marmotte::url::GopherURL;

#[test]
fn should_prepare_going_back() {
    // Set initial state
    let current_page = GopherURL::from("gopher://khzae.net");
    let mut state = ClientState {
        bookmarks: Vec::new(),
        history: Vec::new(),
        last_response: GopherResponse::Text(GopherTextResponse::new()),
    };
    state.history.insert(0, current_page);
    state.history.insert(
        1,
        GopherURL::from("gopher://zaibatsu.circumlunar.space/1/~solderpunk"),
    );
    state
        .history
        .insert(2, GopherURL::from("gopher://zaibatsu.circumlunar.space"));

    // Set expected state
    let expected_last_page_history = GopherURL::from("gopher://zaibatsu.circumlunar.space");
    let expected_previous_url = GopherURL::from("gopher://zaibatsu.circumlunar.space/1/~solderpunk");
    let mut expected_state = ClientState {
        bookmarks: Vec::new(),
        history: Vec::new(),
        last_response: GopherResponse::Text(GopherTextResponse::new()),
    };
    expected_state.history.push(expected_last_page_history);

    // Get back url
    let previous_url = state.prepare_going_back();

    assert_eq!(expected_state.history, state.history);
    assert_eq!(Ok(expected_previous_url), previous_url);
}
