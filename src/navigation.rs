//! The state of a browsing session: the history of visited addresses, the
//! document last fetched and the bookmarks, with the operations that user
//! commands map to. Fetching is left to the caller: an operation that needs a
//! document first names the address to fetch, and takes the response once the
//! fetch has succeeded.

use vstd::prelude::*;
use crate::document::{
    entry_address, link_entry, menu_of, text_of, DocView, GopherMenuResponse, GopherResponse,
    GopherTextResponse,
};
use crate::text::{
    collect_string, decimal, index_value, parse_index, push_decimal, split, split_chars,
    back_white, is_white_space, lemma_next_separator_is, lemma_split_line, next_separator,
    separator_at, skip_white, string_views, to_chars, trim, trimmed, views,
};
use crate::url::{
    canonical, lemma_canonical_round_trip, parent_url, parse_url, valid_host, GopherURL, UrlView,
    MENU_TYPE,
};

verus! {

/// The document that a response holds, read as the item type of the address
/// that was fetched says: a menu for a menu, text otherwise.
pub open spec fn document_for(u: UrlView, response: Seq<char>) -> DocView {
    if u.item_type == MENU_TYPE {
        DocView::Menu(menu_of(response))
    } else {
        DocView::Text(text_of(response))
    }
}

/// The views of a sequence of addresses.
pub open spec fn url_views(s: Seq<GopherURL>) -> Seq<UrlView> {
    s.map_values(|u: GopherURL| u@)
}

/// The bookmarks that stored lines hold: one address per line, read as it is
/// written; lines that name no host, empty ones among them, are skipped.
pub open spec fn kept_bookmarks(lines: Seq<Seq<char>>) -> Seq<UrlView>
    decreases lines.len(),
{
    if lines.len() == 0 {
        Seq::empty()
    } else {
        let kept = kept_bookmarks(lines.drop_last());
        let u = parse_url(lines.last());
        if u.host.len() > 0 {
            kept.push(u)
        } else {
            kept
        }
    }
}

/// The bookmarks that a stored list holds: the whole content is trimmed, then
/// cut into lines at each line feed.
pub open spec fn bookmarks_of(contents: Seq<char>) -> Seq<UrlView> {
    kept_bookmarks(split(trimmed(contents), seq!['\n']))
}

/// The stored form of a bookmark list: the canonical text of each, one per line.
pub open spec fn bookmarks_text(bs: Seq<UrlView>) -> Seq<char>
    decreases bs.len(),
{
    if bs.len() == 0 {
        Seq::empty()
    } else {
        bookmarks_text(bs.drop_last()) + canonical(bs.last()) + seq!['\n']
    }
}

/// An address that the stored list carries back: its host is one that the
/// canonical text carries, and its canonical text fits on one line and does
/// not end in white space.
pub open spec fn storable(b: UrlView) -> bool {
    &&& valid_host(b.host)
    &&& forall|k: int| 0 <= k < canonical(b).len() ==> canonical(b)[k] != '\n'
    &&& !is_white_space(canonical(b).last())
}

proof fn lemma_text_front(bs: Seq<UrlView>)
    requires
        bs.len() > 0,
    ensures
        bookmarks_text(bs) == canonical(bs[0]) + seq!['\n'] + bookmarks_text(bs.skip(1)),
    decreases bs.len(),
{
    if bs.len() == 1 {
        assert(bs.skip(1) =~= Seq::<UrlView>::empty());
        assert(bs.drop_last() =~= Seq::<UrlView>::empty());
        assert(bookmarks_text(bs) =~= canonical(bs[0]) + seq!['\n'] + bookmarks_text(bs.skip(1)));
    } else {
        let rest = bs.skip(1);
        lemma_text_front(bs.drop_last());
        assert(bs.drop_last().skip(1) =~= rest.drop_last());
        assert(bs.drop_last()[0] == bs[0]);
        assert(rest.last() == bs.last());
        assert(bookmarks_text(bs) =~= canonical(bs[0]) + seq!['\n'] + bookmarks_text(rest));
    }
}

proof fn lemma_kept_front(l: Seq<char>, ls: Seq<Seq<char>>)
    ensures
        kept_bookmarks(seq![l] + ls) == kept_bookmarks(seq![l]) + kept_bookmarks(ls),
    decreases ls.len(),
{
    if ls.len() == 0 {
        assert(seq![l] + ls =~= seq![l]);
        assert(kept_bookmarks(seq![l]) + kept_bookmarks(ls) =~= kept_bookmarks(seq![l]));
    } else {
        lemma_kept_front(l, ls.drop_last());
        assert((seq![l] + ls).drop_last() =~= seq![l] + ls.drop_last());
        assert((seq![l] + ls).last() == ls.last());
        assert(kept_bookmarks(seq![l] + ls) =~= kept_bookmarks(seq![l]) + kept_bookmarks(ls));
    }
}

/// The lines of the stored form of a non-empty list, its last line feed
/// dropped, hold the list.
proof fn lemma_stored_lines(bs: Seq<UrlView>)
    requires
        bs.len() > 0,
        forall|i: int| 0 <= i < bs.len() ==> storable(#[trigger] bs[i]),
    ensures
        kept_bookmarks(split(bookmarks_text(bs).drop_last(), seq!['\n'])) == bs,
    decreases bs.len(),
{
    let sep = seq!['\n'];
    let rest = bs.skip(1);
    let c = canonical(bs[0]);
    assert(storable(bs[0]));
    lemma_canonical_round_trip(bs[0]);
    lemma_text_front(bs);
    assert(seq![c].drop_last() =~= Seq::<Seq<char>>::empty());
    assert(seq![c].last() == c);
    assert(kept_bookmarks(Seq::<Seq<char>>::empty()) =~= Seq::<UrlView>::empty());
    assert(kept_bookmarks(seq![c]) == kept_bookmarks(seq![c].drop_last()).push(bs[0]));
    assert(kept_bookmarks(seq![c]) =~= seq![bs[0]]);
    if bs.len() == 1 {
        assert(bookmarks_text(rest) == Seq::<char>::empty());
        assert(bookmarks_text(bs).drop_last() =~= c);
        assert forall|m: int| 0 <= m < c.len() implies !separator_at(c, sep, m) by {
            if separator_at(c, sep, m) {
                assert(c.subrange(m, m + 1)[0] == sep[0]);
            }
        }
        lemma_next_separator_is(c, sep, 0, c.len() as int);
        assert(c.subrange(0, c.len() as int) =~= c);
        assert(split(c, sep) =~= seq![c]);
    } else {
        assert forall|i: int| 0 <= i < rest.len() implies storable(#[trigger] rest[i]) by {
            assert(rest[i] == bs[i + 1]);
        }
        lemma_stored_lines(rest);
        lemma_text_front(rest);
        let tail = bookmarks_text(rest).drop_last();
        assert(bookmarks_text(bs).drop_last() =~= c + sep + tail);
        lemma_split_line(c, tail);
        lemma_kept_front(c, split(tail, sep));
        assert(seq![bs[0]] + rest =~= bs);
    }
}

/// Loading what saving a bookmark list wrote gives the list back, field for
/// field, when each of its addresses can be stored.
pub proof fn lemma_bookmarks_round_trip(bs: Seq<UrlView>)
    requires
        forall|i: int| 0 <= i < bs.len() ==> storable(#[trigger] bs[i]),
    ensures
        bookmarks_of(bookmarks_text(bs)) == bs,
{
    let sep = seq!['\n'];
    let t = bookmarks_text(bs);
    if bs.len() == 0 {
        let empty = Seq::<char>::empty();
        assert(t == empty);
        assert(trimmed(t) =~= empty);
        assert(sep.len() == 1);
        assert(next_separator(empty, sep, 0) == 0);
        assert(empty.subrange(0, 0) =~= empty);
        assert(split(empty, sep) =~= seq![empty]);
        assert(parse_url(empty).host.len() == 0);
        assert(seq![empty].last() == empty);
        assert(seq![empty].drop_last() =~= Seq::<Seq<char>>::empty());
        assert(kept_bookmarks(Seq::<Seq<char>>::empty()) =~= Seq::<UrlView>::empty());
        assert(kept_bookmarks(seq![empty]) == kept_bookmarks(seq![empty].drop_last()));
        assert(bookmarks_of(t) =~= bs);
    } else {
        let first = canonical(bs[0]);
        let last = canonical(bs.last());
        assert(storable(bs[0]));
        assert(storable(bs.last()));
        lemma_text_front(bs);
        assert(t[0] == first[0]);
        assert(first[0] == 'g');
        assert(t == bookmarks_text(bs.drop_last()) + last + sep);
        assert(last.len() > 0);
        assert(t[t.len() - 1] == '\n');
        assert(t[t.len() - 2] == last.last());
        assert(skip_white(t, 0) == 0);
        assert(back_white(t, 0, t.len() - 1) == t.len() - 1);
        assert(back_white(t, 0, t.len() as int) == t.len() - 1);
        assert(trimmed(t) =~= t.drop_last());
        lemma_stored_lines(bs);
    }
}

/// The lines that show a bookmark list, each with its position.
pub open spec fn bookmark_lines(bs: Seq<UrlView>) -> Seq<Seq<char>> {
    if bs.len() == 0 {
        seq![Seq::empty(), "There are no bookmarks"@]
    } else {
        seq!["Bookmarks:"@] + Seq::new(
            bs.len(),
            |i: int| "[bk "@ + decimal(i as nat) + "] "@ + canonical(bs[i]),
        )
    }
}

/// The position that `index` writes, when it is a number (an optional `+`,
/// then digits).
pub open spec fn position_of(index: Seq<char>) -> Option<nat> {
    index_value(index)
}

/// The history that `m` successful calls of `go_back` leave, starting from `h`.
pub open spec fn history_after_backs(h: Seq<GopherURL>, m: nat) -> Seq<GopherURL>
    decreases m,
{
    if m == 0 || h.len() < 2 {
        h
    } else {
        history_after_backs(seq![h[1]] + h.skip(2), (m - 1) as nat)
    }
}

/// Going back `m` times from a history of `d > m` entries loses exactly one
/// entry per step: after step `c` there are `d - c` entries, and at the end the
/// oldest `d - m` entries remain, in order.
pub proof fn lemma_repeated_backs(h: Seq<GopherURL>, m: nat)
    requires
        m < h.len(),
    ensures
        history_after_backs(h, m) == h.subrange(m as int, h.len() as int),
        forall|c: nat| c <= m ==> #[trigger] history_after_backs(h, c).len() == h.len() - c,
    decreases m,
{
    if m == 0 {
        assert(h.subrange(0, h.len() as int) =~= h);
    } else {
        let next = seq![h[1]] + h.skip(2);
        assert(next =~= h.skip(1));
        lemma_repeated_backs(next, (m - 1) as nat);
        assert(next.subrange(m - 1, next.len() as int) =~= h.subrange(m as int, h.len() as int));
        assert forall|c: nat| c <= m implies #[trigger] history_after_backs(h, c).len() == h.len()
            - c by {
            if c > 0 {
                assert(history_after_backs(h, c) == history_after_backs(next, (c - 1) as nat));
            }
        }
    }
}

/// The document that `response` holds, read as the type of `url` says.
pub fn parse_document(url: &GopherURL, response: &str) -> (r: GopherResponse)
    ensures
        r@ == document_for(url@, response@),
{
    if url.item_type == MENU_TYPE {
        GopherResponse::Menu(GopherMenuResponse::from(response))
    } else {
        GopherResponse::Text(GopherTextResponse::from(response))
    }
}

/// The session: addresses visited, most recent first; the document of the
/// most recent one; and the bookmarks.
#[derive(Debug)]
pub struct ClientState {
    pub bookmarks: Vec<GopherURL>,
    pub history: Vec<GopherURL>,
    pub last_response: GopherResponse,
}

impl ClientState {
    /// Neither the history nor the bookmarks hold the "no resource" address.
    pub open spec fn wf(&self) -> bool {
        &&& forall|i: int| 0 <= i < self.history@.len() ==> self.history@[i].host@.len() > 0
        &&& forall|i: int| 0 <= i < self.bookmarks@.len() ==> self.bookmarks@[i].host@.len() > 0
    }

    /// A fresh session: no history, no bookmarks, an empty text.
    pub fn new() -> (r: ClientState)
        ensures
            r.wf(),
            r.history@.len() == 0,
            r.bookmarks@.len() == 0,
            r.last_response@ == DocView::Text(Seq::empty()),
    {
        ClientState {
            bookmarks: Vec::new(),
            history: Vec::new(),
            last_response: GopherResponse::Text(GopherTextResponse::new()),
        }
    }

    /// Takes the response fetched from `url`: it becomes the current document
    /// and `url` the front of the history. The "no resource" address is refused.
    pub fn open(&mut self, url: GopherURL, response: &str) -> (r: Result<(), String>)
        ensures
            old(self).wf() ==> final(self).wf(),
            match r {
                Ok(_) => {
                    &&& url.host@.len() > 0
                    &&& final(self).history@ == seq![url] + old(self).history@
                    &&& final(self).last_response@ == document_for(url@, response@)
                    &&& final(self).bookmarks == old(self).bookmarks
                },
                Err(e) => {
                    &&& url.host@.len() == 0
                    &&& e@ == "There is no host to request"@
                    &&& *final(self) == *old(self)
                },
            },
    {
        if url.host.as_str().is_empty() {
            return Err(String::from_str("There is no host to request"));
        }
        self.last_response = parse_document(&url, response);
        self.history.insert(0, url);
        assert(self.history@ =~= seq![url] + old(self).history@);
        Ok(())
    }

    /// Takes the address before the current one out of the history, together
    /// with the current one, and returns it: it is the address to fetch again.
    pub fn prepare_going_back(&mut self) -> (r: Result<GopherURL, String>)
        ensures
            old(self).wf() ==> final(self).wf(),
            final(self).bookmarks == old(self).bookmarks,
            final(self).last_response == old(self).last_response,
            match r {
                Ok(u) => {
                    &&& old(self).history@.len() >= 2
                    &&& u == old(self).history@[1]
                    &&& final(self).history@ == old(self).history@.skip(2)
                },
                Err(e) => {
                    &&& old(self).history@.len() < 2
                    &&& e@ == "There is no previous document to go back"@
                    &&& final(self).history == old(self).history
                },
            },
    {
        if self.history.len() < 2 {
            return Err(String::from_str("There is no previous document to go back"));
        }
        let previous = self.history.remove(1);
        self.history.remove(0);
        assert(self.history@ =~= old(self).history@.skip(2));
        Ok(previous)
    }

    /// The address that going back fetches: the one before the current one.
    pub fn back_target(&self) -> (r: Result<GopherURL, String>)
        ensures
            match r {
                Ok(u) => self.history@.len() >= 2 && u == self.history@[1],
                Err(e) => self.history@.len() < 2 && e@
                    == "There is no previous document to go back"@,
            },
    {
        if self.history.len() < 2 {
            return Err(String::from_str("There is no previous document to go back"));
        }
        Ok(self.history[1].duplicate())
    }

    /// Goes back, given the response fetched from `back_target`: the history
    /// loses its front and the entry after it, then that entry is opened again,
    /// so the history is one entry shorter. Fails, changing nothing, when there
    /// is no entry to go back to.
    pub fn go_back(&mut self, response: &str) -> (r: Result<String, String>)
        ensures
            old(self).wf() ==> final(self).wf(),
            final(self).bookmarks == old(self).bookmarks,
            match r {
                Ok(m) => {
                    &&& old(self).history@.len() >= 2
                    &&& m@ == "Went back to previous document"@
                    &&& final(self).history@ == seq![old(self).history@[1]] + old(
                        self,
                    ).history@.skip(2)
                    &&& final(self).history@ == old(self).history@.skip(1)
                    &&& final(self).history@ == history_after_backs(old(self).history@, 1)
                    &&& final(self).history@.len() == old(self).history@.len() - 1
                    &&& final(self).last_response@ == document_for(
                        old(self).history@[1]@,
                        response@,
                    )
                },
                Err(e) => {
                    &&& old(self).history@.len() < 2
                    &&& e@ == "There is no previous document to go back"@
                    &&& *final(self) == *old(self)
                },
            },
    {
        if self.history.len() < 2 {
            return Err(String::from_str("There is no previous document to go back"));
        }
        let previous = match self.prepare_going_back() {
            Ok(u) => u,
            Err(e) => {
                return Err(e);
            },
        };
        self.last_response = parse_document(&previous, response);
        self.history.insert(0, previous);
        assert(self.history@ =~= seq![old(self).history@[1]] + old(self).history@.skip(2));
        assert(self.history@ =~= old(self).history@.skip(1));
        assert(history_after_backs(old(self).history@, 1) == history_after_backs(
            seq![old(self).history@[1]] + old(self).history@.skip(2),
            0,
        ));
        Ok(String::from_str("Went back to previous document"))
    }

    /// The address of the menu above the current document.
    pub fn up_target(&self) -> (r: Result<GopherURL, String>)
        ensures
            match r {
                Ok(u) => self.history@.len() > 0 && parent_url(self.history@[0]@) is Some && u@
                    == parse_url(parent_url(self.history@[0]@)->0),
                Err(e) => if self.history@.len() == 0 {
                    e@ == "There is no current document"@
                } else {
                    parent_url(self.history@[0]@) is None && e@
                        == "Seems there is no parent for this document"@
                },
            },
    {
        if self.history.len() == 0 {
            return Err(String::from_str("There is no current document"));
        }
        match self.history[0].get_url_parent_selector() {
            Some(text) => Ok(GopherURL::from(text.as_str())),
            None => Err(String::from_str("Seems there is no parent for this document")),
        }
    }

    /// The address of the link numbered `index` (counting from 1) in the
    /// current document.
    pub fn link_target(&self, index: &str) -> (r: Result<GopherURL, String>)
        ensures
            match link_entry(self.last_response@, index@) {
                Ok(l) => r is Ok && r->Ok_0@ == entry_address(l),
                Err(e) => r is Err && r->Err_0@ == e,
            },
    {
        match self.last_response.get_link_entry(index) {
            Ok(entry) => Ok(entry.to_url()),
            Err(e) => Err(e),
        }
    }

    /// The bookmark at position `index` (counting from 0), to be opened; it
    /// stays in the list.
    pub fn bookmark_target(&self, index: &str) -> (r: Result<GopherURL, String>)
        ensures
            match position_of(index@) {
                None => r is Err && r->Err_0@ == "Could not parse the bookmarks index"@,
                Some(n) => if n < self.bookmarks@.len() {
                    r == Ok::<GopherURL, String>(self.bookmarks@[n as int])
                } else {
                    r is Err && r->Err_0@ == "There is no bookmark at this index"@
                },
            },
    {
        match parse_index(index) {
            None => Err(String::from_str("Could not parse the bookmarks index")),
            Some(n) => {
                if n < self.bookmarks.len() {
                    Ok(self.bookmarks[n].duplicate())
                } else {
                    Err(String::from_str("There is no bookmark at this index"))
                }
            },
        }
    }

    /// Appends the address that `url` denotes to the bookmarks; the "no
    /// resource" address is refused.
    pub fn add_bookmark(&mut self, url: &str) -> (r: Result<(), String>)
        ensures
            old(self).wf() ==> final(self).wf(),
            final(self).history == old(self).history,
            final(self).last_response == old(self).last_response,
            match r {
                Ok(_) => {
                    &&& parse_url(url@).host.len() > 0
                    &&& url_views(final(self).bookmarks@) == url_views(old(self).bookmarks@).push(
                        parse_url(url@),
                    )
                },
                Err(e) => {
                    &&& parse_url(url@).host.len() == 0
                    &&& e@ == "There is no host in this address"@
                    &&& final(self).bookmarks == old(self).bookmarks
                },
            },
    {
        let u = GopherURL::from(url);
        if u.host.as_str().is_empty() {
            return Err(String::from_str("There is no host in this address"));
        }
        self.bookmarks.push(u);
        assert(url_views(self.bookmarks@) =~= url_views(old(self).bookmarks@).push(
            parse_url(url@),
        ));
        Ok(())
    }

    /// Removes the bookmark at position `index` (counting from 0) and returns it.
    pub fn remove_bookmark(&mut self, index: &str) -> (r: Result<GopherURL, String>)
        ensures
            old(self).wf() ==> final(self).wf(),
            final(self).history == old(self).history,
            final(self).last_response == old(self).last_response,
            match position_of(index@) {
                None => {
                    &&& r is Err
                    &&& r->Err_0@ == "Could not parse the bookmarks index"@
                    &&& final(self).bookmarks == old(self).bookmarks
                },
                Some(n) => if n < old(self).bookmarks@.len() {
                    &&& r == Ok::<GopherURL, String>(old(self).bookmarks@[n as int])
                    &&& final(self).bookmarks@ == old(self).bookmarks@.remove(n as int)
                } else {
                    &&& r is Err
                    &&& r->Err_0@ == "There is no bookmark at this index"@
                    &&& final(self).bookmarks == old(self).bookmarks
                },
            },
    {
        match parse_index(index) {
            None => Err(String::from_str("Could not parse the bookmarks index")),
            Some(n) => {
                if n < self.bookmarks.len() {
                    Ok(self.bookmarks.remove(n))
                } else {
                    Err(String::from_str("There is no bookmark at this index"))
                }
            },
        }
    }

    /// The lines that show the bookmarks.
    pub fn render_bookmarks(&self) -> (r: Vec<String>)
        ensures
            string_views(r@) == bookmark_lines(url_views(self.bookmarks@)),
    {
        let ghost bs = url_views(self.bookmarks@);
        let mut out: Vec<String> = Vec::new();
        if self.bookmarks.len() == 0 {
            out.push(String::new());
            out.push(String::from_str("There are no bookmarks"));
            assert(string_views(out@) =~= bookmark_lines(bs));
            return out;
        }
        out.push(String::from_str("Bookmarks:"));
        let mut i: usize = 0;
        while i < self.bookmarks.len()
            invariant
                bs == url_views(self.bookmarks@),
                bs.len() > 0,
                i <= bs.len(),
                string_views(out@) == bookmark_lines(bs).subrange(0, i + 1),
            decreases bs.len() - i,
        {
            let mut line = String::from_str("[bk ");
            push_decimal(&mut line, i);
            line.append("] ");
            let text = self.bookmarks[i].canonical_text();
            line.append(text.as_str());
            let ghost before = out@;
            out.push(line);
            assert(string_views(out@) =~= string_views(before).push(line@));
            i = i + 1;
            assert(string_views(out@) =~= bookmark_lines(bs).subrange(0, i + 1));
        }
        assert(string_views(out@) =~= bookmark_lines(bs));
        out
    }

    /// The stored form of the bookmarks.
    pub fn save_bookmarks(&self) -> (r: String)
        ensures
            r@ == bookmarks_text(url_views(self.bookmarks@)),
    {
        let ghost bs = url_views(self.bookmarks@);
        let mut out = String::new();
        let mut i: usize = 0;
        while i < self.bookmarks.len()
            invariant
                bs == url_views(self.bookmarks@),
                i <= bs.len(),
                out@ == bookmarks_text(bs.subrange(0, i as int)),
            decreases bs.len() - i,
        {
            let text = self.bookmarks[i].canonical_text();
            out.append(text.as_str());
            out.append("\n");
            proof {
                reveal_strlit("\n");
            }
            assert(bs.subrange(0, i + 1).drop_last() =~= bs.subrange(0, i as int));
            i = i + 1;
            assert(out@ =~= bookmarks_text(bs.subrange(0, i as int)));
        }
        assert(bs.subrange(0, i as int) =~= bs);
        out
    }

    /// Replaces the bookmarks with those that a stored list holds.
    pub fn load_bookmarks(&mut self, contents: &str)
        ensures
            old(self).wf() ==> final(self).wf(),
            final(self).history == old(self).history,
            final(self).last_response == old(self).last_response,
            url_views(final(self).bookmarks@) == bookmarks_of(contents@),
    {
        let chars = trim(&to_chars(contents));
        let lf = vec!['\n'];
        assert(lf@ =~= seq!['\n']);
        let raw = split_chars(&chars, &lf);
        let ghost lines = views(raw@);
        let mut kept: Vec<GopherURL> = Vec::new();
        let mut i: usize = 0;
        while i < raw.len()
            invariant
                lines == views(raw@),
                lines == split(trimmed(contents@), seq!['\n']),
                i <= raw@.len(),
                url_views(kept@) == kept_bookmarks(lines.subrange(0, i as int)),
                forall|k: int| 0 <= k < kept@.len() ==> kept@[k].host@.len() > 0,
            decreases raw@.len() - i,
        {
            assert(lines[i as int] == raw@[i as int]@);
            let text = collect_string(&raw[i], 0, raw[i].len());
            assert(text@ =~= lines[i as int]);
            let u = GopherURL::from(text.as_str());
            assert(lines.subrange(0, i + 1).drop_last() =~= lines.subrange(0, i as int));
            if !u.host.as_str().is_empty() {
                let ghost before = kept@;
                kept.push(u);
                assert(url_views(kept@) =~= url_views(before).push(u@));
            }
            i = i + 1;
        }
        assert(lines.subrange(0, i as int) =~= lines);
        self.bookmarks = kept;
    }
}

} // verus!
