//! Documents: menus of typed entries and plain text, parsed from the bytes a
//! server sends; the index of the entries a user can follow; and rendering.

use vstd::prelude::*;
use crate::text::{
    blank, collect_string, decimal, index_value, is_blank, lemma_find_from_is, lemma_split_not_empty,
    parse_index,
    push_decimal, split, split_chars, string_views, to_chars, views,
};
use crate::url::{parse_url, port_from, port_of, scheme, valid_host, GopherURL, UrlView};

verus! {

/// One entry of a menu: `<type><description>\t<selector>\t<host>\t<port>`.
#[derive(Debug, Clone, PartialEq, Eq)]
pub struct GopherMenuLine {
    pub item_type: char,
    pub description: String,
    pub selector: String,
    pub host: String,
    pub port: String,
}

/// What a menu entry holds, as mathematical values.
pub struct MenuLineView {
    pub item_type: char,
    pub description: Seq<char>,
    pub selector: Seq<char>,
    pub host: Seq<char>,
    pub port: Seq<char>,
}

impl View for GopherMenuLine {
    type V = MenuLineView;

    open spec fn view(&self) -> MenuLineView {
        MenuLineView {
            item_type: self.item_type,
            description: self.description@,
            selector: self.selector@,
            host: self.host@,
            port: self.port@,
        }
    }
}

/// How entries of an item type are shown, and whether they can be followed.
pub enum EntryStyle {
    /// A followable entry, shown with its label, its link number and a suffix.
    Link { label: &'static str, suffix: &'static str },
    /// An informational line: its description alone, indented.
    Info,
    /// Any other type.
    Unknown,
}

/// The table from item types to their style: text files and menus can be
/// followed, `i` lines are information.
pub open spec fn item_style(t: char) -> EntryStyle {
    match t {
        '0' => EntryStyle::Link { label: "TXT", suffix: "" },
        '1' => EntryStyle::Link { label: "MENU", suffix: "/" },
        'i' => EntryStyle::Info,
        _ => EntryStyle::Unknown,
    }
}

pub fn style_of(t: char) -> (r: EntryStyle)
    ensures
        r == item_style(t),
{
    match t {
        '0' => EntryStyle::Link { label: "TXT", suffix: "" },
        '1' => EntryStyle::Link { label: "MENU", suffix: "/" },
        'i' => EntryStyle::Info,
        _ => EntryStyle::Unknown,
    }
}

/// The diagnosis of a menu line that lacks `field`.
pub open spec fn line_failure(field: Seq<char>, line: Seq<char>) -> Seq<char> {
    "Could not parse "@ + field + " in: \""@ + line + "\""@
}

/// The entry that a menu line holds, or the diagnosis of the first field it
/// lacks. Fields are separated by tabs; those after the fourth are ignored.
pub open spec fn parse_menu_line(line: Seq<char>) -> Result<MenuLineView, Seq<char>> {
    let fields = split(line, seq!['\t']);
    let first = fields[0];
    if first.len() == 0 {
        Err(line_failure("item type"@, line))
    } else if fields.len() < 2 {
        Err(line_failure("selector"@, line))
    } else if fields.len() < 3 {
        Err(line_failure("host"@, line))
    } else if fields.len() < 4 {
        Err(line_failure("port"@, line))
    } else {
        Ok(
            MenuLineView {
                item_type: first[0],
                description: first.subrange(1, first.len() as int),
                selector: fields[1],
                host: fields[2],
                port: fields[3],
            },
        )
    }
}

/// The address text of a menu entry; empty when it names no host.
pub open spec fn menu_line_url(l: MenuLineView) -> Seq<char> {
    if l.host.len() == 0 {
        Seq::empty()
    } else {
        scheme() + l.host + seq![':'] + l.port + seq!['/', l.item_type] + l.selector
    }
}

fn line_failure_exec(field: &str, line: &Vec<char>) -> (r: String)
    ensures
        r@ == line_failure(field@, line@),
{
    let mut out = String::from_str("Could not parse ");
    out.append(field);
    out.append(" in: \"");
    let text = collect_string(line, 0, line.len());
    out.append(text.as_str());
    out.append("\"");
    assert(text@ =~= line@);
    out
}

fn menu_line_from_chars(line: &Vec<char>) -> (r: Result<GopherMenuLine, String>)
    ensures
        entry_view(r) == parse_menu_line(line@),
{
    let tab = vec!['\t'];
    assert(tab@ =~= seq!['\t']);
    let fields = split_chars(line, &tab);
    proof {
        lemma_split_not_empty(line@, tab@);
    }
    assert(views(fields@)[0] == fields@[0]@);
    let first = &fields[0];
    if first.len() == 0 {
        return Err(line_failure_exec("item type", line));
    }
    if fields.len() < 2 {
        return Err(line_failure_exec("selector", line));
    }
    if fields.len() < 3 {
        return Err(line_failure_exec("host", line));
    }
    if fields.len() < 4 {
        return Err(line_failure_exec("port", line));
    }
    assert(views(fields@)[1] == fields@[1]@);
    assert(views(fields@)[2] == fields@[2]@);
    assert(views(fields@)[3] == fields@[3]@);
    let selector = collect_string(&fields[1], 0, fields[1].len());
    let host = collect_string(&fields[2], 0, fields[2].len());
    let port = collect_string(&fields[3], 0, fields[3].len());
    assert(selector@ =~= fields@[1]@);
    assert(host@ =~= fields@[2]@);
    assert(port@ =~= fields@[3]@);
    Ok(
        GopherMenuLine {
            item_type: first[0],
            description: collect_string(first, 1, first.len()),
            selector,
            host,
            port,
        },
    )
}

/// The address that a menu entry points to: its host, type and selector, and
/// its port read as a number (the default port when it is not one).
pub open spec fn entry_address(l: MenuLineView) -> UrlView {
    UrlView { host: l.host, port: port_of(l.port), item_type: l.item_type, selector: l.selector }
}

/// Parsing the address text of a menu entry gives the address built from its
/// fields, when its host is one that the text carries and its port holds no `/`.
pub proof fn lemma_entry_text_reparses(l: MenuLineView)
    requires
        valid_host(l.host),
        forall|k: int| 0 <= k < l.port.len() ==> l.port[k] != '/',
    ensures
        parse_url(menu_line_url(l)) == entry_address(l),
{
    let text = menu_line_url(l);
    let rest = l.host + seq![':'] + l.port + seq!['/', l.item_type] + l.selector;
    assert(text.subrange(0, 9) =~= scheme());
    assert(text.subrange(9, text.len() as int) =~= rest);
    let k = (l.host.len() + 1 + l.port.len()) as int;
    assert forall|m: int| 0 <= m < k implies rest[m] != '/' by {
        if m > l.host.len() {
            assert(rest[m] == l.port[m - l.host.len() - 1]);
        }
    }
    lemma_find_from_is(rest, '/', 0, k);
    let authority = rest.subrange(0, k);
    assert(authority =~= l.host + seq![':'] + l.port);
    lemma_find_from_is(authority, ':', 0, l.host.len() as int);
    assert(authority.subrange(0, l.host.len() as int) =~= l.host);
    assert(authority.subrange(l.host.len() + 1 as int, authority.len() as int) =~= l.port);
    let path = rest.subrange(k + 1, rest.len() as int);
    assert(path =~= seq![l.item_type] + l.selector);
    assert(path.subrange(1, path.len() as int) =~= l.selector);
}

impl GopherMenuLine {
    /// A copy of the entry.
    pub fn duplicate(&self) -> (r: GopherMenuLine)
        ensures
            r == *self,
    {
        GopherMenuLine {
            item_type: self.item_type,
            description: self.description.clone(),
            selector: self.selector.clone(),
            host: self.host.clone(),
            port: self.port.clone(),
        }
    }

    /// The address that the entry points to, built from its fields.
    pub fn to_url(&self) -> (r: GopherURL)
        ensures
            r@ == entry_address(self@),
    {
        GopherURL {
            host: self.host.clone(),
            port: port_from(self.port.as_str()),
            item_type: self.item_type,
            selector: self.selector.clone(),
        }
    }

    /// The entry that `line` holds, or the diagnosis of the first field it lacks.
    pub fn from(line: &str) -> (r: Result<GopherMenuLine, String>)
        ensures
            entry_view(r) == parse_menu_line(line@),
    {
        menu_line_from_chars(&to_chars(line))
    }

    /// The address text of the entry; empty when it names no host.
    pub fn get_url(&self) -> (r: String)
        ensures
            r@ == menu_line_url(self@),
    {
        if self.host.as_str().is_empty() {
            return String::new();
        }
        let mut out = String::from_str("gopher://");
        proof {
            reveal_strlit("gopher://");
        }
        out.append(self.host.as_str());
        out.append(":");
        out.append(self.port.as_str());
        out.append("/");
        proof {
            reveal_strlit(":");
            reveal_strlit("/");
        }
        let t = vec![self.item_type];
        let t = collect_string(&t, 0, 1);
        out.append(t.as_str());
        out.append(self.selector.as_str());
        assert(out@ =~= menu_line_url(self@));
        out
    }
}

// ---------------------------------------------------------------------------
// Menus

/// A parsed menu entry, or the diagnosis of a line that could not be parsed.
pub open spec fn entry_view(e: Result<GopherMenuLine, String>) -> Result<MenuLineView, Seq<char>> {
    match e {
        Ok(l) => Ok(l@),
        Err(m) => Err(m@),
    }
}

pub open spec fn entry_views(es: Seq<Result<GopherMenuLine, String>>) -> Seq<
    Result<MenuLineView, Seq<char>>,
> {
    es.map_values(|e: Result<GopherMenuLine, String>| entry_view(e))
}

/// Whether an entry can be followed: it was parsed, and its type is a link in
/// the style table.
pub open spec fn is_link(e: Result<MenuLineView, Seq<char>>) -> bool {
    e is Ok && item_style(e->Ok_0.item_type) is Link
}

/// The positions of the followable entries, in order.
pub open spec fn link_positions(es: Seq<Result<MenuLineView, Seq<char>>>) -> Seq<int>
    decreases es.len(),
{
    if es.len() == 0 {
        Seq::empty()
    } else {
        let p = link_positions(es.drop_last());
        if is_link(es.last()) {
            p.push(es.len() - 1)
        } else {
            p
        }
    }
}

/// Positions held in a vector, as integers.
pub open spec fn positions(v: Seq<usize>) -> Seq<int> {
    v.map_values(|x: usize| x as int)
}

/// Whether a line ends a menu: it is exactly `.`, or blank.
pub open spec fn ends_menu(line: Seq<char>) -> bool {
    line == seq!['.'] || is_blank(line)
}

/// Index of the first line at or after `i` that ends a menu; the number of
/// lines when there is none.
pub open spec fn menu_end_from(lines: Seq<Seq<char>>, i: int) -> int
    decreases lines.len() - i,
{
    if i >= lines.len() {
        lines.len() as int
    } else if ends_menu(lines[i]) {
        i
    } else {
        menu_end_from(lines, i + 1)
    }
}

/// The lines of a menu response: cut at each CR LF, up to the line that ends it.
pub open spec fn menu_lines(response: Seq<char>) -> Seq<Seq<char>> {
    let lines = split(response, seq!['\r', '\n']);
    lines.subrange(0, menu_end_from(lines, 0))
}

/// A menu as mathematical values: its entries, in order, and the positions of
/// those that can be followed.
pub struct MenuView {
    pub lines: Seq<Result<MenuLineView, Seq<char>>>,
    pub links: Seq<int>,
}

/// The menu that a response holds: one entry per line, each parsed on its own.
pub open spec fn menu_of(response: Seq<char>) -> MenuView {
    let entries = menu_lines(response).map_values(|l: Seq<char>| parse_menu_line(l));
    MenuView { lines: entries, links: link_positions(entries) }
}

/// A parsed menu. Its link positions always agree with its entries.
#[derive(Debug)]
pub struct GopherMenuResponse {
    lines: Vec<Result<GopherMenuLine, String>>,
    links: Vec<usize>,
}

impl View for GopherMenuResponse {
    type V = MenuView;

    closed spec fn view(&self) -> MenuView {
        MenuView { lines: entry_views(self.lines@), links: positions(self.links@) }
    }
}

fn ends_menu_exec(line: &Vec<char>) -> (r: bool)
    ensures
        r == ends_menu(line@),
{
    if line.len() == 1 && line[0] == '.' {
        assert(line@ =~= seq!['.']);
        return true;
    }
    blank(line)
}

impl GopherMenuResponse {
    #[verifier::type_invariant]
    spec fn links_agree(&self) -> bool {
        &&& positions(self.links@) == link_positions(entry_views(self.lines@))
        &&& forall|k: int| 0 <= k < self.links@.len() ==> self.links@[k] < self.lines@.len()
    }

    /// The menu that `response` holds.
    pub fn from(response: &str) -> (r: GopherMenuResponse)
        ensures
            r@ == menu_of(response@),
    {
        let chars = to_chars(response);
        let crlf = vec!['\r', '\n'];
        assert(crlf@ =~= seq!['\r', '\n']);
        let raw = split_chars(&chars, &crlf);
        let ghost all = views(raw@);
        let mut lines: Vec<Result<GopherMenuLine, String>> = Vec::new();
        let mut links: Vec<usize> = Vec::new();
        let mut i: usize = 0;
        while i < raw.len() && !ends_menu_exec(&raw[i])
            invariant
                all == views(raw@),
                all == split(response@, seq!['\r', '\n']),
                i <= raw@.len(),
                lines@.len() == i,
                menu_end_from(all, i as int) == menu_end_from(all, 0),
                entry_views(lines@) == all.subrange(0, i as int).map_values(
                    |l: Seq<char>| parse_menu_line(l),
                ),
                positions(links@) == link_positions(entry_views(lines@)),
                forall|k: int| 0 <= k < links@.len() ==> links@[k] < i,
            decreases raw@.len() - i,
        {
            assert(all[i as int] == raw@[i as int]@);
            let e = menu_line_from_chars(&raw[i]);
            let ghost before = lines@;
            let link = match &e {
                Ok(l) => match style_of(l.item_type) {
                    EntryStyle::Link { .. } => true,
                    _ => false,
                },
                Err(_) => false,
            };
            let ghost links_before = links@;
            if link {
                links.push(i);
                assert(positions(links@) =~= positions(links_before).push(i as int));
            }
            let ghost ev = entry_view(e);
            lines.push(e);
            assert(lines@ == before.push(e));
            assert(entry_views(lines@) =~= entry_views(before).push(ev));
            assert(entry_views(lines@).drop_last() =~= entry_views(before));
            assert(entry_views(lines@) =~= all.subrange(0, i + 1).map_values(
                |l: Seq<char>| parse_menu_line(l),
            ));
            i = i + 1;
        }
        assert(all.subrange(0, i as int) =~= menu_lines(response@));
        GopherMenuResponse { lines, links }
    }

    /// The entries, in order.
    pub fn lines(&self) -> (r: &Vec<Result<GopherMenuLine, String>>)
        ensures
            entry_views(r@) == self@.lines,
    {
        &self.lines
    }

    /// The positions of the entries that can be followed, in order.
    pub fn links(&self) -> (r: &Vec<usize>)
        ensures
            positions(r@) == self@.links,
    {
        &self.links
    }
}

/// The link positions of a menu are positions of followable entries, in
/// increasing order, and every followable entry has one.
pub proof fn lemma_link_positions(es: Seq<Result<MenuLineView, Seq<char>>>)
    ensures
        forall|j: int|
            0 <= j < link_positions(es).len() ==> 0 <= #[trigger] link_positions(es)[j] < es.len()
                && is_link(es[link_positions(es)[j]]),
        forall|j1: int, j2: int|
            0 <= j1 < j2 < link_positions(es).len() ==> #[trigger] link_positions(es)[j1]
                < #[trigger] link_positions(es)[j2],
        forall|i: int| 0 <= i < es.len() && #[trigger] is_link(es[i]) ==> link_positions(es).contains(i),
    decreases es.len(),
{
    if es.len() > 0 {
        let rest = es.drop_last();
        lemma_link_positions(rest);
        let p = link_positions(rest);
        assert forall|i: int| 0 <= i < es.len() && #[trigger] is_link(es[i]) implies link_positions(
            es,
        ).contains(i) by {
            if i < es.len() - 1 {
                assert(rest[i] == es[i]);
                let j = choose|j: int| 0 <= j < p.len() && p[j] == i;
                assert(link_positions(es)[j] == i);
            } else {
                assert(link_positions(es)[p.len() as int] == i);
            }
        }
    }
}

/// The followable entry at link position `j` has `j` followable entries
/// before it.
pub proof fn lemma_link_number(es: Seq<Result<MenuLineView, Seq<char>>>, j: int)
    requires
        0 <= j < link_positions(es).len(),
    ensures
        link_positions(es.subrange(0, link_positions(es)[j])).len() == j,
    decreases es.len(),
{
    let rest = es.drop_last();
    lemma_link_positions(rest);
    if j < link_positions(rest).len() {
        lemma_link_number(rest, j);
        assert(rest.subrange(0, link_positions(rest)[j]) =~= es.subrange(
            0,
            link_positions(es)[j],
        ));
    } else {
        assert(es.subrange(0, link_positions(es)[j]) =~= rest);
    }
}

// ---------------------------------------------------------------------------
// Text

/// Index of the first line at or after `i` that is exactly `.`; the number of
/// lines when there is none.
pub open spec fn text_end_from(lines: Seq<Seq<char>>, i: int) -> int
    decreases lines.len() - i,
{
    if i >= lines.len() {
        lines.len() as int
    } else if lines[i] == seq!['.'] {
        i
    } else {
        text_end_from(lines, i + 1)
    }
}

/// The lines of a text response: cut at each line feed, up to a line that is
/// exactly `.`.
pub open spec fn text_of(response: Seq<char>) -> Seq<Seq<char>> {
    let lines = split(response, seq!['\n']);
    lines.subrange(0, text_end_from(lines, 0))
}

/// A text document: its lines, in order.
#[derive(Debug)]
pub struct GopherTextResponse {
    lines: Vec<String>,
}

impl View for GopherTextResponse {
    type V = Seq<Seq<char>>;

    closed spec fn view(&self) -> Seq<Seq<char>> {
        string_views(self.lines@)
    }
}

impl GopherTextResponse {
    /// A text with no lines.
    pub fn new() -> (r: GopherTextResponse)
        ensures
            r@ == Seq::<Seq<char>>::empty(),
    {
        let r = GopherTextResponse { lines: Vec::new() };
        assert(r@ =~= Seq::<Seq<char>>::empty());
        r
    }

    /// The text that `response` holds.
    pub fn from(response: &str) -> (r: GopherTextResponse)
        ensures
            r@ == text_of(response@),
    {
        let chars = to_chars(response);
        let lf = vec!['\n'];
        assert(lf@ =~= seq!['\n']);
        let raw = split_chars(&chars, &lf);
        let ghost all = views(raw@);
        let mut lines: Vec<String> = Vec::new();
        let mut i: usize = 0;
        while i < raw.len() && !(raw[i].len() == 1 && raw[i][0] == '.')
            invariant
                all == views(raw@),
                all == split(response@, seq!['\n']),
                i <= raw@.len(),
                text_end_from(all, i as int) == text_end_from(all, 0),
                string_views(lines@) == all.subrange(0, i as int),
            decreases raw@.len() - i,
        {
            assert(raw@[i as int]@ != seq!['.']) by {
                if raw@[i as int]@.len() == 1 {
                    assert(raw@[i as int]@[0] != seq!['.'][0]);
                }
            }
            assert(all[i as int] == raw@[i as int]@);
            let line = collect_string(&raw[i], 0, raw[i].len());
            assert(line@ =~= all[i as int]);
            let ghost before = lines@;
            lines.push(line);
            assert(string_views(lines@) =~= string_views(before).push(line@));
            assert(string_views(lines@) =~= all.subrange(0, i + 1));
            i = i + 1;
        }
        if i < raw.len() {
            assert(raw@[i as int]@ =~= seq!['.']);
        }
        assert(all.subrange(0, i as int) =~= text_of(response@));
        GopherTextResponse { lines }
    }

    /// The lines, in order.
    pub fn lines(&self) -> (r: &Vec<String>)
        ensures
            string_views(r@) == self@,
    {
        &self.lines
    }
}

// ---------------------------------------------------------------------------
// Documents

/// A document as the last fetch left it: a menu or a text.
#[derive(Debug)]
pub enum GopherResponse {
    Text(GopherTextResponse),
    Menu(GopherMenuResponse),
}

/// A document as mathematical values.
pub enum DocView {
    Text(Seq<Seq<char>>),
    Menu(MenuView),
}

impl View for GopherResponse {
    type V = DocView;

    open spec fn view(&self) -> DocView {
        match self {
            GopherResponse::Text(t) => DocView::Text(t@),
            GopherResponse::Menu(m) => DocView::Menu(m@),
        }
    }
}

/// A result that carries strings, as mathematical values.
pub open spec fn text_result(r: Result<String, String>) -> Result<Seq<char>, Seq<char>> {
    match r {
        Ok(s) => Ok(s@),
        Err(e) => Err(e@),
    }
}

/// The entry of the link numbered `index` (counting from 1) in `d`, or why
/// there is none. The index is read as `str::parse::<usize>` reads it.
pub open spec fn link_entry(d: DocView, index: Seq<char>) -> Result<MenuLineView, Seq<char>> {
    match d {
        DocView::Text(_) => Err("There is no link in the current document"@),
        DocView::Menu(m) => match index_value(index) {
            None => Err("Link index can't be negative"@),
            Some(n) => if n == 0 || n > m.links.len() {
                Err("Given index is out of bounds"@)
            } else {
                match m.lines[m.links[n - 1]] {
                    Ok(l) => Ok(l),
                    Err(e) => Err("Chosen link has an issue: "@ + e),
                }
            },
        },
    }
}

/// The address text of the link numbered `index` in `d`, or why there is none.
pub open spec fn link_url(d: DocView, index: Seq<char>) -> Result<Seq<char>, Seq<char>> {
    match link_entry(d, index) {
        Ok(l) => Ok(menu_line_url(l)),
        Err(e) => Err(e),
    }
}

/// In a menu with `k` followable entries, link number `n` from 1 to `k`
/// resolves to the address of the `n`-th followable entry, the one shown with
/// that number; 0 and numbers above `k` are out of bounds; an index that is
/// not a number is refused as such; and a text has no links at all.
pub proof fn lemma_resolve_link(m: MenuView, index: Seq<char>, text: Seq<Seq<char>>)
    requires
        m.links == link_positions(m.lines),
    ensures
        match index_value(index) {
            None => link_url(DocView::Menu(m), index) == Err::<Seq<char>, Seq<char>>(
                "Link index can't be negative"@,
            ),
            Some(n) => if 1 <= n <= m.links.len() {
                let p = m.links[n - 1];
                &&& 0 <= p < m.lines.len()
                &&& is_link(m.lines[p])
                &&& link_positions(m.lines.subrange(0, p)).len() + 1 == n
                &&& link_entry(DocView::Menu(m), index) == Ok::<MenuLineView, Seq<char>>(
                    m.lines[p]->Ok_0,
                )
                &&& link_url(DocView::Menu(m), index) == Ok::<Seq<char>, Seq<char>>(
                    menu_line_url(m.lines[p]->Ok_0),
                )
            } else {
                link_url(DocView::Menu(m), index) == Err::<Seq<char>, Seq<char>>(
                    "Given index is out of bounds"@,
                )
            },
        },
        link_url(DocView::Text(text), index) == Err::<Seq<char>, Seq<char>>(
            "There is no link in the current document"@,
        ),
{
    lemma_link_positions(m.lines);
    if let Some(n) = index_value(index) {
        if 1 <= n <= m.links.len() {
            lemma_link_number(m.lines, n - 1);
        }
    }
}

/// The line that shows entry number `index` of a menu, whose link number (if
/// it can be followed) is `number`.
pub open spec fn render_entry(e: Result<MenuLineView, Seq<char>>, index: nat, number: nat) -> Seq<
    char,
> {
    match e {
        Ok(l) => match item_style(l.item_type) {
            EntryStyle::Link { label, suffix } => label@ + "\t["@ + decimal(number) + "]\t"@
                + l.description + suffix@,
            EntryStyle::Info => "\t\t"@ + l.description,
            EntryStyle::Unknown => "UNKNOWN\t\t"@ + l.description,
        },
        Err(m) => "ERR\t\tmarmotte: Problem parsing line "@ + decimal(index) + ": "@ + m,
    }
}

/// The lines that show a document: a text as it is; a menu one line per entry,
/// each link with its number, counting from 1.
pub open spec fn rendered(d: DocView) -> Seq<Seq<char>> {
    match d {
        DocView::Text(lines) => lines,
        DocView::Menu(m) => Seq::new(
            m.lines.len(),
            |i: int|
                render_entry(
                    m.lines[i],
                    i as nat,
                    link_positions(m.lines.subrange(0, i)).len() + 1,
                ),
        ),
    }
}

fn render_entry_exec(e: &Result<GopherMenuLine, String>, index: usize, number: usize) -> (r: String)
    ensures
        r@ == render_entry(entry_view(*e), index as nat, number as nat),
{
    match e {
        Ok(l) => match style_of(l.item_type) {
            EntryStyle::Link { label, suffix } => {
                let mut out = String::from_str(label);
                out.append("\t[");
                push_decimal(&mut out, number);
                out.append("]\t");
                out.append(l.description.as_str());
                out.append(suffix);
                out
            },
            EntryStyle::Info => {
                let mut out = String::from_str("\t\t");
                out.append(l.description.as_str());
                out
            },
            EntryStyle::Unknown => {
                let mut out = String::from_str("UNKNOWN\t\t");
                out.append(l.description.as_str());
                out
            },
        },
        Err(m) => {
            let mut out = String::from_str("ERR\t\tmarmotte: Problem parsing line ");
            push_decimal(&mut out, index);
            out.append(": ");
            out.append(m.as_str());
            out
        },
    }
}

impl GopherResponse {
    /// The entry of the link numbered `link_idx` (counting from 1).
    pub fn get_link_entry(&self, link_idx: &str) -> (r: Result<GopherMenuLine, String>)
        ensures
            match link_entry(self@, link_idx@) {
                Ok(l) => r is Ok && r->Ok_0@ == l,
                Err(e) => r is Err && r->Err_0@ == e,
            },
    {
        match self {
            GopherResponse::Text(_) => Err(
                String::from_str("There is no link in the current document"),
            ),
            GopherResponse::Menu(m) => {
                proof {
                    use_type_invariant(m);
                }
                match parse_index(link_idx) {
                    None => Err(String::from_str("Link index can't be negative")),
                    Some(n) => {
                        if n == 0 || m.links.len() < n {
                            return Err(String::from_str("Given index is out of bounds"));
                        }
                        let p = m.links[n - 1];
                        match &m.lines[p] {
                            Ok(l) => Ok(l.duplicate()),
                            Err(e) => {
                                let mut out = String::from_str("Chosen link has an issue: ");
                                out.append(e.as_str());
                                Err(out)
                            },
                        }
                    },
                }
            },
        }
    }

    /// The address text of the link numbered `link_idx` (counting from 1).
    pub fn get_link_url(&self, link_idx: &str) -> (r: Result<String, String>)
        ensures
            text_result(r) == link_url(self@, link_idx@),
    {
        match self.get_link_entry(link_idx) {
            Ok(l) => Ok(l.get_url()),
            Err(e) => Err(e),
        }
    }

    /// The lines that show the document.
    pub fn render(&self) -> (r: Vec<String>)
        ensures
            string_views(r@) == rendered(self@),
    {
        match self {
            GopherResponse::Text(t) => {
                let mut out: Vec<String> = Vec::new();
                let mut i: usize = 0;
                while i < t.lines.len()
                    invariant
                        i <= t.lines@.len(),
                        string_views(out@) == string_views(t.lines@).subrange(0, i as int),
                    decreases t.lines@.len() - i,
                {
                    let ghost before = out@;
                    out.push(t.lines[i].clone());
                    assert(string_views(out@) =~= string_views(before).push(t.lines@[i as int]@));
                    i = i + 1;
                    assert(string_views(out@) =~= string_views(t.lines@).subrange(0, i as int));
                }
                assert(string_views(out@) =~= rendered(self@));
                out
            },
            GopherResponse::Menu(m) => {
                let ghost es = entry_views(m.lines@);
                let mut out: Vec<String> = Vec::new();
                let mut count: usize = 0;
                let mut i: usize = 0;
                while i < m.lines.len()
                    invariant
                        es == entry_views(m.lines@),
                        i <= m.lines@.len(),
                        count <= i,
                        count == link_positions(es.subrange(0, i as int)).len(),
                        string_views(out@) == rendered(self@).subrange(0, i as int),
                        self@ == DocView::Menu(m@),
                    decreases m.lines@.len() - i,
                {
                    let e = &m.lines[i];
                    let line = render_entry_exec(e, i, count + 1);
                    assert(es.subrange(0, i + 1).drop_last() =~= es.subrange(0, i as int));
                    assert(es[i as int] == entry_view(*e));
                    let link = match e {
                        Ok(l) => match style_of(l.item_type) {
                            EntryStyle::Link { .. } => true,
                            _ => false,
                        },
                        Err(_) => false,
                    };
                    if link {
                        count = count + 1;
                    }
                    let ghost before = out@;
                    out.push(line);
                    assert(string_views(out@) =~= string_views(before).push(line@));
                    i = i + 1;
                    assert(string_views(out@) =~= rendered(self@).subrange(0, i as int));
                }
                assert(string_views(out@) =~= rendered(self@));
                out
            },
        }
    }
}

} // verus!
