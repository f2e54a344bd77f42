//! Addresses of Gopher resources: parsing from the text a user types,
//! the canonical `gopher://host:port/<type><selector>` form, and the parent
//! menu of a resource.

use vstd::prelude::*;
use crate::text::{
    collect_string, decimal, decimal_value, find, find_char, lemma_decimal_reads_back, lemma_find_from_is, lemma_rfind_before_bounds, occurs_at,
    parse_decimal, push_char, push_decimal, rfind_before, rfind_char, separator_at, sub_chars, to_chars,
};

verus! {

/// Port assumed when an address names none, or names one that is not a number.
pub const DEFAULT_PORT: u16 = 70;

/// Item type of a menu, assumed when an address names no type.
pub const MENU_TYPE: char = '1';

/// Largest port number.
pub const MAX_PORT: usize = 65535;

/// The address of a resource. An empty `host` marks "no resource".
#[derive(Debug, Clone, PartialEq, Eq)]
pub struct GopherURL {
    pub host: String,
    pub port: u16,
    pub item_type: char,
    pub selector: String,
}

/// What an address holds, as mathematical values.
pub struct UrlView {
    pub host: Seq<char>,
    pub port: u16,
    pub item_type: char,
    pub selector: Seq<char>,
}

impl View for GopherURL {
    type V = UrlView;

    open spec fn view(&self) -> UrlView {
        UrlView {
            host: self.host@,
            port: self.port,
            item_type: self.item_type,
            selector: self.selector@,
        }
    }
}

/// The scheme marker `gopher://`.
pub open spec fn scheme() -> Seq<char> {
    seq!['g', 'o', 'p', 'h', 'e', 'r', ':', '/', '/']
}

/// `s` without a leading scheme marker.
pub open spec fn without_scheme(s: Seq<char>) -> Seq<char> {
    if separator_at(s, scheme(), 0) {
        s.subrange(9, s.len() as int)
    } else {
        s
    }
}

/// The port written by `s`; the default port when `s` is not a port number.
pub open spec fn port_of(s: Seq<char>) -> u16 {
    match decimal_value(s, MAX_PORT as nat) {
        Some(n) => n as u16,
        None => DEFAULT_PORT,
    }
}

/// The address that `raw` denotes. The scheme marker is optional; the part
/// before the first `/` is `host[:port]`, the first character after it the
/// item type and the rest the selector. What is missing takes its default.
pub open spec fn parse_url(raw: Seq<char>) -> UrlView {
    let rest = without_scheme(raw);
    let slash = find(rest, '/');
    let authority = rest.subrange(0, slash);
    let colon = find(authority, ':');
    let path = if slash < rest.len() {
        rest.subrange(slash + 1, rest.len() as int)
    } else {
        Seq::empty()
    };
    UrlView {
        host: authority.subrange(0, colon),
        port: if colon < authority.len() {
            port_of(authority.subrange(colon + 1, authority.len() as int))
        } else {
            DEFAULT_PORT
        },
        item_type: if path.len() > 0 {
            path[0]
        } else {
            MENU_TYPE
        },
        selector: if path.len() > 0 {
            path.subrange(1, path.len() as int)
        } else {
            Seq::empty()
        },
    }
}

/// `gopher://host:port`, the root menu of the server of `a`.
pub open spec fn server_root(a: UrlView) -> Seq<char> {
    scheme() + a.host + seq![':'] + decimal(a.port as nat)
}

/// `gopher://host:port/<type><selector>`.
pub open spec fn canonical(a: UrlView) -> Seq<char> {
    server_root(a) + seq!['/', a.item_type] + a.selector
}

/// End of the selector once one trailing `/` is dropped.
pub open spec fn trimmed_end(sel: Seq<char>) -> int {
    if sel.len() > 0 && sel.last() == '/' {
        sel.len() - 1
    } else {
        sel.len() as int
    }
}

/// The address of the menu one level above `a`, in text: none at the root of
/// a server or without a host. The selector loses one trailing `/` and then
/// everything from its last `/` on; with no `/` left the parent is the server
/// root.
pub open spec fn parent_url(a: UrlView) -> Option<Seq<char>> {
    if a.host.len() == 0 || a.selector.len() == 0 {
        None
    } else {
        let k = rfind_before(a.selector, '/', trimmed_end(a.selector));
        if k >= 0 {
            Some(server_root(a) + seq!['/', MENU_TYPE] + a.selector.subrange(0, k))
        } else {
            Some(server_root(a))
        }
    }
}

fn scheme_chars() -> (r: Vec<char>)
    ensures
        r@ == scheme(),
{
    let r = vec!['g', 'o', 'p', 'h', 'e', 'r', ':', '/', '/'];
    assert(r@ =~= scheme());
    r
}

/// The port that `text` writes; the default port when it is not a port number.
pub fn port_from(text: &str) -> (r: u16)
    ensures
        r == port_of(text@),
{
    let chars = to_chars(text);
    assert(chars@.subrange(0, chars@.len() as int) =~= text@);
    match parse_decimal(&chars, 0, chars.len(), MAX_PORT) {
        Some(n) => n as u16,
        None => DEFAULT_PORT,
    }
}

impl GopherURL {
    /// The "no resource" address: no host, default port and type, empty selector.
    pub fn new() -> (r: GopherURL)
        ensures
            r@ == (UrlView {
                host: Seq::empty(),
                port: DEFAULT_PORT,
                item_type: MENU_TYPE,
                selector: Seq::empty(),
            }),
    {
        GopherURL {
            host: String::new(),
            port: DEFAULT_PORT,
            item_type: MENU_TYPE,
            selector: String::new(),
        }
    }

    /// The address that `url` denotes; never fails.
    pub fn from(url: &str) -> (r: GopherURL)
        ensures
            r@ == parse_url(url@),
    {
        let chars = to_chars(url);
        let marker = scheme_chars();
        let rest = if occurs_at(&chars, &marker, 0) {
            sub_chars(&chars, 9, chars.len())
        } else {
            chars
        };
        let slash = find_char(&rest, '/', 0);
        let authority = sub_chars(&rest, 0, slash);
        let colon = find_char(&authority, ':', 0);
        let host = collect_string(&authority, 0, colon);
        let port = if colon < authority.len() {
            match parse_decimal(&authority, colon + 1, authority.len(), MAX_PORT) {
                Some(n) => n as u16,
                None => DEFAULT_PORT,
            }
        } else {
            DEFAULT_PORT
        };
        let ghost path = if slash < rest@.len() {
            rest@.subrange(slash + 1, rest@.len() as int)
        } else {
            Seq::empty()
        };
        if rest.len() - slash >= 2 {
            let selector = collect_string(&rest, slash + 2, rest.len());
            assert(selector@ =~= path.subrange(1, path.len() as int));
            GopherURL { host, port, item_type: rest[slash + 1], selector }
        } else {
            GopherURL { host, port, item_type: MENU_TYPE, selector: String::new() }
        }
    }

    /// `host:port`, what a connection is opened to.
    pub fn get_server(&self) -> (r: String)
        ensures
            r@ == self.host@ + seq![':'] + decimal(self.port as nat),
    {
        let mut out = self.host.clone();
        push_char(&mut out, ':');
        push_decimal(&mut out, self.port as usize);
        out
    }

    /// `gopher://host:port`.
    fn root_string(&self) -> (r: String)
        ensures
            r@ == server_root(self@),
    {
        let marker = scheme_chars();
        let mut out = collect_string(&marker, 0, marker.len());
        assert(out@ =~= scheme());
        out.append(self.host.as_str());
        push_char(&mut out, ':');
        push_decimal(&mut out, self.port as usize);
        out
    }

    /// The canonical text of the address, whatever its host.
    pub fn canonical_text(&self) -> (r: String)
        ensures
            r@ == canonical(self@),
    {
        let mut out = self.root_string();
        push_char(&mut out, '/');
        push_char(&mut out, self.item_type);
        out.append(self.selector.as_str());
        assert(out@ =~= canonical(self@));
        out
    }

    /// A copy of the address.
    pub fn duplicate(&self) -> (r: GopherURL)
        ensures
            r == *self,
    {
        GopherURL {
            host: self.host.clone(),
            port: self.port,
            item_type: self.item_type,
            selector: self.selector.clone(),
        }
    }

    /// The canonical text of the address; none for the "no resource" address.
    pub fn get_url(&self) -> (r: Option<String>)
        ensures
            match r {
                Some(u) => self.host@.len() > 0 && u@ == canonical(self@),
                None => self.host@.len() == 0,
            },
    {
        if self.host.as_str().is_empty() {
            None
        } else {
            Some(self.canonical_text())
        }
    }

    /// The canonical text of the parent menu, as `parent_url` states it.
    pub fn get_url_parent_selector(&self) -> (r: Option<String>)
        ensures
            match r {
                Some(u) => parent_url(self@) == Some(u@),
                None => parent_url(self@) is None,
            },
            r is None <==> (self.host@.len() == 0 || self.selector@.len() == 0),
    {
        if self.host.as_str().is_empty() || self.selector.as_str().is_empty() {
            return None;
        }
        let sel = to_chars(self.selector.as_str());
        let n = sel.len();
        let end = if sel[n - 1] == '/' {
            n - 1
        } else {
            n
        };
        assert(end == trimmed_end(self.selector@));
        let root = self.root_string();
        match rfind_char(&sel, '/', end) {
            Some(k) => {
                proof {
                    lemma_rfind_before_bounds(sel@, '/', end as int);
                }
                let mut out = root;
                push_char(&mut out, '/');
                push_char(&mut out, MENU_TYPE);
                let head = collect_string(&sel, 0, k);
                out.append(head.as_str());
                assert(out@ =~= server_root(self@) + seq!['/', MENU_TYPE] + self.selector@.subrange(
                    0,
                    k as int,
                ));
                Some(out)
            },
            None => Some(root),
        }
    }
}

// ---------------------------------------------------------------------------
// Laws of addresses

/// A host that the canonical text can carry back: not empty, and without the
/// `:` and `/` that end a host in the text.
pub open spec fn valid_host(h: Seq<char>) -> bool {
    h.len() > 0 && forall|k: int| 0 <= k < h.len() ==> h[k] != ':' && h[k] != '/'
}

/// Parsing `host:port` followed by `tail`, where `tail` is empty or starts
/// with `/`, gives the host and the port.
proof fn lemma_authority(a: UrlView, tail: Seq<char>)
    requires
        valid_host(a.host),
        tail.len() == 0 || tail[0] == '/',
    ensures
        ({
            let rest = a.host + seq![':'] + decimal(a.port as nat) + tail;
            let k = a.host.len() + 1 + decimal(a.port as nat).len();
            let authority = rest.subrange(0, find(rest, '/'));
            &&& find(rest, '/') == k
            &&& authority.subrange(0, find(authority, ':')) == a.host
            &&& find(authority, ':') < authority.len()
            &&& port_of(authority.subrange(find(authority, ':') + 1, authority.len() as int))
                == a.port
        }),
{
    let d = decimal(a.port as nat);
    lemma_decimal_reads_back(a.port as nat);
    let rest = a.host + seq![':'] + d + tail;
    let k = (a.host.len() + 1 + d.len()) as int;
    assert forall|m: int| 0 <= m < k implies rest[m] != '/' by {
        if m > a.host.len() {
            assert(rest[m] == d[m - a.host.len() - 1]);
        }
    }
    lemma_find_from_is(rest, '/', 0, k);
    let authority = rest.subrange(0, k);
    assert(authority =~= a.host + seq![':'] + d);
    lemma_find_from_is(authority, ':', 0, a.host.len() as int);
    assert(authority.subrange(0, a.host.len() as int) =~= a.host);
    assert(authority.subrange(a.host.len() + 1 as int, authority.len() as int) =~= d);
}

/// Parsing the canonical text of an address gives the address back, for every
/// host that the text can carry.
pub proof fn lemma_canonical_round_trip(a: UrlView)
    requires
        valid_host(a.host),
    ensures
        parse_url(canonical(a)) == a,
{
    let c = canonical(a);
    let tail = seq!['/', a.item_type] + a.selector;
    lemma_authority(a, tail);
    assert(c.subrange(0, 9) =~= scheme());
    let rest = c.subrange(9, c.len() as int);
    assert(rest =~= a.host + seq![':'] + decimal(a.port as nat) + tail);
    let k = (a.host.len() + 1 + decimal(a.port as nat).len()) as int;
    let path = rest.subrange(k + 1, rest.len() as int);
    assert(path =~= seq![a.item_type] + a.selector);
    assert(path.subrange(1, path.len() as int) =~= a.selector);
}

/// The address that parsing the parent text of `a` gives.
pub open spec fn parent_of(a: UrlView) -> UrlView {
    let k = rfind_before(a.selector, '/', trimmed_end(a.selector));
    UrlView {
        host: a.host,
        port: a.port,
        item_type: MENU_TYPE,
        selector: if k >= 0 {
            a.selector.subrange(0, k)
        } else {
            Seq::empty()
        },
    }
}

/// Parsing the parent text gives the same server, a menu, and the selector cut
/// before its last `/`.
pub proof fn lemma_parent_reparses(a: UrlView)
    requires
        valid_host(a.host),
        a.selector.len() > 0,
    ensures
        parent_url(a) is Some,
        parse_url(parent_url(a)->0) == parent_of(a),
{
    let k = rfind_before(a.selector, '/', trimmed_end(a.selector));
    lemma_rfind_before_bounds(a.selector, '/', trimmed_end(a.selector));
    if k >= 0 {
        let p = parent_of(a);
        assert(parent_url(a)->0 =~= canonical(p));
        lemma_canonical_round_trip(p);
    } else {
        let text = server_root(a);
        lemma_authority(a, Seq::empty());
        assert(text.subrange(0, 9) =~= scheme());
        let rest = text.subrange(9, text.len() as int);
        assert(rest =~= a.host + seq![':'] + decimal(a.port as nat) + Seq::<char>::empty());
    }
}

/// Number of `/` in `s`.
pub open spec fn slash_count(s: Seq<char>) -> nat
    decreases s.len(),
{
    if s.len() == 0 {
        0
    } else {
        slash_count(s.drop_last()) + if s.last() == '/' {
            1nat
        } else {
            0nat
        }
    }
}

/// Number of pieces of `s` between its `/`.
pub open spec fn segment_count(s: Seq<char>) -> nat {
    slash_count(s) + 1
}

/// The address reached from `a` by asking for the parent `n` times, parsing
/// each parent text; it stays put at the root.
pub open spec fn ascend(a: UrlView, n: nat) -> UrlView
    decreases n,
{
    if n == 0 {
        a
    } else {
        match parent_url(a) {
            Some(p) => ascend(parse_url(p), (n - 1) as nat),
            None => a,
        }
    }
}

proof fn lemma_slash_count_prefix(s: Seq<char>, j: int)
    requires
        0 <= j < s.len(),
        s[j] == '/',
    ensures
        slash_count(s.subrange(0, j)) + 1 <= slash_count(s),
    decreases s.len(),
{
    if j == s.len() - 1 {
        assert(s.drop_last() =~= s.subrange(0, j));
    } else {
        lemma_slash_count_prefix(s.drop_last(), j);
        assert(s.drop_last().subrange(0, j) =~= s.subrange(0, j));
    }
}

proof fn lemma_ascend_from(a: UrlView, n: nat)
    requires
        valid_host(a.host),
        n >= segment_count(a.selector) || a.selector.len() == 0,
    ensures
        parent_url(ascend(a, n)) is None,
        ascend(a, n).host == a.host,
    decreases n,
{
    if a.selector.len() > 0 {
        lemma_parent_reparses(a);
        let p = parent_of(a);
        let k = rfind_before(a.selector, '/', trimmed_end(a.selector));
        lemma_rfind_before_bounds(a.selector, '/', trimmed_end(a.selector));
        if k >= 0 {
            lemma_slash_count_prefix(a.selector, k);
        }
        lemma_ascend_from(p, (n - 1) as nat);
    }
}

/// Asking again and again for the parent of an address whose selector has `n`
/// pieces between its `/` reaches, within `n` steps, an address with no parent:
/// the root of the server.
pub proof fn lemma_ascent_reaches_root(a: UrlView)
    requires
        valid_host(a.host),
    ensures
        parent_url(ascend(a, segment_count(a.selector))) is None,
        ascend(a, segment_count(a.selector)).selector.len() == 0,
{
    lemma_ascend_from(a, segment_count(a.selector));
}

} // verus!
