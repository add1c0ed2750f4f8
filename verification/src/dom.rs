//! A plain-value picture of a parsed HTML document and verified text extraction over it.
//!
//! `scraper` (html5ever) parses the page; the library receives the nodes in document order,
//! each with its depth, so that subtrees are contiguous runs of deeper nodes.
use vstd::prelude::*;
use crate::text::{join_lines, law_lines_break, lines_chars, lines_spec, str_eq};

verus! {

/// One node of a parsed document: elements have a name and attributes, text nodes a text.
#[derive(Debug, Clone)]
pub struct DomNode {
    /// Number of ancestors; the document node has depth 0.
    pub depth: usize,
    /// Local element name; empty for every node that is not an element.
    pub name: String,
    pub attrs: Vec<(String, String)>,
    pub text: Option<String>,
}

/// The nodes of `html` as `scraper::Html::parse_document` builds them, in document order.
pub uninterp spec fn spec_parse_dom(html: Seq<char>) -> Seq<DomNode>;

/// For each node of `spec_parse_dom(html)`, whether it is an element matching the CSS
/// selector `css`; `None` when `css` does not parse.
pub uninterp spec fn spec_select(html: Seq<char>, css: Seq<char>) -> Option<Seq<bool>>;

/// Parses a document with `scraper::Html::parse_document` and lists its nodes in document
/// order (`descendants` of the root), converting each node to a [`DomNode`].
#[verifier::external_body]
pub(crate) fn parse_dom(html: &str) -> (r: Vec<DomNode>)
    ensures
        r@ == spec_parse_dom(html@),
{
    let doc = scraper::Html::parse_document(html);
    doc.tree.root().descendants().map(|n| DomNode {
        depth: n.ancestors().count(),
        name: n.value().as_element().map_or(String::new(), |e| e.name().to_string()),
        attrs: n.value().as_element().map_or(vec![], |e| e.attrs().map(|(k, v)| (k.to_string(), v.to_string())).collect()),
        text: n.value().as_text().map(|t| t.to_string()),
    }).collect()
}

/// Evaluates `scraper::Selector::matches` of the selector `css` on every node of the parsed
/// document, in the same order as [`parse_dom`]; `None` when the selector does not parse.
#[verifier::external_body]
pub(crate) fn select_mask(html: &str, css: &str) -> (r: Option<Vec<bool>>)
    ensures
        match r {
            Some(m) => spec_select(html@, css@) == Some(m@),
            None => spec_select(html@, css@) is None,
        },
{
    let doc = scraper::Html::parse_document(html);
    let sel = scraper::Selector::parse(css).ok()?;
    Some(doc.tree.root().descendants().map(|n| scraper::ElementRef::wrap(n).is_some_and(|e| sel.matches(&e))).collect())
}

/// The first index `k' >= k` past node `i`'s subtree: the end of the document or a node no
/// deeper than `i`.
pub open spec fn scan_end(nodes: Seq<DomNode>, i: int, k: int) -> int
    decreases nodes.len() - k,
{
    if k >= nodes.len() || nodes[k].depth <= nodes[i].depth {
        k
    } else {
        scan_end(nodes, i, k + 1)
    }
}

/// One past the last descendant of node `i`.
pub open spec fn subtree_end(nodes: Seq<DomNode>, i: int) -> int {
    scan_end(nodes, i, i + 1)
}

/// Node `j` is a proper ancestor of node `k`.
pub open spec fn is_anc(nodes: Seq<DomNode>, j: int, k: int) -> bool {
    0 <= j < k < subtree_end(nodes, j)
}

/// Elements whose content is never shown as text.
pub open spec fn hiding_name(n: Seq<char>) -> bool {
    n == "script"@ || n == "style"@ || n == "noscript"@ || n == "sup"@
}

/// Elements that end a line of extracted text.
pub open spec fn newline_name(n: Seq<char>) -> bool {
    n == "li"@ || n == "p"@ || n == "br"@ || n == "div"@ || n == "h2"@ || n == "h3"@ || n == "h4"@
        || n == "tr"@
}

/// Node `k` lies inside a `script`, `style`, `noscript` or `sup` element.
pub open spec fn is_hidden(nodes: Seq<DomNode>, k: int) -> bool {
    exists|j: int| #[trigger] is_anc(nodes, j, k) && hiding_name(nodes[j].name@)
}

/// What node `n` adds to the raw text: its own text, and a line break after line-ending
/// elements' start.
pub open spec fn piece(n: DomNode) -> Seq<char> {
    (match n.text {
        Some(t) => t@,
        None => Seq::empty(),
    }) + (if newline_name(n.name@) {
        seq!['\n']
    } else {
        Seq::empty()
    })
}

/// Whether node `j` is marked as cut out.
pub open spec fn cut_at(cuts: Seq<bool>, j: int) -> bool {
    0 <= j < cuts.len() && cuts[j]
}

/// Node `k` lies in (or is) a cut-out node below `root`.
pub open spec fn cut_between(nodes: Seq<DomNode>, cuts: Seq<bool>, root: int, k: int) -> bool {
    exists|j: int| #![trigger cut_at(cuts, j)] root < j <= k && cut_at(cuts, j) && (j == k || is_anc(nodes, j, k))
}

/// Node `k` contributes its piece to the text of `root`.
pub open spec fn contributes(nodes: Seq<DomNode>, cuts: Seq<bool>, root: int, k: int) -> bool {
    !is_hidden(nodes, k) && !cut_between(nodes, cuts, root, k)
}

/// Raw text of the nodes `root..hi` that contribute to `root`.
pub open spec fn raw_upto(nodes: Seq<DomNode>, cuts: Seq<bool>, root: int, hi: int) -> Seq<char>
    decreases hi - root,
{
    if hi <= root {
        Seq::empty()
    } else {
        raw_upto(nodes, cuts, root, hi - 1) + (if contributes(nodes, cuts, root, hi - 1) {
            piece(nodes[hi - 1])
        } else {
            Seq::empty()
        })
    }
}

/// The visible text of node `root` and its descendants, leaving out cut-out subtrees,
/// normalised line by line.
pub open spec fn own_text(nodes: Seq<DomNode>, cuts: Seq<bool>, root: int) -> Seq<char> {
    lines_spec(raw_upto(nodes, cuts, root, subtree_end(nodes, root)))
}

/// The visible, normalised text of node `root`.
pub open spec fn node_text(nodes: Seq<DomNode>, root: int) -> Seq<char> {
    own_text(nodes, Seq::empty(), root)
}

pub proof fn lemma_scan_end(nodes: Seq<DomNode>, i: int, k: int)
    requires
        0 <= i < nodes.len(),
        i < k <= nodes.len(),
    ensures
        k <= scan_end(nodes, i, k) <= nodes.len(),
        forall|m: int| k <= m < scan_end(nodes, i, k) ==> nodes[m].depth > nodes[i].depth,
        scan_end(nodes, i, k) < nodes.len() ==> nodes[scan_end(nodes, i, k)].depth <= nodes[i].depth,
    decreases nodes.len() - k,
{
    if k < nodes.len() && nodes[k].depth > nodes[i].depth {
        lemma_scan_end(nodes, i, k + 1);
    }
}

/// Subtrees nest: a descendant's subtree ends no later than its ancestor's.
pub proof fn lemma_laminar(nodes: Seq<DomNode>, a: int, b: int)
    requires
        0 <= a < b < subtree_end(nodes, a),
        a < nodes.len(),
    ensures
        subtree_end(nodes, b) <= subtree_end(nodes, a),
{
    lemma_scan_end(nodes, a, a + 1);
    lemma_scan_end(nodes, b, b + 1);
    let ea = subtree_end(nodes, a);
    let eb = subtree_end(nodes, b);
    if eb > ea {
        assert(nodes[b].depth > nodes[a].depth);
        assert(nodes[ea].depth > nodes[b].depth);
    }
}

/// A parsed page with each node's subtree end and hidden flag.
pub struct Page {
    pub nodes: Vec<DomNode>,
    pub ends: Vec<usize>,
    pub hidden: Vec<bool>,
}

impl Page {
    /// The recorded subtree ends and hidden flags are the true ones.
    pub open spec fn wf(&self) -> bool {
        &&& self.ends@.len() == self.nodes@.len()
        &&& self.hidden@.len() == self.nodes@.len()
        &&& forall|i: int| 0 <= i < self.nodes@.len() ==> #[trigger] self.ends@[i] == subtree_end(self.nodes@, i)
        &&& forall|i: int| 0 <= i < self.nodes@.len() ==> #[trigger] self.hidden@[i] == is_hidden(self.nodes@, i)
    }
}

fn is_hiding(n: &str) -> (r: bool)
    ensures
        r == hiding_name(n@),
{
    str_eq(n, "script") || str_eq(n, "style") || str_eq(n, "noscript") || str_eq(n, "sup")
}

fn is_newline(n: &str) -> (r: bool)
    ensures
        r == newline_name(n@),
{
    str_eq(n, "li") || str_eq(n, "p") || str_eq(n, "br") || str_eq(n, "div") || str_eq(n, "h2")
        || str_eq(n, "h3") || str_eq(n, "h4") || str_eq(n, "tr")
}

/// Records subtree ends and hidden flags for the nodes of a document.
pub fn page_of(nodes: Vec<DomNode>) -> (p: Page)
    ensures
        p.wf(),
        p.nodes@ == nodes@,
{
    let n = nodes.len();
    let mut ends: Vec<usize> = Vec::new();
    let mut i: usize = 0;
    while i < n
        invariant
            n == nodes@.len(),
            i <= n,
            ends@.len() == i,
            forall|k: int| 0 <= k < i ==> #[trigger] ends@[k] == subtree_end(nodes@, k),
        decreases n - i,
    {
        let mut e = i + 1;
        while e < n && nodes[e].depth > nodes[i].depth
            invariant
                n == nodes@.len(),
                i < e <= n,
                scan_end(nodes@, i as int, i + 1) == scan_end(nodes@, i as int, e as int),
            decreases n - e,
        {
            e += 1;
        }
        ends.push(e);
        i += 1;
    }
    let mut hidden: Vec<bool> = Vec::new();
    let mut hmax: usize = 0;
    let mut k: usize = 0;
    while k < n
        invariant
            n == nodes@.len(),
            k <= n,
            hidden@.len() == k,
            ends@.len() == n,
            forall|x: int| 0 <= x < n ==> #[trigger] ends@[x] == subtree_end(nodes@, x),
            forall|x: int| 0 <= x < k ==> #[trigger] hidden@[x] == is_hidden(nodes@, x),
            forall|j: int| 0 <= j < k && hiding_name(nodes@[j].name@) ==> #[trigger] ends@[j] <= hmax,
            hmax == 0 || exists|j: int| 0 <= j < k && hiding_name(nodes@[j].name@) && #[trigger] ends@[j] == hmax,
        decreases n - k,
    {
        let h = hmax > k;
        proof {
            if h {
                let j = choose|j: int| 0 <= j < k && hiding_name(nodes@[j].name@) && #[trigger] ends@[j] == hmax;
                assert(is_anc(nodes@, j, k as int));
            }
            if is_hidden(nodes@, k as int) {
                let j = choose|j: int| #[trigger] is_anc(nodes@, j, k as int) && hiding_name(nodes@[j].name@);
                assert(ends@[j] <= hmax);
            }
        }
        hidden.push(h);
        if is_hiding(nodes[k].name.as_str()) && ends[k] > hmax {
            hmax = ends[k];
        }
        k += 1;
    }
    Page { nodes, ends, hidden }
}

proof fn lemma_skip_subtree(nodes: Seq<DomNode>, cuts: Seq<bool>, root: int, k: int, e: int)
    requires
        0 <= root < k < nodes.len(),
        cut_at(cuts, k),
        e == subtree_end(nodes, k),
    ensures
        raw_upto(nodes, cuts, root, e) == raw_upto(nodes, cuts, root, k),
{
    lemma_scan_end(nodes, k, k + 1);
    lemma_skip_from(nodes, cuts, root, k, e);
}

proof fn lemma_skip_from(nodes: Seq<DomNode>, cuts: Seq<bool>, root: int, k: int, hi: int)
    requires
        0 <= root < k < nodes.len(),
        cut_at(cuts, k),
        k <= hi <= subtree_end(nodes, k),
    ensures
        raw_upto(nodes, cuts, root, hi) == raw_upto(nodes, cuts, root, k),
    decreases hi - k,
{
    if hi > k {
        lemma_skip_from(nodes, cuts, root, k, hi - 1);
        let m = hi - 1;
        assert(cut_between(nodes, cuts, root, m)) by {
            assert(root < k <= m);
            assert(cut_at(cuts, k));
            assert(k == m || is_anc(nodes, k, m));
        }
        assert(raw_upto(nodes, cuts, root, hi) =~= raw_upto(nodes, cuts, root, hi - 1));
    }
}

/// The visible text of `root`'s subtree without the subtrees of cut-out nodes below it.
pub fn own_text_exec(page: &Page, cuts: &Vec<bool>, root: usize) -> (r: Vec<char>)
    requires
        page.wf(),
        root < page.nodes@.len(),
    ensures
        r@ == own_text(page.nodes@, cuts@, root as int),
{
    let ghost nodes = page.nodes@;
    let end = page.ends[root];
    proof {
        lemma_scan_end(nodes, root as int, root + 1);
    }
    let mut raw: Vec<char> = Vec::new();
    let mut k = root;
    while k < end
        invariant
            page.wf(),
            nodes == page.nodes@,
            root < nodes.len(),
            end == subtree_end(nodes, root as int),
            end <= nodes.len(),
            root <= k <= end,
            raw@ == raw_upto(nodes, cuts@, root as int, k as int),
            forall|j: int| root < j < k && cut_at(cuts@, j) ==> #[trigger] subtree_end(nodes, j) <= k,
        decreases end - k,
    {
        if k > root && k < cuts.len() && cuts[k] {
            let e = page.ends[k];
            proof {
                lemma_scan_end(nodes, k as int, k + 1);
                lemma_laminar(nodes, root as int, k as int);
                lemma_skip_subtree(nodes, cuts@, root as int, k as int, e as int);
                assert forall|j: int| root < j < e && cut_at(cuts@, j) implies #[trigger] subtree_end(nodes, j) <= e by {
                    if j > k {
                        lemma_laminar(nodes, k as int, j);
                    }
                }
            }
            k = e;
        } else {
            proof {
                assert(!cut_between(nodes, cuts@, root as int, k as int)) by {
                    if cut_between(nodes, cuts@, root as int, k as int) {
                        let j = choose|j: int| #![trigger cut_at(cuts@, j)] root < j <= k && cut_at(cuts@, j) && (j == k || is_anc(nodes, j, k as int));
                        if j < k {
                            assert(subtree_end(nodes, j) <= k);
                        }
                    }
                }
            }
            let ghost before = raw@;
            if !page.hidden[k] {
                match &page.nodes[k].text {
                    Some(t) => {
                        let mut cs = crate::text::str_chars(t.as_str());
                        raw.append(&mut cs);
                    },
                    None => {},
                }
                if is_newline(page.nodes[k].name.as_str()) {
                    raw.push('\n');
                }
            }
            proof {
                assert(raw@ =~= raw_upto(nodes, cuts@, root as int, k + 1));
            }
            k += 1;
        }
    }
    lines_chars(raw.as_slice())
}

/// The visible, normalised text of node `root`.
pub fn node_text_exec(page: &Page, root: usize) -> (r: Vec<char>)
    requires
        page.wf(),
        root < page.nodes@.len(),
    ensures
        r@ == node_text(page.nodes@, root as int),
{
    let none: Vec<bool> = Vec::new();
    proof {
        assert(none@ =~= Seq::<bool>::empty());
    }
    own_text_exec(page, &none, root)
}

/// Raw text of the nodes `lo..hi` that contribute to `root`.
pub open spec fn raw_between(nodes: Seq<DomNode>, cuts: Seq<bool>, root: int, lo: int, hi: int) -> Seq<char>
    decreases hi - lo,
{
    if hi <= lo {
        Seq::empty()
    } else {
        raw_between(nodes, cuts, root, lo, hi - 1) + (if contributes(nodes, cuts, root, hi - 1) {
            piece(nodes[hi - 1])
        } else {
            Seq::empty()
        })
    }
}

proof fn lemma_raw_split(nodes: Seq<DomNode>, cuts: Seq<bool>, root: int, mid: int, hi: int)
    requires
        root <= mid <= hi,
    ensures
        raw_upto(nodes, cuts, root, hi) == raw_upto(nodes, cuts, root, mid) + raw_between(nodes, cuts, root, mid, hi),
    decreases hi - mid,
{
    if hi > mid {
        lemma_raw_split(nodes, cuts, root, mid, hi - 1);
        let c: Seq<char> = if contributes(nodes, cuts, root, hi - 1) { piece(nodes[hi - 1]) } else { Seq::empty() };
        assert(raw_upto(nodes, cuts, root, mid) + raw_between(nodes, cuts, root, mid, hi - 1) + c
            =~= raw_upto(nodes, cuts, root, mid) + (raw_between(nodes, cuts, root, mid, hi - 1) + c));
    } else {
        assert(raw_upto(nodes, cuts, root, mid) + Seq::<char>::empty() =~= raw_upto(nodes, cuts, root, mid));
    }
}

/// The text a node holds itself (a text node's text; nothing for an element).
pub open spec fn held_text(n: DomNode) -> Seq<char> {
    match n.text {
        Some(t) => t@,
        None => Seq::empty(),
    }
}

/// A line-ending element (`li`, `p`, `br`, `div`, `h2`, `h3`, `h4` or `tr`) that shows in the
/// text of `root` breaks the line there: that text is the text before the element, and, on a
/// line of its own, the text from the element's content on.
pub proof fn law_line_elements_break(nodes: Seq<DomNode>, cuts: Seq<bool>, root: int, j: int)
    requires
        0 <= root <= j < subtree_end(nodes, root),
        j < nodes.len(),
        contributes(nodes, cuts, root, j),
        nodes[j].name@ == "li"@ || nodes[j].name@ == "p"@ || nodes[j].name@ == "br"@ || nodes[j].name@ == "div"@
            || nodes[j].name@ == "h2"@ || nodes[j].name@ == "h3"@ || nodes[j].name@ == "h4"@ || nodes[j].name@ == "tr"@,
    ensures
        own_text(nodes, cuts, root) == join_lines(
            lines_spec(raw_upto(nodes, cuts, root, j) + held_text(nodes[j])),
            lines_spec(raw_between(nodes, cuts, root, j + 1, subtree_end(nodes, root))),
        ),
{
    let end = subtree_end(nodes, root);
    lemma_raw_split(nodes, cuts, root, j + 1, end);
    assert(newline_name(nodes[j].name@));
    let before = raw_upto(nodes, cuts, root, j) + held_text(nodes[j]);
    let after = raw_between(nodes, cuts, root, j + 1, end);
    assert(raw_upto(nodes, cuts, root, j + 1) == raw_upto(nodes, cuts, root, j) + piece(nodes[j]));
    assert(raw_upto(nodes, cuts, root, j + 1) + after =~= before + seq!['\n'] + after);
    law_lines_break(before, after);
}

} // verus!

verus! {

/// The value of the first attribute of `n` named `name`.
pub open spec fn attr_spec(n: DomNode, name: Seq<char>) -> Option<Seq<char>> {
    attr_in(n.attrs@, name)
}

/// The value of the first entry named `name`.
pub open spec fn attr_in(attrs: Seq<(String, String)>, name: Seq<char>) -> Option<Seq<char>>
    decreases attrs.len(),
{
    if attrs.len() == 0 {
        None
    } else if attrs[0].0@ == name {
        Some(attrs[0].1@)
    } else {
        attr_in(attrs.drop_first(), name)
    }
}

/// Looks an attribute up (`Element::attr`).
pub fn attr<'a>(n: &'a DomNode, name: &str) -> (r: Option<&'a String>)
    ensures
        match r {
            Some(v) => attr_spec(*n, name@) == Some(v@),
            None => attr_spec(*n, name@) is None,
        },
{
    let mut i: usize = 0;
    proof {
        assert(n.attrs@.skip(0) =~= n.attrs@);
    }
    while i < n.attrs.len()
        invariant
            i <= n.attrs@.len(),
            attr_in(n.attrs@, name@) == attr_in(n.attrs@.skip(i as int), name@),
        decreases n.attrs.len() - i,
    {
        proof {
            assert(n.attrs@.skip(i as int).drop_first() =~= n.attrs@.skip(i + 1));
            assert(n.attrs@.skip(i as int)[0] == n.attrs@[i as int]);
        }
        if str_eq(n.attrs[i].0.as_str(), name) {
            return Some(&n.attrs[i].1);
        }
        i += 1;
    }
    proof {
        assert(n.attrs@.skip(i as int) =~= Seq::<(String, String)>::empty());
    }
    None
}

/// ASCII white space, which separates class names.
pub open spec fn ascii_space(c: char) -> bool {
    c == ' ' || c == '\t' || c == '\n' || c == '\x0C' || c == '\r'
}

/// A token separator: ASCII white space, or any Unicode white space when `unicode`.
pub open spec fn token_sep(c: char, unicode: bool) -> bool {
    if unicode { crate::text::is_space_spec(c) } else { ascii_space(c) }
}

/// `tok` is one of the separator-delimited words of `v`.
pub open spec fn has_token(v: Seq<char>, tok: Seq<char>, unicode: bool) -> bool {
    &&& tok.len() > 0
    &&& forall|m: int| 0 <= m < tok.len() ==> !token_sep(#[trigger] tok[m], unicode)
    &&& exists|i: int|
        #![trigger v.subrange(i, i + tok.len())]
        0 <= i <= v.len() - tok.len() && v.subrange(i, i + tok.len()) == tok && (i == 0 || token_sep(
            v[i - 1],
            unicode,
        )) && (i + tok.len() == v.len() || token_sep(v[i + tok.len()], unicode))
}

fn is_sep(c: char, unicode: bool) -> (r: bool)
    ensures
        r == token_sep(c, unicode),
{
    if unicode {
        crate::text::is_space(c)
    } else {
        c == ' ' || c == '\t' || c == '\n' || c == '\x0C' || c == '\r'
    }
}

/// Whether `tok` is one of the words of `v` (`split_whitespace().any(..)` or a class test).
pub fn has_token_exec(v: &str, tok: &str, unicode: bool) -> (r: bool)
    ensures
        r == has_token(v@, tok@, unicode),
{
    let vs = crate::text::str_chars(v);
    let ts = crate::text::str_chars(tok);
    if ts.len() == 0 || ts.len() > vs.len() {
        return false;
    }
    let mut m: usize = 0;
    while m < ts.len()
        invariant
            m <= ts@.len(),
            ts@ == tok@,
            forall|x: int| 0 <= x < m ==> !token_sep(#[trigger] ts@[x], unicode),
        decreases ts.len() - m,
    {
        if is_sep(ts[m], unicode) {
            proof {
                assert(tok@[m as int] == ts@[m as int]);
            }
            return false;
        }
        m += 1;
    }
    let last = vs.len() - ts.len();
    let vl = vs.len();
    let mut i: usize = 0;
    loop
        invariant
            vl == vs@.len(),
            vs@ == v@,
            ts@ == tok@,
            last == vs@.len() - ts@.len(),
            ts@.len() > 0,
            i <= last,
            forall|x: int| 0 <= x < ts@.len() ==> !token_sep(#[trigger] ts@[x], unicode),
            forall|j: int|
                #![trigger vs@.subrange(j, j + ts@.len())]
                0 <= j < i ==> !(vs@.subrange(j, j + ts@.len()) == ts@ && (j == 0 || token_sep(
                    vs@[j - 1],
                    unicode,
                )) && (j + ts@.len() == vs@.len() || token_sep(vs@[j + ts@.len()], unicode))),
        decreases last - i,
    {
        let here = crate::text::occurs_at(vs.as_slice(), ts.as_slice(), i)
            && (i == 0 || is_sep(vs[i - 1], unicode))
            && (i + ts.len() == vs.len() || is_sep(vs[i + ts.len()], unicode));
        if here {
            proof {
                assert(v@.subrange(i as int, i + tok@.len()) == tok@);
            }
            return true;
        }
        if i == last {
            proof {
                assert forall|j: int|
                    #![trigger v@.subrange(j, j + tok@.len())]
                    0 <= j <= v@.len() - tok@.len() implies !(v@.subrange(j, j + tok@.len()) == tok@ && (j == 0 || token_sep(
                        v@[j - 1],
                        unicode,
                    )) && (j + tok@.len() == v@.len() || token_sep(v@[j + tok@.len()], unicode))) by {
                    assert(vs@.subrange(j, j + ts@.len()) == v@.subrange(j, j + tok@.len()));
                }
            }
            return false;
        }
        i += 1;
    }
}

/// Whether element `n` carries class `c` (`Element::classes`).
pub open spec fn has_class(n: DomNode, c: Seq<char>) -> bool {
    match attr_spec(n, "class"@) {
        Some(v) => has_token(v, c, false),
        None => false,
    }
}

/// Whether element `n` carries class `c`.
pub fn has_class_exec(n: &DomNode, c: &str) -> (r: bool)
    ensures
        r == has_class(*n, c@),
{
    match attr(n, "class") {
        Some(v) => has_token_exec(v.as_str(), c, false),
        None => false,
    }
}

} // verus!
