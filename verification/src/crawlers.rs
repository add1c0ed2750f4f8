//! What a site crawler offers: discovery of product pages and extraction of their content.
//! A site implementation goes here; scheduling and storage stay with the engine.
use vstd::prelude::*;
use crate::apple::{
    anchor_links, blocks, buy_link, buy_selector, category_for, category_spec, first_buy,
    first_text, html_masks, lemma_sorted_pairwise, links, lowest,
    opt_view, page_pieces, page_prices, pieces_of, plain, price, prices, product_name, product_name_spec,
    seq_lt, split_pieces, string_views, strictly_sorted,
};
use crate::dom::spec_parse_dom;
use crate::jsonld::{opt_price_view, price_views};
use crate::models::{Block, Candidate, Price};
use crate::text::{
    contains_seq, contains_str, ends_with, has_prefix, has_suffix, starts_with, str_chars,
    str_eq, string_from_chars, trim_end_char, trim_end_char_exec,
};

verus! {

/// Finding the product pages of a site.
pub trait Discovery: Send + Sync {
    /// The listing page of a category.
    fn entry_url(&self, category: &str) -> String;

    /// The product pages of `category` linked from the listing page `html` found at `url`.
    fn candidates(&self, html: &str, url: &str, category: &str) -> Vec<String>;

    /// Fills in the specification and purchase pages of a product from its page.
    fn resolve(&self, html: &str, candidate: &mut Candidate);
}

/// Reading the content of a site's pages.
pub trait Extraction: Send + Sync {
    /// The source blocks of a specification page.
    fn blocks(&self, html: &str) -> Vec<Block>;

    /// The product name a page shows.
    fn name(&self, html: &str) -> String;

    /// The starting price a page states.
    fn price(&self, html: &str, url: &str) -> Option<Price>;

    /// Every product price a page states.
    fn prices(&self, html: &str, url: &str) -> Vec<Price>;

    /// The visible text of a page.
    fn plain(&self, html: &str) -> String;
}

/// A crawler for one site.
pub trait Crawler: Discovery + Extraction {
    /// Where the site's `robots.txt` is.
    fn robots_url(&self) -> &str;
}

/// The crawler for Apple Taiwan (`www.apple.com/tw`).
pub struct AppleTaiwanCrawler;

/// A specification page below a product page: `<prefix>…/specs/` or `<prefix>…/specs`.
pub open spec fn specs_page(prefix: Seq<char>, s: Seq<char>) -> bool {
    has_prefix(s, prefix) && (has_suffix(s, "/specs/"@) || has_suffix(s, "/specs"@))
}

/// A technical specification page below a product page.
pub open spec fn tech_specs_page(prefix: Seq<char>, s: Seq<char>) -> bool {
    has_prefix(s, prefix) && contains_seq(s, "tech-specs"@)
}

/// `x` is the first, in sorted order, of the items of `set` that satisfy `p`.
pub open spec fn least_with(set: Seq<Seq<char>>, p: spec_fn(Seq<char>) -> bool, x: Seq<char>) -> bool {
    &&& set.contains(x)
    &&& p(x)
    &&& forall|y: Seq<char>| #[trigger] set.contains(y) && p(y) ==> y == x || seq_lt(x, y)
}

/// Some item of `set` satisfies `p`.
pub open spec fn some_with(set: Seq<Seq<char>>, p: spec_fn(Seq<char>) -> bool) -> bool {
    exists|y: Seq<char>| #[trigger] set.contains(y) && p(y)
}

/// The directory of a product page: its URL without trailing slashes, and one slash.
pub open spec fn page_prefix(url: Seq<char>) -> Seq<char> {
    trim_end_char(url, '/') + "/"@
}

/// The pages looked for: technical specification pages, or else `…/specs` pages.
pub open spec fn wanted(prefix: Seq<char>, tech: bool, s: Seq<char>) -> bool {
    if tech {
        tech_specs_page(prefix, s)
    } else {
        specs_page(prefix, s)
    }
}

/// The first page of the sorted `v` that is wanted.
fn first_matching(v: &Vec<String>, prefix: &str, tech: bool) -> (r: Option<String>)
    requires
        strictly_sorted(string_views(v@)),
    ensures
        match r {
            Some(x) => least_with(string_views(v@), |s: Seq<char>| wanted(prefix@, tech, s), x@),
            None => !some_with(string_views(v@), |s: Seq<char>| wanted(prefix@, tech, s)),
        },
{
    let ghost sv = string_views(v@);
    let ghost p = |s: Seq<char>| wanted(prefix@, tech, s);
    proof {
        lemma_sorted_pairwise(sv);
    }
    let mut i: usize = 0;
    while i < v.len()
        invariant
            i <= v@.len(),
            sv == string_views(v@),
            p == (|s: Seq<char>| wanted(prefix@, tech, s)),
            forall|a: int, b: int| 0 <= a < b < sv.len() ==> seq_lt(#[trigger] sv[a], #[trigger] sv[b]),
            forall|k: int| 0 <= k < i ==> !wanted(prefix@, tech, #[trigger] sv[k]),
        decreases v.len() - i,
    {
        let c = str_chars(v[i].as_str());
        proof {
            assert(sv[i as int] == v@[i as int]@);
            assert(c@ == sv[i as int]);
        }
        let hit = if tech {
            starts_with(c.as_slice(), prefix) && contains_str(c.as_slice(), "tech-specs")
        } else {
            starts_with(c.as_slice(), prefix) && (ends_with(c.as_slice(), "/specs/") || ends_with(c.as_slice(), "/specs"))
        };
        if hit {
            proof {
                assert(wanted(prefix@, tech, sv[i as int]));
                assert forall|y: Seq<char>| #[trigger] sv.contains(y) && p(y) implies y == sv[i as int] || seq_lt(sv[i as int], y) by {
                    let j = choose|j: int| 0 <= j < sv.len() && sv[j] == y;
                    if j < i {
                        assert(!wanted(prefix@, tech, sv[j]));
                    } else if j > i {
                        assert(seq_lt(sv[i as int], sv[j]));
                    }
                }
            }
            return Some(v[i].clone());
        }
        i += 1;
    }
    proof {
        assert forall|y: Seq<char>| #[trigger] sv.contains(y) implies !p(y) by {
            let j = choose|j: int| 0 <= j < sv.len() && sv[j] == y;
            assert(!wanted(prefix@, tech, sv[j]));
        }
    }
    None
}

/// The specification page a product page links to: the first `…/specs` page below it, else
/// the first technical specification page below it.
pub open spec fn specs_choice(links: Seq<Seq<char>>, url: Seq<char>, r: Option<Seq<char>>) -> bool {
    let prefix = page_prefix(url);
    let a = |s: Seq<char>| wanted(prefix, false, s);
    let b = |s: Seq<char>| wanted(prefix, true, s);
    match r {
        Some(x) => least_with(links, a, x) || (!some_with(links, a) && least_with(links, b, x)),
        None => !some_with(links, a) && !some_with(links, b),
    }
}

/// The same items, whatever their order and repetition.
pub open spec fn same_items(a: Seq<Seq<char>>, b: Seq<Seq<char>>) -> bool {
    forall|y: Seq<char>| #[trigger] a.contains(y) <==> b.contains(y)
}

proof fn lemma_same_items_choice(a: Seq<Seq<char>>, b: Seq<Seq<char>>, p: spec_fn(Seq<char>) -> bool, x: Seq<char>)
    requires
        same_items(a, b),
    ensures
        least_with(a, p, x) == least_with(b, p, x),
        some_with(a, p) == some_with(b, p),
{
    if least_with(a, p, x) {
        assert(b.contains(x));
        assert forall|y: Seq<char>| #[trigger] b.contains(y) && p(y) implies y == x || seq_lt(x, y) by {
            assert(a.contains(y));
        }
    }
    if least_with(b, p, x) {
        assert(a.contains(x));
        assert forall|y: Seq<char>| #[trigger] a.contains(y) && p(y) implies y == x || seq_lt(x, y) by {
            assert(b.contains(y));
        }
    }
    if some_with(a, p) {
        let y = choose|y: Seq<char>| #[trigger] a.contains(y) && p(y);
        assert(b.contains(y));
    }
    if some_with(b, p) {
        let y = choose|y: Seq<char>| #[trigger] b.contains(y) && p(y);
        assert(a.contains(y));
    }
}

/// The links of a page are its anchors' canonical targets, whatever their order.
proof fn lemma_links_items(r: Seq<Seq<char>>, anchors: Seq<Seq<char>>)
    requires
        forall|i: int| 0 <= i < anchors.len() ==> r.contains(#[trigger] anchors[i]),
        forall|j: int| 0 <= j < r.len() ==> anchors.contains(#[trigger] r[j]),
    ensures
        same_items(r, anchors),
{
    assert forall|y: Seq<char>| #[trigger] r.contains(y) <==> anchors.contains(y) by {
        if r.contains(y) {
            let j = choose|j: int| 0 <= j < r.len() && r[j] == y;
            assert(anchors.contains(r[j]));
        }
        if anchors.contains(y) {
            let i = choose|i: int| 0 <= i < anchors.len() && anchors[i] == y;
            assert(r.contains(anchors[i]));
        }
    }
}

impl Discovery for AppleTaiwanCrawler {
    fn entry_url(&self, category: &str) -> (r: String)
        ensures
            r@ == "https://www.apple.com/tw/"@ + category@ + "/"@,
    {
        let mut s = String::from_str("https://www.apple.com/tw/");
        s.append(category);
        s.append("/");
        s
    }

    fn candidates(&self, html: &str, url: &str, category: &str) -> (r: Vec<String>)
        ensures
            strictly_sorted(string_views(r@)),
            forall|y: Seq<char>| #[trigger] string_views(r@).contains(y) <==> (anchor_links(html@, "a[href]"@, url@).contains(y) && category_spec(y) == Some(category@)),
    {
        let all = links(html, url);
        let ghost av = string_views(all@);
        let ghost anchors = anchor_links(html@, "a[href]"@, url@);
        proof {
            lemma_sorted_pairwise(av);
            lemma_links_items(av, anchors);
        }
        let mut out: Vec<String> = Vec::new();
        let mut i: usize = 0;
        while i < all.len()
            invariant
                i <= all@.len(),
                av == string_views(all@),
                forall|a: int, b: int| 0 <= a < b < av.len() ==> seq_lt(#[trigger] av[a], #[trigger] av[b]),
                strictly_sorted(string_views(out@)),
                out@.len() > 0 ==> exists|j: int| 0 <= j < i && #[trigger] av[j] == string_views(out@).last(),
                forall|k: int| 0 <= k < out@.len() ==> av.take(i as int).contains(#[trigger] string_views(out@)[k]),
                forall|k: int| 0 <= k < out@.len() ==> category_spec(#[trigger] string_views(out@)[k]) == Some(category@),
                forall|j: int| 0 <= j < i && category_spec(#[trigger] av[j]) == Some(category@) ==> string_views(out@).contains(av[j]),
            decreases all.len() - i,
        {
            let keep = match category_for(all[i].as_str()) {
                Some(c) => str_eq(c.as_str(), category),
                None => false,
            };
            let ghost prev = string_views(out@);
            proof {
                assert(av[i as int] == all@[i as int]@);
                assert(av.take(i + 1) =~= av.take(i as int).push(av[i as int]));
            }
            if keep {
                out.push(all[i].clone());
                proof {
                    let ov = string_views(out@);
                    assert(ov =~= prev.push(av[i as int]));
                    if prev.len() > 0 {
                        let j = choose|j: int| 0 <= j < i && #[trigger] av[j] == prev.last();
                        assert(seq_lt(av[j], av[i as int]));
                    }
                    assert(ov[ov.len() - 1] == av[i as int]);
                    assert forall|k: int| 0 <= k < ov.len() implies av.take(i + 1).contains(#[trigger] ov[k]) by {
                        if k < prev.len() {
                            assert(ov[k] == prev[k]);
                            assert(av.take(i as int).contains(prev[k]));
                            let w = choose|w: int| 0 <= w < i && av.take(i as int)[w] == prev[k];
                            assert(av.take(i + 1)[w] == prev[k]);
                        } else {
                            assert(av.take(i + 1)[i as int] == av[i as int]);
                        }
                    }
                    assert forall|j: int| 0 <= j <= i && category_spec(#[trigger] av[j]) == Some(category@) implies ov.contains(av[j]) by {
                        if j < i {
                            assert(prev.contains(av[j]));
                            let w = choose|w: int| 0 <= w < prev.len() && prev[w] == av[j];
                            assert(ov[w] == av[j]);
                        } else {
                            assert(ov[ov.len() - 1] == av[j]);
                        }
                    }
                }
            } else {
                proof {
                    assert forall|k: int| 0 <= k < prev.len() implies av.take(i + 1).contains(#[trigger] prev[k]) by {
                        let w = choose|w: int| 0 <= w < i && av.take(i as int)[w] == prev[k];
                        assert(av.take(i + 1)[w] == prev[k]);
                    }
                }
            }
            i += 1;
        }
        proof {
            let ov = string_views(out@);
            assert(av.take(all@.len() as int) =~= av);
            assert forall|y: Seq<char>| #[trigger] ov.contains(y) <==> (anchors.contains(y) && category_spec(y) == Some(category@)) by {
                if ov.contains(y) {
                    let k = choose|k: int| 0 <= k < ov.len() && ov[k] == y;
                    assert(av.contains(ov[k]));
                    assert(category_spec(ov[k]) == Some(category@));
                }
                if anchors.contains(y) && category_spec(y) == Some(category@) {
                    assert(av.contains(y));
                    let j = choose|j: int| 0 <= j < av.len() && av[j] == y;
                    assert(category_spec(av[j]) == Some(category@));
                }
            }
        }
        out
    }

    fn resolve(&self, html: &str, candidate: &mut Candidate)
        ensures
            final(candidate).category == old(candidate).category,
            final(candidate).url == old(candidate).url,
            specs_choice(anchor_links(html@, "a[href]"@, old(candidate).url@), old(candidate).url@, opt_view(final(candidate).specs_url)),
            opt_view(final(candidate).buy_url) == first_buy(anchor_links(html@, buy_selector(), old(candidate).url@)),
    {
        let url_chars = str_chars(candidate.url.as_str());
        let mut pv = trim_end_char_exec(url_chars.as_slice(), '/');
        pv.push('/');
        let prefix = string_from_chars(pv.as_slice());
        proof {
            reveal_strlit("/");
            assert(prefix@ =~= page_prefix(old(candidate).url@));
        }
        let all = links(html, candidate.url.as_str());
        let ghost av = string_views(all@);
        let ghost anchors = anchor_links(html@, "a[href]"@, old(candidate).url@);
        proof {
            lemma_links_items(av, anchors);
        }
        let first = first_matching(&all, prefix.as_str(), false);
        let specs = match first {
            Some(x) => Some(x),
            None => first_matching(&all, prefix.as_str(), true),
        };
        proof {
            let a = |s: Seq<char>| wanted(prefix@, false, s);
            let b = |s: Seq<char>| wanted(prefix@, true, s);
            let x = match opt_view(specs) {
                Some(v) => v,
                None => Seq::empty(),
            };
            lemma_same_items_choice(av, anchors, a, x);
            lemma_same_items_choice(av, anchors, b, x);
        }
        let buy = buy_link(html, candidate.url.as_str());
        candidate.specs_url = specs;
        candidate.buy_url = buy;
    }
}

impl Extraction for AppleTaiwanCrawler {
    fn blocks(&self, html: &str) -> (r: Vec<Block>)
        ensures
            pieces_of(r@) == split_pieces(page_pieces(spec_parse_dom(html@), html_masks(html@))),
            forall|i: int| 0 <= i < r@.len() ==> #[trigger] r@[i].id == i,
    {
        blocks(html)
    }

    fn name(&self, html: &str) -> (r: String)
        ensures
            r@ == product_name_spec(html@),
    {
        product_name(html)
    }

    fn price(&self, html: &str, url: &str) -> (r: Option<Price>)
        ensures
            opt_price_view(r) == lowest(page_prices(html@, url@)),
    {
        price(html, url)
    }

    fn prices(&self, html: &str, url: &str) -> (r: Vec<Price>)
        ensures
            price_views(r@) == page_prices(html@, url@),
    {
        prices(html, url)
    }

    fn plain(&self, html: &str) -> (r: String)
        ensures
            r@ == first_text(html@, "main"@, "body"@),
    {
        plain(html)
    }
}

impl Crawler for AppleTaiwanCrawler {
    fn robots_url(&self) -> (r: &str)
        ensures
            r@ == "https://www.apple.com/robots.txt"@,
    {
        "https://www.apple.com/robots.txt"
    }
}

} // verus!
