//! Prices stated by schema.org `Product` descriptions in JSON-LD.
use vstd::prelude::*;
use crate::json::{Json, field, field_spec, is_str, is_str_spec};
use crate::models::Price;
use crate::text::{remove_char, remove_char_exec, str_chars, str_eq, string_from_chars};
use crate::decimal::{amount_exec, amount_of, dec_lt, dec_lt_exec};

verus! {

/// A price as plain values: amount, currency, source URL, source name, evidence, scope.
pub type PriceV = (Seq<char>, Seq<char>, Seq<char>, Seq<char>, Seq<char>, Seq<char>);

/// The plain values of a price.
pub open spec fn price_view(p: Price) -> PriceV {
    (p.amount@, p.currency@, p.source_url@, p.source_name@, p.evidence@, p.scope@)
}

/// The plain values of each price.
pub open spec fn price_views(ps: Seq<Price>) -> Seq<PriceV> {
    ps.map_values(|p: Price| price_view(p))
}

/// What a price read from a product page stands for.
pub open spec fn price_scope() -> Seq<char> {
    "官網此商品頁起售價；不代表每個選配型號的售價"@
}

/// The amount a price value states, as canonical decimal text: a positive JSON number, or a
/// string that reads as one once its thousands separators are removed.
pub open spec fn amount_spec(v: Json) -> Option<Seq<char>> {
    match v {
        Json::Number { text, .. } => amount_of(text@),
        Json::Str(s) => amount_of(remove_char(s@, ',')),
        _ => None,
    }
}

/// The amount of an offer in New Taiwan dollars: its `lowPrice`, or its `price` when it has
/// no `lowPrice`.
pub open spec fn offer_amount(offer: Json) -> Option<Seq<char>> {
    if !is_str_spec(field_spec(offer, "priceCurrency"@), "TWD"@) {
        None
    } else {
        match field_spec(offer, "lowPrice"@) {
            Some(n) => amount_spec(n),
            None => match field_spec(offer, "price"@) {
                Some(n) => amount_spec(n),
                None => None,
            },
        }
    }
}

/// Keeps the cheaper of the best offer so far and `o`; the earlier one on a tie.
pub open spec fn offer_step(best: Option<(Seq<char>, Json)>, o: Json) -> Option<(Seq<char>, Json)> {
    match offer_amount(o) {
        None => best,
        Some(a) => match best {
            None => Some((a, o)),
            Some(b) => if dec_lt(a, b.0) {
                Some((a, o))
            } else {
                best
            },
        },
    }
}

/// The cheapest offer with an amount, with that amount, amounts compared by exact value
/// (see [`dec_lt`]); the first one on a tie.
pub open spec fn best_offer(offers: Seq<Json>) -> Option<(Seq<char>, Json)>
    decreases offers.len(),
{
    if offers.len() == 0 {
        None
    } else {
        offer_step(best_offer(offers.drop_last()), offers.last())
    }
}

/// A product's offers: the `offers` array, or the single `offers` value.
pub open spec fn offers_of(v: Json) -> Seq<Json> {
    match field_spec(v, "offers"@) {
        Some(Json::Array(a)) => a@,
        Some(o) => seq![o],
        None => Seq::empty(),
    }
}

/// A product's `name`, or nothing.
pub open spec fn name_of(v: Json) -> Seq<char> {
    match field_spec(v, "name"@) {
        Some(Json::Str(s)) => s@,
        _ => Seq::empty(),
    }
}

/// The compact serialisation of an offer object.
pub open spec fn evidence_of(o: Json) -> Seq<char> {
    match o {
        Json::Object { text, .. } => text@,
        _ => Seq::empty(),
    }
}

/// The starting price of one product, from its cheapest TWD offer.
pub open spec fn product_price_spec(v: Json, url: Seq<char>) -> Option<PriceV> {
    match best_offer(offers_of(v)) {
        Some((a, o)) => Some((a, "TWD"@, url, name_of(v), evidence_of(o), price_scope())),
        None => None,
    }
}

/// `@type` is `Product` or an array holding the string `Product`.
pub open spec fn is_product(v: Json) -> bool {
    is_str_spec(field_spec(v, "@type"@), "Product"@) || lists_product(field_spec(v, "@type"@))
}

/// An array that holds the string `Product`.
pub open spec fn lists_product(t: Option<Json>) -> bool {
    match t {
        Some(Json::Array(a)) => has_product_word(a@),
        _ => false,
    }
}

/// Some item is the string `Product`.
pub open spec fn has_product_word(items: Seq<Json>) -> bool {
    exists|i: int| 0 <= i < items.len() && is_str_spec(Some(#[trigger] items[i]), "Product"@)
}

/// The position of the first `@graph` entry, or the number of entries when there is none.
pub open spec fn graph_index(entries: Seq<(String, Json)>) -> int
    decreases entries.len(),
{
    if entries.len() == 0 {
        0
    } else if entries[0].0@ == "@graph"@ {
        0
    } else {
        1 + graph_index(entries.drop_first())
    }
}

/// The prices of the products a JSON-LD value describes, in document order: arrays are
/// searched element by element, an object with `@graph` only through its graph, and any
/// other object is a product when its `@type` is, or lists, `Product`.
pub open spec fn value_prices(v: Json, url: Seq<char>) -> Seq<PriceV>
    decreases v,
{
    match v {
        Json::Array(a) => items_prices(a@, url),
        Json::Object { entries, .. } => {
            let k = graph_index(entries@);
            if 0 <= k < entries@.len() {
                value_prices(entries@[k].1, url)
            } else if is_product(v) {
                match product_price_spec(v, url) {
                    Some(p) => seq![p],
                    None => Seq::empty(),
                }
            } else {
                Seq::empty()
            }
        },
        _ => Seq::empty(),
    }
}

/// The prices found in each item, one after the other.
pub open spec fn items_prices(items: Seq<Json>, url: Seq<char>) -> Seq<PriceV>
    decreases items,
{
    if items.len() == 0 {
        Seq::empty()
    } else {
        items_prices(items.drop_last(), url) + value_prices(items.last(), url)
    }
}

/// The amount a price value states (see [`amount_spec`]).
pub fn amount_value(v: &Json) -> (r: Option<String>)
    ensures
        match r {
            Some(a) => amount_spec(*v) == Some(a@),
            None => amount_spec(*v) is None,
        },
{
    let digits = match v {
        Json::Number { text, .. } => {
            let t = str_chars(text.as_str());
            amount_exec(t.as_slice())
        },
        Json::Str(s) => {
            let t = str_chars(s.as_str());
            let c = remove_char_exec(t.as_slice(), ',');
            amount_exec(c.as_slice())
        },
        _ => None,
    };
    match digits {
        Some(d) => Some(string_from_chars(d.as_slice())),
        None => None,
    }
}

/// The TWD amount of an offer (see [`offer_amount`]).
pub fn offer_amount_exec(o: &Json) -> (r: Option<String>)
    ensures
        match r {
            Some(a) => offer_amount(*o) == Some(a@),
            None => offer_amount(*o) is None,
        },
{
    let cur = field(o, "priceCurrency");
    if !is_str(cur, "TWD") {
        return None;
    }
    match field(o, "lowPrice") {
        Some(n) => amount_value(n),
        None => match field(o, "price") {
            Some(n) => amount_value(n),
            None => None,
        },
    }
}

/// The best offer so far, as plain values.
pub open spec fn best_view(b: Option<(String, &Json)>) -> Option<(Seq<char>, Json)> {
    match b {
        Some(x) => Some((x.0@, *x.1)),
        None => None,
    }
}

fn offer_step_exec<'a>(best: Option<(String, &'a Json)>, o: &'a Json) -> (r: Option<(String, &'a Json)>)
    ensures
        best_view(r) == offer_step(best_view(best), *o),
{
    match offer_amount_exec(o) {
        None => best,
        Some(a) => match best {
            None => Some((a, o)),
            Some(b) => if dec_lt_exec(a.as_str(), b.0.as_str()) {
                Some((a, o))
            } else {
                Some(b)
            },
        },
    }
}

/// The plain values of a price, if there is one.
pub open spec fn opt_price_view(p: Option<Price>) -> Option<PriceV> {
    match p {
        Some(x) => Some(price_view(x)),
        None => None,
    }
}

/// The starting price of one product (see [`product_price_spec`]).
pub fn product_price(v: &Json, url: &str) -> (r: Option<Price>)
    ensures
        opt_price_view(r) == product_price_spec(*v, url@),
{
    let best = match field(v, "offers") {
        Some(Json::Array(a)) => {
            let mut b: Option<(String, &Json)> = None;
            let mut i: usize = 0;
            proof {
                assert(a@.take(0) =~= Seq::<Json>::empty());
            }
            while i < a.len()
                invariant
                    i <= a@.len(),
                    best_view(b) == best_offer(a@.take(i as int)),
                decreases a.len() - i,
            {
                proof {
                    assert(a@.take(i + 1).drop_last() =~= a@.take(i as int));
                }
                b = offer_step_exec(b, &a[i]);
                i += 1;
            }
            proof {
                assert(a@.take(a@.len() as int) =~= a@);
                assert(offers_of(*v) == a@);
            }
            b
        },
        Some(o) => {
            proof {
                assert(offers_of(*v) == seq![*o]);
                assert(seq![*o].drop_last() =~= Seq::<Json>::empty());
                assert(seq![*o].last() == *o);
                assert(best_offer(Seq::<Json>::empty()) is None);
                assert(best_offer(seq![*o]) == offer_step(None, *o));
            }
            offer_step_exec(None, o)
        },
        None => None,
    };
    proof {
        assert(best_view(best) == best_offer(offers_of(*v)));
    }
    match best {
        Some((amount, o)) => {
            let evidence = match o {
                Json::Object { text, .. } => text.clone(),
                _ => String::new(),
            };
            let name = match field(v, "name") {
                Some(Json::Str(s)) => s.clone(),
                _ => String::new(),
            };
            Some(Price {
                amount,
                currency: String::from_str("TWD"),
                source_url: String::from_str(url),
                source_name: name,
                evidence,
                scope: String::from_str("官網此商品頁起售價；不代表每個選配型號的售價"),
            })
        },
        None => None,
    }
}

fn graph_pos(entries: &Vec<(String, Json)>) -> (k: usize)
    ensures
        k == graph_index(entries@),
{
    let mut i: usize = 0;
    proof {
        assert(entries@.skip(0) =~= entries@);
    }
    while i < entries.len()
        invariant
            i <= entries@.len(),
            graph_index(entries@) == i + graph_index(entries@.skip(i as int)),
        decreases entries.len() - i,
    {
        proof {
            assert(entries@.skip(i as int).drop_first() =~= entries@.skip(i + 1));
            assert(entries@.skip(i as int)[0] == entries@[i as int]);
        }
        if str_eq(entries[i].0.as_str(), "@graph") {
            return i;
        }
        i += 1;
    }
    proof {
        assert(entries@.skip(i as int) =~= Seq::<(String, Json)>::empty());
    }
    i
}

proof fn lemma_listed_product(v: Json, a: Vec<Json>, i: int)
    requires
        field_spec(v, "@type"@) == Some(Json::Array(a)),
        0 <= i < a@.len(),
        is_str_spec(Some(a@[i]), "Product"@),
    ensures
        is_product(v),
{
    assert(is_str_spec(Some(a@[i]), "Product"@));
    assert(has_product_word(a@));
    assert(lists_product(Some(Json::Array(a))));
}

fn is_product_exec(v: &Json) -> (r: bool)
    ensures
        r == is_product(*v),
{
    let t = field(v, "@type");
    if is_str(t, "Product") {
        return true;
    }
    match t {
        Some(Json::Array(a)) => {
            let mut i: usize = 0;
            while i < a.len()
                invariant
                    i <= a@.len(),
                    field_spec(*v, "@type"@) == Some(Json::Array(*a)),
                    forall|k: int| 0 <= k < i ==> !is_str_spec(Some(#[trigger] a@[k]), "Product"@),
                decreases a.len() - i,
            {
                if is_str(Some(&a[i]), "Product") {
                    proof {
                        lemma_listed_product(*v, *a, i as int);
                    }
                    return true;
                }
                i += 1;
            }
            false
        },
        _ => false,
    }
}

/// Appends the prices of the products `v` describes (see [`value_prices`]).
pub fn collect_prices(v: &Json, url: &str, out: &mut Vec<Price>)
    ensures
        price_views(final(out)@) == price_views(old(out)@) + value_prices(*v, url@),
    decreases v,
{
    let ghost start = price_views(out@);
    match v {
        Json::Array(a) => {
            let mut i: usize = 0;
            proof {
                assert(a@.take(0) =~= Seq::<Json>::empty());
                assert(price_views(out@) =~= start + items_prices(a@.take(0), url@));
            }
            while i < a.len()
                invariant
                    i <= a@.len(),
                    *v == Json::Array(*a),
                    price_views(out@) == start + items_prices(a@.take(i as int), url@),
                decreases a.len() - i,
            {
                proof {
                    assert(a@.take(i + 1).drop_last() =~= a@.take(i as int));
                    assert(a@.take(i + 1).last() == a@[i as int]);
                }
                proof {
                    assert(decreases_to!(*a => a@));
                    assert(decreases_to!(a@ => a@[i as int]));
                    assert(decreases_to!(*v => (*v)->Array_0));
                    assert(decreases_to!(*v => a@[i as int]));
                }
                collect_prices(&a[i], url, out);
                i += 1;
                proof {
                    assert(price_views(out@) =~= start + items_prices(a@.take(i as int), url@));
                }
            }
            proof {
                assert(a@.take(a@.len() as int) =~= a@);
            }
        },
        Json::Object { entries, .. } => {
            let k = graph_pos(entries);
            if k < entries.len() {
                collect_prices(&entries[k].1, url, out);
            } else if is_product_exec(v) {
                match product_price(v, url) {
                    Some(p) => {
                        out.push(p);
                        proof {
                            assert(price_views(out@) =~= start + seq![price_view(p)]);
                        }
                    },
                    None => {
                        proof {
                            assert(price_views(out@) =~= start + Seq::<PriceV>::empty());
                        }
                    },
                }
            } else {
                proof {
                    assert(price_views(out@) =~= start + Seq::<PriceV>::empty());
                }
            }
        },
        _ => {
            proof {
                assert(price_views(out@) =~= start + Seq::<PriceV>::empty());
            }
        },
    }
}

/// A price as the crawler records it: a positive amount in TWD from the given page, with the
/// starting-price scope.
pub open spec fn sound_price(p: PriceV, url: Seq<char>) -> bool {
    is_amount(p.0) && p.1 == "TWD"@ && p.2 == url && p.5 == price_scope()
}

/// The canonical text of a positive amount (see [`amount_of`]).
pub open spec fn is_amount(a: Seq<char>) -> bool {
    exists|s: Seq<char>| #[trigger] amount_of(s) == Some(a)
}

proof fn lemma_best_offer_positive(offers: Seq<Json>)
    ensures
        best_offer(offers) matches Some(b) ==> is_amount(b.0),
    decreases offers.len(),
{
    if offers.len() > 0 {
        lemma_best_offer_positive(offers.drop_last());
        let o = offers.last();
        match offer_amount(o) {
            Some(a) => {
                let n = match field_spec(o, "lowPrice"@) {
                    Some(n) => n,
                    None => field_spec(o, "price"@)->0,
                };
                match n {
                    Json::Number { text, .. } => assert(amount_of(text@) == Some(a)),
                    Json::Str(t) => assert(amount_of(remove_char(t@, ',')) == Some(a)),
                    _ => {},
                }
            },
            None => {},
        }
    }
}

proof fn lemma_value_prices_sound(v: Json, url: Seq<char>)
    ensures
        forall|i: int| 0 <= i < value_prices(v, url).len() ==> sound_price(#[trigger] value_prices(v, url)[i], url),
    decreases v,
{
    match v {
        Json::Array(a) => {
            lemma_items_prices_sound(a@, url);
            assert(value_prices(v, url) == items_prices(a@, url));
        },
        Json::Object { entries, .. } => {
            let k = graph_index(entries@);
            if 0 <= k < entries@.len() {
                lemma_value_prices_sound(entries@[k].1, url);
                assert(value_prices(v, url) == value_prices(entries@[k].1, url));
            } else if is_product(v) {
                lemma_best_offer_positive(offers_of(v));
                match product_price_spec(v, url) {
                    Some(p) => {
                        assert(value_prices(v, url) == seq![p]);
                        assert(sound_price(p, url));
                    },
                    None => {
                        assert(value_prices(v, url) =~= Seq::<PriceV>::empty());
                    },
                }
            } else {
                assert(value_prices(v, url) =~= Seq::<PriceV>::empty());
            }
        },
        _ => {
            assert(value_prices(v, url) =~= Seq::<PriceV>::empty());
        },
    }
}

proof fn lemma_items_prices_sound(items: Seq<Json>, url: Seq<char>)
    ensures
        forall|i: int| 0 <= i < items_prices(items, url).len() ==> sound_price(#[trigger] items_prices(items, url)[i], url),
    decreases items,
{
    if items.len() > 0 {
        lemma_items_prices_sound(items.drop_last(), url);
        lemma_value_prices_sound(items.last(), url);
        let a = items_prices(items.drop_last(), url);
        let b = value_prices(items.last(), url);
        assert forall|i: int| 0 <= i < (a + b).len() implies sound_price(#[trigger] (a + b)[i], url) by {
            if i < a.len() {
                assert((a + b)[i] == a[i]);
            } else {
                assert((a + b)[i] == b[i - a.len()]);
            }
        }
    }
}

/// Every price read from JSON-LD is a positive TWD amount, attributed to the page it was
/// read from, with the starting-price scope.
pub proof fn law_prices_sound(v: Json, url: Seq<char>)
    ensures
        forall|i: int| 0 <= i < value_prices(v, url).len() ==> sound_price(#[trigger] value_prices(v, url)[i], url),
{
    lemma_value_prices_sound(v, url);
}

} // verus!
