//! Properties of the library as a whole, stated over the specifications of its functions.
use vstd::prelude::*;
use crate::decimal::{dec_lt, lemma_dec_lt_irrefl, lemma_dec_lt_trans};
use crate::apple::{first_slash, path_category, slug_category, category_spec, chunks, lowest, max_block_chars, split_pieces, PieceV};
use crate::jsonld::PriceV;
use crate::models::is_category;
use crate::web::{escape_char, escape_spec};
use crate::text::{contains_seq, has_prefix, trim_end_char, trim_start_char, clean_from, clean_spec, is_space_spec};

verus! {

/// The sequences one after the other.
pub open spec fn joined(ss: Seq<Seq<char>>) -> Seq<char>
    decreases ss.len(),
{
    if ss.len() == 0 {
        Seq::empty()
    } else {
        ss[0] + joined(ss.drop_first())
    }
}

/// The texts of pieces.
pub open spec fn piece_texts(ps: Seq<PieceV>) -> Seq<Seq<char>> {
    ps.map_values(|p: PieceV| p.3)
}

proof fn lemma_joined_append(a: Seq<Seq<char>>, b: Seq<Seq<char>>)
    ensures
        joined(a + b) == joined(a) + joined(b),
    decreases a.len(),
{
    if a.len() == 0 {
        assert(a + b =~= b);
        assert(joined(a) + joined(b) =~= joined(b));
    } else {
        lemma_joined_append(a.drop_first(), b);
        assert((a + b).drop_first() =~= a.drop_first() + b);
        assert(joined(a) + joined(b) =~= a[0] + (joined(a.drop_first()) + joined(b)));
    }
}

/// Cutting a text into chunks loses nothing and adds nothing: the chunks, in order, give the
/// text back, and each has between 1 and 3500 characters.
pub proof fn law_chunks_lossless(t: Seq<char>)
    ensures
        joined(chunks(t)) == t,
        forall|i: int| 0 <= i < chunks(t).len() ==> 1 <= (#[trigger] chunks(t)[i]).len() <= max_block_chars(),
    decreases t.len(),
{
    if t.len() == 0 {
    } else if t.len() <= max_block_chars() {
        assert(seq![t].drop_first() =~= Seq::<Seq<char>>::empty());
        assert(joined(Seq::<Seq<char>>::empty()) == Seq::<char>::empty());
        assert(seq![t][0] == t);
        assert(joined(seq![t]) =~= t);
    } else {
        let rest = t.skip(max_block_chars() as int);
        law_chunks_lossless(rest);
        let c = seq![t.take(max_block_chars() as int)] + chunks(rest);
        assert(c.drop_first() =~= chunks(rest));
        assert(joined(c) =~= t);
        assert forall|i: int| 0 <= i < c.len() implies 1 <= (#[trigger] c[i]).len() <= max_block_chars() by {
            if i > 0 {
                assert(c[i] == chunks(rest)[i - 1]);
            }
        }
    }
}

/// Splitting long blocks is lossless: the texts of the split pieces, joined, are the texts
/// of the pieces, joined; every split piece has 1 to 3500 characters.
pub proof fn law_split_lossless(ps: Seq<PieceV>)
    ensures
        joined(piece_texts(split_pieces(ps))) == joined(piece_texts(ps)),
        forall|i: int| 0 <= i < split_pieces(ps).len() ==> 1 <= (#[trigger] split_pieces(ps)[i]).3.len() <= max_block_chars(),
    decreases ps.len(),
{
    if ps.len() > 0 {
        let p = ps.last();
        let front = ps.drop_last();
        law_split_lossless(front);
        law_chunks_lossless(p.3);
        let tail = chunks(p.3).map_values(|c: Seq<char>| (p.0, p.1, p.2, c));
        assert(piece_texts(tail) =~= chunks(p.3));
        assert(piece_texts(split_pieces(front) + tail) =~= piece_texts(split_pieces(front)) + piece_texts(tail));
        lemma_joined_append(piece_texts(split_pieces(front)), piece_texts(tail));
        assert(piece_texts(ps) =~= piece_texts(front) + seq![p.3]);
        lemma_joined_append(piece_texts(front), seq![p.3]);
        assert(seq![p.3].drop_first() =~= Seq::<Seq<char>>::empty());
        assert(joined(Seq::<Seq<char>>::empty()) == Seq::<char>::empty());
        assert(seq![p.3][0] == p.3);
        assert(joined(seq![p.3]) =~= p.3);
        let sp = split_pieces(ps);
        assert forall|i: int| 0 <= i < sp.len() implies 1 <= (#[trigger] sp[i]).3.len() <= max_block_chars() by {
            let n = split_pieces(front).len();
            if i >= n {
                assert(sp[i] == tail[i - n]);
                assert(tail[i - n].3 == chunks(p.3)[i - n]);
            } else {
                assert(sp[i] == split_pieces(front)[i]);
            }
        }
    }
}

/// Product pages are only ever assigned one of the five known categories.
pub proof fn law_known_categories(url: Seq<char>)
    ensures
        category_spec(url) matches Some(c) ==> is_category(c),
{
    reveal_strlit("iphone");
    reveal_strlit("mac");
    reveal_strlit("ipad");
    reveal_strlit("watch");
    reveal_strlit("airpods");
}

/// Escaped text holds no raw markup: none of `< > " '` remains, and every `&` starts a
/// character reference.
pub proof fn law_escape_safe(s: Seq<char>)
    ensures
        forall|i: int| 0 <= i < escape_spec(s).len() ==> {
            let c = #[trigger] escape_spec(s)[i];
            c != '<' && c != '>' && c != '"' && c != '\''
        },
    decreases s.len(),
{
    reveal_strlit("&amp;");
    reveal_strlit("&lt;");
    reveal_strlit("&gt;");
    reveal_strlit("&quot;");
    reveal_strlit("&#39;");
    if s.len() > 0 {
        law_escape_safe(s.drop_last());
        let a = escape_spec(s.drop_last());
        let b = escape_char(s.last());
        assert forall|i: int| 0 <= i < (a + b).len() implies {
            let c = #[trigger] (a + b)[i];
            c != '<' && c != '>' && c != '"' && c != '\''
        } by {
            if i >= a.len() {
                assert((a + b)[i] == b[i - a.len()]);
            } else {
                assert((a + b)[i] == a[i]);
            }
        }
    }
}

/// The starting price is the cheapest price: one of them, no dearer than any, and there is
/// one whenever there are prices.
pub proof fn law_lowest_price(ps: Seq<PriceV>)
    ensures
        lowest(ps) is Some <==> ps.len() > 0,
        lowest(ps) matches Some(p) ==> ps.contains(p) && forall|i: int| 0 <= i < ps.len() ==> !dec_lt((#[trigger] ps[i]).0, p.0),
    decreases ps.len(),
{
    if ps.len() > 0 {
        let front = ps.drop_last();
        law_lowest_price(front);
        match lowest(ps) {
            Some(p) => {
                assert forall|i: int| 0 <= i < ps.len() implies !dec_lt((#[trigger] ps[i]).0, p.0) by {
                    if i < front.len() {
                        assert(ps[i] == front[i]);
                        if p == ps.last() && front.len() > 0 {
                            let q = lowest(front)->0;
                            if dec_lt(ps[i].0, p.0) && dec_lt(p.0, q.0) {
                                lemma_dec_lt_trans(ps[i].0, p.0, q.0);
                            }
                        }
                    } else {
                        lemma_dec_lt_irrefl(p.0);
                    }
                }
                if p == ps.last() {
                    assert(ps[ps.len() - 1] == p);
                } else {
                    let q = lowest(front)->0;
                    let k = choose|k: int| 0 <= k < front.len() && front[k] == q;
                    assert(ps[k] == q);
                }
            },
            None => {},
        }
    }
}

/// Text as `clean` leaves it: only plain spaces for white space, never two in a row, and none
/// at either end.
pub open spec fn is_clean(t: Seq<char>) -> bool {
    &&& forall|i: int| 0 <= i < t.len() ==> (#[trigger] t[i]) == ' ' || !is_space_spec(t[i])
    &&& forall|i: int| 0 <= i < t.len() - 1 ==> (#[trigger] t[i]) == ' ' ==> t[i + 1] != ' '
    &&& t.len() > 0 ==> !is_space_spec(t[0]) && !is_space_spec(t.last())
}

proof fn lemma_clean_from_shape(s: Seq<char>, seen: bool, gap: bool)
    ensures
        ({
            let t = clean_from(s, seen, gap);
            &&& forall|i: int| 0 <= i < t.len() ==> (#[trigger] t[i]) == ' ' || !is_space_spec(t[i])
            &&& forall|i: int| 0 <= i < t.len() - 1 ==> (#[trigger] t[i]) == ' ' ==> t[i + 1] != ' '
            &&& t.len() > 0 ==> !is_space_spec(t.last())
            &&& (t.len() > 0 && !seen) ==> !is_space_spec(t[0])
        }),
    decreases s.len(),
{
    if s.len() > 0 {
        if is_space_spec(s[0]) {
            lemma_clean_from_shape(s.drop_first(), seen, true);
        } else {
            lemma_clean_from_shape(s.drop_first(), true, false);
            let r = clean_from(s.drop_first(), true, false);
            let pre: Seq<char> = if seen && gap { seq![' '] } else { Seq::empty() };
            let t = pre + seq![s[0]] + r;
            assert(clean_from(s, seen, gap) == t);
            assert(is_space_spec(' ')) by {
                assert((' ' as u32) == 0x20);
            }
            assert forall|i: int| 0 <= i < t.len() implies (#[trigger] t[i]) == ' ' || !is_space_spec(t[i]) by {
                if i >= pre.len() + 1 {
                    assert(t[i] == r[i - pre.len() - 1]);
                }
            }
            assert forall|i: int| 0 <= i < t.len() - 1 implies (#[trigger] t[i]) == ' ' ==> t[i + 1] != ' ' by {
                if i >= pre.len() + 1 {
                    assert(t[i] == r[i - pre.len() - 1]);
                    assert(t[i + 1] == r[i + 1 - pre.len() - 1]);
                } else if i == pre.len() {
                    assert(t[i] == s[0]);
                } else {
                    assert(t[i + 1] == s[0]);
                    assert(s[0] != ' ');
                }
            }
            if r.len() > 0 {
                assert(t.last() == r.last());
            }
        }
    }
}

proof fn lemma_clean_fixed(u: Seq<char>)
    requires
        forall|i: int| 0 <= i < u.len() ==> (#[trigger] u[i]) == ' ' || !is_space_spec(u[i]),
        forall|i: int| 0 <= i < u.len() - 1 ==> (#[trigger] u[i]) == ' ' ==> u[i + 1] != ' ',
        u.len() > 0 ==> !is_space_spec(u.last()),
    ensures
        clean_from(u, true, false) == u,
        (u.len() == 0 || !is_space_spec(u[0])) ==> clean_from(u, false, false) == u,
    decreases u.len(),
{
    assert(is_space_spec(' ')) by {
        assert((' ' as u32) == 0x20);
    }
    if u.len() > 0 {
        let u1 = u.drop_first();
        if !is_space_spec(u[0]) {
            assert forall|i: int| 0 <= i < u1.len() - 1 implies (#[trigger] u1[i]) == ' ' ==> u1[i + 1] != ' ' by {
                assert(u1[i] == u[i + 1] && u1[i + 1] == u[i + 2]);
            }
            if u1.len() > 0 {
                assert(u1.last() == u.last());
            }
            lemma_clean_fixed(u1);
            assert(u =~= seq![u[0]] + u1);
            assert(clean_from(u, true, false) == Seq::<char>::empty() + seq![u[0]] + clean_from(u1, true, false));
            assert(clean_from(u, false, false) == Seq::<char>::empty() + seq![u[0]] + clean_from(u1, true, false));
            assert(Seq::<char>::empty() + seq![u[0]] + u1 =~= u);
        } else {
            assert(u[0] == ' ');
            assert(u.len() > 1);
            assert(u[1] != ' ');
            assert(!is_space_spec(u[1]));
            let u2 = u1.drop_first();
            assert forall|i: int| 0 <= i < u2.len() - 1 implies (#[trigger] u2[i]) == ' ' ==> u2[i + 1] != ' ' by {
                assert(u2[i] == u[i + 2] && u2[i + 1] == u[i + 3]);
            }
            if u2.len() > 0 {
                assert(u2.last() == u.last());
            }
            lemma_clean_fixed(u2);
            assert(u1[0] == u[1]);
            assert(clean_from(u, true, false) == clean_from(u1, true, true));
            assert(clean_from(u1, true, true) == seq![' '] + seq![u1[0]] + clean_from(u2, true, false));
            assert(seq![' '] + seq![u[1]] + u2 =~= u);
        }
    }
}

/// `clean` leaves only single plain spaces between the words, none at either end, and no
/// other white space; cleaning its result again changes nothing.
pub proof fn law_clean_normal(s: Seq<char>)
    ensures
        is_clean(clean_spec(s)),
        clean_spec(clean_spec(s)) == clean_spec(s),
{
    lemma_clean_from_shape(s, false, false);
    let t = clean_spec(s);
    if t.len() > 0 {
        assert(t[t.len() - 1] == t.last());
    }
    lemma_clean_fixed(t);
}

/// Whether a character is not white space.
pub open spec fn visible(c: char) -> bool {
    !is_space_spec(c)
}

proof fn lemma_clean_from_visible(s: Seq<char>, seen: bool, gap: bool)
    ensures
        clean_from(s, seen, gap).filter(|c: char| visible(c)) == s.filter(|c: char| visible(c)),
    decreases s.len(),
{
    let p = |c: char| visible(c);
    if s.len() > 0 {
        let tail = s.drop_first();
        assert(s =~= seq![s[0]] + tail);
        tail.lemma_filter_prepend(s[0], p);
        if is_space_spec(s[0]) {
            lemma_clean_from_visible(tail, seen, true);
        } else {
            lemma_clean_from_visible(tail, true, false);
            let r = clean_from(tail, true, false);
            let pre: Seq<char> = if seen && gap { seq![' '] } else { Seq::empty() };
            Seq::filter_distributes_over_add(pre + seq![s[0]], r, p);
            Seq::filter_distributes_over_add(pre, seq![s[0]], p);
            assert(is_space_spec(' ')) by {
                assert((' ' as u32) == 0x20);
            }
            reveal_with_fuel(Seq::filter, 2);
            assert(pre.filter(p) =~= Seq::<char>::empty());
            assert(seq![s[0]].filter(p) =~= seq![s[0]]);
        }
    }
}

/// `clean` keeps every character that is not white space, in order, and drops no other.
pub proof fn law_clean_keeps_text(s: Seq<char>)
    ensures
        clean_spec(s).filter(|c: char| visible(c)) == s.filter(|c: char| visible(c)),
{
    lemma_clean_from_visible(s, false, false);
}

/// The words of `s` from `cur` on: the maximal runs of non-white-space characters, `cur`
/// being the start of a run already under way (`str::split_whitespace`).
pub open spec fn words_from(s: Seq<char>, cur: Seq<char>) -> Seq<Seq<char>>
    decreases s.len(),
{
    if s.len() == 0 {
        if cur.len() > 0 { seq![cur] } else { Seq::empty() }
    } else if is_space_spec(s[0]) {
        (if cur.len() > 0 { seq![cur] } else { Seq::empty() }) + words_from(s.drop_first(), Seq::empty())
    } else {
        words_from(s.drop_first(), cur.push(s[0]))
    }
}

/// The words of `s`, as `str::split_whitespace` gives them.
pub open spec fn words(s: Seq<char>) -> Seq<Seq<char>> {
    words_from(s, Seq::empty())
}

/// Words joined by single spaces.
pub open spec fn spaced(ws: Seq<Seq<char>>) -> Seq<char>
    decreases ws.len(),
{
    if ws.len() == 0 {
        Seq::empty()
    } else if ws.len() == 1 {
        ws[0]
    } else {
        ws[0] + seq![' '] + spaced(ws.drop_first())
    }
}

/// `t` after a space, when it is not empty.
pub open spec fn after_space(t: Seq<char>) -> Seq<char> {
    if t.len() > 0 { seq![' '] + t } else { t }
}

proof fn lemma_words_nonempty(s: Seq<char>, cur: Seq<char>)
    ensures
        forall|k: int| 0 <= k < words_from(s, cur).len() ==> (#[trigger] words_from(s, cur)[k]).len() > 0,
        cur.len() > 0 ==> words_from(s, cur).len() > 0,
    decreases s.len(),
{
    if s.len() > 0 {
        if is_space_spec(s[0]) {
            lemma_words_nonempty(s.drop_first(), Seq::empty());
            let head: Seq<Seq<char>> = if cur.len() > 0 { seq![cur] } else { Seq::empty() };
            let w = words_from(s, cur);
            assert forall|k: int| 0 <= k < w.len() implies (#[trigger] w[k]).len() > 0 by {
                if k >= head.len() {
                    assert(w[k] == words_from(s.drop_first(), Seq::empty())[k - head.len()]);
                }
            }
        } else {
            lemma_words_nonempty(s.drop_first(), cur.push(s[0]));
        }
    }
}

proof fn lemma_spaced_front(w: Seq<char>, ws: Seq<Seq<char>>)
    requires
        forall|k: int| 0 <= k < ws.len() ==> (#[trigger] ws[k]).len() > 0,
    ensures
        spaced(seq![w] + ws) == w + after_space(spaced(ws)),
{
    let all = seq![w] + ws;
    assert(all.drop_first() =~= ws);
    if ws.len() == 0 {
        assert(w + Seq::<char>::empty() =~= w);
    } else if ws.len() == 1 {
        assert(spaced(ws) == ws[0]);
    } else {
        assert(spaced(ws) == ws[0] + seq![' '] + spaced(ws.drop_first()));
    }
    if ws.len() > 0 {
        assert(spaced(ws).len() > 0) by {
            if ws.len() > 1 {
                assert(spaced(ws).len() >= ws[0].len());
            }
        }
    }
}

proof fn lemma_clean_words(s: Seq<char>, cur: Seq<char>)
    ensures
        cur.len() > 0 ==> cur + clean_from(s, true, false) == spaced(words_from(s, cur)),
        cur.len() == 0 ==> clean_from(s, false, false) == spaced(words_from(s, cur))
            && clean_from(s, false, true) == spaced(words_from(s, cur))
            && clean_from(s, true, true) == after_space(spaced(words_from(s, cur))),
    decreases s.len(),
{
    if s.len() == 0 {
        if cur.len() > 0 {
            assert(cur + Seq::<char>::empty() =~= cur);
        }
    } else {
        let tail = s.drop_first();
        if is_space_spec(s[0]) {
            lemma_clean_words(tail, Seq::empty());
            lemma_words_nonempty(tail, Seq::empty());
            let wt = words_from(tail, Seq::empty());
            if cur.len() > 0 {
                lemma_spaced_front(cur, wt);
                assert(cur + after_space(spaced(wt)) == spaced(seq![cur] + wt));
            } else {
                assert(Seq::<Seq<char>>::empty() + wt =~= wt);
            }
        } else {
            let c2 = cur.push(s[0]);
            lemma_clean_words(tail, c2);
            let r = clean_from(tail, true, false);
            if cur.len() > 0 {
                assert(clean_from(s, true, false) == Seq::<char>::empty() + seq![s[0]] + r);
                assert(cur + (Seq::<char>::empty() + seq![s[0]] + r) =~= c2 + r);
            } else {
                assert(cur =~= Seq::<char>::empty());
                assert(c2 =~= seq![s[0]]);
                assert(clean_from(s, false, false) == Seq::<char>::empty() + seq![s[0]] + r);
                assert(clean_from(s, false, true) == Seq::<char>::empty() + seq![s[0]] + r);
                assert(clean_from(s, true, true) == seq![' '] + seq![s[0]] + r);
                assert(Seq::<char>::empty() + seq![s[0]] + r =~= c2 + r);
                assert(seq![' '] + seq![s[0]] + r =~= seq![' '] + (c2 + r));
            }
        }
    }
}

/// `clean` keeps exactly the words of the text, as `str::split_whitespace` gives them, and
/// joins them with single spaces.
pub proof fn law_clean_words(s: Seq<char>)
    ensures
        clean_spec(s) == spaced(words(s)),
        forall|k: int| 0 <= k < words(s).len() ==> (#[trigger] words(s)[k]).len() > 0,
{
    lemma_clean_words(s, Seq::empty());
    lemma_words_nonempty(s, Seq::empty());
}

/// A slug is a product page of a category only when it names a product of it: `iphone-…`,
/// `ipad-…`, `apple-watch-…`, `airpods-…`, or a Mac (`macbook-…`, `imac`, `mac-mini`,
/// `mac-studio`, `mac-pro`), and none of the excluded kinds (iPad keyboards; Hermès, Nike and
/// kids' Apple Watch pages; AirPods comparisons). So no category's own landing page (`iphone`, `mac`, `ipad`,
/// `watch`, `airpods`) is a product page.
pub proof fn law_product_slugs(s: Seq<char>)
    ensures
        slug_category(s) == Some("iphone"@) ==> s.len() >= 7 && s.take(7) == "iphone-"@,
        slug_category(s) == Some("ipad"@) ==> s.len() >= 5 && s.take(5) == "ipad-"@ && !contains_seq(s, "keyboard"@),
        slug_category(s) == Some("watch"@) ==> s.len() >= 12 && s.take(12) == "apple-watch-"@
            && !contains_seq(s, "hermes"@) && !contains_seq(s, "nike"@) && !contains_seq(s, "for-your-kids"@),
        slug_category(s) == Some("airpods"@) ==> s.len() >= 8 && s.take(8) == "airpods-"@ && !contains_seq(s, "compare"@),
        slug_category(s) == Some("mac"@) ==> (s.len() >= 8 && s.take(8) == "macbook-"@) || s == "imac"@
            || s == "mac-mini"@ || s == "mac-studio"@ || s == "mac-pro"@,
        slug_category(s) is Some ==> slug_category(s) == Some("iphone"@) || slug_category(s) == Some("mac"@)
            || slug_category(s) == Some("ipad"@) || slug_category(s) == Some("watch"@)
            || slug_category(s) == Some("airpods"@),
        (s == "iphone"@ || s == "mac"@ || s == "ipad"@ || s == "watch"@ || s == "airpods"@) ==> slug_category(s) is None,
{
    reveal_strlit("iphone");
    reveal_strlit("iphone-");
    reveal_strlit("ipad");
    reveal_strlit("ipad-");
    reveal_strlit("watch");
    reveal_strlit("apple-watch-");
    reveal_strlit("airpods");
    reveal_strlit("airpods-");
    reveal_strlit("mac");
    reveal_strlit("macbook-");
    reveal_strlit("imac");
    reveal_strlit("mac-mini");
    reveal_strlit("mac-studio");
    reveal_strlit("mac-pro");
    assert("iphone"@.len() == 6 && "mac"@.len() == 3 && "ipad"@.len() == 4 && "watch"@.len() == 5 && "airpods"@.len() == 7);
    assert("iphone-"@.len() == 7 && "ipad-"@.len() == 5);
    assert("imac"@.len() == 4 && "mac-mini"@.len() == 8 && "mac-studio"@.len() == 10 && "mac-pro"@.len() == 7);
    assert("macbook-"@.len() == 8 && "apple-watch-"@.len() == 12 && "airpods-"@.len() == 8);
    if s == "mac"@ || s == "watch"@ {
        assert(s != "imac"@ && s != "mac-mini"@ && s != "mac-studio"@ && s != "mac-pro"@);
    }
    if s == "ipad"@ {
        assert(s[1] == 'p' && "imac"@[1] == 'm');
        assert(s != "imac"@);
    }
    if s == "iphone"@ {
        assert(s.len() == "iphone"@.len());
        assert(!has_prefix(s, "iphone-"@));
        assert(!has_prefix(s, "macbook-"@));
        assert(s.take(5)[2] == 'h' && "ipad-"@[2] == 'a');
        assert(!has_prefix(s, "ipad-"@));
        assert(!has_prefix(s, "apple-watch-"@));
        assert(!has_prefix(s, "airpods-"@));
        assert(s != "imac"@ && s != "mac-mini"@ && s != "mac-studio"@ && s != "mac-pro"@);
    }
    if s == "mac"@ {
        assert(s.len() == "mac"@.len());
        assert(!has_prefix(s, "iphone-"@));
        assert(!has_prefix(s, "macbook-"@));
        assert(!has_prefix(s, "ipad-"@));
        assert(!has_prefix(s, "apple-watch-"@));
        assert(!has_prefix(s, "airpods-"@));
        assert(s != "imac"@ && s != "mac-mini"@ && s != "mac-studio"@ && s != "mac-pro"@);
    }
    if s == "ipad"@ {
        assert(s.len() == "ipad"@.len());
        assert(!has_prefix(s, "iphone-"@));
        assert(!has_prefix(s, "macbook-"@));
        assert(!has_prefix(s, "ipad-"@));
        assert(!has_prefix(s, "apple-watch-"@));
        assert(!has_prefix(s, "airpods-"@));
        assert(s != "imac"@ && s != "mac-mini"@ && s != "mac-studio"@ && s != "mac-pro"@);
    }
    if s == "watch"@ {
        assert(s.len() == "watch"@.len());
        assert(!has_prefix(s, "iphone-"@));
        assert(!has_prefix(s, "macbook-"@));
        assert(s.take(5)[0] == 'w' && "ipad-"@[0] == 'i');
        assert(!has_prefix(s, "ipad-"@));
        assert(!has_prefix(s, "apple-watch-"@));
        assert(!has_prefix(s, "airpods-"@));
        assert(s != "imac"@ && s != "mac-mini"@ && s != "mac-studio"@ && s != "mac-pro"@);
    }
    if s == "airpods"@ {
        assert(s.len() == "airpods"@.len());
        assert(s.take(7)[0] == 'a' && "iphone-"@[0] == 'i');
        assert(!has_prefix(s, "iphone-"@));
        assert(!has_prefix(s, "macbook-"@));
        assert(s.take(5)[0] == 'a' && "ipad-"@[0] == 'i');
        assert(!has_prefix(s, "ipad-"@));
        assert(!has_prefix(s, "apple-watch-"@));
        assert(!has_prefix(s, "airpods-"@));
        assert(s != "imac"@ && s != "mac-mini"@ && s != "mac-studio"@ && s != "mac-pro"@);
    }
    if slug_category(s) == Some("iphone"@) {
        assert(has_prefix(s, "iphone-"@));
    }
    if slug_category(s) == Some("ipad"@) {
        assert(!has_prefix(s, "iphone-"@));
        assert(has_prefix(s, "ipad-"@));
    }
}

proof fn lemma_first_slash(t: Seq<char>, k: int)
    requires
        0 <= k < t.len(),
        t[k] == '/',
        forall|q: int| 0 <= q < k ==> t[q] != '/',
    ensures
        first_slash(t) == k,
    decreases k,
{
    if k > 0 {
        assert forall|q: int| 0 <= q < k - 1 implies t.drop_first()[q] != '/' by {
            assert(t.drop_first()[q] == t[q + 1]);
        }
        lemma_first_slash(t.drop_first(), k - 1);
    }
}

/// The path of a page directly under `/tw/` is classified by its slug alone: `/tw/<slug>/`
/// and `/tw/<slug>` have the category of `<slug>` (see [`law_product_slugs`]).
pub proof fn law_paths_by_slug(s: Seq<char>)
    requires
        s.len() > 0,
        forall|i: int| 0 <= i < s.len() ==> s[i] != '/',
    ensures
        path_category(seq!['/', 't', 'w', '/'] + s + seq!['/']) == slug_category(s),
        path_category(seq!['/', 't', 'w', '/'] + s) == slug_category(s),
{
    reveal_strlit("tw");
    let t = seq!['t', 'w', '/'] + s;
    let p1 = seq!['/', 't', 'w', '/'] + s + seq!['/'];
    let p2 = seq!['/', 't', 'w', '/'] + s;
    assert(p1.drop_last() =~= p2);
    assert(p1.last() == '/');
    assert(p2.last() == s.last());
    assert(trim_end_char(p1, '/') == trim_end_char(p2, '/'));
    assert(trim_end_char(p2, '/') == p2);
    assert(p2[0] == '/' && p2.drop_first() =~= t);
    assert(t[0] == 't');
    assert(trim_start_char(t, '/') == t);
    assert(trim_start_char(p2, '/') == t);
    lemma_first_slash(t, 2);
    assert(t.take(2) =~= "tw"@);
    assert(t.skip(3) =~= s);
    assert forall|q: int| 2 < q < t.len() implies #[trigger] t[q] != '/' by {
        assert(t[q] == s[q - 3]);
    }
}

proof fn lemma_first_slash_at(t: Seq<char>)
    ensures
        0 <= first_slash(t) <= t.len(),
        first_slash(t) < t.len() ==> t[first_slash(t)] == '/',
        forall|q: int| 0 <= q < first_slash(t) ==> t[q] != '/',
    decreases t.len(),
{
    if t.len() > 0 && t[0] != '/' {
        lemma_first_slash_at(t.drop_first());
        assert forall|q: int| 0 <= q < first_slash(t) implies t[q] != '/' by {
            if q > 0 {
                assert(t[q] == t.drop_first()[q - 1]);
            }
        }
    }
}

/// Only a page directly under `/tw/` is a product page: a classified path, without its outer
/// slashes, is `tw/` and a slug with no further `/`, and its category is that slug's.
pub proof fn law_product_paths(path: Seq<char>)
    ensures
        path_category(path) is Some ==> ({
            let t = trim_start_char(trim_end_char(path, '/'), '/');
            &&& t.len() > 3
            &&& t[0] == 't' && t[1] == 'w' && t[2] == '/'
            &&& forall|q: int| 3 <= q < t.len() ==> t[q] != '/'
            &&& path_category(path) == slug_category(t.skip(3))
        }),
{
    reveal_strlit("tw");
    let t = trim_start_char(trim_end_char(path, '/'), '/');
    lemma_first_slash_at(t);
    let p = first_slash(t);
    if p < t.len() && t.take(p) == "tw"@ && (forall|q: int| p < q < t.len() ==> #[trigger] t[q] != '/') {
        assert(t.take(p).len() == 2);
        assert(p == 2);
        assert(t.take(2)[0] == t[0] && t.take(2)[1] == t[1]);
        if t.len() == 3 {
            let e = t.skip(3);
            assert(e.len() == 0);
            reveal_strlit("iphone-");
            reveal_strlit("macbook-");
            reveal_strlit("ipad-");
            reveal_strlit("apple-watch-");
            reveal_strlit("airpods-");
            reveal_strlit("imac");
            reveal_strlit("mac-mini");
            reveal_strlit("mac-studio");
            reveal_strlit("mac-pro");
            assert(e != "imac"@ && e != "mac-mini"@ && e != "mac-studio"@ && e != "mac-pro"@);
            assert(slug_category(e) is None);
        }
    }
}

} // verus!
