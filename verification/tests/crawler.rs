use apple_specs::apple::{blocks, buy_link, canonical, category_for, links, plain, price, prices, product_name};
use apple_specs::decimal::{amount_exec, dec_lt_exec};
use apple_specs::network::Robots;
use apple_specs::text::clean;

#[test]
fn crawler_url_boundary_and_discovery() {
    let base = "https://www.apple.com/tw/iphone-17/";
    assert_eq!(canonical(base, "specs/?x=1#size"), Some(format!("{base}specs/")));
    for bad in [
        "http://www.apple.com/tw/",
        "https://www.apple.com.evil.test/tw/",
        "https://www.apple.com/us/",
        "https://127.0.0.1/tw/",
        "https://user@www.apple.com/tw/",
    ] {
        assert!(canonical(base, bad).is_none());
    }
    assert_eq!(category_for("https://www.apple.com/tw/macbook-future/").as_deref(), Some("mac"));
    assert_eq!(category_for("https://www.apple.com/tw/iphone/compare/"), None);
    assert_eq!(links("<a href='specs/#x'>a</a><a href='specs/?x=1'>b</a>", base).len(), 1);
}

#[test]
fn crawler_robots_specificity_and_wildcards() {
    let r = Robots::parse(
        "User-agent: *\nDisallow: /tw/shop/\nAllow: /tw/shop/buy-iphone/\nDisallow: /*overlay/*\n",
    );
    assert!(r.permits("/tw/iphone/specs/"));
    assert!(!r.permits("/tw/shop/bag/"));
    assert!(r.permits("/tw/shop/buy-iphone/"));
    assert!(!r.permits("/tw/overlay/test/"));
    let r = Robots::parse("User-agent: *\nDisallow: /\nUser-agent: RustCrawler\nAllow: /tw/\n");
    assert!(r.permits("/tw/iphone/"));
}

#[test]
fn crawler_buy_link_uses_this_products_navigation() {
    let html = "<a href='/tw/shop/goto/buy_ipad/ipad_air'>Other product</a><a class='ac-ln-button' href='/tw/shop/goto/buy_ipad/ipad'>購買</a>";
    assert_eq!(
        buy_link(html, "https://www.apple.com/tw/ipad-11/").as_deref(),
        Some("https://www.apple.com/tw/shop/goto/buy_ipad/ipad")
    );
    assert!(category_for("https://www.apple.com/tw/ipad-keyboards/").is_none());
    assert!(category_for("https://www.apple.com/tw/apple-watch-for-your-kids/").is_none());
}

#[test]
fn crawler_source_footnotes_and_no_empty_sections() {
    let html = "<main><section><h2>價格</h2></section><section><h2>電池</h2><p>最長 18 小時</p></section></main><footer class='ac-gf-sosumi'><ol><li id='note-1'>測試結果依使用情況而異。</li></ol></footer>";
    let b = blocks(html);
    assert_eq!(b.len(), 2);
    assert_eq!(b[1].section, "註腳與限制");
    assert!(b[1].text.contains("依使用情況"));
}

#[test]
fn crawler_native_colspan_is_never_assigned_to_one_model() {
    let html = "<table><tr><th role='columnheader'>A</th><th role='columnheader'>B</th></tr><tr><td colspan='2'>shared</td><td>other</td></tr></table>";
    let b = blocks(html);
    assert!(b[0].model_hint.is_none());
}

#[test]
fn crawler_nested_sections_preserve_parent_text_once() {
    let b = blocks(
        "<main><section><h2>外層</h2><p>parent qualifier</p><section><h3>內層</h3><p>child value</p></section></section></main>",
    );
    let text = b.iter().map(|b| b.text.as_str()).collect::<Vec<_>>().join("\n");
    assert_eq!(text.matches("parent qualifier").count(), 1);
    assert_eq!(text.matches("child value").count(), 1);
}

#[test]
fn crawler_modern_purchase_cta_ignores_other_products() {
    for slug in ["iphone-18-pro", "iphone-duo"] {
        let href = format!("/tw/shop/goto/buy_iphone/{}", slug.replace('-', "_"));
        let html = format!(
            "<a class='product-link' href='/tw/shop/goto/buy_iphone/iphone_16'>Other</a><a href='{href}' class='typography-caption cta buy'>查看價格</a>"
        );
        assert_eq!(
            buy_link(&html, &format!("https://www.apple.com/tw/{slug}/")),
            Some(format!("https://www.apple.com{href}"))
        );
    }
}

#[test]
fn promotions_are_no_price() {
    assert!(price("<p>每月 NT$999，折抵 NT$8000</p>", "url").is_none());
}

fn product_script(name: &str, offers: &str) -> String {
    format!(
        "<script type='application/ld+json'>{{\"@type\":\"Product\",\"name\":\"{name}\",\"offers\":{offers}}}</script>"
    )
}

#[test]
fn prices_keep_each_named_product() {
    let url = "https://www.apple.com/tw/shop/buy-iphone/iphone-18-pro";
    let html = format!(
        "<html><head>{}{}</head><body></body></html>",
        product_script(
            "iPhone 18 Pro",
            "[{\"@type\":\"AggregateOffer\",\"priceCurrency\":\"TWD\",\"lowPrice\":44900,\"highPrice\":60000}]"
        ),
        product_script(
            "iPhone 18 Pro Max",
            "{\"@type\":\"AggregateOffer\",\"priceCurrency\":\"TWD\",\"lowPrice\":\"49,900\"}"
        ),
    );
    let ps = prices(&html, url);
    assert_eq!(ps.len(), 2);
    assert_eq!(ps[0].source_name, "iPhone 18 Pro");
    assert_eq!(ps[0].amount.parse::<f64>().unwrap(), 44900.0);
    assert_eq!(ps[1].source_name, "iPhone 18 Pro Max");
    assert_eq!(ps[1].amount.parse::<f64>().unwrap(), 49900.0);
    for p in &ps {
        assert_eq!(p.source_url, url);
        assert_eq!(p.currency, "TWD");
        assert_eq!(p.scope, "官網此商品頁起售價；不代表每個選配型號的售價");
        let evidence: serde_json::Value = serde_json::from_str(&p.evidence).unwrap();
        assert_eq!(evidence["priceCurrency"], "TWD");
    }
    assert_eq!(price(&html, url).unwrap().amount.parse::<f64>().unwrap(), 44900.0);
    assert!(prices(&html.replace("TWD", "USD"), url).is_empty());
}

#[test]
fn prices_read_graphs_arrays_and_type_lists() {
    let url = "https://www.apple.com/tw/example/";
    let graph = "<script type='application/ld+json'>{\"@graph\":[{\"@type\":[\"Thing\",\"Product\"],\"name\":\"A\",\"offers\":{\"priceCurrency\":\"TWD\",\"price\":\"29900.00\"}},{\"@type\":\"Product\",\"name\":\"B\",\"offers\":[{\"priceCurrency\":\"TWD\",\"price\":39900},{\"priceCurrency\":\"TWD\",\"price\":35900}]}]}</script>";
    let ps = prices(graph, url);
    assert_eq!(ps.len(), 2);
    assert_eq!(ps[0].amount.parse::<f64>().unwrap(), 29900.0);
    assert_eq!(ps[1].amount.parse::<f64>().unwrap(), 35900.0);
    assert_eq!(price(graph, url).unwrap().source_name, "A");
    let broken = "<script type='application/ld+json'>{not json</script>";
    assert!(prices(broken, url).is_empty());
    let zero = product_script("Z", "{\"priceCurrency\":\"TWD\",\"price\":0}");
    assert!(prices(&zero, url).is_empty());
    let null_low = product_script("N", "{\"priceCurrency\":\"TWD\",\"lowPrice\":null,\"price\":100}");
    assert!(prices(&null_low, url).is_empty());
}

#[test]
fn product_names_drop_store_suffixes() {
    assert_eq!(product_name("<h1>MacBook Air 技術規格</h1>"), "MacBook Air");
    assert_eq!(
        product_name("<html><head><title>iPad Pro - 技術規格 - Apple (台灣)</title></head><body></body></html>"),
        "iPad Pro"
    );
    assert_eq!(product_name("<p>no heading</p>"), "");
}

#[test]
fn plain_text_keeps_lines_and_skips_scripts() {
    let html = "<body><main><p>第一行</p><script>var x = 1;</script><div>第二  行</div><sup>1</sup></main></body>";
    assert_eq!(plain(html), "第一行\n第二 行");
    assert_eq!(plain("<body><p>only body</p></body>"), "only body");
}

#[test]
fn links_are_sorted_distinct_and_inside_the_boundary() {
    let base = "https://www.apple.com/tw/";
    let html = "<a href='/tw/mac/'>m</a><a href='/tw/ipad/#x'>i</a><a href='https://example.com/tw/'>x</a><a href='/tw/mac/?y=1'>m2</a><a>no href</a>";
    assert_eq!(
        links(html, base),
        vec!["https://www.apple.com/tw/ipad/".to_string(), "https://www.apple.com/tw/mac/".to_string()]
    );
}

#[test]
fn long_blocks_are_cut_without_loss() {
    let long: String = "甲".repeat(8000);
    let html = format!("<main><section><h2>長</h2><p>{long}</p></section></main>");
    let b = blocks(&html);
    assert_eq!(b.len(), 3);
    assert!(b.iter().all(|x| x.text.chars().count() <= 3500));
    let joined: String = b.iter().map(|x| x.text.as_str()).collect();
    assert_eq!(joined, format!("長\n{long}"));
    for (i, x) in b.iter().enumerate() {
        assert_eq!(x.id, i);
        assert_eq!(x.section, "長");
    }
}

#[test]
fn robots_patterns_are_literal_apart_from_wildcards() {
    let r = Robots::parse("User-agent: *\nDisallow: /a.b\nDisallow: /c+d$\n");
    assert!(r.permits("/axb"));
    assert!(!r.permits("/a.b/more"));
    assert!(!r.permits("/c+d"));
    assert!(r.permits("/c+d/e"));
    assert!(r.permits("/ccd"));
}

#[test]
fn labelled_grids_give_each_cell_its_model() {
    let html = "<main><section><h2>連接埠</h2><div class='grid-container'><div class='grid-item'>2 個連接埠機型 配備 USB-C</div><div class='grid-item'>4 個連接埠機型 配備雷靂</div></div></section></main>";
    let b = blocks(html);
    assert_eq!(b.len(), 2);
    assert_eq!(b[0].section, "連接埠");
    assert_eq!(b[0].model_hint.as_deref(), Some("2 個連接埠機型"));
    assert_eq!(b[1].model_hint.as_deref(), Some("4 個連接埠機型"));
    assert_eq!(b[1].context, "source-labelled-grid");
}

#[test]
fn table_columns_give_model_hints() {
    let html = "<table><tr><th role='columnheader'>型號 A</th><th role='columnheader'>型號 B</th></tr><tr><th>容量</th><td>256GB</td><td>512GB</td></tr></table>";
    let b = blocks(html);
    assert_eq!(b.len(), 2);
    assert_eq!(b[0].section, "容量");
    assert_eq!(b[0].model_hint.as_deref(), Some("型號 A"));
    assert_eq!(b[1].model_hint.as_deref(), Some("型號 B"));
    assert_eq!(b[1].text, "512GB");
}

#[test]
fn prices_keep_fractions_and_exponents_exactly() {
    let url = "https://www.apple.com/tw/example/";
    let html = format!(
        "{}{}{}",
        product_script("Half", "{\"priceCurrency\":\"TWD\",\"price\":29900.5}"),
        product_script("Exp", "{\"priceCurrency\":\"TWD\",\"price\":\"2.99e4\"}"),
        product_script("Plus", "{\"priceCurrency\":\"TWD\",\"price\":\"+29,900.75\"}"),
    );
    let ps = prices(&html, url);
    assert_eq!(ps.len(), 3);
    assert_eq!(ps[0].amount, "29900.5");
    assert_eq!(ps[1].amount, "29900");
    assert_eq!(ps[2].amount, "29900.75");
    let cheapest = price(&html, url).unwrap();
    assert_eq!(cheapest.source_name, "Exp");
    assert_eq!(cheapest.amount, "29900");
    let tiny = product_script("Tiny", "{\"priceCurrency\":\"TWD\",\"price\":\"0.5\"}");
    assert_eq!(prices(&tiny, url)[0].amount, "0.5");
    let negative = product_script("N", "{\"priceCurrency\":\"TWD\",\"price\":\"-5\"}");
    assert!(prices(&negative, url).is_empty());
    let words = product_script("W", "{\"priceCurrency\":\"TWD\",\"price\":\"NT$100\"}");
    assert!(prices(&words, url).is_empty());
}

#[test]
fn amounts_are_canonical_and_compare_by_value() {
    let read = |s: &str| amount_exec(&s.chars().collect::<Vec<char>>()).map(|v| v.into_iter().collect::<String>());
    assert_eq!(read("044900.500"), Some("44900.5".to_string()));
    assert_eq!(read("1.5E-1"), Some("0.15".to_string()));
    assert_eq!(read(".5"), Some("0.5".to_string()));
    assert_eq!(read("0.000"), None);
    assert_eq!(read("1e401"), None);
    assert_eq!(read("1e-400"), None);
    assert_eq!(read(&"9".repeat(309)), None);
    assert_eq!(read(&format!("0.{}1e460", "0".repeat(450))), Some("1000000000".to_string()));
    assert_eq!(read("1."), Some("1".to_string()));
    assert_eq!(read("e5"), None);
    assert!(dec_lt_exec("999.99", "1000"));
    assert!(dec_lt_exec("29900.5", "29900.75"));
    assert!(!dec_lt_exec("29900.75", "29900.5"));
    assert!(dec_lt_exec("29900", "29900.01"));
    assert!(!dec_lt_exec("44900", "44900"));
}

#[test]
fn cleaning_leaves_single_spaces_and_is_stable() {
    let raw = "  A18 Pro\u{3000}晶片\n\n\t6 核心 GPU  ";
    let once = clean(raw);
    assert_eq!(once, "A18 Pro 晶片 6 核心 GPU");
    assert_eq!(clean(&once), once);
    assert!(!once.contains("  "));
    assert_eq!(once, once.trim());
    let words: Vec<&str> = once.split(' ').collect();
    assert_eq!(words, raw.split_whitespace().collect::<Vec<&str>>());
}

#[test]
fn amounts_are_read_exactly_when_f64_gives_a_finite_positive_number() {
    let read = |s: &str| amount_exec(&s.chars().collect::<Vec<char>>());
    let cases = [
        "1e308",
        "1.7976931348623157e308",
        "1.7976931348623158e308",
        "1.7976931348623159e308",
        "179769313486231580793728971405303415079934132710037826936173778980444968292764750946649017977587207096330286416692887910946555547851940402630657488671505820681908902000708383676273854845817711531764475730270069855571366959622842914819860834936475292719074168444365510704342711559699508093042880177904174497792",
        "179769313486231580793728971405303415079934132710037826936173778980444968292764750946649017977587207096330286416692887910946555547851940402630657488671505820681908902000708383676273854845817711531764475730270069855571366959622842914819860834936475292719074168444365510704342711559699508093042880177904174497791",
        "0.0000000000000000000000000000000000000000000000000000000000000000000000000000000000000000000000000000000000000000000000000000000000000000000000000000000000000000000000000000000000000000000000000000000000000000000000000000000000000000000000000000000000000000000000000000000000000000000000000000000000000000000000000000000000024703282292062327208828439643411068618252990130716238221279284125033775363510437593264991818081799618989828234772285886546332835517796989819938739800539093906315035659515570226392290858392449105184435931802849936536152500319370457678249219365623669863658480757001585769269903706311928279558551332927834338409351978015531246597263579574622766465272827220056374006485499977096599470454020828166226237857393450736339007967761930577506740176324673600968951340535537458516661134223766678604162159680461914467291840300530057530849048765391711386591646239524912623653881879636239373280423891018672348497668235089863388587925628302755995657524455507255189313690836254779186948667994968324049705821028513185451396213837722826145437693412532098591327667236328125",
        "0.00000000000000000000000000000000000000000000000000000000000000000000000000000000000000000000000000000000000000000000000000000000000000000000000000000000000000000000000000000000000000000000000000000000000000000000000000000000000000000000000000000000000000000000000000000000000000000000000000000000000000000000000000000000000247032822920623272088284396434110686182529901307162382212792841250337753635104375932649918180817996189898282347722858865463328355177969898199387398005390939063150356595155702263922908583924491051844359318028499365361525003193704576782492193656236698636584807570015857692699037063119282795585513329278343384093519780155312465972635795746227664652728272200563740064854999770965994704540208281662262378573934507363390079677619305775067401763246736009689513405355374585166611342237666786041621596804619144672918403005300575308490487653917113865916462395249126236538818796362393732804238910186723484976682350898633885879256283027559956575244555072551893136908362547791869486679949683240497058210285131854513962138377228261454376934125320985913276672363281251",
        "2.4703282292062328e-324",
        "2.4703282292062327e-324",
        "5e-324",
        "1e-324",
        "0.5",
        "0",
        "+0.0e5",
        "1e99999999999999999999999",
        "1e-99999999999999999999999",
        "0e99999999999999999999999",
        "12.5E+3",
        ".e1",
        "1.e2",
    ];
    for s in cases {
        let expected = s.parse::<f64>().map(|x| x.is_finite() && x > 0.0).unwrap_or(false);
        assert_eq!(read(s).is_some(), expected, "{s}");
    }
    let big = format!("{}", "9".repeat(308));
    assert_eq!(read(&big).map(|v| v.len()), Some(308));
}

#[test]
fn cleaning_keeps_exactly_the_words() {
    for raw in ["", "   ", "a", " a  b\tc\n", "\u{a0}x\u{2003}y\u{3000}", "甲 乙  丙"] {
        let cleaned = clean(raw);
        let words: Vec<&str> = cleaned.split(' ').filter(|w| !w.is_empty()).collect();
        assert_eq!(words, raw.split_whitespace().collect::<Vec<&str>>());
        assert_eq!(cleaned, raw.split_whitespace().collect::<Vec<&str>>().join(" "));
    }
}
