use apple_specs::crawlers::{AppleTaiwanCrawler, Crawler, Discovery, Extraction};
use apple_specs::models::{Block, Candidate, Job, Price, Product, RunOptions, Settings, Specification};
use apple_specs::pipeline::{
    add_candidates, cancel_check, check_model, extraction_plan, open_job, page_files, price_source, readable_blocks,
    round_robin, start_check, PriceSource,
};
use apple_specs::llm::{batches, validate, Annotation};
use apple_specs::product::{apply_annotation, finish_specs, llm_phase, lowest_price, split_footnotes};

fn cand(category: &str, url: &str, specs: Option<&str>) -> Candidate {
    Candidate {
        category: category.into(),
        url: url.into(),
        specs_url: specs.map(|s| s.to_string()),
        buy_url: None,
    }
}

fn job() -> Job {
    Job::with_identity("job-1".into(), "t0".into(), Settings::default(), RunOptions::default())
}

#[test]
fn starting_needs_a_free_slot_and_a_sane_limit() {
    let mut o = RunOptions::default();
    assert!(start_check(&o, false).is_ok());
    assert_eq!(start_check(&o, true).unwrap_err(), "已有工作執行中");
    o.products_per_category = 31;
    assert_eq!(start_check(&o, false).unwrap_err(), "每類產品上限需小於等於 30");
    o.products_per_category = 30;
    assert!(start_check(&o, false).is_ok());
}

#[test]
fn jobs_open_only_under_valid_settings() {
    let j = open_job(Settings::default(), RunOptions::default()).unwrap();
    assert_eq!(j.status, "running");
    assert_eq!(j.phase, "準備");
    let mut s = Settings::default();
    s.max_pages = 0;
    assert_eq!(open_job(s, RunOptions::default()).unwrap_err(), "頁數上限需介於 5 至 300");
}

#[test]
fn invalid_settings_are_refused() {
    let mut settings = Settings::default();
    settings.categories.clear();
    assert_eq!(settings.validate().unwrap_err(), "請選擇有效產品類別");
    settings.categories = vec!["iphone".into()];
    settings.max_pages = 0;
    assert_eq!(settings.validate().unwrap_err(), "頁數上限需介於 5 至 300");
    settings.max_pages = 5;
    settings.model = "m".repeat(151);
    assert_eq!(settings.validate().unwrap_err(), "請選擇模型");
    settings.model = "m".into();
    assert!(settings.validate().is_ok());
    settings.categories = vec!["vision".into()];
    assert!(settings.validate().is_err());
}

#[test]
fn round_robin_interleaves_categories() {
    let cats = vec!["iphone".to_string(), "mac".to_string()];
    let cs = vec![
        cand("iphone", "i1", None),
        cand("iphone", "i2", None),
        cand("iphone", "i3", None),
        cand("mac", "m1", None),
    ];
    let order: Vec<String> = round_robin(&cats, cs).into_iter().map(|c| c.url).collect();
    assert_eq!(order, vec!["i1", "m1", "i2", "i3"]);
}

#[test]
fn candidates_are_never_duplicated() {
    let mut cs = vec![cand("iphone", "a", None)];
    add_candidates(&mut cs, "mac", vec!["b".into(), "a".into(), "b".into(), "c".into()]);
    let urls: Vec<&str> = cs.iter().map(|c| c.url.as_str()).collect();
    assert_eq!(urls, vec!["a", "b", "c"]);
    assert_eq!(cs[1].category, "mac");
    assert!(cs[2].specs_url.is_none());
}

#[test]
fn extraction_respects_the_limit_per_category() {
    let cs = vec![
        cand("iphone", "i1", Some("s1")),
        cand("iphone", "i2", None),
        cand("mac", "m1", Some("s2")),
        cand("iphone", "i3", Some("s3")),
        cand("mac", "m2", Some("s4")),
    ];
    assert_eq!(extraction_plan(&cs, 1), vec![0, 2]);
    assert_eq!(extraction_plan(&cs, 0), vec![0, 2, 3, 4]);
    assert_eq!(extraction_plan(&cs, 2), vec![0, 2, 3, 4]);
}

#[test]
fn the_page_budget_is_enforced() {
    let mut j = job();
    j.settings.max_pages = 1;
    assert!(j.can_fetch().is_ok());
    let files = page_files(&j, "iphone");
    assert_eq!(files.0, "iphone/job-1/page-0.html");
    assert_eq!(files.1, "iphone/job-1/page-0.txt");
    j.add_page("https://www.apple.com/tw/iphone/".into(), "category", "iphone", "t1".into(), files, "abc");
    assert_eq!(j.pages.len(), 1);
    assert_eq!(j.pages[0].sha256, "ba7816bf8f01cfea414140de5dae2223b00361a396177a9cb410ff61f20015ad");
    assert_eq!(j.can_fetch().unwrap_err(), "已達頁數上限；此 URL 未下載");
    assert_eq!(page_files(&j, "mac").0, "mac/job-1/page-1.html");
    j.settings.max_pages = 5;
    let files = page_files(&j, "mac");
    j.add_page("u".into(), "specs", "mac", "t2".into(), files, "");
    assert_eq!(j.pages[1].sha256, "e3b0c44298fc1c149afbf4c8996fb92427ae41e4649b934ca495991b7852b855");
    assert_eq!(j.pages[1].html_file, "mac/job-1/page-1.html");
}

#[test]
fn jobs_end_with_the_right_status() {
    let mut j = job();
    j.finish(true, Err("x".into()), "t".into());
    assert_eq!(j.status, "cancelled");
    assert_eq!(j.phase, "已取消，保留完成資料");
    let mut j = job();
    j.finish(false, Err("boom".into()), "t".into());
    assert_eq!(j.status, "failed");
    assert_eq!(j.issues.last().unwrap().stage, "工作");
    assert_eq!(j.issues.last().unwrap().message, "boom");
    let mut j = job();
    j.finish(false, Ok(()), "t".into());
    assert_eq!(j.status, "completed");
    assert_eq!(j.finished_at.as_deref(), Some("t"));
    let mut j = job();
    j.issue("u", "探索", "e");
    j.finish(false, Ok(()), "t".into());
    assert_eq!(j.status, "completed_with_errors");
    assert_eq!(j.phase, "完成");
}

#[test]
fn restart_interrupts_running_jobs() {
    let mut j = job();
    j.succeeded = 1;
    assert!(j.interrupt("later".into()));
    assert_eq!(j.status, "interrupted");
    assert_eq!(j.phase, "伺服器重新啟動，工作已中斷");
    assert_eq!(j.succeeded, 1);
    assert!(j.finished_at.is_some());
    assert!(!j.interrupt("again".into()));
    assert_eq!(j.finished_at.as_deref(), Some("later"));
}

#[test]
fn only_the_active_job_can_be_cancelled() {
    assert!(cancel_check(Some("a"), "a").is_ok());
    assert_eq!(cancel_check(Some("a"), "b").unwrap_err(), "此工作目前未執行");
    assert!(cancel_check(None, "a").is_err());
    assert!(check_model(&vec!["m1".to_string()], "m1").is_ok());
    assert_eq!(check_model(&vec![], "m1").unwrap_err(), "設定模型不在 Ollama 已安裝清單中");
}

fn price(amount: u64, name: &str) -> Price {
    Price {
        amount: amount.to_string(),
        currency: "TWD".into(),
        source_url: "u".into(),
        source_name: name.into(),
        evidence: "{}".into(),
        scope: "s".into(),
    }
}

fn block(id: usize, section: &str, text: &str) -> Block {
    Block { id, section: section.into(), model_hint: None, context: String::new(), text: text.into() }
}

fn spec(block_id: usize, model: Option<&str>) -> Specification {
    Specification {
        block_id,
        section: "s".into(),
        label: "l".into(),
        value: "v".into(),
        model: model.map(|m| m.to_string()),
        conditions: None,
        evidence: "v".into(),
        status: "source_matched".into(),
    }
}

#[test]
fn products_keep_every_price_and_the_cheapest_as_starting_price() {
    let ps = vec![price(49900, "Pro Max"), price(44900, "Pro"), price(44900, "Other")];
    assert_eq!(lowest_price(&ps).unwrap().source_name, "Pro");
    let blocks = vec![block(0, "容量", "256GB"), block(1, "註腳與限制", "依使用情況而異")];
    let p = Product::start("iphone".into(), "iPhone".into(), "pu".into(), "su".into(), "t".into(), "m".into(), ps, blocks);
    assert_eq!(p.model_prices.len(), 3);
    assert_eq!(p.starting_price.as_ref().unwrap().amount, "44900");
    assert!(p.warnings.is_empty());
    assert_eq!(p.specs.len(), 1);
    assert_eq!(p.specs[0].status, "source_only");
    assert_eq!(p.specs[0].value, "依使用情況而異");
    let q = Product::start("iphone".into(), "n".into(), "pu".into(), "su".into(), "t".into(), "m".into(), vec![], vec![]);
    assert!(q.starting_price.is_none());
    assert_eq!(q.warnings, vec!["未取得可驗證的 TWD 起售價；不使用分期、折抵或模型猜測".to_string()]);
}

#[test]
fn finishing_sorts_specs_and_lists_variants() {
    let mut p = Product::start("iphone".into(), "n".into(), "pu".into(), "su".into(), "t".into(), "m".into(), vec![], vec![]);
    p.specs = vec![spec(2, Some("B")), spec(0, Some("A")), spec(2, None), spec(1, Some("B"))];
    finish_specs(&mut p);
    let ids: Vec<usize> = p.specs.iter().map(|s| s.block_id).collect();
    assert_eq!(ids, vec![0, 1, 2, 2]);
    assert_eq!(p.specs[2].model.as_deref(), Some("B"));
    assert_eq!(p.variants, vec!["A".to_string(), "B".to_string()]);
    assert_eq!(p.warnings.last().unwrap(), "部分區塊未能唯一對應型號，保留於未分配規格；未複製到各型號");
}

#[test]
fn failed_labelling_keeps_the_sources() {
    let mut j = job();
    let mut p = Product::start("iphone".into(), "n".into(), "pu".into(), "su".into(), "t".into(), "m".into(), vec![], vec![]);
    let batch = vec![block(0, "容量", "256GB")];
    assert!(apply_annotation(&mut j, &mut p, &batch, Err("down".into()), false, "su").is_ok());
    assert_eq!(p.specs.len(), 1);
    assert_eq!(p.specs[0].status, "llm_failed");
    assert_eq!(j.issues.last().unwrap().stage, "LLM");
    assert_eq!(p.warnings.last().unwrap(), "down");
    assert_eq!(apply_annotation(&mut j, &mut p, &batch, Err("cancelled".into()), true, "su").unwrap_err(), "cancelled");
    assert!(apply_annotation(&mut j, &mut p, &batch, Ok((vec![spec(0, None)], 2, 30)), false, "su").is_ok());
    assert_eq!(p.llm_calls, 2);
    assert_eq!(p.llm_ms, 30);
    assert_eq!(llm_phase("iPhone", 0, 3), "LLM 整理 iPhone（1/3）");
}

#[test]
fn apple_crawler_finds_specification_pages() {
    let c = AppleTaiwanCrawler;
    assert_eq!(c.entry_url("mac"), "https://www.apple.com/tw/mac/");
    assert_eq!(c.robots_url(), "https://www.apple.com/robots.txt");
    let listing = "<a href='/tw/macbook-air/'>a</a><a href='/tw/iphone-17/'>i</a><a href='/tw/imac/'>m</a><a href='/tw/mac/compare/'>c</a>";
    assert_eq!(
        c.candidates(listing, "https://www.apple.com/tw/mac/", "mac"),
        vec!["https://www.apple.com/tw/imac/".to_string(), "https://www.apple.com/tw/macbook-air/".to_string()]
    );
    let mut cand = cand("mac", "https://www.apple.com/tw/imac/", None);
    let page = "<a href='/tw/imac/why-mac/'>w</a><a href='/tw/imac/specs/'>s</a><a class='ac-ln-button' href='/tw/shop/buy-mac/imac'>購買</a>";
    c.resolve(page, &mut cand);
    assert_eq!(cand.specs_url.as_deref(), Some("https://www.apple.com/tw/imac/specs/"));
    assert_eq!(cand.buy_url.as_deref(), Some("https://www.apple.com/tw/shop/buy-mac/imac"));
    let mut other = Candidate { url: "https://www.apple.com/tw/airpods-pro/".into(), ..cand.clone() };
    c.resolve("<a href='/tw/airpods-pro/tech-specs/'>t</a>", &mut other);
    assert_eq!(other.specs_url.as_deref(), Some("https://www.apple.com/tw/airpods-pro/tech-specs/"));
    assert!(other.buy_url.is_none());
    assert_eq!(c.name("<h1>iMac 技術規格</h1>"), "iMac");
    assert!(c.price("<p>x</p>", "u").is_none());
    assert_eq!(c.plain("<main><p>a</p></main>"), "a");
    assert!(c.blocks("<p>x</p>").is_empty());
}

#[test]
fn prices_come_from_the_product_page_first_then_the_buy_page() {
    let buy = Some("https://www.apple.com/tw/shop/buy-iphone/x".to_string());
    match price_source(vec![price(44900, "Pro")], &buy) {
        PriceSource::Known(ps) => assert_eq!(ps[0].source_name, "Pro"),
        PriceSource::Fetch(_) => panic!("the product page's price is used"),
    }
    match price_source(vec![], &buy) {
        PriceSource::Fetch(u) => assert_eq!(u, "https://www.apple.com/tw/shop/buy-iphone/x"),
        PriceSource::Known(_) => panic!("the buy page is fetched"),
    }
    match price_source(vec![], &None) {
        PriceSource::Known(ps) => assert!(ps.is_empty()),
        PriceSource::Fetch(_) => panic!("nothing to fetch"),
    }
    let mut j = job();
    let got = j.note_price_fetch("b", Ok(vec![price(1, "A")]));
    assert_eq!(got.len(), 1);
    assert!(j.issues.is_empty());
    let none = j.note_price_fetch("b", Err("timeout".into()));
    assert!(none.is_empty());
    assert_eq!(j.issues.len(), 1);
    assert_eq!((j.issues[0].url.as_str(), j.issues[0].stage.as_str(), j.issues[0].message.as_str()), ("b", "售價", "timeout"));
}

#[test]
fn pages_without_blocks_fail_extraction() {
    assert_eq!(readable_blocks(vec![]).unwrap_err(), "HTML 無可讀規格；可能需要瀏覽器或解析器更新");
    assert_eq!(readable_blocks(vec![block(0, "s", "t")]).unwrap().len(), 1);
}

#[test]
fn extraction_attempts_are_counted_and_recorded() {
    let mut j = job();
    let only = Job::with_identity("job-2".into(), "t0".into(), Settings::default(), RunOptions { discovery_only: true, products_per_category: 1 });
    let mut d = only;
    assert!(!d.start_extraction());
    assert_eq!(d.phase, Job::with_identity("job-2".into(), "t0".into(), Settings::default(), RunOptions::default()).phase);
    assert!(j.start_extraction());
    assert_eq!(j.phase, "抽取產品規格");
    assert_eq!(j.begin_extraction(), 1);
    let p = Product::start("iphone".into(), "n".into(), "pu".into(), "su".into(), "t".into(), "m".into(), vec![], vec![]);
    j.record_extraction(Ok(p), "su");
    assert_eq!(j.begin_extraction(), 2);
    j.record_extraction(Err("boom".into()), "su2");
    assert_eq!((j.processed, j.succeeded, j.failed), (2, 1, 1));
    assert_eq!(j.products.len(), 1);
    assert_eq!(j.issues.len(), 1);
    assert_eq!((j.issues[0].url.as_str(), j.issues[0].stage.as_str(), j.issues[0].message.as_str()), ("su2", "抽取", "boom"));
}

#[test]
fn discovery_ends_with_candidates_in_rounds_and_counted() {
    let mut j = job();
    add_candidates(&mut j.candidates, "mac", vec!["m1".into(), "m2".into()]);
    add_candidates(&mut j.candidates, "iphone", vec!["i1".into(), "m1".into(), "i2".into()]);
    j.settle_candidates();
    let urls: Vec<&str> = j.candidates.iter().map(|c| c.url.as_str()).collect();
    assert_eq!(urls, vec!["i1", "m1", "i2", "m2"]);
    assert_eq!(j.discovered, 4);
}

#[test]
fn an_extraction_records_each_block_once_in_order() {
    let blocks = vec![block(0, "容量", "256GB"), block(1, "註腳與限制", "依使用情況而異"), block(2, "電池", "20 小時")];
    let mut j = job();
    let mut p = Product::start("iphone".into(), "n".into(), "pu".into(), "su".into(), "t".into(), "m".into(), vec![], blocks.clone());
    let (_, body) = split_footnotes(&p.blocks);
    let bs = batches(&body);
    assert_eq!(bs.len(), 1);
    let output = vec![
        Annotation { block_id: 2, label: "電池".into(), model: None, conditions: None },
        Annotation { block_id: 0, label: "容量".into(), model: None, conditions: None },
    ];
    let labelled = validate(Ok(output), &bs[0]).unwrap();
    assert!(apply_annotation(&mut j, &mut p, &bs[0], Ok((labelled, 1, 5)), false, "su").is_ok());
    finish_specs(&mut p);
    assert_eq!(p.specs.len(), blocks.len());
    for (i, s) in p.specs.iter().enumerate() {
        assert_eq!(s.block_id, i);
        assert_eq!(s.value, blocks[i].text);
        assert_eq!(s.evidence, s.value);
    }
    assert_eq!(p.specs[1].status, "source_only");
}

#[test]
fn job_ids_are_hyphenated_uuids() {
    let id = open_job(Settings::default(), RunOptions::default()).unwrap().id;
    assert_eq!(id.chars().count(), 36);
    for (i, c) in id.chars().enumerate() {
        if [8, 13, 18, 23].contains(&i) {
            assert_eq!(c, '-');
        } else {
            assert!(c.is_ascii_digit() || ('a'..='f').contains(&c));
        }
    }
}

#[test]
fn only_jobs_that_extract_need_the_model_and_counts_agree() {
    let mut j = job();
    assert!(j.needs_model());
    assert_eq!((j.processed, j.succeeded, j.failed, j.products.len()), (0, 0, 0, 0));
    let d = Job::with_identity("job-3".into(), "t0".into(), Settings::default(), RunOptions { discovery_only: true, products_per_category: 0 });
    assert!(!d.needs_model());
    for ok in [true, false, true] {
        j.begin_extraction();
        let result = if ok {
            Ok(Product::start("iphone".into(), "n".into(), "pu".into(), "su".into(), "t".into(), "m".into(), vec![], vec![]))
        } else {
            Err("boom".to_string())
        };
        j.record_extraction(result, "su");
        assert_eq!(j.processed, j.succeeded + j.failed);
        assert_eq!(j.products.len(), j.succeeded);
    }
    assert_eq!((j.processed, j.succeeded, j.failed), (3, 2, 1));
}
