use apple_specs::llm::{batches, fallback, model_list, validate, Annotation, LabelAction, LabelEvent, Labelling};
use apple_specs::models::Block;

fn block(id: usize, section: &str, hint: Option<&str>, text: &str) -> Block {
    Block {
        id,
        section: section.into(),
        model_hint: hint.map(|h| h.to_string()),
        context: String::new(),
        text: text.into(),
    }
}

fn ann(block_id: usize, label: &str, model: Option<&str>, conditions: Option<&str>) -> Annotation {
    Annotation {
        block_id,
        label: label.into(),
        model: model.map(|m| m.to_string()),
        conditions: conditions.map(|c| c.to_string()),
    }
}

fn sample() -> Vec<Block> {
    vec![
        block(0, "容量", Some("型號 A"), "256GB\n可選配：512GB"),
        block(1, "容量", Some("型號 B"), "512GB"),
        block(2, "電池", None, "最長可達 18 小時影片播放"),
    ]
}

#[test]
fn labels_cannot_invent_values_or_models() {
    let blocks = sample();
    let output = Ok(vec![
        ann(0, "容量", Some("假的型號"), Some("可選配：512GB")),
        ann(1, "容量", None, None),
        ann(2, "電池", Some("型號 A"), None),
    ]);
    let result = validate(output, &blocks).unwrap();
    assert_eq!(result[0].value, blocks[0].text);
    assert_eq!(result[0].evidence, blocks[0].text);
    assert_eq!(result[0].model.as_deref(), Some("型號 A"));
    assert_eq!(result[0].conditions.as_deref(), Some("可選配：512GB"));
    assert_eq!(result[0].status, "source_matched");
    assert_eq!(result[1].status, "source_matched");
    assert!(result[2].model.is_none());
    assert_eq!(result[2].status, "needs_review");
}

#[test]
fn replies_that_do_not_fit_are_refused() {
    let blocks = sample();
    assert_eq!(
        validate(Err("expected value at line 1 column 1".into()), &blocks).unwrap_err(),
        "JSON 結構錯誤: expected value at line 1 column 1"
    );
    assert_eq!(validate(Ok(vec![]), &blocks).unwrap_err(), "LLM 未回傳全部區塊");
    assert_eq!(validate(Ok(vec![ann(9, "a", None, None)]), &blocks[..1]).unwrap_err(), "未知 block_id");
    assert_eq!(
        validate(Ok(vec![ann(0, "a", None, None), ann(0, "b", None, None)]), &blocks[..2]).unwrap_err(),
        "重複 ID 或無效標籤"
    );
    assert_eq!(validate(Ok(vec![ann(0, "  ", None, None)]), &blocks[..1]).unwrap_err(), "重複 ID 或無效標籤");
    assert_eq!(validate(Ok(vec![ann(0, &"標".repeat(101), None, None)]), &blocks[..1]).unwrap_err(), "重複 ID 或無效標籤");
}

#[test]
fn labels_come_out_in_block_order() {
    let blocks = sample();
    let output = Ok(vec![ann(2, "c", None, None), ann(0, "a", None, None), ann(1, "b", None, None)]);
    let ids: Vec<usize> = validate(output, &blocks).unwrap().iter().map(|s| s.block_id).collect();
    assert_eq!(ids, vec![0, 1, 2]);
}

#[test]
fn invented_conditions_need_review() {
    let blocks = sample();
    let specs = validate(Ok(vec![ann(0, "容量", None, Some("無限容量"))]), &blocks[..1]).unwrap();
    assert!(specs[0].conditions.is_none());
    assert_eq!(specs[0].status, "needs_review");
}

#[test]
fn batches_and_fallback_preserve_every_block() {
    let blocks: Vec<Block> = (0..40).map(|i| block(i, "s", None, &"字".repeat(500))).collect();
    let bs = batches(&blocks);
    assert_eq!(bs.iter().map(Vec::len).sum::<usize>(), blocks.len());
    assert!(bs.iter().all(|b| b.len() <= 16));
    assert!(bs.iter().all(|b| b.iter().map(|x| x.text.chars().count()).sum::<usize>() <= 6500));
    assert_eq!(bs[0].len(), 13);
    let fb = fallback(&blocks);
    assert!(fb.iter().all(|s| s.status == "llm_failed"));
    for (s, b) in fb.iter().zip(&blocks) {
        assert_eq!(s.value, b.text);
        assert_eq!(s.label, b.section);
    }
}

#[test]
fn a_single_long_block_gets_its_own_batch() {
    let blocks = vec![block(0, "s", None, "a"), block(1, "s", None, &"b".repeat(7000)), block(2, "s", None, "c")];
    let bs = batches(&blocks);
    assert_eq!(bs.iter().map(Vec::len).collect::<Vec<_>>(), vec![1, 1, 1]);
}

#[test]
fn installed_model_names() {
    let v = r#"{"models":[{"name":"qwen2.5-coder:14b"},{"size":1},{"name":"llama3"}]}"#;
    assert_eq!(model_list(v).unwrap(), vec!["qwen2.5-coder:14b".to_string(), "llama3".to_string()]);
    assert_eq!(model_list(r#"{"data":[]}"#).unwrap_err(), "Ollama 模型清單格式錯誤");
    assert!(model_list("<html>").is_err());
}

#[test]
fn labelling_retries_then_repairs_then_fails() {
    let blocks = sample();
    let (mut l, a) = Labelling::begin();
    assert!(matches!(a, LabelAction::Request(ref s) if s.is_empty()));
    let a = l.step(&blocks, LabelEvent::Status { code: 503, text: "503 Service Unavailable".into() });
    assert!(matches!(a, LabelAction::Resend));
    let a = l.step(&blocks, LabelEvent::Status { code: 503, text: "503 Service Unavailable".into() });
    match a {
        LabelAction::Request(r) => assert_eq!(r, "上一輪輸出驗證失敗：Ollama HTTP 503 Service Unavailable。請修正並完整回傳所有 block_id。"),
        _ => panic!("expected a repair request"),
    }
    match l.step(&blocks, LabelEvent::Reply(Some(Err("expected value".into())))) {
        LabelAction::Fail(e) => assert_eq!(e, "上一輪輸出驗證失敗：JSON 結構錯誤: expected value。請修正並完整回傳所有 block_id。"),
        _ => panic!("expected failure"),
    }
    assert_eq!(l.calls, 3);
}

#[test]
fn labelling_accepts_a_valid_reply() {
    let blocks = sample();
    let (mut l, _) = Labelling::begin();
    let output = vec![ann(0, "容量", None, None), ann(1, "容量", None, None), ann(2, "電池", None, None)];
    match l.step(&blocks, LabelEvent::Reply(Some(Ok(output)))) {
        LabelAction::Labelled(specs) => assert_eq!(specs.len(), 3),
        _ => panic!("expected labels"),
    }
    assert_eq!(l.calls, 1);
    let (mut l, _) = Labelling::begin();
    assert!(matches!(l.step(&blocks, LabelEvent::Reply(None)), LabelAction::Fail(ref e) if e == "Ollama 未回傳 content"));
    let (mut l, _) = Labelling::begin();
    assert!(matches!(l.step(&blocks, LabelEvent::Status { code: 404, text: "404 Not Found".into() }), LabelAction::Request(_)));
}
