//! Assembling a product record around the model's labels: what is copied from the page,
//! what is kept source-only, and what the record warns about.
use vstd::prelude::*;
use crate::apple::{char_views, lowest, sort_dedup, strictly_sorted, string_views};
use crate::jsonld::{opt_price_view, price_views};
use crate::decimal::dec_lt_exec;
use crate::llm::{annotated, Annotation, block_ids, flatten, block_index, labels_of, law_validated_labels_each_block, lemma_block_index, lemma_first_error_none, fallback, fallback_of, ids_distinct, ids_increasing, lemma_sort_elements, lemma_sort_increasing, sort_by_block, stable_sort_by_block};
use crate::models::{copy_opt, Block, Job, Price, Product, Specification};
use crate::text::{push_decimal, push_str, str_chars, str_eq, string_from_chars};

verus! {

/// The section that holds footnotes and limitations; its blocks are kept as source text only.
pub open spec fn is_footnote(b: Block) -> bool {
    b.section@ == "註腳與限制"@
}

/// The footnote blocks, in order.
pub open spec fn footnote_blocks(bs: Seq<Block>) -> Seq<Block>
    decreases bs.len(),
{
    if bs.len() == 0 {
        Seq::empty()
    } else {
        footnote_blocks(bs.drop_last()) + (if is_footnote(bs.last()) {
            seq![bs.last()]
        } else {
            Seq::empty()
        })
    }
}

/// The blocks the model labels: all but the footnotes, in order.
pub open spec fn body_blocks(bs: Seq<Block>) -> Seq<Block>
    decreases bs.len(),
{
    if bs.len() == 0 {
        Seq::empty()
    } else {
        body_blocks(bs.drop_last()) + (if is_footnote(bs.last()) {
            Seq::empty()
        } else {
            seq![bs.last()]
        })
    }
}

/// A footnote kept as it stands: like the record of a block the model could not label, but
/// marked `source_only`.
pub open spec fn source_only_of(b: Block, s: Specification) -> bool {
    &&& s.block_id == b.id
    &&& s.section@ == b.section@
    &&& s.label@ == b.section@
    &&& s.value@ == b.text@
    &&& s.model == b.model_hint
    &&& s.conditions is None
    &&& s.evidence@ == b.text@
    &&& s.status@ == "source_only"@
}

/// Splits the blocks into footnotes and the blocks the model labels.
pub fn split_footnotes(blocks: &Vec<Block>) -> (r: (Vec<Block>, Vec<Block>))
    ensures
        r.0@ == footnote_blocks(blocks@),
        r.1@ == body_blocks(blocks@),
{
    let mut notes: Vec<Block> = Vec::new();
    let mut body: Vec<Block> = Vec::new();
    let mut i: usize = 0;
    while i < blocks.len()
        invariant
            i <= blocks@.len(),
            notes@ == footnote_blocks(blocks@.take(i as int)),
            body@ == body_blocks(blocks@.take(i as int)),
        decreases blocks.len() - i,
    {
        proof {
            assert(blocks@.take(i + 1).drop_last() =~= blocks@.take(i as int));
        }
        let b = blocks[i].duplicate();
        if str_eq(b.section.as_str(), "註腳與限制") {
            notes.push(b);
        } else {
            body.push(b);
        }
        i += 1;
        proof {
            assert(notes@ =~= footnote_blocks(blocks@.take(i as int)));
            assert(body@ =~= body_blocks(blocks@.take(i as int)));
        }
    }
    proof {
        assert(blocks@.take(blocks@.len() as int) =~= blocks@);
    }
    (notes, body)
}

/// An identical copy of a price.
pub fn copy_price(p: &Price) -> (r: Price)
    ensures
        r == *p,
{
    Price {
        amount: p.amount.clone(),
        currency: p.currency.clone(),
        source_url: p.source_url.clone(),
        source_name: p.source_name.clone(),
        evidence: p.evidence.clone(),
        scope: p.scope.clone(),
    }
}

/// The cheapest of the prices, the first one on a tie.
pub fn lowest_price(prices: &Vec<Price>) -> (r: Option<Price>)
    ensures
        opt_price_view(r) == lowest(price_views(prices@)),
{
    let ghost pv = price_views(prices@);
    if prices.len() == 0 {
        return None;
    }
    let mut best: usize = 0;
    let mut i: usize = 1;
    proof {
        assert(pv.take(1).drop_last() =~= Seq::new(0, |k: int| pv[k]));
        assert(lowest(pv.take(1).drop_last()) is None);
        assert(pv.take(1).last() == pv[0]);
    }
    while i < prices.len()
        invariant
            pv == price_views(prices@),
            1 <= i <= prices@.len(),
            best < i,
            lowest(pv.take(i as int)) == Some(pv[best as int]),
        decreases prices.len() - i,
    {
        proof {
            assert(pv.take(i + 1).drop_last() =~= pv.take(i as int));
        }
        if dec_lt_exec(prices[i].amount.as_str(), prices[best].amount.as_str()) {
            best = i;
        }
        i += 1;
    }
    proof {
        assert(pv.take(prices@.len() as int) =~= pv);
    }
    Some(copy_price(&prices[best]))
}

/// The warning of a product without a verifiable price.
pub open spec fn no_price_warning() -> Seq<char> {
    "未取得可驗證的 TWD 起售價；不使用分期、折抵或模型猜測"@
}

/// The warning of a product with specifications not tied to one model.
pub open spec fn shared_warning() -> Seq<char> {
    "部分區塊未能唯一對應型號，保留於未分配規格；未複製到各型號"@
}

impl Product {
    /// A product before the model's labels: its page prices (the cheapest as its starting
    /// price), its blocks, and its footnotes kept as source-only specifications.
    pub fn start(
        category: String,
        name: String,
        product_url: String,
        specs_url: String,
        fetched_at: String,
        model: String,
        prices: Vec<Price>,
        blocks: Vec<Block>,
    ) -> (p: Product)
        ensures
            p.category == category,
            p.name == name,
            p.product_url == product_url,
            p.specs_url == specs_url,
            p.fetched_at == fetched_at,
            p.model == model,
            p.variants@.len() == 0,
            p.model_prices == prices,
            opt_price_view(p.starting_price) == lowest(price_views(prices@)),
            p.blocks == blocks,
            p.llm_calls == 0,
            p.llm_ms == 0,
            p.specs@.len() == footnote_blocks(blocks@).len(),
            forall|i: int| 0 <= i < p.specs@.len() ==> source_only_of(footnote_blocks(blocks@)[i], #[trigger] p.specs@[i]),
            p.starting_price is None ==> p.warnings@.len() == 1 && p.warnings@[0]@ == no_price_warning(),
            p.starting_price is Some ==> p.warnings@.len() == 0,
    {
        let starting_price = lowest_price(&prices);
        let mut warnings: Vec<String> = Vec::new();
        if starting_price.is_none() {
            warnings.push(String::from_str("未取得可驗證的 TWD 起售價；不使用分期、折抵或模型猜測"));
        }
        let (notes, _body) = split_footnotes(&blocks);
        let fb = fallback(notes.as_slice());
        let mut specs: Vec<Specification> = Vec::new();
        let mut i: usize = 0;
        while i < fb.len()
            invariant
                i <= fb@.len(),
                fb@.len() == notes@.len(),
                notes@ == footnote_blocks(blocks@),
                specs@.len() == i,
                forall|k: int| 0 <= k < notes@.len() ==> fallback_of(notes@[k], #[trigger] fb@[k]),
                forall|k: int| 0 <= k < i ==> source_only_of(notes@[k], #[trigger] specs@[k]),
            decreases fb.len() - i,
        {
            let f = &fb[i];
            proof {
                assert(fallback_of(notes@[i as int], fb@[i as int]));
            }
            specs.push(Specification {
                block_id: f.block_id,
                section: f.section.clone(),
                label: f.label.clone(),
                value: f.value.clone(),
                model: copy_opt(&f.model),
                conditions: copy_opt(&f.conditions),
                evidence: f.evidence.clone(),
                status: String::from_str("source_only"),
            });
            i += 1;
        }
        Product {
            category,
            name,
            product_url,
            specs_url,
            fetched_at,
            model,
            variants: Vec::new(),
            starting_price,
            model_prices: prices,
            specs,
            blocks,
            llm_calls: 0,
            llm_ms: 0,
            warnings,
        }
    }
}

/// The models named by specifications, in order, with repetitions.
pub open spec fn named_models(specs: Seq<Specification>) -> Seq<Seq<char>>
    decreases specs.len(),
{
    if specs.len() == 0 {
        Seq::empty()
    } else {
        named_models(specs.drop_last()) + match specs.last().model {
            Some(m) => seq![m@],
            None => Seq::empty(),
        }
    }
}

/// Some specification is tied to no model.
pub open spec fn has_shared(specs: Seq<Specification>) -> bool {
    exists|i: int| 0 <= i < specs.len() && (#[trigger] specs[i]).model is None
}

/// Every field but the specifications, variants and warnings is as before.
pub open spec fn same_record(a: Product, b: Product) -> bool {
    &&& a.category == b.category
    &&& a.name == b.name
    &&& a.product_url == b.product_url
    &&& a.specs_url == b.specs_url
    &&& a.fetched_at == b.fetched_at
    &&& a.model == b.model
    &&& a.starting_price == b.starting_price
    &&& a.model_prices == b.model_prices
    &&& a.blocks == b.blocks
}

/// Completes a product after labelling: specifications in block order (stable), the distinct
/// models as sorted variants, and a warning when some specification belongs to no single model.
pub fn finish_specs(product: &mut Product)
    ensures
        final(product).specs@ == stable_sort_by_block(old(product).specs@),
        strictly_sorted(string_views(final(product).variants@)),
        forall|y: Seq<char>| #[trigger] string_views(final(product).variants@).contains(y) <==> named_models(old(product).specs@).contains(y),
        has_shared(old(product).specs@) ==> final(product).warnings@ == old(product).warnings@.push(final(product).warnings@.last())
            && final(product).warnings@.last()@ == shared_warning(),
        !has_shared(old(product).specs@) ==> final(product).warnings == old(product).warnings,
        same_record(*old(product), *final(product)),
        final(product).llm_calls == old(product).llm_calls,
        final(product).llm_ms == old(product).llm_ms,
{
    let ghost sv = product.specs@;
    let mut models: Vec<Vec<char>> = Vec::new();
    let mut shared = false;
    let mut i: usize = 0;
    proof {
        assert(sv.take(0) =~= Seq::<Specification>::empty());
    }
    while i < product.specs.len()
        invariant
            i <= sv.len(),
            sv == product.specs@,
            char_views(models@) == named_models(sv.take(i as int)),
            shared == (exists|k: int| 0 <= k < i && (#[trigger] sv[k]).model is None),
        decreases product.specs.len() - i,
    {
        proof {
            assert(sv.take(i + 1).drop_last() =~= sv.take(i as int));
            assert(sv.take(i + 1).last() == sv[i as int]);
        }
        let ghost before = char_views(models@);
        match &product.specs[i].model {
            Some(m) => {
                models.push(str_chars(m.as_str()));
                proof {
                    assert(char_views(models@) =~= before.push(m@));
                }
            },
            None => {
                shared = true;
                proof {
                    assert(char_views(models@) =~= before + Seq::<Seq<char>>::empty());
                }
            },
        }
        i += 1;
    }
    proof {
        assert(sv.take(sv.len() as int) =~= sv);
    }
    let sorted = sort_dedup(&models);
    let mut variants: Vec<String> = Vec::new();
    let mut j: usize = 0;
    while j < sorted.len()
        invariant
            j <= sorted@.len(),
            string_views(variants@) == char_views(sorted@).take(j as int),
        decreases sorted.len() - j,
    {
        let ghost prev = variants@;
        let v = string_from_chars(sorted[j].as_slice());
        variants.push(v);
        j += 1;
        proof {
            assert(string_views(variants@) =~= string_views(prev).push(v@));
            assert(string_views(variants@) =~= char_views(sorted@).take(j as int));
        }
    }
    proof {
        let vv = string_views(variants@);
        let nm = named_models(sv);
        assert(vv =~= char_views(sorted@));
        assert forall|y: Seq<char>| #[trigger] vv.contains(y) <==> nm.contains(y) by {
            if vv.contains(y) {
                let k = choose|k: int| 0 <= k < vv.len() && vv[k] == y;
                assert(char_views(models@).contains(char_views(sorted@)[k]));
            }
            if nm.contains(y) {
                let k = choose|k: int| 0 <= k < nm.len() && nm[k] == y;
                assert(char_views(sorted@).contains(char_views(models@)[k]));
            }
        }
    }
    product.specs = sort_by_block(&product.specs);
    product.variants = variants;
    if shared {
        let ghost before = product.warnings@;
        product.warnings.push(String::from_str("部分區塊未能唯一對應型號，保留於未分配規格；未複製到各型號"));
        proof {
            assert(product.warnings@.drop_last() =~= before);
        }
    }
}

/// The phase shown while the model labels batch `i` of `total` of a product.
pub open spec fn llm_phase_spec(name: Seq<char>, i: nat, total: nat) -> Seq<char> {
    "LLM 整理 "@ + name + "（"@ + crate::text::decimal_spec(i + 1) + "/"@ + crate::text::decimal_spec(total) + "）"@
}

/// The phase text while batch `i` (counted from 0) of `total` is labelled.
pub fn llm_phase(name: &str, i: usize, total: usize) -> (r: String)
    requires
        i < total,
    ensures
        r@ == llm_phase_spec(name@, i as nat, total as nat),
{
    let mut v: Vec<char> = Vec::new();
    push_str(&mut v, "LLM 整理 ");
    push_str(&mut v, name);
    push_str(&mut v, "（");
    push_decimal(&mut v, (i + 1) as u64);
    push_str(&mut v, "/");
    push_decimal(&mut v, total as u64);
    push_str(&mut v, "）");
    string_from_chars(v.as_slice())
}

/// Takes in what labelling one batch gave. Labels add their specifications and the calls and
/// time they took; a failure is recorded as an issue of stage `LLM` and a warning, and the
/// batch is kept as `llm_failed` specifications; a failure after cancellation ends the
/// extraction with that error, changing nothing.
pub fn apply_annotation(
    job: &mut Job,
    product: &mut Product,
    batch: &Vec<Block>,
    outcome: Result<(Vec<Specification>, usize, u128), String>,
    cancelled: bool,
    specs_url: &str,
) -> (r: Result<(), String>)
    requires
        match outcome {
            Ok(x) => old(product).llm_calls + x.1 <= usize::MAX && old(product).llm_ms + x.2 <= u128::MAX,
            Err(_) => true,
        },
    ensures
        match outcome {
            Ok(x) => r is Ok
                && final(product).specs@ == old(product).specs@ + x.0@
                && final(product).llm_calls == old(product).llm_calls + x.1
                && final(product).llm_ms == old(product).llm_ms + x.2
                && final(product).warnings == old(product).warnings
                && *final(job) == *old(job),
            Err(e) => if cancelled {
                r == Err::<(), String>(e) && *final(job) == *old(job) && *final(product) == *old(product)
            } else {
                &&& r is Ok
                &&& final(job).issues@ == old(job).issues@.push(final(job).issues@.last())
                &&& final(job).issues@.last().url@ == specs_url@
                &&& final(job).issues@.last().stage@ == "LLM"@
                &&& final(job).issues@.last().message@ == e@
                &&& final(product).warnings@ == old(product).warnings@.push(e)
                &&& final(product).specs@.len() == old(product).specs@.len() + batch@.len()
                &&& final(product).specs@.take(old(product).specs@.len() as int) == old(product).specs@
                &&& forall|i: int| 0 <= i < batch@.len() ==> fallback_of(batch@[i], #[trigger] final(product).specs@[old(product).specs@.len() + i])
                &&& final(product).llm_calls == old(product).llm_calls
                &&& final(product).llm_ms == old(product).llm_ms
            },
        },
        same_record(*old(product), *final(product)),
        final(product).variants == old(product).variants,
        crate::pipeline::same_work(*old(job), *final(job)),
        final(job).pages == old(job).pages,
        final(job).status == old(job).status,
        final(job).phase == old(job).phase,
{
    match outcome {
        Ok((specs, calls, ms)) => {
            let mut specs = specs;
            product.specs.append(&mut specs);
            product.llm_calls = product.llm_calls + calls;
            product.llm_ms = product.llm_ms + ms;
            Ok(())
        },
        Err(e) => {
            if cancelled {
                return Err(e);
            }
            job.issue(specs_url, "LLM", e.as_str());
            let ghost before = product.specs@;
            let mut fb = fallback(batch.as_slice());
            let ghost fv = fb@;
            product.specs.append(&mut fb);
            product.warnings.push(e);
            proof {
                assert(job.issues@ =~= old(job).issues@.push(job.issues@.last()));
                assert(product.specs@ == before + fv);
                assert(product.specs@.take(before.len() as int) =~= before);
                assert forall|i: int| 0 <= i < batch@.len() implies fallback_of(batch@[i], #[trigger] product.specs@[before.len() + i]) by {
                    assert(product.specs@[before.len() + i] == fv[i]);
                }
            }
            Ok(())
        },
    }
}

/// A specification that records block `b` as the source gives it: the block's identifier,
/// its text as value and evidence, and, for a footnote, the `source_only` status.
pub open spec fn records_block(s: Specification, b: Block) -> bool {
    &&& s.block_id == b.id
    &&& s.value@ == b.text@
    &&& s.evidence@ == b.text@
    &&& is_footnote(b) ==> s.status@ == "source_only"@
}

/// Specifications that record each of the numbered blocks exactly once, in any order.
pub open spec fn covers(specs: Seq<Specification>, blocks: Seq<Block>) -> bool {
    &&& specs.len() == blocks.len()
    &&& ids_distinct(specs)
    &&& forall|k: int| 0 <= k < specs.len() ==> (#[trigger] specs[k]).block_id < blocks.len()
        && records_block(specs[k], blocks[specs[k].block_id as int])
}

proof fn lemma_increasing_below(r: Seq<Specification>, n: int)
    requires
        ids_increasing(r),
        r.len() == n,
        forall|i: int| 0 <= i < n ==> (#[trigger] r[i]).block_id < n,
    ensures
        forall|i: int| 0 <= i < n ==> (#[trigger] r[i]).block_id == i,
{
    assert forall|i: int| 0 <= i < n implies (#[trigger] r[i]).block_id >= i by {
        lemma_increasing_from(r, i);
    }
    assert forall|i: int| 0 <= i < n implies (#[trigger] r[i]).block_id <= i by {
        lemma_increasing_to(r, n, i);
    }
}

proof fn lemma_increasing_from(r: Seq<Specification>, i: int)
    requires
        ids_increasing(r),
        0 <= i < r.len(),
    ensures
        r[i].block_id >= i,
    decreases i,
{
    if i > 0 {
        lemma_increasing_from(r, i - 1);
        assert(r[i - 1].block_id < r[i].block_id);
    }
}

proof fn lemma_increasing_to(r: Seq<Specification>, n: int, i: int)
    requires
        ids_increasing(r),
        r.len() == n,
        forall|k: int| 0 <= k < n ==> (#[trigger] r[k]).block_id < n,
        0 <= i < n,
    ensures
        r[i].block_id <= i,
    decreases n - i,
{
    if i < n - 1 {
        lemma_increasing_to(r, n, i + 1);
        assert(r[i].block_id < r[i + 1].block_id);
    }
}

/// An extraction's specifications in the end: when those gathered record every block of the
/// page once (footnotes as `source_only`), putting them in block order (as [`finish_specs`]
/// does) gives one specification per block, the `i`-th recording block `i`, whose text is
/// its value and evidence.
pub proof fn law_specs_follow_blocks(specs: Seq<Specification>, blocks: Seq<Block>)
    requires
        forall|i: int| 0 <= i < blocks.len() ==> (#[trigger] blocks[i]).id == i,
        covers(specs, blocks),
    ensures
        stable_sort_by_block(specs).len() == blocks.len(),
        forall|i: int| 0 <= i < blocks.len() ==> records_block(#[trigger] stable_sort_by_block(specs)[i], blocks[i]),
{
    let r = stable_sort_by_block(specs);
    lemma_sort_increasing(specs);
    lemma_sort_elements(specs);
    assert forall|i: int| 0 <= i < r.len() implies (#[trigger] r[i]).block_id < blocks.len()
        && records_block(r[i], blocks[r[i].block_id as int]) by {
        let k = choose|k: int| 0 <= k < specs.len() && specs[k] == r[i];
        assert(specs[k].block_id < blocks.len());
    }
    lemma_increasing_below(r, blocks.len() as int);
}

/// The specifications of all batches in order.
pub open spec fn all_specs(ls: Seq<Seq<Specification>>) -> Seq<Specification>
    decreases ls.len(),
{
    if ls.len() == 0 {
        Seq::empty()
    } else {
        all_specs(ls.drop_last()) + ls.last()
    }
}

/// Some block of the batch is the one the specification records.
pub open spec fn recorded_in(s: Specification, batch: Seq<Block>) -> bool {
    exists|j: int| 0 <= j < batch.len() && records_block(s, #[trigger] batch[j])
}

/// Some specification has the block's identifier.
pub open spec fn labelled_in(b: Block, specs: Seq<Specification>) -> bool {
    exists|m: int| 0 <= m < specs.len() && (#[trigger] specs[m]).block_id == b.id
}

/// Specifications that `validate` accepted as the labels of the batch's blocks, for some
/// model output.
#[verifier::opaque]
pub open spec fn validated(specs: Seq<Specification>, batch: Seq<Block>) -> bool {
    exists|anns: Seq<Annotation>| #[trigger] labels_of(Ok::<Seq<Annotation>, Seq<char>>(anns), batch, specs)
}

/// What labelling a batch adds to a product: the validated labels of its blocks, or, when
/// labelling failed, their `llm_failed` records.
pub open spec fn batch_result(specs: Seq<Specification>, batch: Seq<Block>) -> bool {
    ||| validated(specs, batch)
    ||| specs.len() == batch.len() && forall|i: int| 0 <= i < batch.len() ==> fallback_of(batch[i], #[trigger] specs[i])
}

proof fn lemma_validated_batch(anns: Seq<Annotation>, specs: Seq<Specification>, batch: Seq<Block>)
    requires
        labels_of(Ok::<Seq<Annotation>, Seq<char>>(anns), batch, specs),
        block_ids(batch).no_duplicates(),
        forall|j: int| 0 <= j < batch.len() ==> !is_footnote(#[trigger] batch[j]),
    ensures
        specs.len() == batch.len(),
        forall|m: int| 0 <= m < specs.len() ==> recorded_in(#[trigger] specs[m], batch),
        forall|j: int| 0 <= j < batch.len() ==> labelled_in(#[trigger] batch[j], specs),
{
    reveal(labels_of);
    let out = Ok::<Seq<Annotation>, Seq<char>>(anns);
    law_validated_labels_each_block(out, batch, specs);
    lemma_first_error_none(anns, batch, 0);
    assert forall|m: int| 0 <= m < specs.len() implies recorded_in(#[trigger] specs[m], batch) by {
        let k = choose|k: int| 0 <= k < anns.len() && annotated(
            anns[k],
            batch[block_index(batch, anns[k].block_id)],
            #[trigger] specs[m],
        );
        lemma_block_index(batch, anns[k].block_id);
        let j = block_index(batch, anns[k].block_id);
        assert(records_block(specs[m], batch[j]));
    }
}

proof fn lemma_fallback_batch(specs: Seq<Specification>, batch: Seq<Block>)
    requires
        specs.len() == batch.len(),
        forall|j: int| 0 <= j < batch.len() ==> !is_footnote(#[trigger] batch[j]),
        forall|i: int| 0 <= i < batch.len() ==> fallback_of(batch[i], #[trigger] specs[i]),
    ensures
        forall|m: int| 0 <= m < specs.len() ==> recorded_in(#[trigger] specs[m], batch),
        forall|j: int| 0 <= j < batch.len() ==> labelled_in(#[trigger] batch[j], specs),
{
    assert forall|m: int| 0 <= m < specs.len() implies recorded_in(#[trigger] specs[m], batch) by {
        assert(fallback_of(batch[m], specs[m]));
        assert(records_block(specs[m], batch[m]));
    }
    assert forall|j: int| 0 <= j < batch.len() implies labelled_in(#[trigger] batch[j], specs) by {
        assert(fallback_of(batch[j], specs[j]));
    }
}

proof fn lemma_batch_result(specs: Seq<Specification>, batch: Seq<Block>)
    requires
        batch_result(specs, batch),
        block_ids(batch).no_duplicates(),
        forall|j: int| 0 <= j < batch.len() ==> !is_footnote(#[trigger] batch[j]),
    ensures
        specs.len() == batch.len(),
        forall|m: int| 0 <= m < specs.len() ==> recorded_in(#[trigger] specs[m], batch),
        forall|j: int| 0 <= j < batch.len() ==> labelled_in(#[trigger] batch[j], specs),
{
    if validated(specs, batch) {
        reveal(validated);
        let anns = choose|anns: Seq<Annotation>| #[trigger] labels_of(Ok::<Seq<Annotation>, Seq<char>>(anns), batch, specs);
        lemma_validated_batch(anns, specs, batch);
    } else {
        lemma_fallback_batch(specs, batch);
    }
}

proof fn lemma_no_dup_parts(a: Seq<Block>, b: Seq<Block>)
    requires
        block_ids(a + b).no_duplicates(),
    ensures
        block_ids(a).no_duplicates(),
        block_ids(b).no_duplicates(),
{
    let ab = block_ids(a + b);
    assert forall|i: int, j: int| 0 <= i < block_ids(a).len() && 0 <= j < block_ids(a).len() && i != j
        implies block_ids(a)[i] != block_ids(a)[j] by {
        assert(ab[i] == block_ids(a)[i] && ab[j] == block_ids(a)[j]);
    }
    assert forall|i: int, j: int| 0 <= i < block_ids(b).len() && 0 <= j < block_ids(b).len() && i != j
        implies block_ids(b)[i] != block_ids(b)[j] by {
        assert(ab[a.len() + i] == block_ids(b)[i] && ab[a.len() + j] == block_ids(b)[j]);
    }
}

proof fn lemma_all_batches(labels: Seq<Seq<Specification>>, batches: Seq<Seq<Block>>)
    requires
        labels.len() == batches.len(),
        forall|k: int| 0 <= k < labels.len() ==> batch_result(#[trigger] labels[k], batches[k]),
        block_ids(flatten(batches)).no_duplicates(),
        forall|q: int| 0 <= q < flatten(batches).len() ==> !is_footnote(#[trigger] flatten(batches)[q]),
    ensures
        all_specs(labels).len() == flatten(batches).len(),
        forall|m: int| 0 <= m < all_specs(labels).len() ==> recorded_in(#[trigger] all_specs(labels)[m], flatten(batches)),
        forall|q: int| 0 <= q < flatten(batches).len() ==> labelled_in(#[trigger] flatten(batches)[q], all_specs(labels)),
    decreases labels.len(),
{
    if labels.len() > 0 {
        let (fl, fb) = (labels.drop_last(), batches.drop_last());
        let (l, bk) = (labels.last(), batches.last());
        let (f, b) = (all_specs(labels), flatten(batches));
        let (f0, b0) = (all_specs(fl), flatten(fb));
        assert(f == f0 + l);
        assert(b == b0 + bk);
        lemma_no_dup_parts(b0, bk);
        assert forall|q: int| 0 <= q < b0.len() implies !is_footnote(#[trigger] b0[q]) by {
            assert(b[q] == b0[q]);
        }
        assert forall|j: int| 0 <= j < bk.len() implies !is_footnote(#[trigger] bk[j]) by {
            assert(b[b0.len() + j] == bk[j]);
        }
        assert forall|k: int| 0 <= k < fl.len() implies batch_result(#[trigger] fl[k], fb[k]) by {
            assert(fl[k] == labels[k] && fb[k] == batches[k]);
        }
        assert(batch_result(labels[labels.len() - 1], batches[batches.len() - 1]));
        lemma_all_batches(fl, fb);
        lemma_batch_result(l, bk);
        assert forall|m: int| 0 <= m < f.len() implies recorded_in(#[trigger] f[m], b) by {
            if m < f0.len() {
                assert(f[m] == f0[m]);
                assert(recorded_in(f0[m], b0));
                let j = choose|j: int| 0 <= j < b0.len() && records_block(f0[m], #[trigger] b0[j]);
                assert(b[j] == b0[j]);
            } else {
                assert(f[m] == l[m - f0.len()]);
                assert(recorded_in(l[m - f0.len()], bk));
                let j = choose|j: int| 0 <= j < bk.len() && records_block(l[m - f0.len()], #[trigger] bk[j]);
                assert(b[b0.len() + j] == bk[j]);
            }
        }
        assert forall|q: int| 0 <= q < b.len() implies labelled_in(#[trigger] b[q], f) by {
            if q < b0.len() {
                assert(b[q] == b0[q]);
                assert(labelled_in(b0[q], f0));
                let m = choose|m: int| 0 <= m < f0.len() && (#[trigger] f0[m]).block_id == b0[q].id;
                assert(f[m] == f0[m]);
            } else {
                assert(b[q] == bk[q - b0.len()]);
                assert(labelled_in(bk[q - b0.len()], l));
                let m = choose|m: int| 0 <= m < l.len() && (#[trigger] l[m]).block_id == bk[q - b0.len()].id;
                assert(f[f0.len() + m] == l[m]);
            }
        }
    }
}

/// Some position of `bs` holds `b`.
pub open spec fn among(b: Block, bs: Seq<Block>) -> bool {
    exists|p: int| 0 <= p < bs.len() && #[trigger] bs[p] == b
}

proof fn lemma_parts(bs: Seq<Block>)
    requires
        forall|i: int| 0 <= i < bs.len() ==> (#[trigger] bs[i]).id == i,
    ensures
        footnote_blocks(bs).len() + body_blocks(bs).len() == bs.len(),
        forall|i: int| 0 <= i < footnote_blocks(bs).len() ==> among(#[trigger] footnote_blocks(bs)[i], bs) && is_footnote(footnote_blocks(bs)[i]),
        forall|q: int| 0 <= q < body_blocks(bs).len() ==> among(#[trigger] body_blocks(bs)[q], bs) && !is_footnote(body_blocks(bs)[q]),
        forall|p: int| 0 <= p < bs.len() ==> among(#[trigger] bs[p], footnote_blocks(bs)) || among(bs[p], body_blocks(bs)),
        forall|q1: int, q2: int| 0 <= q1 < q2 < body_blocks(bs).len() ==> (#[trigger] body_blocks(bs)[q1]).id < (#[trigger] body_blocks(bs)[q2]).id,
    decreases bs.len(),
{
    if bs.len() > 0 {
        let f = bs.drop_last();
        assert forall|i: int| 0 <= i < f.len() implies (#[trigger] f[i]).id == i by {
            assert(f[i] == bs[i]);
        }
        lemma_parts(f);
        let (n0, b0) = (footnote_blocks(f), body_blocks(f));
        let (n1, b1) = (footnote_blocks(bs), body_blocks(bs));
        let x = bs.last();
        assert(bs[bs.len() - 1] == x);
        assert forall|i: int| 0 <= i < n1.len() implies among(#[trigger] n1[i], bs) && is_footnote(n1[i]) by {
            if i < n0.len() {
                assert(n1[i] == n0[i]);
                let p = choose|p: int| 0 <= p < f.len() && #[trigger] f[p] == n0[i];
                assert(bs[p] == f[p]);
            }
        }
        assert forall|q: int| 0 <= q < b1.len() implies among(#[trigger] b1[q], bs) && !is_footnote(b1[q]) by {
            if q < b0.len() {
                assert(b1[q] == b0[q]);
                let p = choose|p: int| 0 <= p < f.len() && #[trigger] f[p] == b0[q];
                assert(bs[p] == f[p]);
            }
        }
        assert forall|p: int| 0 <= p < bs.len() implies among(#[trigger] bs[p], n1) || among(bs[p], b1) by {
            if p < f.len() {
                assert(bs[p] == f[p]);
                if among(f[p], n0) {
                    let i = choose|i: int| 0 <= i < n0.len() && #[trigger] n0[i] == f[p];
                    assert(n1[i] == n0[i]);
                } else {
                    let i = choose|i: int| 0 <= i < b0.len() && #[trigger] b0[i] == f[p];
                    assert(b1[i] == b0[i]);
                }
            } else if is_footnote(x) {
                assert(n1[n1.len() - 1] == x);
            } else {
                assert(b1[b1.len() - 1] == x);
            }
        }
        assert forall|q1: int, q2: int| 0 <= q1 < q2 < b1.len() implies (#[trigger] b1[q1]).id < (#[trigger] b1[q2]).id by {
            if q2 < b0.len() {
                assert(b1[q1] == b0[q1] && b1[q2] == b0[q2]);
            } else {
                assert(b1[q1] == b0[q1]);
                let p = choose|p: int| 0 <= p < f.len() && #[trigger] f[p] == b0[q1];
                assert(f[p].id == p);
                assert(b1[q2] == x);
            }
        }
    }
}

proof fn lemma_gathered_records(blocks: Seq<Block>, notes: Seq<Specification>, labels: Seq<Seq<Specification>>)
    requires
        forall|i: int| 0 <= i < blocks.len() ==> (#[trigger] blocks[i]).id == i,
        notes.len() == footnote_blocks(blocks).len(),
        forall|i: int| 0 <= i < notes.len() ==> source_only_of(footnote_blocks(blocks)[i], #[trigger] notes[i]),
        forall|i: int| 0 <= i < footnote_blocks(blocks).len() ==> among(#[trigger] footnote_blocks(blocks)[i], blocks),
        forall|q: int| 0 <= q < body_blocks(blocks).len() ==> among(#[trigger] body_blocks(blocks)[q], blocks),
        forall|m: int| 0 <= m < all_specs(labels).len() ==> recorded_in(#[trigger] all_specs(labels)[m], body_blocks(blocks)),
    ensures
        forall|m: int| 0 <= m < (notes + all_specs(labels)).len() ==> (#[trigger] (notes + all_specs(labels))[m]).block_id < blocks.len()
            && records_block((notes + all_specs(labels))[m], blocks[(notes + all_specs(labels))[m].block_id as int]),
{
    let sp = notes + all_specs(labels);
    let f = all_specs(labels);
    let (nb, bb) = (footnote_blocks(blocks), body_blocks(blocks));
    assert forall|m: int| 0 <= m < sp.len() implies (#[trigger] sp[m]).block_id < blocks.len()
        && records_block(sp[m], blocks[sp[m].block_id as int]) by {
        if m < notes.len() {
            assert(sp[m] == notes[m]);
            assert(source_only_of(nb[m], notes[m]));
            assert(among(nb[m], blocks));
            let p = choose|p: int| 0 <= p < blocks.len() && #[trigger] blocks[p] == nb[m];
            assert(blocks[p].id == p);
        } else {
            assert(sp[m] == f[m - notes.len()]);
            assert(recorded_in(f[m - notes.len()], bb));
            let j = choose|j: int| 0 <= j < bb.len() && records_block(f[m - notes.len()], #[trigger] bb[j]);
            assert(among(bb[j], blocks));
            let p = choose|p: int| 0 <= p < blocks.len() && #[trigger] blocks[p] == bb[j];
            assert(blocks[p].id == p);
        }
    }
}

proof fn lemma_gathered_distinct(blocks: Seq<Block>, notes: Seq<Specification>, labels: Seq<Seq<Specification>>)
    requires
        forall|i: int| 0 <= i < blocks.len() ==> (#[trigger] blocks[i]).id == i,
        (notes + all_specs(labels)).len() == blocks.len(),
        forall|m: int| 0 <= m < (notes + all_specs(labels)).len() ==> (#[trigger] (notes + all_specs(labels))[m]).block_id < blocks.len(),
        forall|p: int| 0 <= p < blocks.len() ==> labelled_in(#[trigger] blocks[p], notes + all_specs(labels)),
    ensures
        ids_distinct(notes + all_specs(labels)),
{
    broadcast use vstd::set::group_set_axioms, vstd::seq_lib::seq_to_set_is_finite;

    let sp = notes + all_specs(labels);
    let ids = sp.map_values(|s: Specification| s.block_id);
    let bids = block_ids(blocks);
    let a = ids.to_set();
    let r = bids.to_set();
    assert(bids.no_duplicates()) by {
        assert forall|i: int, j: int| 0 <= i < bids.len() && 0 <= j < bids.len() && i != j implies bids[i] != bids[j] by {
            assert(bids[i] == blocks[i].id && bids[j] == blocks[j].id);
        }
    }
    bids.unique_seq_to_set();
    assert forall|x: usize| r.contains(x) implies a.contains(x) by {
        let p = choose|p: int| 0 <= p < bids.len() && bids[p] == x;
        assert(bids[p] == blocks[p].id);
        assert(labelled_in(blocks[p], sp));
        let m = choose|m: int| 0 <= m < sp.len() && (#[trigger] sp[m]).block_id == blocks[p].id;
        assert(ids[m] == sp[m].block_id);
        assert(ids.contains(x));
    }
    vstd::set_lib::lemma_len_subset(r, a);
    ids.lemma_cardinality_of_set();
    ids.lemma_no_dup_set_cardinality();
    assert forall|i: int, j: int| 0 <= i < j < sp.len() implies (#[trigger] sp[i]).block_id != (#[trigger] sp[j]).block_id by {
        assert(ids[i] == sp[i].block_id && ids[j] == sp[j].block_id);
    }
}

/// A whole extraction: the footnotes kept as `source_only` records when the product starts,
/// then, batch by batch over the other blocks in order, the validated labels or the
/// `llm_failed` records of each batch; in block order (as [`finish_specs`] leaves them) these
/// are one specification per block of the page, the `i`-th recording block `i`: its
/// identifier, its text as value and evidence, and `source_only` for a footnote.
pub proof fn law_extraction_records_each_block(
    blocks: Seq<Block>,
    notes: Seq<Specification>,
    batches: Seq<Seq<Block>>,
    labels: Seq<Seq<Specification>>,
)
    requires
        forall|i: int| 0 <= i < blocks.len() ==> (#[trigger] blocks[i]).id == i,
        notes.len() == footnote_blocks(blocks).len(),
        forall|i: int| 0 <= i < notes.len() ==> source_only_of(footnote_blocks(blocks)[i], #[trigger] notes[i]),
        flatten(batches) == body_blocks(blocks),
        labels.len() == batches.len(),
        forall|k: int| 0 <= k < labels.len() ==> batch_result(#[trigger] labels[k], batches[k]),
    ensures
        covers(notes + all_specs(labels), blocks),
        stable_sort_by_block(notes + all_specs(labels)).len() == blocks.len(),
        forall|i: int| 0 <= i < blocks.len() ==> records_block(#[trigger] stable_sort_by_block(notes + all_specs(labels))[i], blocks[i]),
{
    let sp = notes + all_specs(labels);
    let f = all_specs(labels);
    let (nb, bb) = (footnote_blocks(blocks), body_blocks(blocks));
    lemma_parts(blocks);
    assert(block_ids(bb).no_duplicates()) by {
        assert forall|i: int, j: int| 0 <= i < block_ids(bb).len() && 0 <= j < block_ids(bb).len() && i != j
            implies block_ids(bb)[i] != block_ids(bb)[j] by {
            assert(block_ids(bb)[i] == bb[i].id && block_ids(bb)[j] == bb[j].id);
            if i < j {
                assert(bb[i].id < bb[j].id);
            } else {
                assert(bb[j].id < bb[i].id);
            }
        }
    }
    lemma_all_batches(labels, batches);
    lemma_gathered_records(blocks, notes, labels);
    assert forall|p: int| 0 <= p < blocks.len() implies labelled_in(#[trigger] blocks[p], sp) by {
        if among(blocks[p], nb) {
            let i = choose|i: int| 0 <= i < nb.len() && #[trigger] nb[i] == blocks[p];
            assert(source_only_of(nb[i], notes[i]));
            assert(sp[i] == notes[i]);
        } else {
            let q = choose|q: int| 0 <= q < bb.len() && #[trigger] bb[q] == blocks[p];
            assert(labelled_in(bb[q], f));
            let m = choose|m: int| 0 <= m < f.len() && (#[trigger] f[m]).block_id == bb[q].id;
            assert(sp[notes.len() + m] == f[m]);
        }
    }
    lemma_gathered_distinct(blocks, notes, labels);
    law_specs_follow_blocks(sp, blocks);
}

} // verus!
