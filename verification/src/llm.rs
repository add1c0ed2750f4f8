//! The model only labels source blocks; values and evidence are copied from the blocks.
use vstd::prelude::*;
use crate::models::{copy_opt, Block, Specification};
use crate::text::str_chars;

verus! {

/// The source-preserving specification recorded for a block the model could not label.
pub open spec fn fallback_of(b: Block, s: Specification) -> bool {
    &&& s.block_id == b.id
    &&& s.section@ == b.section@
    &&& s.label@ == b.section@
    &&& s.value@ == b.text@
    &&& s.model == b.model_hint
    &&& s.conditions is None
    &&& s.evidence@ == b.text@
    &&& s.status@ == "llm_failed"@
}

/// One `llm_failed` specification per block, labelled with its section, value copied from its text.
pub fn fallback(blocks: &[Block]) -> (r: Vec<Specification>)
    ensures
        r@.len() == blocks@.len(),
        forall|i: int| 0 <= i < blocks@.len() ==> fallback_of(blocks@[i], #[trigger] r@[i]),
{
    let mut out: Vec<Specification> = Vec::new();
    let mut i: usize = 0;
    while i < blocks.len()
        invariant
            i <= blocks@.len(),
            out@.len() == i,
            forall|k: int| 0 <= k < i ==> fallback_of(blocks@[k], #[trigger] out@[k]),
        decreases blocks.len() - i,
    {
        let b = &blocks[i];
        out.push(Specification {
            block_id: b.id,
            section: b.section.clone(),
            label: b.section.clone(),
            value: b.text.clone(),
            model: copy_opt(&b.model_hint),
            conditions: None,
            evidence: b.text.clone(),
            status: String::from_str("llm_failed"),
        });
        i += 1;
    }
    out
}

/// Largest number of blocks sent to the model in one request.
pub open spec fn max_batch_blocks() -> nat {
    16
}

/// Largest number of characters sent in one request, unless a single block is longer.
pub open spec fn max_batch_chars() -> nat {
    6500
}

/// Total character count of the blocks' texts.
pub open spec fn chars_in(bs: Seq<Block>) -> nat
    decreases bs.len(),
{
    if bs.len() == 0 {
        0
    } else {
        chars_in(bs.drop_last()) + bs.last().text@.len()
    }
}

/// The blocks of all batches in order.
pub open spec fn flatten(bss: Seq<Seq<Block>>) -> Seq<Block>
    decreases bss.len(),
{
    if bss.len() == 0 {
        Seq::empty()
    } else {
        flatten(bss.drop_last()) + bss.last()
    }
}

/// Whether `b` still fits into `batch`.
pub open spec fn fits(batch: Seq<Block>, b: Block) -> bool {
    batch.len() < max_batch_blocks() && chars_in(batch) + b.text@.len() <= max_batch_chars()
}

/// The greedy batching: every batch is non-empty, within the limits (a lone oversized
/// block excepted), and the next batch's first block would not have fitted.
pub open spec fn greedy_batches(bss: Seq<Seq<Block>>) -> bool {
    &&& forall|k: int| 0 <= k < bss.len() ==> #[trigger] bss[k].len() > 0
    &&& forall|k: int| 0 <= k < bss.len() ==> #[trigger] bss[k].len() <= max_batch_blocks()
    &&& forall|k: int|
        0 <= k < bss.len() ==> #[trigger] bss[k].len() == 1 || chars_in(bss[k])
            <= max_batch_chars()
    &&& forall|k: int| 0 <= k < bss.len() - 1 ==> !fits(#[trigger] bss[k], bss[k + 1][0])
}

fn text_len(b: &Block) -> (n: usize)
    ensures
        n == b.text@.len(),
{
    str_chars(b.text.as_str()).len()
}

proof fn lemma_flatten_push(bss: Seq<Seq<Block>>, last: Seq<Block>, b: Block)
    ensures
        flatten(bss) + (last.push(b)) == flatten(bss) + last + seq![b],
{
    assert(flatten(bss) + (last.push(b)) =~= flatten(bss) + last + seq![b]);
}

/// Splits blocks, in order, into model requests of at most 16 blocks and about 6500 characters.
pub fn batches(blocks: &[Block]) -> (r: Vec<Vec<Block>>)
    ensures
        flatten(r@.map_values(|v: Vec<Block>| v@)) == blocks@,
        greedy_batches(r@.map_values(|v: Vec<Block>| v@)),
{
    let mut done: Vec<Vec<Block>> = Vec::new();
    let mut batch: Vec<Block> = Vec::new();
    let mut chars: usize = 0;
    let mut i: usize = 0;
    while i < blocks.len()
        invariant
            i <= blocks@.len(),
            chars as nat == if chars_in(batch@) > 6501 { 6501 } else { chars_in(batch@) },
            flatten(done@.map_values(|v: Vec<Block>| v@)) + batch@ == blocks@.take(i as int),
            greedy_batches(done@.map_values(|v: Vec<Block>| v@)),
            batch@.len() <= max_batch_blocks(),
            batch@.len() == 1 || chars_in(batch@) <= max_batch_chars(),
            done@.len() > 0 ==> batch@.len() > 0,
            done@.len() > 0 ==> !fits(done@.last()@, batch@[0]),
        decreases blocks.len() - i,
    {
        let b = blocks[i].duplicate();
        let n = text_len(&b);
        let ghost dv = done@.map_values(|v: Vec<Block>| v@);
        if batch.len() > 0 && (batch.len() >= 16 || chars > 6500 || n > 6500 - chars) {
            let mut full: Vec<Block> = Vec::new();
            std::mem::swap(&mut full, &mut batch);
            let ghost fv = full@;
            done.push(full);
            chars = 0;
            proof {
                let dv2 = done@.map_values(|v: Vec<Block>| v@);
                assert(dv2 =~= dv.push(fv));
                assert(dv2.drop_last() =~= dv);
                assert(flatten(dv2) == flatten(dv) + fv);
                assert(!fits(fv, b));
                assert forall|k: int| 0 <= k < dv2.len() - 1 implies !fits(#[trigger] dv2[k], dv2[k + 1][0]) by {
                    if k < dv.len() - 1 {
                        assert(dv2[k] == dv[k]);
                        assert(dv2[k + 1] == dv[k + 1]);
                    } else {
                        assert(dv2[k] == dv[k]);
                        assert(dv2[k + 1] == fv);
                    }
                }
                assert(chars_in(Seq::<Block>::empty()) == 0);
            }
        }
        let ghost bv = batch@;
        let ghost dv3 = done@.map_values(|v: Vec<Block>| v@);
        batch.push(b);
        proof {
            assert(batch@ =~= bv.push(b));
            assert(batch@.drop_last() =~= bv);
            assert(blocks@.take(i + 1) =~= blocks@.take(i as int).push(blocks@[i as int]));
            lemma_flatten_push(dv3, bv, b);
            if dv3.len() > 0 {
                assert(batch@[0] == bv[0] || bv.len() == 0);
            }
        }
        chars = if chars > 6500 || n > 6500 - chars { 6501 } else { chars + n };
        i += 1;
    }
    let ghost dv = done@.map_values(|v: Vec<Block>| v@);
    if batch.len() > 0 {
        let last = batch;
        let ghost lv = last@;
        done.push(last);
        proof {
            let dv2 = done@.map_values(|v: Vec<Block>| v@);
            assert(dv2 =~= dv.push(lv));
            assert(dv2.drop_last() =~= dv);
        }
    }
    proof {
        assert(blocks@.take(blocks@.len() as int) =~= blocks@);
    }
    done
}

} // verus!

verus! {

use crate::json::{parse_json, field, Json, field_spec, spec_parse_json};
use crate::text::{all_space, clean_chars, clean_spec, contains_chars, contains_seq, is_blank};

/// One label the model gives a block.
#[derive(Debug, Clone)]
pub struct Annotation {
    pub block_id: usize,
    pub label: String,
    pub model: Option<String>,
    pub conditions: Option<String>,
}

/// Index of the first block with identifier `id`, or the number of blocks when none has it.
pub open spec fn block_index(blocks: Seq<Block>, id: usize) -> int
    decreases blocks.len(),
{
    if blocks.len() == 0 {
        0
    } else if blocks[0].id == id {
        0
    } else {
        1 + block_index(blocks.drop_first(), id)
    }
}

/// Whether an earlier annotation already used the same block identifier.
pub open spec fn repeated_at(anns: Seq<Annotation>, k: int) -> bool {
    exists|m: int| 0 <= m < k && #[trigger] anns[m].block_id == anns[k].block_id
}

/// A label that is blank or longer than 100 characters.
pub open spec fn bad_label(l: Seq<char>) -> bool {
    all_space(l) || l.len() > 100
}

/// The first problem among annotations `k..`, checked one annotation at a time.
pub open spec fn first_error(anns: Seq<Annotation>, blocks: Seq<Block>, k: int) -> Option<Seq<char>>
    decreases anns.len() - k,
{
    if k < 0 || k >= anns.len() {
        None
    } else if block_index(blocks, anns[k].block_id) >= blocks.len() {
        Some("未知 block_id"@)
    } else if repeated_at(anns, k) || bad_label(anns[k].label@) {
        Some("重複 ID 或無效標籤"@)
    } else {
        first_error(anns, blocks, k + 1)
    }
}

/// The model's output as the application read it: the annotations, or the reader's error.
pub open spec fn output_view(o: Result<Vec<Annotation>, String>) -> Result<Seq<Annotation>, Seq<char>> {
    match o {
        Ok(v) => Ok(v@),
        Err(e) => Err(e@),
    }
}

/// Why `validate` rejects an output, if it does.
pub open spec fn validate_error(output: Result<Seq<Annotation>, Seq<char>>, blocks: Seq<Block>) -> Option<Seq<char>> {
    match output {
        Err(e) => Some("JSON 結構錯誤: "@ + e),
        Ok(anns) => if anns.len() != blocks.len() {
            Some("LLM 未回傳全部區塊"@)
        } else {
            first_error(anns, blocks, 0)
        },
    }
}

/// A condition the model quoted that really occurs, whitespace-normalised, in the block.
pub open spec fn condition_found(c: Seq<char>, text: Seq<char>) -> bool {
    !all_space(c) && contains_seq(clean_spec(text), clean_spec(c))
}

/// The specification built from an accepted annotation `a` of block `b`: value and evidence are
/// the block's text, the model is the block's own column hint, and a condition survives only
/// when it is quoted from the block.
pub open spec fn annotated(a: Annotation, b: Block, s: Specification) -> bool {
    let cond_ok = match a.conditions { Some(c) => condition_found(c@, b.text@), None => false };
    &&& s.block_id == b.id
    &&& s.section@ == b.section@
    &&& s.label@ == a.label@
    &&& s.value@ == b.text@
    &&& s.evidence@ == b.text@
    &&& s.model == b.model_hint
    &&& s.conditions == (if cond_ok { a.conditions } else { None })
    &&& s.status@ == (if (b.model_hint is None && a.model is Some) || (a.conditions is Some && !cond_ok) {
        "needs_review"@
    } else {
        "source_matched"@
    })
}

} // verus!

verus! {

fn find_block(blocks: &[Block], id: usize) -> (r: usize)
    ensures
        r == block_index(blocks@, id),
        r <= blocks@.len(),
        r < blocks@.len() ==> blocks@[r as int].id == id,
{
    let mut i: usize = 0;
    proof {
        assert(blocks@.skip(0) =~= blocks@);
    }
    while i < blocks.len()
        invariant
            i <= blocks@.len(),
            block_index(blocks@, id) == i + block_index(blocks@.skip(i as int), id),
            forall|k: int| 0 <= k < i ==> blocks@[k].id != id,
        decreases blocks.len() - i,
    {
        proof {
            assert(blocks@.skip(i as int).drop_first() =~= blocks@.skip(i + 1));
            assert(blocks@.skip(i as int)[0] == blocks@[i as int]);
        }
        if blocks[i].id == id {
            return i;
        }
        i += 1;
    }
    proof {
        assert(blocks@.skip(i as int) =~= Seq::<Block>::empty());
    }
    i
}

fn repeated(anns: &Vec<Annotation>, k: usize) -> (r: bool)
    requires
        k < anns@.len(),
    ensures
        r == repeated_at(anns@, k as int),
{
    let mut m: usize = 0;
    while m < k
        invariant
            m <= k < anns@.len(),
            forall|x: int| 0 <= x < m ==> #[trigger] anns@[x].block_id != anns@[k as int].block_id,
        decreases k - m,
    {
        if anns[m].block_id == anns[k].block_id {
            return true;
        }
        m += 1;
    }
    false
}

/// Specifications ordered by block identifier.
pub open spec fn sorted_by_block(s: Seq<Specification>) -> bool {
    forall|i: int, j: int| 0 <= i < j < s.len() ==> s[i].block_id <= s[j].block_id
}

/// Every element of `v` occurs in `r`.
pub open spec fn includes_all(r: Seq<Specification>, v: Seq<Specification>) -> bool {
    forall|k: int| 0 <= k < v.len() ==> r.contains(#[trigger] v[k])
}

/// `x` inserted after every specification whose block identifier is not greater than its own.
pub open spec fn insert_by_block(s: Seq<Specification>, x: Specification) -> Seq<Specification>
    decreases s.len(),
{
    if s.len() == 0 {
        seq![x]
    } else if s[0].block_id > x.block_id {
        seq![x] + s
    } else {
        seq![s[0]] + insert_by_block(s.drop_first(), x)
    }
}

/// The stable sort by block identifier: specifications of one block keep their order.
pub open spec fn stable_sort_by_block(s: Seq<Specification>) -> Seq<Specification>
    decreases s.len(),
{
    if s.len() == 0 {
        Seq::empty()
    } else {
        insert_by_block(stable_sort_by_block(s.drop_last()), s.last())
    }
}

proof fn lemma_insert_by_block(s: Seq<Specification>, x: Specification, p: int)
    requires
        0 <= p <= s.len(),
        forall|q: int| 0 <= q < p ==> #[trigger] s[q].block_id <= x.block_id,
        p < s.len() ==> s[p].block_id > x.block_id,
    ensures
        insert_by_block(s, x) == s.insert(p, x),
    decreases s.len(),
{
    if s.len() == 0 {
        assert(s.insert(p, x) =~= seq![x]);
    } else if p == 0 {
        assert(s.insert(p, x) =~= seq![x] + s);
    } else {
        let t = s.drop_first();
        assert forall|q: int| 0 <= q < p - 1 implies #[trigger] t[q].block_id <= x.block_id by {
            assert(t[q] == s[q + 1]);
        }
        lemma_insert_by_block(t, x, p - 1);
        assert(s.insert(p, x) =~= seq![s[0]] + t.insert(p - 1, x));
    }
}

/// Block identifiers strictly increase along the specifications.
pub open spec fn ids_increasing(s: Seq<Specification>) -> bool {
    forall|i: int, j: int| 0 <= i < j < s.len() ==> (#[trigger] s[i]).block_id < (#[trigger] s[j]).block_id
}

/// No two specifications share a block identifier.
pub open spec fn ids_distinct(s: Seq<Specification>) -> bool {
    forall|i: int, j: int| 0 <= i < j < s.len() ==> (#[trigger] s[i]).block_id != (#[trigger] s[j]).block_id
}

/// Some specification has block identifier `id`.
pub open spec fn has_id(s: Seq<Specification>, id: usize) -> bool {
    exists|q: int| 0 <= q < s.len() && (#[trigger] s[q]).block_id == id
}

proof fn lemma_insert_increasing(t: Seq<Specification>, x: Specification)
    requires
        ids_increasing(t),
        !has_id(t, x.block_id),
    ensures
        ids_increasing(insert_by_block(t, x)),
        forall|id: usize| has_id(insert_by_block(t, x), id) <==> (has_id(t, id) || id == x.block_id),
    decreases t.len(),
{
    let r = insert_by_block(t, x);
    if t.len() == 0 {
        assert(r =~= seq![x]);
        assert forall|id: usize| has_id(r, id) <==> (has_id(t, id) || id == x.block_id) by {
            if id == x.block_id {
                assert(r[0].block_id == id);
            }
        }
    } else if t[0].block_id > x.block_id {
        assert(r =~= seq![x] + t);
        assert forall|i: int, j: int| 0 <= i < j < r.len() implies (#[trigger] r[i]).block_id < (#[trigger] r[j]).block_id by {
            if i == 0 {
                assert(r[j] == t[j - 1]);
                if j - 1 > 0 {
                    assert(t[0].block_id < t[j - 1].block_id);
                }
            } else {
                assert(r[i] == t[i - 1] && r[j] == t[j - 1]);
            }
        }
        assert forall|id: usize| has_id(r, id) <==> (has_id(t, id) || id == x.block_id) by {
            if has_id(r, id) {
                let q = choose|q: int| 0 <= q < r.len() && (#[trigger] r[q]).block_id == id;
                if q > 0 {
                    assert(t[q - 1] == r[q]);
                }
            }
            if has_id(t, id) {
                let q = choose|q: int| 0 <= q < t.len() && (#[trigger] t[q]).block_id == id;
                assert(r[q + 1] == t[q]);
            }
            if id == x.block_id {
                assert(r[0] == x);
            }
        }
    } else {
        let rest = t.drop_first();
        assert(t[0].block_id != x.block_id) by {
            assert(t[0] == t[0]);
        }
        assert(ids_increasing(rest)) by {
            assert forall|i: int, j: int| 0 <= i < j < rest.len() implies (#[trigger] rest[i]).block_id < (#[trigger] rest[j]).block_id by {
                assert(rest[i] == t[i + 1] && rest[j] == t[j + 1]);
            }
        }
        assert(!has_id(rest, x.block_id)) by {
            if has_id(rest, x.block_id) {
                let q = choose|q: int| 0 <= q < rest.len() && (#[trigger] rest[q]).block_id == x.block_id;
                assert(t[q + 1] == rest[q]);
            }
        }
        lemma_insert_increasing(rest, x);
        let ri = insert_by_block(rest, x);
        assert(r =~= seq![t[0]] + ri);
        assert forall|j: int| 0 <= j < ri.len() implies t[0].block_id < (#[trigger] ri[j]).block_id by {
            assert(has_id(ri, ri[j].block_id));
            if has_id(rest, ri[j].block_id) {
                let q = choose|q: int| 0 <= q < rest.len() && (#[trigger] rest[q]).block_id == ri[j].block_id;
                assert(t[q + 1] == rest[q]);
                assert(t[0].block_id < t[q + 1].block_id);
            }
        }
        assert forall|i: int, j: int| 0 <= i < j < r.len() implies (#[trigger] r[i]).block_id < (#[trigger] r[j]).block_id by {
            assert(r[j] == ri[j - 1]);
            if i > 0 {
                assert(r[i] == ri[i - 1]);
            }
        }
        assert forall|id: usize| has_id(r, id) <==> (has_id(t, id) || id == x.block_id) by {
            if has_id(r, id) {
                let q = choose|q: int| 0 <= q < r.len() && (#[trigger] r[q]).block_id == id;
                if q == 0 {
                    assert(t[0].block_id == id);
                } else {
                    assert(ri[q - 1] == r[q]);
                    assert(has_id(ri, id));
                    if has_id(rest, id) {
                        let p = choose|p: int| 0 <= p < rest.len() && (#[trigger] rest[p]).block_id == id;
                        assert(t[p + 1] == rest[p]);
                    }
                }
            }
            if has_id(t, id) {
                let q = choose|q: int| 0 <= q < t.len() && (#[trigger] t[q]).block_id == id;
                if q == 0 {
                    assert(r[0] == t[0]);
                } else {
                    assert(rest[q - 1] == t[q]);
                    assert(has_id(rest, id));
                    let p = choose|p: int| 0 <= p < ri.len() && (#[trigger] ri[p]).block_id == id;
                    assert(r[p + 1] == ri[p]);
                }
            }
            if id == x.block_id {
                assert(has_id(ri, id));
                let p = choose|p: int| 0 <= p < ri.len() && (#[trigger] ri[p]).block_id == id;
                assert(r[p + 1] == ri[p]);
            }
        }
    }
}

/// Sorting specifications with distinct block identifiers makes the identifiers strictly
/// increase.
pub proof fn lemma_sort_increasing(s: Seq<Specification>)
    requires
        ids_distinct(s),
    ensures
        ids_increasing(stable_sort_by_block(s)),
        forall|id: usize| has_id(stable_sort_by_block(s), id) <==> has_id(s, id),
    decreases s.len(),
{
    if s.len() > 0 {
        let f = s.drop_last();
        assert(ids_distinct(f)) by {
            assert forall|i: int, j: int| 0 <= i < j < f.len() implies (#[trigger] f[i]).block_id != (#[trigger] f[j]).block_id by {
                assert(f[i] == s[i] && f[j] == s[j]);
            }
        }
        lemma_sort_increasing(f);
        assert(!has_id(f, s.last().block_id)) by {
            if has_id(f, s.last().block_id) {
                let q = choose|q: int| 0 <= q < f.len() && (#[trigger] f[q]).block_id == s.last().block_id;
                assert(s[q] == f[q]);
                assert(s[s.len() - 1] == s.last());
            }
        }
        lemma_insert_increasing(stable_sort_by_block(f), s.last());
        assert forall|id: usize| has_id(s, id) <==> (has_id(f, id) || id == s.last().block_id) by {
            if has_id(s, id) {
                let q = choose|q: int| 0 <= q < s.len() && (#[trigger] s[q]).block_id == id;
                if q < f.len() {
                    assert(f[q] == s[q]);
                }
            }
            if has_id(f, id) {
                let q = choose|q: int| 0 <= q < f.len() && (#[trigger] f[q]).block_id == id;
                assert(s[q] == f[q]);
            }
            if id == s.last().block_id {
                assert(s[s.len() - 1] == s.last());
            }
        }
    }
}

proof fn lemma_insert_elements(t: Seq<Specification>, x: Specification)
    ensures
        insert_by_block(t, x).len() == t.len() + 1,
        forall|i: int| 0 <= i < insert_by_block(t, x).len() ==> #[trigger] insert_by_block(t, x)[i] == x || t.contains(insert_by_block(t, x)[i]),
    decreases t.len(),
{
    let r = insert_by_block(t, x);
    if t.len() > 0 && t[0].block_id <= x.block_id {
        let rest = t.drop_first();
        lemma_insert_elements(rest, x);
        let ri = insert_by_block(rest, x);
        assert forall|i: int| 0 <= i < r.len() implies #[trigger] r[i] == x || t.contains(r[i]) by {
            if i == 0 {
                assert(r[0] == t[0]);
            } else {
                assert(r[i] == ri[i - 1]);
                if rest.contains(ri[i - 1]) {
                    let q = choose|q: int| 0 <= q < rest.len() && rest[q] == ri[i - 1];
                    assert(t[q + 1] == rest[q]);
                }
            }
        }
    } else if t.len() > 0 {
        assert forall|i: int| 0 <= i < r.len() implies #[trigger] r[i] == x || t.contains(r[i]) by {
            if i > 0 {
                assert(r[i] == t[i - 1]);
            }
        }
    }
}

/// The stable sort keeps the number of specifications and brings in none from elsewhere.
pub proof fn lemma_sort_elements(s: Seq<Specification>)
    ensures
        stable_sort_by_block(s).len() == s.len(),
        forall|i: int| 0 <= i < s.len() ==> s.contains(#[trigger] stable_sort_by_block(s)[i]),
    decreases s.len(),
{
    if s.len() > 0 {
        let f = s.drop_last();
        lemma_sort_elements(f);
        let t = stable_sort_by_block(f);
        lemma_insert_elements(t, s.last());
        let r = stable_sort_by_block(s);
        assert forall|i: int| 0 <= i < s.len() implies s.contains(#[trigger] r[i]) by {
            if r[i] == s.last() {
                assert(s[s.len() - 1] == s.last());
            } else {
                let q = choose|q: int| 0 <= q < t.len() && t[q] == r[i];
                assert(f.contains(t[q]));
                let p = choose|p: int| 0 <= p < f.len() && f[p] == t[q];
                assert(s[p] == f[p]);
            }
        }
    }
}

/// Stable insertion of each specification at its place by block identifier.
pub fn sort_by_block(v: &Vec<Specification>) -> (r: Vec<Specification>)
    ensures
        r@ == stable_sort_by_block(v@),
        r@.len() == v@.len(),
        sorted_by_block(r@),
        includes_all(r@, v@),
{
    let mut out: Vec<Specification> = Vec::new();
    let ghost orig = v@;
    let ghost mut pos: Seq<int> = Seq::empty();
    let rest = v;
    let mut i: usize = 0;
    let n = rest.len();
    while i < n
        invariant
            i <= orig.len(),
            n == orig.len(),
            rest@ == orig,
            out@.len() == i,
            pos.len() == i,
            sorted_by_block(out@),
            out@ == stable_sort_by_block(orig.take(i as int)),
            forall|k: int| 0 <= k < i ==> 0 <= #[trigger] pos[k] < out@.len() && out@[pos[k]] == orig[k],
        decreases n - i,
    {
        let x = rest[i].clone_spec();
        let mut p: usize = 0;
        while p < out.len() && out[p].block_id <= x.block_id
            invariant
                p <= out@.len(),
                forall|q: int| 0 <= q < p ==> #[trigger] out@[q].block_id <= x.block_id,
            decreases out.len() - p,
        {
            p += 1;
        }
        let ghost old_out = out@;
        let ghost old_pos = pos;
        out.insert(p, x);
        proof {
            assert(orig.take(i + 1).drop_last() =~= orig.take(i as int));
            assert(orig.take(i + 1).last() == x);
            lemma_insert_by_block(old_out, x, p as int);
            assert(out@ == old_out.insert(p as int, x));
            assert forall|a: int, b: int| 0 <= a < b < out@.len() implies out@[a].block_id <= out@[b].block_id by {
                if b < p {
                    assert(out@[a] == old_out[a] && out@[b] == old_out[b]);
                } else if b == p {
                    assert(out@[a] == old_out[a]);
                } else if a < p {
                    assert(out@[a] == old_out[a] && out@[b] == old_out[b - 1]);
                    if p < old_out.len() {
                        assert(old_out[p as int].block_id > x.block_id);
                    }
                } else if a == p {
                    assert(out@[b] == old_out[b - 1]);
                    assert(old_out[p as int].block_id > x.block_id);
                } else {
                    assert(out@[a] == old_out[a - 1] && out@[b] == old_out[b - 1]);
                }
            }
            pos = old_pos.map_values(|m: int| if m < p { m } else { m + 1 }).push(p as int);
            assert forall|k: int| 0 <= k < i + 1 implies 0 <= #[trigger] pos[k] < out@.len() && out@[pos[k]] == orig[k] by {
                if k < i {
                    let m = old_pos[k];
                    if m < p {
                        assert(out@[m] == old_out[m]);
                    } else {
                        assert(out@[m + 1] == old_out[m]);
                    }
                }
            }
        }
        i += 1;
    }
    proof {
        assert(orig == v@);
        assert(orig.take(n as int) =~= orig);
        assert forall|k: int| 0 <= k < v@.len() implies out@.contains(#[trigger] v@[k]) by {
            assert(0 <= pos[k] < out@.len() && out@[pos[k]] == orig[k]);
        }
    }
    out
}

} // verus!

verus! {

fn char_count(s: &str) -> (n: usize)
    ensures
        n == s@.len(),
{
    str_chars(s).len()
}

/// The specification for annotation `a` of block `b` (see [`annotated`]).
fn build_spec(a: &Annotation, b: &Block) -> (s: Specification)
    ensures
        annotated(*a, *b, s),
{
    let mut unsure = false;
    let model = copy_opt(&b.model_hint);
    if b.model_hint.is_none() && a.model.is_some() {
        unsure = true;
    }
    let conditions = match &a.conditions {
        Some(c) => {
            let text = clean_chars(str_chars(b.text.as_str()).as_slice());
            let quoted = clean_chars(str_chars(c.as_str()).as_slice());
            if !is_blank(c.as_str()) && contains_chars(text.as_slice(), quoted.as_slice()) {
                Some(c.clone())
            } else {
                unsure = true;
                None
            }
        },
        None => None,
    };
    Specification {
        block_id: b.id,
        section: b.section.clone(),
        label: a.label.clone(),
        value: b.text.clone(),
        model,
        conditions,
        evidence: b.text.clone(),
        status: if unsure { String::from_str("needs_review") } else { String::from_str("source_matched") },
    }
}

/// The specifications of an accepted reply: one per annotation, each built from its block as
/// [`annotated`] says, in block order.
#[verifier::opaque]
pub open spec fn labels_of(output: Result<Seq<Annotation>, Seq<char>>, blocks: Seq<Block>, specs: Seq<Specification>) -> bool {
    &&& validate_error(output, blocks) is None
    &&& output is Ok
    &&& specs.len() == output->Ok_0.len()
    &&& sorted_by_block(specs)
    &&& ids_increasing(specs)
    &&& forall|k: int| 0 <= k < output->Ok_0.len() ==> exists|m: int|
        0 <= m < specs.len() && annotated(
            #[trigger] output->Ok_0[k],
            blocks[block_index(blocks, output->Ok_0[k].block_id)],
            specs[m],
        )
    &&& forall|m: int| 0 <= m < specs.len() ==> exists|k: int|
        0 <= k < output->Ok_0.len() && annotated(
            output->Ok_0[k],
            blocks[block_index(blocks, output->Ok_0[k].block_id)],
            #[trigger] specs[m],
        )
}

proof fn lemma_sorted_labels(av: Seq<Annotation>, blocks: Seq<Block>, unsorted: Seq<Specification>, sorted: Seq<Specification>)
    requires
        unsorted.len() == av.len(),
        forall|m: int| 0 <= m < av.len() ==> annotated(
            #[trigger] av[m],
            blocks[block_index(blocks, av[m].block_id)],
            unsorted[m],
        ),
        forall|m: int| 0 <= m < av.len() ==> (#[trigger] unsorted[m]).block_id == av[m].block_id,
        first_error(av, blocks, 0) is None,
        sorted == stable_sort_by_block(unsorted),
        includes_all(sorted, unsorted),
    ensures
        ids_increasing(sorted),
        sorted.len() == av.len(),
        forall|k: int| 0 <= k < av.len() ==> exists|m: int|
            0 <= m < sorted.len() && annotated(
                #[trigger] av[k],
                blocks[block_index(blocks, av[k].block_id)],
                sorted[m],
            ),
        forall|m: int| 0 <= m < sorted.len() ==> exists|k: int|
            0 <= k < av.len() && annotated(
                av[k],
                blocks[block_index(blocks, av[k].block_id)],
                #[trigger] sorted[m],
            ),
{
    lemma_first_error_none(av, blocks, 0);
    assert(ids_distinct(unsorted)) by {
        assert forall|i: int, j: int| 0 <= i < j < unsorted.len() implies (#[trigger] unsorted[i]).block_id != (#[trigger] unsorted[j]).block_id by {
            if unsorted[i].block_id == unsorted[j].block_id {
                assert(av[i].block_id == av[j].block_id);
                assert(repeated_at(av, j));
            }
        }
    }
    lemma_sort_increasing(unsorted);
    lemma_sort_elements(unsorted);
    assert forall|m: int| 0 <= m < sorted.len() implies exists|k: int|
        0 <= k < av.len() && annotated(
            av[k],
            blocks[block_index(blocks, av[k].block_id)],
            #[trigger] sorted[m],
        ) by {
        let k = choose|k: int| 0 <= k < unsorted.len() && unsorted[k] == sorted[m];
        assert(annotated(av[k], blocks[block_index(blocks, av[k].block_id)], unsorted[k]));
    }
    assert forall|k: int| 0 <= k < av.len() implies exists|m: int|
        0 <= m < sorted.len() && annotated(
            #[trigger] av[k],
            blocks[block_index(blocks, av[k].block_id)],
            sorted[m],
        ) by {
        assert(sorted.contains(unsorted[k]));
        let m = choose|m: int| 0 <= m < sorted.len() && sorted[m] == unsorted[k];
        assert(annotated(av[k], blocks[block_index(blocks, av[k].block_id)], sorted[m]));
    }
}

proof fn lemma_labels_intro(av: Seq<Annotation>, blocks: Seq<Block>, sorted: Seq<Specification>)
    requires
        av.len() == blocks.len(),
        first_error(av, blocks, 0) is None,
        sorted.len() == av.len(),
        sorted_by_block(sorted),
        ids_increasing(sorted),
        forall|k: int| 0 <= k < av.len() ==> exists|m: int|
            0 <= m < sorted.len() && annotated(
                #[trigger] av[k],
                blocks[block_index(blocks, av[k].block_id)],
                sorted[m],
            ),
        forall|m: int| 0 <= m < sorted.len() ==> exists|k: int|
            0 <= k < av.len() && annotated(
                av[k],
                blocks[block_index(blocks, av[k].block_id)],
                #[trigger] sorted[m],
            ),
    ensures
        labels_of(Ok::<Seq<Annotation>, Seq<char>>(av), blocks, sorted),
{
    reveal(labels_of);
}

proof fn lemma_validated_result(av: Seq<Annotation>, blocks: Seq<Block>, unsorted: Seq<Specification>, sorted: Seq<Specification>)
    requires
        unsorted.len() == av.len(),
        av.len() == blocks.len(),
        forall|m: int| 0 <= m < av.len() ==> annotated(
            #[trigger] av[m],
            blocks[block_index(blocks, av[m].block_id)],
            unsorted[m],
        ),
        forall|m: int| 0 <= m < av.len() ==> (#[trigger] unsorted[m]).block_id == av[m].block_id,
        first_error(av, blocks, 0) is None,
        sorted == stable_sort_by_block(unsorted),
        includes_all(sorted, unsorted),
        sorted_by_block(sorted),
    ensures
        labels_of(Ok::<Seq<Annotation>, Seq<char>>(av), blocks, sorted),
{
    lemma_sorted_labels(av, blocks, unsorted, sorted);
    lemma_labels_intro(av, blocks, sorted);
}

/// Checks the model's output against the blocks it labelled and turns it into
/// specifications. The output is what the application read from the reply strictly as
/// `{"annotations": [...]}` (unknown or repeated fields refused), or the reader's error. It
/// must label every block exactly once with a known block identifier and a label of 1 to 100
/// characters; values, evidence and column models always come from the blocks, never from
/// the model. The result is ordered by block identifier.
#[verifier::spinoff_prover]
#[verifier::rlimit(60)]
pub fn validate(output: Result<Vec<Annotation>, String>, blocks: &[Block]) -> (r: Result<Vec<Specification>, String>)
    ensures
        match r {
            Err(e) => validate_error(output_view(output), blocks@) == Some(e@),
            Ok(specs) => validate_error(output_view(output), blocks@) is None && labels_of(output_view(output), blocks@, specs@),
        },
{
    let ghost ov = output_view(output);
    let anns = match output {
        Ok(a) => a,
        Err(e) => {
            let mut m = String::from_str("JSON 結構錯誤: ");
            m.append(e.as_str());
            return Err(m);
        },
    };
    if anns.len() != blocks.len() {
        return Err(String::from_str("LLM 未回傳全部區塊"));
    }
    let ghost av = anns@;
    let mut unsorted: Vec<Specification> = Vec::new();
    let mut k: usize = 0;
    while k < anns.len()
        invariant
            av == anns@,
            ov == output_view(output),
            ov == Ok::<Seq<Annotation>, Seq<char>>(av),
            av.len() == blocks@.len(),
            validate_error(ov, blocks@) == first_error(av, blocks@, k as int),
            k <= av.len(),
            unsorted@.len() == k,
            forall|m: int| 0 <= m < k ==> annotated(
                #[trigger] av[m],
                blocks@[block_index(blocks@, av[m].block_id)],
                unsorted@[m],
            ),
            forall|m: int| 0 <= m < k ==> (#[trigger] unsorted@[m]).block_id == av[m].block_id,
        decreases anns.len() - k,
    {
        let a = &anns[k];
        let bi = find_block(blocks, a.block_id);
        if bi >= blocks.len() {
            return Err(String::from_str("未知 block_id"));
        }
        if repeated(&anns, k) || is_blank(a.label.as_str()) || char_count(a.label.as_str()) > 100 {
            return Err(String::from_str("重複 ID 或無效標籤"));
        }
        let s = build_spec(a, &blocks[bi]);
        unsorted.push(s);
        k += 1;
    }
    let sorted = sort_by_block(&unsorted);
    proof {
        assert(first_error(av, blocks@, 0) is None);
        lemma_validated_result(av, blocks@, unsorted@, sorted@);
    }
    Ok(sorted)
}

pub proof fn lemma_block_index(blocks: Seq<Block>, id: usize)
    ensures
        0 <= block_index(blocks, id) <= blocks.len(),
        block_index(blocks, id) < blocks.len() ==> blocks[block_index(blocks, id)].id == id,
    decreases blocks.len(),
{
    if blocks.len() > 0 && blocks[0].id != id {
        lemma_block_index(blocks.drop_first(), id);
    }
}

pub proof fn lemma_first_error_none(anns: Seq<Annotation>, blocks: Seq<Block>, k: int)
    requires
        0 <= k,
        first_error(anns, blocks, k) is None,
    ensures
        forall|j: int| k <= j < anns.len() ==> block_index(blocks, (#[trigger] anns[j]).block_id) < blocks.len()
            && !repeated_at(anns, j),
    decreases anns.len() - k,
{
    if k < anns.len() {
        lemma_first_error_none(anns, blocks, k + 1);
    }
}

/// Block identifiers of the blocks.
pub open spec fn block_ids(blocks: Seq<Block>) -> Seq<usize> {
    blocks.map_values(|b: Block| b.id)
}

/// Specifications' block identifiers.
pub open spec fn spec_ids(specs: Seq<Specification>) -> Seq<usize> {
    specs.map_values(|s: Specification| s.block_id)
}

/// A validated output labels every block of the batch exactly once: for each block there is
/// one specification with its identifier, and it takes its value and evidence from that
/// block's text and its model from that block's column.
#[verifier::spinoff_prover]
#[verifier::rlimit(40)]
pub proof fn law_validated_labels_each_block(output: Result<Seq<Annotation>, Seq<char>>, blocks: Seq<Block>, specs: Seq<Specification>)
    requires
        labels_of(output, blocks, specs),
        block_ids(blocks).no_duplicates(),
    ensures
        specs.len() == blocks.len(),
        forall|j: int| 0 <= j < blocks.len() ==> exists|m: int| 0 <= m < specs.len()
            && (#[trigger] blocks[j]).id == specs[m].block_id
            && specs[m].value@ == blocks[j].text@
            && specs[m].evidence@ == blocks[j].text@
            && specs[m].model == blocks[j].model_hint,
        forall|m: int, n: int| 0 <= m < n < specs.len() ==> (#[trigger] specs[m]).block_id != (#[trigger] specs[n]).block_id,
{
    broadcast use vstd::set::group_set_axioms, vstd::seq_lib::seq_to_set_is_finite;

    reveal(labels_of);
    let anns = output->Ok_0;
    lemma_first_error_none(anns, blocks, 0);
    let a = spec_ids(specs).to_set();
    let b = block_ids(blocks).to_set();
    assert forall|x: usize| a.contains(x) implies b.contains(x) by {
        let m = choose|m: int| 0 <= m < spec_ids(specs).len() && spec_ids(specs)[m] == x;
        let k = choose|k: int| 0 <= k < anns.len() && annotated(
            anns[k],
            blocks[block_index(blocks, anns[k].block_id)],
            #[trigger] specs[m],
        );
        let j = block_index(blocks, anns[k].block_id);
        lemma_block_index(blocks, anns[k].block_id);
        assert(j < blocks.len());
        assert(block_ids(blocks)[j] == blocks[j].id);
        assert(block_ids(blocks).contains(x));
    }
    assert(spec_ids(specs).no_duplicates()) by {
        assert forall|i: int, j: int| 0 <= i < spec_ids(specs).len() && 0 <= j < spec_ids(specs).len() && i != j
            implies spec_ids(specs)[i] != spec_ids(specs)[j] by {
            if i < j {
                assert(specs[i].block_id < specs[j].block_id);
            } else {
                assert(specs[j].block_id < specs[i].block_id);
            }
        }
    }
    spec_ids(specs).unique_seq_to_set();
    block_ids(blocks).unique_seq_to_set();
    vstd::set_lib::lemma_subset_equality(a, b);
    assert forall|j: int| 0 <= j < blocks.len() implies exists|m: int| 0 <= m < specs.len()
        && (#[trigger] blocks[j]).id == specs[m].block_id
        && specs[m].value@ == blocks[j].text@
        && specs[m].evidence@ == blocks[j].text@
        && specs[m].model == blocks[j].model_hint by {
        assert(block_ids(blocks)[j] == blocks[j].id);
        assert(block_ids(blocks).contains(blocks[j].id));
        assert(b.contains(blocks[j].id));
        assert(a.contains(blocks[j].id));
        let m = choose|m: int| 0 <= m < spec_ids(specs).len() && spec_ids(specs)[m] == blocks[j].id;
        let k = choose|k: int| 0 <= k < anns.len() && annotated(
            anns[k],
            blocks[block_index(blocks, anns[k].block_id)],
            #[trigger] specs[m],
        );
        let j2 = block_index(blocks, anns[k].block_id);
        lemma_block_index(blocks, anns[k].block_id);
        assert(j2 < blocks.len());
        assert(block_ids(blocks)[j2] == blocks[j2].id);
        assert(j2 == j);
    }
}

} // verus!

verus! {

/// The `name` strings of the listed models, in order; entries without one are skipped.
pub open spec fn names_of(items: Seq<Json>) -> Seq<Seq<char>>
    decreases items.len(),
{
    if items.len() == 0 {
        Seq::empty()
    } else {
        names_of(items.drop_last()) + match field_spec(items.last(), "name"@) {
            Some(Json::Str(s)) => seq![s@],
            _ => Seq::empty(),
        }
    }
}

/// The installed models an Ollama tag list names, or an error when it has no `models` array.
pub open spec fn model_names_spec(v: Json) -> Result<Seq<Seq<char>>, Seq<char>> {
    match field_spec(v, "models"@) {
        Some(Json::Array(a)) => Ok(names_of(a@)),
        _ => Err("Ollama 模型清單格式錯誤"@),
    }
}

/// Reads the names of the installed models from the JSON text of Ollama's `/api/tags`; a
/// body that is not JSON gives the parser's error.
pub fn model_list(body: &str) -> (r: Result<Vec<String>, String>)
    ensures
        match spec_parse_json(body@) {
            Err(e) => r is Err && r->Err_0@ == e,
            Ok(v) => match r {
                Ok(names) => model_names_spec(v) == Ok::<Seq<Seq<char>>, Seq<char>>(names@.map_values(|s: String| s@)),
                Err(e) => model_names_spec(v) == Err::<Seq<Seq<char>>, Seq<char>>(e@),
            },
        },
{
    match parse_json(body) {
        Err(e) => Err(e),
        Ok(v) => model_names(&v),
    }
}

/// Reads the names of the installed models from the body of Ollama's `/api/tags`.
pub fn model_names(v: &Json) -> (r: Result<Vec<String>, String>)
    ensures
        match r {
            Ok(names) => model_names_spec(*v) == Ok::<Seq<Seq<char>>, Seq<char>>(names@.map_values(|s: String| s@)),
            Err(e) => model_names_spec(*v) == Err::<Seq<Seq<char>>, Seq<char>>(e@),
        },
{
    match field(v, "models") {
        Some(Json::Array(a)) => {
            let mut out: Vec<String> = Vec::new();
            let mut i: usize = 0;
            proof {
                assert(a@.take(0) =~= Seq::<Json>::empty());
                assert(out@.map_values(|s: String| s@) =~= Seq::<Seq<char>>::empty());
            }
            while i < a.len()
                invariant
                    i <= a@.len(),
                    out@.map_values(|s: String| s@) == names_of(a@.take(i as int)),
                decreases a.len() - i,
            {
                proof {
                    assert(a@.take(i + 1).drop_last() =~= a@.take(i as int));
                    assert(a@.take(i + 1).last() == a@[i as int]);
                }
                let ghost before = out@.map_values(|s: String| s@);
                match field(&a[i], "name") {
                    Some(Json::Str(s)) => {
                        out.push(s.clone());
                        proof {
                            assert(out@.map_values(|s: String| s@) =~= before.push(s@));
                        }
                    },
                    _ => {
                        proof {
                            assert(out@.map_values(|s: String| s@) =~= before + Seq::<Seq<char>>::empty());
                        }
                    },
                }
                i += 1;
            }
            proof {
                assert(a@.take(a@.len() as int) =~= a@);
            }
            Ok(out)
        },
        _ => Err(String::from_str("Ollama 模型清單格式錯誤")),
    }
}

} // verus!

verus! {

use crate::text::{push_str, string_from_chars};

/// The request appendix asking the model to correct a reply that failed.
pub open spec fn repair_text(last_error: Seq<char>) -> Seq<char> {
    "上一輪輸出驗證失敗："@ + last_error + "。請修正並完整回傳所有 block_id。"@
}

/// Labelling one batch in progress: two requests at most, each sent at most twice when the
/// transport or the server fails.
pub struct Labelling {
    /// Requests made before the current one (0 or 1).
    pub attempt: usize,
    /// Sends of the current request before the current one (0 or 1).
    pub transient: usize,
    /// Sends so far.
    pub calls: usize,
    /// Why the current request has failed so far.
    pub last_error: String,
}

/// What the labelling does next.
pub enum LabelAction {
    /// Writes and sends a new request whose user message is the input, a line break, and
    /// this appendix.
    Request(String),
    /// Sends the current request again.
    Resend,
    /// The batch is labelled.
    Labelled(Vec<Specification>),
    /// Labelling fails with this error.
    Fail(String),
}

/// What came of the last send.
pub enum LabelEvent {
    /// The model server answered with an unsuccessful status: its code and its text.
    Status { code: u16, text: String },
    /// Sending failed with this error.
    SendError(String),
    /// The reply body could not be read as JSON, with this error.
    BodyError(String),
    /// The reply's `message.content`, read by the application strictly as the output object
    /// (or the reader's error); `None` when the reply carries no string content.
    Reply(Option<Result<Vec<Annotation>, String>>),
}

/// What one step of labelling does with the event of the last send (see [`Labelling::step`]):
/// `l` before, `n` after, `a` the next action.
pub open spec fn step_effect(l: Labelling, blocks: Seq<Block>, ev: LabelEvent, n: Labelling, a: LabelAction) -> bool {
    &&& !(a is Fail) && !(a is Labelled) ==> n.wf()
    &&& 1 <= n.calls <= 4
    &&& match ev {
        LabelEvent::Status { code, text } => {
            let err = "Ollama HTTP "@ + text@;
            if 500 <= code <= 599 && l.transient == 0 {
                a is Resend && n.transient == 1 && n.calls == l.calls + 1
                    && n.attempt == l.attempt && n.last_error@ == err
            } else if l.attempt == 0 {
                a is Request && a->Request_0@ == repair_text(err) && n.attempt == 1
                    && n.transient == 0 && n.calls == l.calls + 1
            } else {
                a is Fail && a->Fail_0@ == repair_text(err)
            }
        },
        LabelEvent::SendError(e) => {
            if l.transient == 0 {
                a is Resend && n.transient == 1 && n.calls == l.calls + 1
                    && n.attempt == l.attempt && n.last_error == e
            } else if l.attempt == 0 {
                a is Request && a->Request_0@ == repair_text(e@) && n.attempt == 1
                    && n.transient == 0 && n.calls == l.calls + 1
            } else {
                a is Fail && a->Fail_0@ == repair_text(e@)
            }
        },
        LabelEvent::BodyError(e) => a is Fail && a->Fail_0 == e,
        LabelEvent::Reply(out) => match out {
            None => a is Fail && a->Fail_0@ == "Ollama 未回傳 content"@,
            Some(o) => match validate_error(output_view(o), blocks) {
                None => a is Labelled && labels_of(output_view(o), blocks, a->Labelled_0@) && n.calls == l.calls,
                Some(err) => if l.attempt == 0 {
                    a is Request && a->Request_0@ == repair_text(err) && n.attempt == 1
                        && n.transient == 0 && n.calls == l.calls + 1
                } else {
                    a is Fail && a->Fail_0@ == repair_text(err)
                },
            },
        },
    }
}

impl Labelling {
    pub open spec fn wf(&self) -> bool {
        self.attempt < 2 && self.transient < 2 && 1 <= self.calls <= 2 * self.attempt + self.transient + 1
    }

    /// The first request, with an empty appendix.
    pub fn begin() -> (r: (Labelling, LabelAction))
        ensures
            r.0.wf(),
            r.0.attempt == 0 && r.0.transient == 0 && r.0.calls == 1 && r.0.last_error@.len() == 0,
            r.1 is Request && r.1->Request_0@.len() == 0,
    {
        (Labelling { attempt: 0, transient: 0, calls: 1, last_error: String::new() }, LabelAction::Request(String::new()))
    }

    /// Ends the current request with its error: one more request carries the error back to
    /// the model; after the second, labelling fails with that appendix.
    fn next_round(&mut self) -> (a: LabelAction)
        requires
            old(self).wf(),
        ensures
            old(self).attempt == 0 ==> final(self).attempt == 1 && final(self).transient == 0
                && final(self).calls == old(self).calls + 1 && final(self).last_error@.len() == 0
                && a is Request && a->Request_0@ == repair_text(old(self).last_error@),
            old(self).attempt == 1 ==> a is Fail && a->Fail_0@ == repair_text(old(self).last_error@)
                && final(self).calls == old(self).calls,
            !(a is Fail) ==> final(self).wf(),
    {
        let mut v: Vec<char> = Vec::new();
        push_str(&mut v, "上一輪輸出驗證失敗：");
        push_str(&mut v, self.last_error.as_str());
        push_str(&mut v, "。請修正並完整回傳所有 block_id。");
        let repair = string_from_chars(v.as_slice());
        if self.attempt == 0 {
            self.attempt = 1;
            self.transient = 0;
            self.calls = self.calls + 1;
            self.last_error = String::new();
            LabelAction::Request(repair)
        } else {
            LabelAction::Fail(repair)
        }
    }

    /// Decides what to do after a send. A server error or a failed send is retried once; a
    /// reply is checked against the blocks, and a reply that fails the check, like a request
    /// that failed twice, leads to the next request or, after two, to failure.
    pub fn step(&mut self, blocks: &[Block], ev: LabelEvent) -> (a: LabelAction)
        requires
            old(self).wf(),
        ensures
            step_effect(*old(self), blocks@, ev, *final(self), a),
    {
        match ev {
            LabelEvent::Status { code, text } => {
                let mut v: Vec<char> = Vec::new();
                push_str(&mut v, "Ollama HTTP ");
                push_str(&mut v, text.as_str());
                self.last_error = string_from_chars(v.as_slice());
                if 500 <= code && code <= 599 && self.transient == 0 {
                    self.transient = 1;
                    self.calls = self.calls + 1;
                    LabelAction::Resend
                } else {
                    self.next_round()
                }
            },
            LabelEvent::SendError(e) => {
                self.last_error = e;
                if self.transient == 0 {
                    self.transient = 1;
                    self.calls = self.calls + 1;
                    LabelAction::Resend
                } else {
                    self.next_round()
                }
            },
            LabelEvent::BodyError(e) => LabelAction::Fail(e),
            LabelEvent::Reply(out) => match out {
                None => LabelAction::Fail(String::from_str("Ollama 未回傳 content")),
                Some(o) => match validate(o, blocks) {
                    Ok(specs) => LabelAction::Labelled(specs),
                    Err(e) => {
                        self.last_error = e;
                        self.next_round()
                    },
                },
            },
        }
    }
}

proof fn lemma_run_wf(states: Seq<Labelling>, events: Seq<LabelEvent>, actions: Seq<LabelAction>, blocks: Seq<Block>, i: int)
    requires
        states.len() == events.len() + 1,
        actions.len() == events.len(),
        states[0].wf(),
        forall|k: int| 0 <= k < events.len() ==> step_effect(states[k], blocks, #[trigger] events[k], states[k + 1], actions[k]),
        forall|k: int| 0 <= k < events.len() - 1 ==> !(#[trigger] actions[k] is Fail) && !(actions[k] is Labelled),
        0 <= i < events.len(),
    ensures
        states[i].wf(),
    decreases i,
{
    if i > 0 {
        lemma_run_wf(states, events, actions, blocks, i - 1);
        assert(step_effect(states[i - 1], blocks, events[i - 1], states[i], actions[i - 1]));
        assert(!(actions[i - 1] is Fail) && !(actions[i - 1] is Labelled));
    }
}

/// Over a whole run of labelling (the first request, then the event of each send in turn, up
/// to the action that ends it), between one and four requests are sent, and labels come only
/// from a reply that passed the check against the blocks.
pub proof fn law_labelling_run(states: Seq<Labelling>, events: Seq<LabelEvent>, actions: Seq<LabelAction>, blocks: Seq<Block>)
    requires
        states.len() == events.len() + 1,
        actions.len() == events.len(),
        states[0].wf(),
        states[0].calls == 1,
        forall|k: int| 0 <= k < events.len() ==> step_effect(states[k], blocks, #[trigger] events[k], states[k + 1], actions[k]),
        forall|k: int| 0 <= k < events.len() - 1 ==> !(#[trigger] actions[k] is Fail) && !(actions[k] is Labelled),
    ensures
        forall|k: int| 0 <= k < states.len() ==> 1 <= (#[trigger] states[k]).calls <= 4,
        forall|k: int| 0 <= k < events.len() ==> ((#[trigger] actions[k]) is Labelled ==> (events[k] matches LabelEvent::Reply(Some(o))
            && labels_of(output_view(o), blocks, actions[k]->Labelled_0@))),
{
    assert forall|k: int| 0 <= k < states.len() implies 1 <= (#[trigger] states[k]).calls <= 4 by {
        if k > 0 {
            assert(step_effect(states[k - 1], blocks, events[k - 1], states[k], actions[k - 1]));
        }
    }
    assert forall|k: int| 0 <= k < events.len() implies ((#[trigger] actions[k]) is Labelled ==> (events[k] matches LabelEvent::Reply(Some(o))
        && labels_of(output_view(o), blocks, actions[k]->Labelled_0@))) by {
        assert(step_effect(states[k], blocks, events[k], states[k + 1], actions[k]));
        if actions[k] is Labelled {
            lemma_run_wf(states, events, actions, blocks, k);
        }
    }
}

/// Labelling one batch sends between one and four requests: two requests, each sent at most
/// twice; the count stays there whatever the labelling ends with (see [`Labelling::step`]).
pub proof fn law_labelling_bounded(l: Labelling)
    requires
        l.wf(),
    ensures
        1 <= l.calls <= 4,
{
}

} // verus!
