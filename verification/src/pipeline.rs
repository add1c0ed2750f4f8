//! The crawl's decisions between downloads: admitting a job, the page budget, the pages it
//! records, the order of candidates, which products are extracted, and how a job ends.
use vstd::prelude::*;
use vstd::multiset::Multiset;
use crate::digest::{sha256_hex, spec_sha256_hex};
use crate::models::{settings_error, Block, Candidate, Job, PageRecord, Price, Product, RunOptions, Settings};
use crate::text::{decimal_spec, push_decimal, push_str, str_eq, string_from_chars};

verus! {

/// The most products a job may extract per category.
pub open spec fn max_per_category() -> usize {
    30
}

/// Why a job cannot start now, if it cannot: too many products per category, or another
/// job is running.
pub open spec fn start_error(options: RunOptions, busy: bool) -> Option<Seq<char>> {
    if options.products_per_category > max_per_category() {
        Some("每類產品上限需小於等於 30"@)
    } else if busy {
        Some("已有工作執行中"@)
    } else {
        None
    }
}

/// Checks that a job with these options may start while another one is (or is not) running.
pub fn start_check(options: &RunOptions, busy: bool) -> (r: Result<(), String>)
    ensures
        match r {
            Ok(()) => start_error(*options, busy) is None,
            Err(e) => start_error(*options, busy) == Some(e@),
        },
{
    if options.products_per_category > 30 {
        return Err(String::from_str("每類產品上限需小於等於 30"));
    }
    if busy {
        return Err(String::from_str("已有工作執行中"));
    }
    Ok(())
}

/// A new job under the stored settings, refused with the settings' error when they are
/// invalid.
pub fn open_job(settings: Settings, options: RunOptions) -> (r: Result<Job, String>)
    ensures
        match r {
            Ok(j) => settings_error(settings.categories@, settings.model@, settings.max_pages) is None
                && crate::models::is_hyphenated_uuid(j.id@)
                && j.status@ == "running"@
                && j.phase@ == "準備"@
                && j.finished_at is None
                && j.settings == settings
                && j.options == options
                && j.discovered == 0 && j.processed == 0 && j.succeeded == 0 && j.failed == 0
                && j.pages@.len() == 0 && j.candidates@.len() == 0 && j.products@.len() == 0
                && j.issues@.len() == 0,
            Err(e) => settings_error(settings.categories@, settings.model@, settings.max_pages) == Some(e@),
        },
{
    match settings.validate() {
        Ok(()) => Ok(Job::new(settings, options)),
        Err(e) => Err(e),
    }
}

/// The status and phase a job ends with: cancelled, failed, or completed (with errors when
/// it recorded issues).
pub open spec fn outcome(cancelled: bool, failed: bool, issues: nat) -> (Seq<char>, Seq<char>) {
    if cancelled {
        ("cancelled"@, "已取消，保留完成資料"@)
    } else if failed {
        ("failed"@, "工作失敗"@)
    } else if issues == 0 {
        ("completed"@, "完成"@)
    } else {
        ("completed_with_errors"@, "完成"@)
    }
}

/// The names of the stored copies of the `n`-th page of a job: `{category}/{id}/page-{n}`
/// with `.html` and `.txt`.
pub open spec fn page_file(category: Seq<char>, id: Seq<char>, n: nat, ext: Seq<char>) -> Seq<char> {
    category + "/"@ + id + "/page-"@ + decimal_spec(n) + ext
}

fn page_file_exec(category: &str, id: &str, n: usize, ext: &str) -> (r: String)
    ensures
        r@ == page_file(category@, id@, n as nat, ext@),
{
    let mut v: Vec<char> = Vec::new();
    push_str(&mut v, category);
    push_str(&mut v, "/");
    push_str(&mut v, id);
    push_str(&mut v, "/page-");
    push_decimal(&mut v, n as u64);
    push_str(&mut v, ext);
    string_from_chars(v.as_slice())
}

/// The file names the next page of a job is stored under: the HTML and its text.
pub fn page_files(job: &Job, category: &str) -> (r: (String, String))
    ensures
        r.0@ == page_file(category@, job.id@, job.pages@.len(), ".html"@),
        r.1@ == page_file(category@, job.id@, job.pages@.len(), ".txt"@),
{
    let n = job.pages.len();
    (page_file_exec(category, job.id.as_str(), n, ".html"), page_file_exec(category, job.id.as_str(), n, ".txt"))
}

/// Every field but the pages, issues, status, phase, end and current URL are as before.
pub open spec fn same_work(a: Job, b: Job) -> bool {
    &&& a.id == b.id
    &&& a.started_at == b.started_at
    &&& a.settings == b.settings
    &&& a.options == b.options
    &&& a.discovered == b.discovered
    &&& a.processed == b.processed
    &&& a.succeeded == b.succeeded
    &&& a.failed == b.failed
    &&& a.candidates == b.candidates
    &&& a.products == b.products
}

impl Job {
    /// A page may be downloaded while fewer pages than the budget have been.
    pub fn can_fetch(&self) -> (r: Result<(), String>)
        ensures
            match r {
                Ok(()) => self.pages@.len() < self.settings.max_pages,
                Err(e) => self.pages@.len() >= self.settings.max_pages && e@ == "已達頁數上限；此 URL 未下載"@,
            },
    {
        if self.pages.len() >= self.settings.max_pages {
            Err(String::from_str("已達頁數上限；此 URL 未下載"))
        } else {
            Ok(())
        }
    }

    /// Records a downloaded page with the digest of its HTML.
    pub fn add_page(&mut self, url: String, kind: &str, category: &str, fetched_at: String, files: (String, String), html: &str)
        ensures
            final(self).pages@ == old(self).pages@.push(final(self).pages@.last()),
            final(self).pages@.last().url == url,
            final(self).pages@.last().kind@ == kind@,
            final(self).pages@.last().category@ == category@,
            final(self).pages@.last().fetched_at == fetched_at,
            final(self).pages@.last().html_file == files.0,
            final(self).pages@.last().text_file == files.1,
            final(self).pages@.last().sha256@ == spec_sha256_hex(html@),
            same_work(*old(self), *final(self)),
            final(self).issues == old(self).issues,
            final(self).status == old(self).status,
            final(self).phase == old(self).phase,
            final(self).finished_at == old(self).finished_at,
            final(self).current_url == old(self).current_url,
    {
        let record = PageRecord {
            url,
            kind: String::from_str(kind),
            category: String::from_str(category),
            fetched_at,
            html_file: files.0,
            text_file: files.1,
            sha256: sha256_hex(html),
        };
        self.pages.push(record);
    }

    /// Ends the job: cancelled, failed (recording the error as an issue of stage `工作`), or
    /// completed, and stamps the end time.
    pub fn finish(&mut self, cancelled: bool, result: Result<(), String>, finished_at: String)
        ensures
            ({
                let failed = !cancelled && result is Err;
                &&& (failed ==> final(self).issues@.len() == old(self).issues@.len() + 1
                    && final(self).issues@.drop_last() == old(self).issues@
                    && final(self).issues@.last().url@ == ""@
                    && final(self).issues@.last().stage@ == "工作"@
                    && final(self).issues@.last().message@ == result->Err_0@)
                &&& (!failed ==> final(self).issues == old(self).issues)
                &&& (final(self).status@, final(self).phase@) == outcome(cancelled, failed, old(self).issues@.len())
            }),
            final(self).finished_at == Some(finished_at),
            same_work(*old(self), *final(self)),
            final(self).pages == old(self).pages,
            final(self).current_url == old(self).current_url,
    {
        if cancelled {
            self.status = String::from_str("cancelled");
            self.phase = String::from_str("已取消，保留完成資料");
        } else {
            match result {
                Err(e) => {
                    self.issue("", "工作", e.as_str());
                    self.status = String::from_str("failed");
                    self.phase = String::from_str("工作失敗");
                },
                Ok(()) => {
                    if self.issues.len() == 0 {
                        self.status = String::from_str("completed");
                    } else {
                        self.status = String::from_str("completed_with_errors");
                    }
                    self.phase = String::from_str("完成");
                },
            }
        }
        self.finished_at = Some(finished_at);
    }

    /// A job left running or cancelling by a stopped server is marked interrupted; other jobs
    /// are left alone. Tells whether it changed.
    pub fn interrupt(&mut self, finished_at: String) -> (changed: bool)
        ensures
            changed == (old(self).status@ == "running"@ || old(self).status@ == "cancelling"@),
            changed ==> final(self).status@ == "interrupted"@
                && final(self).phase@ == "伺服器重新啟動，工作已中斷"@
                && final(self).finished_at == Some(finished_at),
            !changed ==> *final(self) == *old(self),
            changed ==> same_work(*old(self), *final(self)) && final(self).pages == old(self).pages
                && final(self).issues == old(self).issues && final(self).current_url == old(self).current_url,
    {
        if str_eq(self.status.as_str(), "running") || str_eq(self.status.as_str(), "cancelling") {
            self.status = String::from_str("interrupted");
            self.phase = String::from_str("伺服器重新啟動，工作已中斷");
            self.finished_at = Some(finished_at);
            true
        } else {
            false
        }
    }
}

/// A candidate as plain values: category, URL, specification page, purchase page.
pub type CandV = (Seq<char>, Seq<char>, Option<Seq<char>>, Option<Seq<char>>);

pub open spec fn opt_chars(o: Option<String>) -> Option<Seq<char>> {
    match o {
        Some(s) => Some(s@),
        None => None,
    }
}

pub open spec fn cand_view(c: Candidate) -> CandV {
    (c.category@, c.url@, opt_chars(c.specs_url), opt_chars(c.buy_url))
}

pub open spec fn cand_views(cs: Seq<Candidate>) -> Seq<CandV> {
    cs.map_values(|c: Candidate| cand_view(c))
}

/// Some candidate already has this URL.
pub open spec fn has_url(cands: Seq<CandV>, url: Seq<char>) -> bool {
    exists|k: int| 0 <= k < cands.len() && (#[trigger] cands[k]).1 == url
}

/// The candidates after the links of a category page: each link that no candidate has yet
/// becomes a new candidate of that category, in link order.
pub open spec fn with_links(cands: Seq<CandV>, category: Seq<char>, links: Seq<Seq<char>>) -> Seq<CandV>
    decreases links.len(),
{
    if links.len() == 0 {
        cands
    } else {
        let c = with_links(cands, category, links.drop_last());
        if has_url(c, links.last()) {
            c
        } else {
            c.push((category, links.last(), None, None))
        }
    }
}

/// Adds the product pages found on a category page, skipping URLs already known.
pub fn add_candidates(cands: &mut Vec<Candidate>, category: &str, links: Vec<String>)
    ensures
        cand_views(final(cands)@) == with_links(cand_views(old(cands)@), category@, links@.map_values(|s: String| s@)),
{
    let ghost lv = links@.map_values(|s: String| s@);
    let ghost start = cand_views(cands@);
    let mut i: usize = 0;
    proof {
        assert(lv.take(0) =~= Seq::<Seq<char>>::empty());
    }
    while i < links.len()
        invariant
            i <= links@.len(),
            lv == links@.map_values(|s: String| s@),
            cand_views(cands@) == with_links(start, category@, lv.take(i as int)),
        decreases links.len() - i,
    {
        proof {
            assert(lv.take(i + 1).drop_last() =~= lv.take(i as int));
            assert(lv.take(i + 1).last() == links@[i as int]@);
        }
        let ghost cv = cand_views(cands@);
        let mut seen = false;
        let mut k: usize = 0;
        while k < cands.len()
            invariant
                k <= cands@.len(),
                i < links@.len(),
                cv == cand_views(cands@),
                seen == (exists|q: int| 0 <= q < k && (#[trigger] cv[q]).1 == links@[i as int]@),
            decreases cands.len() - k,
        {
            proof {
                assert(cv[k as int].1 == cands@[k as int].url@);
            }
            if str_eq(cands[k].url.as_str(), links[i].as_str()) {
                seen = true;
            }
            k += 1;
        }
        if !seen {
            let c = Candidate {
                category: String::from_str(category),
                url: links[i].clone(),
                specs_url: None,
                buy_url: None,
            };
            cands.push(c);
            proof {
                assert(cand_views(cands@) =~= cv.push((category@, links@[i as int]@, None, None)));
            }
        }
        i += 1;
    }
    proof {
        assert(lv.take(links@.len() as int) =~= lv);
    }
}

/// The position of the first candidate of `category`, or the length when there is none.
pub open spec fn first_of(rem: Seq<Candidate>, category: Seq<char>) -> int
    decreases rem.len(),
{
    if rem.len() == 0 {
        0
    } else if rem[0].category@ == category {
        0
    } else {
        1 + first_of(rem.drop_first(), category)
    }
}

/// Moves the first remaining candidate of `category`, if any, out of `rem`: what was taken,
/// and what remains.
pub open spec fn take_first(rem: Seq<Candidate>, category: Seq<char>) -> (Seq<Candidate>, Seq<Candidate>) {
    let k = first_of(rem, category);
    if k < rem.len() {
        (seq![rem[k]], rem.remove(k))
    } else {
        (Seq::empty(), rem)
    }
}

/// The first `j` steps of a round: one candidate of each listed category in turn.
pub open spec fn round_upto(rem: Seq<Candidate>, cats: Seq<Seq<char>>, j: int) -> (Seq<Candidate>, Seq<Candidate>)
    decreases j,
{
    if j <= 0 {
        (Seq::empty(), rem)
    } else {
        let (o, r) = round_upto(rem, cats, j - 1);
        let (t, r2) = take_first(r, cats[j - 1]);
        (o + t, r2)
    }
}

/// Round-robin by category: round after round, the next candidate of each listed category,
/// so that one category cannot use up the page budget first.
pub open spec fn round_robin_spec(rem: Seq<Candidate>, cats: Seq<Seq<char>>) -> Seq<Candidate>
    decreases rem.len(),
{
    if rem.len() == 0 {
        Seq::empty()
    } else {
        let (o, r) = round_upto(rem, cats, cats.len() as int);
        if r.len() < rem.len() {
            o + round_robin_spec(r, cats)
        } else {
            o
        }
    }
}

/// `category` is one of `cats`.
pub open spec fn listed(cats: Seq<Seq<char>>, category: Seq<char>) -> bool {
    exists|j: int| 0 <= j < cats.len() && cats[j] == category
}

/// Every candidate's category is listed.
pub open spec fn covered(rem: Seq<Candidate>, cats: Seq<Seq<char>>) -> bool {
    forall|i: int| 0 <= i < rem.len() ==> listed(cats, (#[trigger] rem[i]).category@)
}

proof fn lemma_first_of(rem: Seq<Candidate>, category: Seq<char>)
    ensures
        0 <= first_of(rem, category) <= rem.len(),
        first_of(rem, category) < rem.len() ==> rem[first_of(rem, category)].category@ == category,
        forall|i: int| 0 <= i < first_of(rem, category) ==> (#[trigger] rem[i]).category@ != category,
    decreases rem.len(),
{
    if rem.len() > 0 && rem[0].category@ != category {
        lemma_first_of(rem.drop_first(), category);
        assert forall|i: int| 0 <= i < first_of(rem, category) implies (#[trigger] rem[i]).category@ != category by {
            if i > 0 {
                assert(rem[i] == rem.drop_first()[i - 1]);
            }
        }
    }
}

proof fn lemma_take_first(rem: Seq<Candidate>, category: Seq<char>)
    ensures
        take_first(rem, category).1.len() <= rem.len(),
        take_first(rem, category).1.len() == rem.len() ==> take_first(rem, category).1 == rem,
        take_first(rem, category).1.len() + take_first(rem, category).0.len() == rem.len(),
        forall|i: int| 0 <= i < take_first(rem, category).1.len() ==> rem.contains(#[trigger] take_first(rem, category).1[i]),
{
    lemma_first_of(rem, category);
    let k = first_of(rem, category);
    if k < rem.len() {
        let r = rem.remove(k);
        assert forall|i: int| 0 <= i < r.len() implies rem.contains(#[trigger] r[i]) by {
            if i < k {
                assert(r[i] == rem[i]);
            } else {
                assert(r[i] == rem[i + 1]);
            }
        }
    }
}

proof fn lemma_round_upto(rem: Seq<Candidate>, cats: Seq<Seq<char>>, j: int)
    requires
        0 <= j <= cats.len(),
    ensures
        round_upto(rem, cats, j).1.len() <= rem.len(),
        round_upto(rem, cats, j).1.len() == rem.len() ==> round_upto(rem, cats, j).1 == rem,
        round_upto(rem, cats, j).0.len() + round_upto(rem, cats, j).1.len() == rem.len(),
        forall|i: int| 0 <= i < round_upto(rem, cats, j).1.len() ==> rem.contains(#[trigger] round_upto(rem, cats, j).1[i]),
    decreases j,
{
    if j > 0 {
        lemma_round_upto(rem, cats, j - 1);
        let r = round_upto(rem, cats, j - 1).1;
        lemma_take_first(r, cats[j - 1]);
        let r2 = take_first(r, cats[j - 1]).1;
        assert forall|i: int| 0 <= i < r2.len() implies rem.contains(#[trigger] r2[i]) by {
            assert(r.contains(r2[i]));
            let w = choose|w: int| 0 <= w < r.len() && r[w] == r2[i];
            assert(rem.contains(r[w]));
        }
    }
}

/// A round over covering categories moves at least one candidate.
proof fn lemma_round_progress(rem: Seq<Candidate>, cats: Seq<Seq<char>>)
    requires
        rem.len() > 0,
        covered(rem, cats),
    ensures
        round_upto(rem, cats, cats.len() as int).1.len() < rem.len(),
{
    assert(listed(cats, rem[0].category@));
    let j0 = choose|j: int| 0 <= j < cats.len() && cats[j] == rem[0].category@;
    lemma_round_upto(rem, cats, j0);
    let r = round_upto(rem, cats, j0).1;
    if r.len() == rem.len() {
        assert(r == rem);
        assert(first_of(rem, cats[j0]) == 0);
        lemma_take_first(r, cats[j0]);
    } else {
        lemma_take_first(r, cats[j0]);
    }
    assert(round_upto(rem, cats, j0 + 1).1.len() < rem.len());
    lemma_rounds_shrink(rem, cats, j0 + 1, cats.len() as int);
}

proof fn lemma_rounds_shrink(rem: Seq<Candidate>, cats: Seq<Seq<char>>, a: int, b: int)
    requires
        0 <= a <= b <= cats.len(),
    ensures
        round_upto(rem, cats, b).1.len() <= round_upto(rem, cats, a).1.len(),
    decreases b - a,
{
    if a < b {
        lemma_rounds_shrink(rem, cats, a, b - 1);
        lemma_take_first(round_upto(rem, cats, b - 1).1, cats[b - 1]);
    }
}

proof fn lemma_covered_sub(rem: Seq<Candidate>, r: Seq<Candidate>, cats: Seq<Seq<char>>)
    requires
        covered(rem, cats),
        forall|i: int| 0 <= i < r.len() ==> rem.contains(#[trigger] r[i]),
    ensures
        covered(r, cats),
{
    assert forall|i: int| 0 <= i < r.len() implies listed(cats, (#[trigger] r[i]).category@) by {
        assert(rem.contains(r[i]));
        let w = choose|w: int| 0 <= w < rem.len() && rem[w] == r[i];
        assert(listed(cats, rem[w].category@));
    }
}

fn take_first_exec(rem: &mut Vec<Candidate>, category: &str) -> (t: Option<Candidate>)
    ensures
        ({
            let (tk, r) = take_first(old(rem)@, category@);
            &&& final(rem)@ == r
            &&& match t {
                Some(c) => tk == seq![c],
                None => tk.len() == 0,
            }
        }),
{
    proof {
        lemma_first_of(rem@, category@);
    }
    let mut k: usize = 0;
    while k < rem.len()
        invariant
            k <= rem@.len(),
            rem@ == old(rem)@,
            forall|i: int| 0 <= i < k ==> (#[trigger] rem@[i]).category@ != category@,
        decreases rem.len() - k,
    {
        if str_eq(rem[k].category.as_str(), category) {
            proof {
                assert(first_of(rem@, category@) == k) by {
                    lemma_first_of(rem@, category@);
                    let f = first_of(rem@, category@);
                    if f < k {
                        assert(rem@[f].category@ == category@);
                    }
                }
            }
            let c = rem.remove(k);
            return Some(c);
        }
        k += 1;
    }
    None
}

/// Orders the candidates round-robin by category (see [`round_robin_spec`]).
pub fn round_robin(categories: &Vec<String>, candidates: Vec<Candidate>) -> (r: Vec<Candidate>)
    requires
        covered(candidates@, categories@.map_values(|s: String| s@)),
    ensures
        r@ == round_robin_spec(candidates@, categories@.map_values(|s: String| s@)),
{
    let ghost cats = categories@.map_values(|s: String| s@);
    let mut rem = candidates;
    let mut out: Vec<Candidate> = Vec::new();
    while rem.len() > 0
        invariant
            cats == categories@.map_values(|s: String| s@),
            covered(rem@, cats),
            out@ + round_robin_spec(rem@, cats) == round_robin_spec(candidates@, cats),
        decreases rem@.len(),
    {
        let ghost start = rem@;
        proof {
            lemma_round_progress(start, cats);
            lemma_round_upto(start, cats, cats.len() as int);
        }
        let ghost out0 = out@;
        let mut j: usize = 0;
        while j < categories.len()
            invariant
                cats == categories@.map_values(|s: String| s@),
                j <= categories@.len(),
                rem@ == round_upto(start, cats, j as int).1,
                out@ == out0 + round_upto(start, cats, j as int).0,
            decreases categories.len() - j,
        {
            let t = take_first_exec(&mut rem, categories[j].as_str());
            match t {
                Some(c) => {
                    out.push(c);
                },
                None => {},
            }
            proof {
                assert(out@ =~= out0 + round_upto(start, cats, j + 1).0);
            }
            j += 1;
        }
        proof {
            lemma_covered_sub(start, rem@, cats);
            assert(out0 + round_robin_spec(start, cats) == out@ + round_robin_spec(rem@, cats));
        }
    }
    proof {
        assert(out@ + Seq::<Candidate>::empty() =~= out@);
    }
    out
}

/// How many of the planned candidates are of `category`.
pub open spec fn planned_in(cands: Seq<CandV>, plan: Seq<int>, category: Seq<char>) -> nat
    decreases plan.len(),
{
    if plan.len() == 0 {
        0
    } else {
        planned_in(cands, plan.drop_last(), category) + (if cands[plan.last()].0 == category {
            1nat
        } else {
            0nat
        })
    }
}

/// The candidates extracted, by position and in order: those with a specification page, at
/// most `limit` per category when `limit` is not 0.
pub open spec fn plan_spec(cands: Seq<CandV>, limit: nat) -> Seq<int>
    decreases cands.len(),
{
    if cands.len() == 0 {
        Seq::empty()
    } else {
        let i = cands.len() - 1;
        let p = plan_spec(cands.drop_last(), limit);
        let c = cands[i];
        if c.2 is Some && (limit == 0 || planned_in(cands, p, c.0) < limit) {
            p.push(i)
        } else {
            p
        }
    }
}

proof fn lemma_plan_range(cands: Seq<CandV>, limit: nat)
    ensures
        forall|k: int| 0 <= k < plan_spec(cands, limit).len() ==> 0 <= #[trigger] plan_spec(cands, limit)[k] < cands.len(),
        plan_spec(cands, limit).len() <= cands.len(),
    decreases cands.len(),
{
    if cands.len() > 0 {
        lemma_plan_range(cands.drop_last(), limit);
    }
}

proof fn lemma_planned_prefix(cands: Seq<CandV>, more: CandV, plan: Seq<int>, category: Seq<char>)
    requires
        forall|k: int| 0 <= k < plan.len() ==> 0 <= #[trigger] plan[k] < cands.len(),
    ensures
        planned_in(cands.push(more), plan, category) == planned_in(cands, plan, category),
    decreases plan.len(),
{
    if plan.len() > 0 {
        lemma_planned_prefix(cands, more, plan.drop_last(), category);
        assert(cands.push(more)[plan.last()] == cands[plan.last()]);
    }
}

/// The positions of the candidates to extract (see [`plan_spec`]).
pub fn extraction_plan(cands: &Vec<Candidate>, limit: usize) -> (r: Vec<usize>)
    ensures
        r@.map_values(|k: usize| k as int) == plan_spec(cand_views(cands@), limit as nat),
{
    let ghost cv = cand_views(cands@);
    let mut out: Vec<usize> = Vec::new();
    let mut i: usize = 0;
    proof {
        assert(cv.take(0) =~= Seq::<CandV>::empty());
        assert(out@.map_values(|k: usize| k as int) =~= Seq::<int>::empty());
    }
    while i < cands.len()
        invariant
            i <= cands@.len(),
            cv == cand_views(cands@),
            out@.map_values(|k: usize| k as int) == plan_spec(cv.take(i as int), limit as nat),
            forall|k: int| 0 <= k < out@.len() ==> #[trigger] out@[k] < i,
        decreases cands.len() - i,
    {
        let ghost pv = out@.map_values(|k: usize| k as int);
        let ghost pre = cv.take(i as int);
        proof {
            assert(cv.take(i + 1).drop_last() =~= pre);
            assert(cv.take(i + 1)[i as int] == cv[i as int]);
            lemma_plan_range(pre, limit as nat);
            lemma_planned_prefix(pre, cv[i as int], pv, cv[i as int].0);
            assert(cv.take(i + 1) =~= pre.push(cv[i as int]));
        }
        if cands[i].specs_url.is_some() {
            let mut count: usize = 0;
            let mut k: usize = 0;
            proof {
                assert(pv.take(0) =~= Seq::<int>::empty());
            }
            while k < out.len()
                invariant
                    k <= out@.len(),
                    i < cands@.len(),
                    pv == out@.map_values(|q: usize| q as int),
                    cv == cand_views(cands@),
                    forall|q: int| 0 <= q < out@.len() ==> #[trigger] out@[q] < i,
                    count as nat == planned_in(cv, pv.take(k as int), cv[i as int].0),
                    count <= k,
                decreases out.len() - k,
            {
                proof {
                    assert(pv.take(k + 1).drop_last() =~= pv.take(k as int));
                    assert(pv.take(k + 1).last() == out@[k as int] as int);
                    assert(cv[out@[k as int] as int].0 == cands@[out@[k as int] as int].category@);
                }
                if str_eq(cands[out[k]].category.as_str(), cands[i].category.as_str()) {
                    count += 1;
                }
                k += 1;
            }
            proof {
                assert(pv.take(out@.len() as int) =~= pv);
                lemma_planned_prefix_full(cv, pv, i as int);
            }
            if limit == 0 || count < limit {
                out.push(i);
                proof {
                    assert(out@.map_values(|q: usize| q as int) =~= pv.push(i as int));
                }
            }
        }
        i += 1;
    }
    proof {
        assert(cv.take(cands@.len() as int) =~= cv);
    }
    out
}

proof fn lemma_planned_prefix_full(cv: Seq<CandV>, pv: Seq<int>, i: int)
    requires
        0 <= i < cv.len(),
        forall|q: int| 0 <= q < pv.len() ==> 0 <= #[trigger] pv[q] < i,
    ensures
        planned_in(cv, pv, cv[i].0) == planned_in(cv.take(i + 1), pv, cv[i].0),
    decreases pv.len(),
{
    if pv.len() > 0 {
        lemma_planned_prefix_full(cv, pv.drop_last(), i);
        assert(cv.take(i + 1)[pv.last()] == cv[pv.last()]);
    }
}

impl Job {
    /// Records that a candidate without a specification page was found, if it was.
    pub fn note_resolution(&mut self, index: usize)
        requires
            index < old(self).candidates@.len(),
        ensures
            old(self).candidates@[index as int].specs_url is None ==> final(self).issues@ == old(self).issues@.push(final(self).issues@.last())
                && final(self).issues@.last().url@ == old(self).candidates@[index as int].url@
                && final(self).issues@.last().stage@ == "探索"@
                && final(self).issues@.last().message@ == "未找到直接技術規格連結"@,
            old(self).candidates@[index as int].specs_url is Some ==> final(self).issues == old(self).issues,
            same_work(*old(self), *final(self)),
            final(self).pages == old(self).pages,
            final(self).status == old(self).status,
            final(self).phase == old(self).phase,
    {
        if self.candidates[index].specs_url.is_none() {
            let url = self.candidates[index].url.clone();
            self.issue(url.as_str(), "探索", "未找到直接技術規格連結");
            proof {
                assert(self.issues@ =~= old(self).issues@.push(self.issues@.last()));
            }
        }
    }
}

/// A job can be cancelled only while it is the active one.
pub fn cancel_check(active: Option<&str>, id: &str) -> (r: Result<(), String>)
    ensures
        match r {
            Ok(()) => active is Some && active->0@ == id@,
            Err(e) => !(active is Some && active->0@ == id@) && e@ == "此工作目前未執行"@,
        },
{
    match active {
        Some(a) => if str_eq(a, id) {
            Ok(())
        } else {
            Err(String::from_str("此工作目前未執行"))
        },
        None => Err(String::from_str("此工作目前未執行")),
    }
}

/// Whether `name` is one of `names`.
pub fn lists(names: &Vec<String>, name: &str) -> (r: bool)
    ensures
        r == exists|i: int| 0 <= i < names@.len() && (#[trigger] names@[i])@ == name@,
{
    let mut i: usize = 0;
    while i < names.len()
        invariant
            i <= names@.len(),
            forall|k: int| 0 <= k < i ==> (#[trigger] names@[k])@ != name@,
        decreases names.len() - i,
    {
        if str_eq(names[i].as_str(), name) {
            return true;
        }
        i += 1;
    }
    false
}

/// A job that labels specifications needs its model among the installed ones.
pub fn check_model(installed: &Vec<String>, model: &str) -> (r: Result<(), String>)
    ensures
        match r {
            Ok(()) => exists|i: int| 0 <= i < installed@.len() && (#[trigger] installed@[i])@ == model@,
            Err(e) => !(exists|i: int| 0 <= i < installed@.len() && (#[trigger] installed@[i])@ == model@)
                && e@ == "設定模型不在 Ollama 已安裝清單中"@,
        },
{
    if lists(installed, model) {
        Ok(())
    } else {
        Err(String::from_str("設定模型不在 Ollama 已安裝清單中"))
    }
}

impl Job {
    /// Whether the job needs the model server: every job but one that only discovers.
    pub fn needs_model(&self) -> (r: bool)
        ensures
            r == !self.options.discovery_only,
    {
        !self.options.discovery_only
    }
}

impl Job {
    /// Ends discovery: the candidates are ordered round-robin by the job's categories (so
    /// that one category cannot use up the page budget first) and counted.
    pub fn settle_candidates(&mut self)
        requires
            covered(old(self).candidates@, old(self).settings.categories@.map_values(|s: String| s@)),
        ensures
            final(self).candidates@ == round_robin_spec(old(self).candidates@, old(self).settings.categories@.map_values(|s: String| s@)),
            final(self).discovered == final(self).candidates@.len(),
            *final(self) == (Job { candidates: final(self).candidates, discovered: final(self).discovered, ..*old(self) }),
    {
        let mut found: Vec<Candidate> = Vec::new();
        std::mem::swap(&mut found, &mut self.candidates);
        self.candidates = round_robin(&self.settings.categories, found);
        self.discovered = self.candidates.len();
    }
}

/// Where a product's prices come from.
pub enum PriceSource {
    /// The prices already at hand (those of the product page, possibly none).
    Known(Vec<Price>),
    /// None at hand: the purchase page at this URL is to be downloaded and read.
    Fetch(String),
}

/// The product page's own prices when it has any; otherwise the purchase page, when there is
/// one; otherwise no price.
pub fn price_source(product_prices: Vec<Price>, buy_url: &Option<String>) -> (r: PriceSource)
    ensures
        (product_prices@.len() > 0 || buy_url is None) ==> r == PriceSource::Known(product_prices),
        (product_prices@.len() == 0 && buy_url is Some) ==> r == PriceSource::Fetch(buy_url->0),
{
    if product_prices.len() > 0 {
        return PriceSource::Known(product_prices);
    }
    match buy_url {
        Some(u) => PriceSource::Fetch(u.clone()),
        None => PriceSource::Known(product_prices),
    }
}

/// The message of a specification page with no readable block.
pub open spec fn no_blocks_error() -> Seq<char> {
    "HTML 無可讀規格；可能需要瀏覽器或解析器更新"@
}

/// A specification page's blocks, or the failure of an extraction that found none.
pub fn readable_blocks(blocks: Vec<Block>) -> (r: Result<Vec<Block>, String>)
    ensures
        blocks@.len() > 0 ==> r == Ok::<Vec<Block>, String>(blocks),
        blocks@.len() == 0 ==> r is Err && r->Err_0@ == no_blocks_error(),
{
    if blocks.len() == 0 {
        Err(String::from_str("HTML 無可讀規格；可能需要瀏覽器或解析器更新"))
    } else {
        Ok(blocks)
    }
}

impl Job {
    /// The prices read from a downloaded purchase page; a failed download is recorded as an
    /// issue of stage `售價` and leaves the product without a price.
    pub fn note_price_fetch(&mut self, buy_url: &str, fetched: Result<Vec<Price>, String>) -> (r: Vec<Price>)
        ensures
            match fetched {
                Ok(ps) => r == ps && *final(self) == *old(self),
                Err(e) => r@.len() == 0
                    && final(self).issues@ == old(self).issues@.push(final(self).issues@.last())
                    && final(self).issues@.last().url@ == buy_url@
                    && final(self).issues@.last().stage@ == "售價"@
                    && final(self).issues@.last().message@ == e@
                    && same_work(*old(self), *final(self))
                    && final(self).pages == old(self).pages
                    && final(self).status == old(self).status
                    && final(self).phase == old(self).phase,
            },
    {
        match fetched {
            Ok(ps) => ps,
            Err(e) => {
                self.issue(buy_url, "售價", e.as_str());
                proof {
                    assert(self.issues@ =~= old(self).issues@.push(self.issues@.last()));
                }
                Vec::new()
            },
        }
    }

    /// Moves on from discovery to extraction, unless the job only discovers; tells whether it
    /// did.
    pub fn start_extraction(&mut self) -> (r: bool)
        ensures
            r == !old(self).options.discovery_only,
            r ==> *final(self) == (Job { phase: final(self).phase, ..*old(self) }) && final(self).phase@ == "抽取產品規格"@,
            !r ==> *final(self) == *old(self),
    {
        if self.options.discovery_only {
            false
        } else {
            self.phase = String::from_str("抽取產品規格");
            true
        }
    }

    /// Counts an extraction attempt as it starts; its number names the attempt's folder.
    pub fn begin_extraction(&mut self) -> (n: usize)
        requires
            old(self).processed < usize::MAX,
        ensures
            n == old(self).processed + 1,
            *final(self) == (Job { processed: n, ..*old(self) }),
    {
        self.processed = self.processed + 1;
        self.processed
    }

    /// Records how an extraction attempt ended: a product is kept and counted as a success; a
    /// failure is counted and recorded as an issue of stage `抽取` against the specification page.
    pub fn record_extraction(&mut self, result: Result<Product, String>, specs_url: &str)
        requires
            old(self).succeeded < usize::MAX,
            old(self).failed < usize::MAX,
        ensures
            match result {
                Ok(p) => *final(self) == (Job {
                    succeeded: (old(self).succeeded + 1) as usize,
                    products: final(self).products,
                    ..*old(self)
                }) && final(self).products@ == old(self).products@.push(p),
                Err(e) => *final(self) == (Job {
                    failed: (old(self).failed + 1) as usize,
                    issues: final(self).issues,
                    ..*old(self)
                }) && final(self).issues@ == old(self).issues@.push(final(self).issues@.last())
                    && final(self).issues@.last().url@ == specs_url@
                    && final(self).issues@.last().stage@ == "抽取"@
                    && final(self).issues@.last().message@ == e@,
            },
    {
        match result {
            Ok(p) => {
                self.succeeded = self.succeeded + 1;
                self.products.push(p);
            },
            Err(e) => {
                self.failed = self.failed + 1;
                self.issue(specs_url, "抽取", e.as_str());
                proof {
                    assert(self.issues@ =~= old(self).issues@.push(self.issues@.last()));
                }
            },
        }
    }
}

proof fn lemma_take_first_keeps(rem: Seq<Candidate>, category: Seq<char>)
    ensures
        take_first(rem, category).0.to_multiset().add(take_first(rem, category).1.to_multiset()) == rem.to_multiset(),
{
    broadcast use vstd::multiset::group_multiset_axioms, vstd::seq_lib::group_to_multiset_ensures;

    lemma_first_of(rem, category);
    let k = first_of(rem, category);
    if k < rem.len() {
        let x = rem[k];
        assert(seq![x] =~= Seq::<Candidate>::empty().push(x));
        assert(seq![x].to_multiset() =~= Multiset::<Candidate>::empty().insert(x));
        assert(rem.to_multiset().count(x) > 0) by {
            assert(rem.contains(x));
        }
        assert(Multiset::<Candidate>::empty().insert(x).add(rem.to_multiset().remove(x)) =~= rem.to_multiset());
    } else {
        assert(Seq::<Candidate>::empty().to_multiset() =~= Multiset::<Candidate>::empty());
        assert(Multiset::<Candidate>::empty().add(rem.to_multiset()) =~= rem.to_multiset());
    }
}

proof fn lemma_round_keeps(rem: Seq<Candidate>, cats: Seq<Seq<char>>, j: int)
    requires
        0 <= j <= cats.len(),
    ensures
        round_upto(rem, cats, j).0.to_multiset().add(round_upto(rem, cats, j).1.to_multiset()) == rem.to_multiset(),
    decreases j,
{
    broadcast use vstd::multiset::group_multiset_axioms, vstd::seq_lib::group_to_multiset_ensures;

    if j <= 0 {
        assert(Seq::<Candidate>::empty().to_multiset() =~= Multiset::<Candidate>::empty());
        assert(Multiset::<Candidate>::empty().add(rem.to_multiset()) =~= rem.to_multiset());
    } else {
        lemma_round_keeps(rem, cats, j - 1);
        let (o, r) = round_upto(rem, cats, j - 1);
        lemma_take_first_keeps(r, cats[j - 1]);
        let (t, r2) = take_first(r, cats[j - 1]);
        vstd::seq_lib::lemma_multiset_commutative(o, t);
        assert(o.to_multiset().add(t.to_multiset()).add(r2.to_multiset()) =~= o.to_multiset().add(t.to_multiset().add(r2.to_multiset())));
    }
}

/// Round-robin ordering reorders the candidates and does nothing else: every candidate comes
/// out exactly as often as it went in.
pub proof fn law_round_robin_permutes(rem: Seq<Candidate>, cats: Seq<Seq<char>>)
    requires
        covered(rem, cats),
    ensures
        round_robin_spec(rem, cats).to_multiset() == rem.to_multiset(),
    decreases rem.len(),
{
    broadcast use vstd::multiset::group_multiset_axioms, vstd::seq_lib::group_to_multiset_ensures;

    if rem.len() == 0 {
        assert(round_robin_spec(rem, cats) =~= rem);
    } else {
        lemma_round_progress(rem, cats);
        lemma_round_upto(rem, cats, cats.len() as int);
        lemma_round_keeps(rem, cats, cats.len() as int);
        let (o, r) = round_upto(rem, cats, cats.len() as int);
        lemma_covered_sub(rem, r, cats);
        law_round_robin_permutes(r, cats);
        vstd::seq_lib::lemma_multiset_commutative(o, round_robin_spec(r, cats));
    }
}

/// Extraction respects the options: only candidates with a specification page are
/// extracted, each at most once and in discovery order, and no category has more than the
/// limit when there is one.
pub proof fn law_plan_limits(cands: Seq<CandV>, limit: nat)
    ensures
        forall|k: int| 0 <= k < plan_spec(cands, limit).len() ==> {
            let i = #[trigger] plan_spec(cands, limit)[k];
            0 <= i < cands.len() && cands[i].2 is Some
        },
        forall|a: int, b: int| 0 <= a < b < plan_spec(cands, limit).len() ==> #[trigger] plan_spec(cands, limit)[a] < #[trigger] plan_spec(cands, limit)[b],
        limit > 0 ==> forall|c: Seq<char>| #[trigger] planned_in(cands, plan_spec(cands, limit), c) <= limit,
    decreases cands.len(),
{
    if cands.len() > 0 {
        let front = cands.drop_last();
        law_plan_limits(front, limit);
        lemma_plan_range(front, limit);
        let p = plan_spec(front, limit);
        let i = cands.len() - 1;
        assert forall|k: int| 0 <= k < p.len() implies 0 <= #[trigger] p[k] < front.len() && cands[p[k]] == front[p[k]] by {
        }
        lemma_planned_prefix(front, cands[i], p, cands[i].0);
        if limit > 0 {
            assert forall|c: Seq<char>| #[trigger] planned_in(cands, plan_spec(cands, limit), c) <= limit by {
                lemma_planned_prefix(front, cands[i], p, c);
                assert(cands =~= front.push(cands[i]));
                let q = plan_spec(cands, limit);
                if q.len() > p.len() {
                    assert(q.drop_last() =~= p);
                    assert(q.last() == i);
                }
            }
        }
    }
}

/// No two candidates share a URL.
pub open spec fn distinct_urls(cands: Seq<CandV>) -> bool {
    forall|a: int, b: int| 0 <= a < b < cands.len() ==> (#[trigger] cands[a]).1 != (#[trigger] cands[b]).1
}

/// Merging a category page's links never creates two candidates for one page.
pub proof fn law_candidates_distinct(cands: Seq<CandV>, category: Seq<char>, links: Seq<Seq<char>>)
    requires
        distinct_urls(cands),
    ensures
        distinct_urls(with_links(cands, category, links)),
    decreases links.len(),
{
    if links.len() > 0 {
        law_candidates_distinct(cands, category, links.drop_last());
        let c = with_links(cands, category, links.drop_last());
        if !has_url(c, links.last()) {
            let d = c.push((category, links.last(), None, None));
            assert forall|a: int, b: int| 0 <= a < b < d.len() implies (#[trigger] d[a]).1 != (#[trigger] d[b]).1 by {
                if b == c.len() {
                    assert(d[a] == c[a]);
                } else {
                    assert(d[a] == c[a] && d[b] == c[b]);
                }
            }
        }
    }
}

/// The candidates discovery gathers from the category pages, in the order of `cats`: the
/// links found on each category's page merged in turn (see [`with_links`]).
pub open spec fn gathered(cats: Seq<Seq<char>>, links: Seq<Seq<Seq<char>>>) -> Seq<CandV>
    decreases cats.len(),
{
    if cats.len() == 0 || links.len() == 0 {
        Seq::empty()
    } else {
        with_links(gathered(cats.drop_last(), links.drop_last()), cats.last(), links.last())
    }
}

proof fn lemma_with_links_category(cands: Seq<CandV>, category: Seq<char>, links: Seq<Seq<char>>)
    ensures
        forall|i: int| 0 <= i < with_links(cands, category, links).len() ==> i < cands.len()
            && with_links(cands, category, links)[i] == cands[i]
            || (#[trigger] with_links(cands, category, links)[i]).0 == category,
        with_links(cands, category, links).len() >= cands.len(),
    decreases links.len(),
{
    if links.len() > 0 {
        lemma_with_links_category(cands, category, links.drop_last());
    }
}

proof fn lemma_gathered(cats: Seq<Seq<char>>, links: Seq<Seq<Seq<char>>>)
    requires
        cats.len() == links.len(),
    ensures
        distinct_urls(gathered(cats, links)),
        forall|i: int| 0 <= i < gathered(cats, links).len() ==> listed(cats, (#[trigger] gathered(cats, links)[i]).0),
    decreases cats.len(),
{
    if cats.len() > 0 {
        let (fc, fl) = (cats.drop_last(), links.drop_last());
        lemma_gathered(fc, fl);
        let g = gathered(fc, fl);
        law_candidates_distinct(g, cats.last(), links.last());
        lemma_with_links_category(g, cats.last(), links.last());
        let h = gathered(cats, links);
        assert forall|i: int| 0 <= i < h.len() implies listed(cats, (#[trigger] h[i]).0) by {
            if i < g.len() && h[i] == g[i] {
                assert(listed(fc, g[i].0));
                let j = choose|j: int| 0 <= j < fc.len() && fc[j] == g[i].0;
                assert(cats[j] == fc[j]);
            } else {
                assert(cats[cats.len() - 1] == cats.last());
            }
        }
    }
}

/// Discovery's candidates: the links of every category page, each page once, kept in the
/// order of their categories' pages; ordering them round-robin by category reorders them
/// and does nothing else, so every page still comes once.
pub proof fn law_discovery_merge(cats: Seq<Seq<char>>, links: Seq<Seq<Seq<char>>>, cs: Seq<Candidate>)
    requires
        cats.len() == links.len(),
        cand_views(cs) == gathered(cats, links),
    ensures
        distinct_urls(cand_views(cs)),
        covered(cs, cats),
        round_robin_spec(cs, cats).to_multiset() == cs.to_multiset(),
        distinct_urls(cand_views(round_robin_spec(cs, cats))),
{
    broadcast use vstd::multiset::group_multiset_axioms, vstd::seq_lib::group_to_multiset_ensures;

    lemma_gathered(cats, links);
    let cv = cand_views(cs);
    assert forall|i: int| 0 <= i < cs.len() implies listed(cats, (#[trigger] cs[i]).category@) by {
        assert(cv[i] == cand_view(cs[i]));
    }
    law_round_robin_permutes(cs, cats);
    let m = round_robin_spec(cs, cats);
    assert(cs.no_duplicates()) by {
        assert forall|i: int, j: int| 0 <= i < cs.len() && 0 <= j < cs.len() && i != j implies cs[i] != cs[j] by {
            assert(cv[i] == cand_view(cs[i]) && cv[j] == cand_view(cs[j]));
            if i < j {
                assert(cv[i].1 != cv[j].1);
            } else {
                assert(cv[j].1 != cv[i].1);
            }
        }
    }
    cs.lemma_multiset_has_no_duplicates();
    m.lemma_multiset_has_no_duplicates_conv();
    let mv = cand_views(m);
    assert forall|a: int, b: int| 0 <= a < b < mv.len() implies (#[trigger] mv[a]).1 != (#[trigger] mv[b]).1 by {
        assert(mv[a] == cand_view(m[a]) && mv[b] == cand_view(m[b]));
        assert(m.to_multiset().contains(m[a]));
        assert(m.to_multiset().contains(m[b]));
        assert(cs.contains(m[a]));
        assert(cs.contains(m[b]));
        let p = choose|p: int| 0 <= p < cs.len() && cs[p] == m[a];
        let q = choose|q: int| 0 <= q < cs.len() && cs[q] == m[b];
        assert(m[a] != m[b]);
        assert(p != q);
        assert(cv[p] == cand_view(cs[p]) && cv[q] == cand_view(cs[q]));
        if p < q {
            assert(cv[p].1 != cv[q].1);
        } else {
            assert(cv[q].1 != cv[p].1);
        }
    }
}

/// The extraction counters agree: every counted attempt ended as a success or a failure, and
/// every success kept its product.
pub open spec fn counts_agree(j: Job) -> bool {
    &&& j.processed == j.succeeded + j.failed
    &&& j.products@.len() == j.succeeded
}

/// A new job's counters agree, and steps that keep a job's work (see [`same_work`]) keep them
/// agreeing.
pub proof fn law_counts_kept(a: Job, b: Job)
    requires
        counts_agree(a),
        same_work(a, b),
    ensures
        counts_agree(b),
{
}

/// An extraction attempt counted by [`Job::begin_extraction`] and recorded by
/// [`Job::record_extraction`] leaves the counters agreeing, as they did before it: a success
/// adds one success and its product, a failure one failure.
pub proof fn law_extraction_counts(before: Job, begun: Job, outcome: Result<Product, String>, after: Job)
    requires
        counts_agree(before),
        before.processed < usize::MAX && before.succeeded < usize::MAX && before.failed < usize::MAX,
        begun == (Job { processed: (before.processed + 1) as usize, ..before }),
        match outcome {
            Ok(p) => after == (Job { succeeded: (begun.succeeded + 1) as usize, products: after.products, ..begun })
                && after.products@ == begun.products@.push(p),
            Err(_) => after == (Job { failed: (begun.failed + 1) as usize, issues: after.issues, ..begun }),
        },
    ensures
        counts_agree(after),
{
}

} // verus!
