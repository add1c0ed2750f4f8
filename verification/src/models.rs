//! Records shared by the crawler, the store and the HTTP API.
use vstd::prelude::*;
use crate::text::{str_eq, utf8_len, utf8_longer_than};

verus! {

/// The product categories the crawler knows.
pub open spec fn is_category(s: Seq<char>) -> bool {
    s == "iphone"@ || s == "mac"@ || s == "ipad"@ || s == "watch"@ || s == "airpods"@
}

/// Whether `s` names one of the five product categories.
pub fn is_category_name(s: &str) -> (r: bool)
    ensures
        r == is_category(s@),
{
    str_eq(s, "iphone") || str_eq(s, "mac") || str_eq(s, "ipad") || str_eq(s, "watch")
        || str_eq(s, "airpods")
}

/// The five categories in their canonical order.
pub fn category_names() -> (v: Vec<String>)
    ensures
        v@.len() == 5,
        v@[0]@ == "iphone"@,
        v@[1]@ == "mac"@,
        v@[2]@ == "ipad"@,
        v@[3]@ == "watch"@,
        v@[4]@ == "airpods"@,
{
    let mut v = Vec::new();
    v.push(String::from_str("iphone"));
    v.push(String::from_str("mac"));
    v.push(String::from_str("ipad"));
    v.push(String::from_str("watch"));
    v.push(String::from_str("airpods"));
    v
}

/// What a crawl job is allowed to do.
#[derive(Debug, Clone)]
pub struct Settings {
    pub categories: Vec<String>,
    pub model: String,
    pub max_pages: usize,
}

/// The error `Settings::validate` reports, if any.
pub open spec fn settings_error(categories: Seq<String>, model: Seq<char>, max_pages: usize) -> Option<
    Seq<char>,
> {
    if categories.len() == 0 || exists|i: int|
        0 <= i < categories.len() && !is_category(#[trigger] categories[i]@) {
        Some("請選擇有效產品類別"@)
    } else if !(5 <= max_pages && max_pages <= 300) {
        Some("頁數上限需介於 5 至 300"@)
    } else if model.len() == 0 || utf8_len(model) > 150 {
        Some("請選擇模型"@)
    } else {
        None
    }
}

impl Settings {
    /// The defaults: all five categories, the default local model and a budget of 100 pages.
    pub fn default_settings() -> (s: Settings)
        ensures
            s.categories@.len() == 5,
            s.categories@[0]@ == "iphone"@,
            s.categories@[1]@ == "mac"@,
            s.categories@[2]@ == "ipad"@,
            s.categories@[3]@ == "watch"@,
            s.categories@[4]@ == "airpods"@,
            s.model@ == "qwen2.5-coder:14b"@,
            s.max_pages == 100,
    {
        Settings {
            categories: category_names(),
            model: String::from_str("qwen2.5-coder:14b"),
            max_pages: 100,
        }
    }

    /// Checks categories, page budget (5 to 300) and model name (1 to 150 bytes), in that order.
    pub fn validate(&self) -> (r: Result<(), String>)
        ensures
            match r {
                Ok(()) => settings_error(self.categories@, self.model@, self.max_pages) is None,
                Err(e) => settings_error(self.categories@, self.model@, self.max_pages)
                    == Some(e@),
            },
    {
        let n = self.categories.len();
        let mut ok = n > 0;
        let mut i: usize = 0;
        while i < n
            invariant
                n == self.categories@.len(),
                i <= n,
                ok == (n > 0 && forall|k: int| 0 <= k < i ==> is_category(#[trigger] self.categories@[k]@)),
            decreases n - i,
        {
            if !is_category_name(self.categories[i].as_str()) {
                ok = false;
            }
            i += 1;
        }
        if !ok {
            return Err(String::from_str("請選擇有效產品類別"));
        }
        if !(5 <= self.max_pages && self.max_pages <= 300) {
            return Err(String::from_str("頁數上限需介於 5 至 300"));
        }
        if self.model.as_str().is_empty() || utf8_longer_than(self.model.as_str(), 150) {
            return Err(String::from_str("請選擇模型"));
        }
        Ok(())
    }
}

impl Default for Settings {
    fn default() -> (s: Settings)
        ensures
            s.categories@.len() == 5,
            s.categories@[0]@ == "iphone"@,
            s.categories@[1]@ == "mac"@,
            s.categories@[2]@ == "ipad"@,
            s.categories@[3]@ == "watch"@,
            s.categories@[4]@ == "airpods"@,
            s.model@ == "qwen2.5-coder:14b"@,
            s.max_pages == 100,
    {
        Settings::default_settings()
    }
}

/// How much of the crawl a job performs.
#[derive(Debug, Clone)]
pub struct RunOptions {
    pub discovery_only: bool,
    /// Extraction limit per category; 0 means every candidate with a specification link.
    pub products_per_category: usize,
}

impl Default for RunOptions {
    fn default() -> (r: RunOptions)
        ensures
            !r.discovery_only,
            r.products_per_category == 0,
    {
        RunOptions { discovery_only: false, products_per_category: 0 }
    }
}

/// A problem met while crawling.
#[derive(Debug, Clone)]
pub struct Issue {
    pub url: String,
    pub stage: String,
    pub message: String,
}

/// One downloaded page and where its copies were stored.
#[derive(Debug, Clone)]
pub struct PageRecord {
    pub url: String,
    pub kind: String,
    pub category: String,
    pub fetched_at: String,
    pub html_file: String,
    pub text_file: String,
    pub sha256: String,
}

/// A product page found on a category page.
#[derive(Debug, Clone)]
pub struct Candidate {
    pub category: String,
    pub url: String,
    pub specs_url: Option<String>,
    pub buy_url: Option<String>,
}

/// One piece of source text taken from a specification page.
#[derive(Debug, Clone)]
pub struct Block {
    pub id: usize,
    pub section: String,
    pub model_hint: Option<String>,
    pub context: String,
    pub text: String,
}

/// An official starting price in New Taiwan dollars; the amount is canonical decimal text
/// (no leading or trailing zeros, no exponent), exactly as stated by the page.
#[derive(Debug, Clone)]
pub struct Price {
    pub amount: String,
    pub currency: String,
    pub source_url: String,
    pub source_name: String,
    pub evidence: String,
    pub scope: String,
}

/// A labelled specification whose value and evidence are copied from one block.
#[derive(Debug, Clone)]
pub struct Specification {
    pub block_id: usize,
    pub section: String,
    pub label: String,
    pub value: String,
    pub model: Option<String>,
    pub conditions: Option<String>,
    pub evidence: String,
    pub status: String,
}

/// Everything extracted for one product.
#[derive(Debug, Clone)]
pub struct Product {
    pub category: String,
    pub name: String,
    pub product_url: String,
    pub specs_url: String,
    pub fetched_at: String,
    pub model: String,
    pub variants: Vec<String>,
    pub starting_price: Option<Price>,
    pub model_prices: Vec<Price>,
    pub specs: Vec<Specification>,
    pub blocks: Vec<Block>,
    pub llm_calls: usize,
    pub llm_ms: u128,
    pub warnings: Vec<String>,
}

/// A crawl job and everything it produced so far.
#[derive(Debug, Clone)]
pub struct Job {
    pub id: String,
    pub status: String,
    pub phase: String,
    pub started_at: String,
    pub finished_at: Option<String>,
    pub settings: Settings,
    pub options: RunOptions,
    pub discovered: usize,
    pub processed: usize,
    pub succeeded: usize,
    pub failed: usize,
    pub current_url: String,
    pub pages: Vec<PageRecord>,
    pub candidates: Vec<Candidate>,
    pub products: Vec<Product>,
    pub issues: Vec<Issue>,
}

/// The current UTC time in RFC 3339 form (`chrono::Utc::now().to_rfc3339()`).
/// It depends on the clock, so nothing is stated of it.
#[verifier::external_body]
pub fn now() -> String {
    chrono::Utc::now().to_rfc3339()
}

/// The hyphenated form of a UUID: 36 characters, `-` at positions 8, 13, 18 and 23, and
/// lower-case hexadecimal digits elsewhere.
pub open spec fn is_hyphenated_uuid(s: Seq<char>) -> bool {
    &&& s.len() == 36
    &&& forall|i: int| 0 <= i < 36 ==> if i == 8 || i == 13 || i == 18 || i == 23 {
        #[trigger] s[i] == '-'
    } else {
        ('0' <= s[i] <= '9') || ('a' <= s[i] <= 'f')
    }
}

/// A fresh random job identifier (`uuid::Uuid::new_v4`, whose `to_string` writes the
/// hyphenated lower-case form). The contract claims only that form; which identifier comes
/// out is random.
#[verifier::external_body]
fn new_job_id() -> (id: String)
    ensures
        is_hyphenated_uuid(id@),
{
    uuid::Uuid::new_v4().to_string()
}

impl Job {
    /// A new running job with the given identity and no progress.
    pub fn with_identity(id: String, started_at: String, settings: Settings, options: RunOptions) -> (j: Job)
        ensures
            j.id == id,
            j.started_at == started_at,
            j.status@ == "running"@,
            j.phase@ == "準備"@,
            j.finished_at is None,
            j.settings == settings,
            j.options == options,
            j.discovered == 0 && j.processed == 0 && j.succeeded == 0 && j.failed == 0,
            j.current_url@.len() == 0,
            j.pages@.len() == 0,
            j.candidates@.len() == 0,
            j.products@.len() == 0,
            j.issues@.len() == 0,
    {
        Job {
            id,
            status: String::from_str("running"),
            phase: String::from_str("準備"),
            started_at,
            finished_at: None,
            settings,
            options,
            discovered: 0,
            processed: 0,
            succeeded: 0,
            failed: 0,
            current_url: String::new(),
            pages: Vec::new(),
            candidates: Vec::new(),
            products: Vec::new(),
            issues: Vec::new(),
        }
    }

    /// A new running job with a random identifier, started now.
    pub fn new(settings: Settings, options: RunOptions) -> (j: Job)
        ensures
            is_hyphenated_uuid(j.id@),
            crate::pipeline::counts_agree(j),
            j.status@ == "running"@,
            j.phase@ == "準備"@,
            j.finished_at is None,
            j.settings == settings,
            j.options == options,
            j.discovered == 0 && j.processed == 0 && j.succeeded == 0 && j.failed == 0,
            j.pages@.len() == 0,
            j.candidates@.len() == 0,
            j.products@.len() == 0,
            j.issues@.len() == 0,
    {
        let id = new_job_id();
        let started = now();
        Job::with_identity(id, started, settings, options)
    }

    /// Records a problem; nothing else changes.
    pub fn issue(&mut self, url: &str, stage: &str, message: &str)
        ensures
            final(self).issues@.len() == old(self).issues@.len() + 1,
            final(self).issues@.drop_last() == old(self).issues@,
            final(self).issues@.last().url@ == url@,
            final(self).issues@.last().stage@ == stage@,
            final(self).issues@.last().message@ == message@,
            final(self).id == old(self).id,
            final(self).status == old(self).status,
            final(self).phase == old(self).phase,
            final(self).started_at == old(self).started_at,
            final(self).finished_at == old(self).finished_at,
            final(self).settings == old(self).settings,
            final(self).options == old(self).options,
            final(self).discovered == old(self).discovered,
            final(self).processed == old(self).processed,
            final(self).succeeded == old(self).succeeded,
            final(self).failed == old(self).failed,
            final(self).current_url == old(self).current_url,
            final(self).pages == old(self).pages,
            final(self).candidates == old(self).candidates,
            final(self).products == old(self).products,
    {
        let issue = Issue {
            url: String::from_str(url),
            stage: String::from_str(stage),
            message: String::from_str(message),
        };
        self.issues.push(issue);
        proof {
            assert(self.issues@.drop_last() =~= old(self).issues@);
        }
    }
}


/// A copy of an optional string.
pub fn copy_opt(o: &Option<String>) -> (r: Option<String>)
    ensures
        r == *o,
{
    match o {
        Some(s) => Some(s.clone()),
        None => None,
    }
}

impl Specification {
    /// An identical copy of this specification.
    pub fn clone_spec(&self) -> (r: Specification)
        ensures
            r == *self,
    {
        Specification {
            block_id: self.block_id,
            section: self.section.clone(),
            label: self.label.clone(),
            value: self.value.clone(),
            model: copy_opt(&self.model),
            conditions: copy_opt(&self.conditions),
            evidence: self.evidence.clone(),
            status: self.status.clone(),
        }
    }
}

impl Block {
    /// An identical copy of this block.
    pub fn duplicate(&self) -> (r: Block)
        ensures
            r == *self,
    {
        Block {
            id: self.id,
            section: self.section.clone(),
            model_hint: copy_opt(&self.model_hint),
            context: self.context.clone(),
            text: self.text.clone(),
        }
    }
}

/// The default settings are valid: all five categories, a budget of 100 pages and a model
/// name of 1 to 150 bytes.
pub proof fn law_default_settings_valid(categories: Seq<String>, model: Seq<char>)
    requires
        categories.len() == 5,
        categories[0]@ == "iphone"@,
        categories[1]@ == "mac"@,
        categories[2]@ == "ipad"@,
        categories[3]@ == "watch"@,
        categories[4]@ == "airpods"@,
        model == "qwen2.5-coder:14b"@,
    ensures
        settings_error(categories, model, 100) is None,
{
    reveal_strlit("qwen2.5-coder:14b");
    assert forall|i: int| 0 <= i < categories.len() implies is_category(#[trigger] categories[i]@) by {
        if i == 0 {} else if i == 1 {} else if i == 2 {} else if i == 3 {} else {}
    }
    assert(utf8_len(model) == 17) by {
        reveal_with_fuel(utf8_len, 18);
    }
}

} // verus!
