//! The rules of `robots.txt` that apply to this crawler.
use vstd::prelude::*;
use vstd::slice::slice_subrange;
use crate::pattern::{escape_spec, regex_escape, regex_is_match, spec_regex_is_match};
use crate::text::{
    ascii_ieq, ascii_ieq_exec, char_index, char_index_exec, has_suffix, remove_char,
    remove_char_exec, split_on, str_chars, string_from_chars, trim_chars, trim_end_char,
    trim_end_char_exec, trim_spec, utf8_len, utf8_len_exec, ends_with, lemma_char_index, lemma_trim_range, trim_start,
};

verus! {

/// A rule as plain values: whether it allows, and its path pattern.
pub type RuleV = (bool, Seq<char>);

/// The plain values of rules.
pub open spec fn rule_views(r: Seq<(bool, String)>) -> Seq<RuleV> {
    r.map_values(|x: (bool, String)| (x.0, x.1@))
}

/// A group of records: whether a `User-agent` line names this crawler (`rustcrawler`),
/// whether one names every crawler (`*`), and the group's rules.
pub type GroupV = (bool, bool, Seq<RuleV>);

/// What has been read of a `robots.txt` so far.
pub struct ScanV {
    /// The groups already closed.
    pub groups: Seq<GroupV>,
    /// The open group names this crawler.
    pub named: bool,
    /// The open group names every crawler.
    pub everyone: bool,
    /// Some `User-agent` line has been read.
    pub has_agent: bool,
    /// The rules of the open group.
    pub rules: Seq<RuleV>,
    /// The open group has an `Allow` or `Disallow` line, so the next `User-agent` starts a
    /// new group.
    pub saw_rule: bool,
}

pub open spec fn scan_start() -> ScanV {
    ScanV { groups: Seq::empty(), named: false, everyone: false, has_agent: false, rules: Seq::empty(), saw_rule: false }
}

/// Reads one line: comments after `#` are dropped, and a `key: value` record is taken in.
/// Keys are compared without regard to ASCII case, agent names too; no other character
/// lower-cases to a letter of `user-agent`, `allow`, `disallow` or `rustcrawler`.
pub open spec fn line_step(st: ScanV, line: Seq<char>) -> ScanV {
    let content = trim_spec(line.take(char_index(line, '#')));
    let k = char_index(content, ':');
    if k >= content.len() {
        st
    } else {
        let key = trim_spec(content.take(k));
        let val = trim_spec(content.skip(k + 1));
        if ascii_ieq(key, "user-agent"@) {
            let base = if st.saw_rule {
                ScanV {
                    groups: st.groups.push((st.named, st.everyone, st.rules)),
                    named: false,
                    everyone: false,
                    has_agent: st.has_agent,
                    rules: Seq::empty(),
                    saw_rule: false,
                }
            } else {
                st
            };
            ScanV {
                groups: base.groups,
                named: base.named || ascii_ieq(val, "rustcrawler"@),
                everyone: base.everyone || val == "*"@,
                has_agent: true,
                rules: base.rules,
                saw_rule: base.saw_rule,
            }
        } else if (ascii_ieq(key, "allow"@) || ascii_ieq(key, "disallow"@)) && st.has_agent {
            ScanV {
                groups: st.groups,
                named: st.named,
                everyone: st.everyone,
                has_agent: st.has_agent,
                rules: if val.len() > 0 {
                    st.rules.push((ascii_ieq(key, "allow"@), val))
                } else {
                    st.rules
                },
                saw_rule: true,
            }
        } else {
            st
        }
    }
}

/// Reads the lines one after the other.
pub open spec fn scan_lines(st: ScanV, lines: Seq<Seq<char>>) -> ScanV
    decreases lines.len(),
{
    if lines.len() == 0 {
        st
    } else {
        line_step(scan_lines(st, lines.drop_last()), lines.last())
    }
}

/// The groups of a `robots.txt`, the last one closed by the end of the file.
pub open spec fn robots_groups(body: Seq<char>) -> Seq<GroupV> {
    let st = scan_lines(scan_start(), split_on(body, '\n'));
    st.groups.push((st.named, st.everyone, st.rules))
}

/// The rules of the groups addressed to this crawler: those naming it when any does, else
/// those naming every crawler.
pub open spec fn chosen_rules(groups: Seq<GroupV>, specific: bool) -> Seq<RuleV>
    decreases groups.len(),
{
    if groups.len() == 0 {
        Seq::empty()
    } else {
        let g = groups.last();
        chosen_rules(groups.drop_last(), specific) + (if (if specific {
            g.0
        } else {
            g.1
        }) {
            g.2
        } else {
            Seq::empty()
        })
    }
}

/// The rules of a `robots.txt` that apply to this crawler.
pub open spec fn robots_rules(body: Seq<char>) -> Seq<RuleV> {
    let groups = robots_groups(body);
    chosen_rules(groups, exists|i: int| 0 <= i < groups.len() && (#[trigger] groups[i]).0)
}

/// The pieces of a pattern between its `*`, each escaped, joined by `.*`.
pub open spec fn glob_regex(pieces: Seq<Seq<char>>) -> Seq<char>
    decreases pieces.len(),
{
    if pieces.len() == 0 {
        Seq::empty()
    } else if pieces.len() == 1 {
        escape_spec(pieces[0])
    } else {
        glob_regex(pieces.drop_last()) + ".*"@ + escape_spec(pieces.last())
    }
}

/// The regular expression of a rule's pattern: anchored at the start, `*` for any text, and
/// a final `$` for the end of the path.
pub open spec fn rule_regex(pattern: Seq<char>) -> Seq<char> {
    "^"@ + glob_regex(split_on(trim_end_char(pattern, '$'), '*')) + (if has_suffix(pattern, "$"@) {
        "$"@
    } else {
        Seq::empty()
    })
}

/// The specificity of a pattern: the bytes of its literal text.
pub open spec fn rule_len(pattern: Seq<char>) -> nat {
    utf8_len(remove_char(trim_end_char(pattern, '$'), '*'))
}

/// The deciding match after the given rules: the longest matching pattern wins, an `Allow`
/// wins a tie, and a path no rule matches is allowed.
pub open spec fn decision(rules: Seq<RuleV>, path: Seq<char>) -> (nat, bool)
    decreases rules.len(),
{
    if rules.len() == 0 {
        (0, true)
    } else {
        let d = decision(rules.drop_last(), path);
        let (allow, pattern) = rules.last();
        if spec_regex_is_match(rule_regex(pattern), path) == Some(true) {
            let n = rule_len(pattern);
            if n > d.0 || (n == d.0 && allow) {
                (n, allow)
            } else {
                d
            }
        } else {
            d
        }
    }
}

/// The rules of `robots.txt` that this crawler obeys, in file order.
pub struct Robots {
    pub rules: Vec<(bool, String)>,
}

impl Default for Robots {
    /// No rules: every path is allowed.
    fn default() -> (r: Self)
        ensures
            r.rules@.len() == 0,
    {
        Robots { rules: Vec::new() }
    }
}

struct Scan {
    groups: Vec<(bool, bool, Vec<(bool, String)>)>,
    named: bool,
    everyone: bool,
    has_agent: bool,
    rules: Vec<(bool, String)>,
    saw_rule: bool,
}

spec fn group_views(g: Seq<(bool, bool, Vec<(bool, String)>)>) -> Seq<GroupV> {
    g.map_values(|x: (bool, bool, Vec<(bool, String)>)| (x.0, x.1, rule_views(x.2@)))
}

impl Scan {
    spec fn view(&self) -> ScanV {
        ScanV {
            groups: group_views(self.groups@),
            named: self.named,
            everyone: self.everyone,
            has_agent: self.has_agent,
            rules: rule_views(self.rules@),
            saw_rule: self.saw_rule,
        }
    }

    fn step(&mut self, line: &[char])
        ensures
            final(self).view() == line_step(old(self).view(), line@),
    {
        let h = char_index_exec(line, '#');
        let content = trim_chars(slice_subrange(line, 0, h));
        proof {
            assert(line@.subrange(0, h as int) =~= line@.take(h as int));
        }
        let k = char_index_exec(content.as_slice(), ':');
        if k >= content.len() {
            return;
        }
        let key = trim_chars(slice_subrange(content.as_slice(), 0, k));
        let val = trim_chars(slice_subrange(content.as_slice(), k + 1, content.len()));
        proof {
            assert(content@.subrange(0, k as int) =~= content@.take(k as int));
            assert(content@.subrange(k + 1, content@.len() as int) =~= content@.skip(k + 1));
        }
        if ascii_ieq_exec(key.as_slice(), "user-agent") {
            if self.saw_rule {
                let mut rules: Vec<(bool, String)> = Vec::new();
                std::mem::swap(&mut rules, &mut self.rules);
                let ghost before = self.groups@;
                self.groups.push((self.named, self.everyone, rules));
                proof {
                    assert(group_views(self.groups@) =~= group_views(before).push((old(self).named, old(self).everyone, rule_views(rules@))));
                    assert(rule_views(self.rules@) =~= Seq::<RuleV>::empty());
                }
                self.named = false;
                self.everyone = false;
                self.saw_rule = false;
            }
            let named = ascii_ieq_exec(val.as_slice(), "rustcrawler");
            let star = val.len() == 1 && val[0] == '*';
            proof {
                reveal_strlit("*");
                if val@ == "*"@ {
                    assert(val@.len() == 1 && val@[0] == '*');
                }
                if val@.len() == 1 && val@[0] == '*' {
                    assert(val@ =~= "*"@);
                }
            }
            self.named = self.named || named;
            self.everyone = self.everyone || star;
            self.has_agent = true;
        } else if (ascii_ieq_exec(key.as_slice(), "allow") || ascii_ieq_exec(key.as_slice(), "disallow")) && self.has_agent {
            self.saw_rule = true;
            if val.len() > 0 {
                let allow = ascii_ieq_exec(key.as_slice(), "allow");
                let ghost before = self.rules@;
                self.rules.push((allow, string_from_chars(val.as_slice())));
                proof {
                    assert(rule_views(self.rules@) =~= rule_views(before).push((allow, val@)));
                }
            }
        }
    }
}

proof fn lemma_split_push(s: Seq<char>, c: char, x: char)
    ensures
        split_on(s.push(x), c) == (if x == c {
            split_on(s, c).push(Seq::empty())
        } else {
            split_on(s, c).update(split_on(s, c).len() - 1, split_on(s, c).last().push(x))
        }),
{
    assert(s.push(x).drop_last() =~= s);
}

impl Robots {
    /// Reads a `robots.txt` and keeps the rules addressed to this crawler.
    pub fn parse(body: &str) -> (r: Robots)
        ensures
            rule_views(r.rules@) == robots_rules(body@),
    {
        let chars = str_chars(body);
        let mut st = Scan {
            groups: Vec::new(),
            named: false,
            everyone: false,
            has_agent: false,
            rules: Vec::new(),
            saw_rule: false,
        };
        let mut line: Vec<char> = Vec::new();
        let mut i: usize = 0;
        proof {
            assert(chars@.take(0) =~= Seq::<char>::empty());
            assert(split_on(chars@.take(0), '\n').drop_last() =~= Seq::<Seq<char>>::empty());
            assert(group_views(st.groups@) =~= Seq::<GroupV>::empty());
            assert(rule_views(st.rules@) =~= Seq::<RuleV>::empty());
        }
        while i < chars.len()
            invariant
                i <= chars@.len(),
                chars@ == body@,
                split_on(chars@.take(i as int), '\n').len() >= 1,
                st.view() == scan_lines(scan_start(), split_on(chars@.take(i as int), '\n').drop_last()),
                line@ == split_on(chars@.take(i as int), '\n').last(),
            decreases chars.len() - i,
        {
            let c = chars[i];
            let ghost pre = chars@.take(i as int);
            proof {
                assert(chars@.take(i + 1) =~= pre.push(c));
                lemma_split_push(pre, '\n', c);
            }
            if c == '\n' {
                st.step(line.as_slice());
                line = Vec::new();
                proof {
                    let p = split_on(pre, '\n');
                    assert(p.push(Seq::empty()).drop_last() =~= p);
                    assert(p =~= p.drop_last().push(p.last()));
                }
            } else {
                line.push(c);
                proof {
                    let p = split_on(pre, '\n');
                    let q = p.update(p.len() - 1, p.last().push(c));
                    assert(q.drop_last() =~= p.drop_last());
                }
            }
            i += 1;
        }
        proof {
            assert(chars@.take(i as int) =~= chars@);
            let p = split_on(chars@, '\n');
            assert(p =~= p.drop_last().push(p.last()));
        }
        st.step(line.as_slice());
        let mut groups = st.groups;
        let ghost gv0 = group_views(groups@);
        groups.push((st.named, st.everyone, st.rules));
        let ghost gv = group_views(groups@);
        proof {
            assert(gv =~= robots_groups(body@));
        }
        let mut specific = false;
        let mut g: usize = 0;
        while g < groups.len()
            invariant
                g <= groups@.len(),
                gv == group_views(groups@),
                specific == (exists|k: int| 0 <= k < g && (#[trigger] gv[k]).0),
            decreases groups.len() - g,
        {
            proof {
                assert(gv[g as int].0 == groups@[g as int].0);
            }
            if groups[g].0 {
                specific = true;
            }
            g += 1;
            proof {
                if specific {
                    if groups@[g - 1].0 {
                        assert(gv[g - 1].0);
                    }
                } else {
                    assert forall|k: int| 0 <= k < g implies !(#[trigger] gv[k]).0 by {
                        if k == g - 1 {
                            assert(!groups@[k].0);
                        }
                    }
                }
            }
        }
        let mut out: Vec<(bool, String)> = Vec::new();
        let mut j: usize = 0;
        proof {
            assert(gv.take(0) =~= Seq::<GroupV>::empty());
        }
        while j < groups.len()
            invariant
                j <= groups@.len(),
                gv == group_views(groups@),
                rule_views(out@) == chosen_rules(gv.take(j as int), specific),
            decreases groups.len() - j,
        {
            proof {
                assert(gv.take(j + 1).drop_last() =~= gv.take(j as int));
                assert(gv.take(j + 1).last() == gv[j as int]);
            }
            let take = if specific {
                groups[j].0
            } else {
                groups[j].1
            };
            if take {
                let rs = &groups[j].2;
                let mut k: usize = 0;
                let ghost before = rule_views(out@);
                while k < rs.len()
                    invariant
                        k <= rs@.len(),
                        rule_views(out@) == before + rule_views(rs@).take(k as int),
                    decreases rs.len() - k,
                {
                    let pat = string_from_chars(str_chars(rs[k].1.as_str()).as_slice());
                    let ghost prev = out@;
                    out.push((rs[k].0, pat));
                    proof {
                        assert(out@ == prev.push((rs@[k as int].0, pat)));
                        assert(rule_views(out@) =~= rule_views(prev).push((rs@[k as int].0, rs@[k as int].1@)));
                        assert(rule_views(rs@)[k as int] == (rs@[k as int].0, rs@[k as int].1@));
                    }
                    k += 1;
                    proof {
                        assert(rule_views(out@) =~= before + rule_views(rs@).take(k as int));
                    }
                }
                proof {
                    assert(rule_views(rs@).take(rs@.len() as int) =~= rule_views(rs@));
                }
            } else {
                proof {
                    assert(rule_views(out@) =~= rule_views(out@) + Seq::<RuleV>::empty());
                }
            }
            j += 1;
        }
        proof {
            assert(gv.take(groups@.len() as int) =~= gv);
        }
        Robots { rules: out }
    }

    /// Whether this crawler may fetch `path`: the longest matching rule decides, `Allow`
    /// winning a tie, and a path that no rule matches is allowed.
    pub fn permits(&self, path: &str) -> (r: bool)
        ensures
            r == decision(rule_views(self.rules@), path@).1,
    {
        let ghost rv = rule_views(self.rules@);
        let mut best: u128 = 0;
        let mut allow_best = true;
        let mut i: usize = 0;
        proof {
            assert(rv.take(0) =~= Seq::<RuleV>::empty());
        }
        while i < self.rules.len()
            invariant
                i <= self.rules@.len(),
                rv == rule_views(self.rules@),
                decision(rv.take(i as int), path@) == (best as nat, allow_best),
            decreases self.rules.len() - i,
        {
            proof {
                assert(rv.take(i + 1).drop_last() =~= rv.take(i as int));
                assert(rv.take(i + 1).last() == rv[i as int]);
            }
            let allow = self.rules[i].0;
            let pat = str_chars(self.rules[i].1.as_str());
            let end = ends_with(pat.as_slice(), "$");
            let lit = trim_end_char_exec(pat.as_slice(), '$');
            let re = glob_exec(lit.as_slice());
            let mut regex: Vec<char> = str_chars("^");
            let ghost r0 = regex@;
            append(&mut regex, re.as_slice());
            if end {
                append(&mut regex, str_chars("$").as_slice());
            }
            proof {
                reveal_strlit("$");
                assert(regex@ =~= rule_regex(rv[i as int].1));
            }
            let re_text = string_from_chars(regex.as_slice());
            if regex_is_match(re_text.as_str(), path) == Some(true) {
                let n = utf8_len_exec(remove_char_exec(lit.as_slice(), '*').as_slice());
                if n > best || (n == best && allow) {
                    best = n;
                    allow_best = allow;
                }
            }
            i += 1;
        }
        proof {
            assert(rv.take(self.rules@.len() as int) =~= rv);
        }
        allow_best
    }
}

fn append(v: &mut Vec<char>, s: &[char])
    ensures
        final(v)@ == old(v)@ + s@,
{
    let mut i: usize = 0;
    while i < s.len()
        invariant
            i <= s@.len(),
            v@ == old(v)@ + s@.take(i as int),
        decreases s.len() - i,
    {
        v.push(s[i]);
        i += 1;
        proof {
            assert(v@ =~= old(v)@ + s@.take(i as int));
        }
    }
    proof {
        assert(s@.take(s@.len() as int) =~= s@);
    }
}

/// The escaped pieces of a pattern between its `*`, joined by `.*` (see [`glob_regex`]).
fn glob_exec(p: &[char]) -> (r: Vec<char>)
    ensures
        r@ == glob_regex(split_on(p@, '*')),
{
    let mut out: Vec<char> = Vec::new();
    let mut piece: Vec<char> = Vec::new();
    let mut more = false;
    let mut i: usize = 0;
    proof {
        assert(p@.take(0) =~= Seq::<char>::empty());
    }
    while i < p.len()
        invariant
            i <= p@.len(),
            split_on(p@.take(i as int), '*').len() >= 1,
            more == (split_on(p@.take(i as int), '*').len() > 1),
            out@ == glob_regex(split_on(p@.take(i as int), '*').drop_last()),
            piece@ == split_on(p@.take(i as int), '*').last(),
        decreases p.len() - i,
    {
        let c = p[i];
        let ghost pre = p@.take(i as int);
        proof {
            assert(p@.take(i + 1) =~= pre.push(c));
            lemma_split_push(pre, '*', c);
        }
        if c == '*' {
            let ghost sp = split_on(pre, '*');
            if more {
                append(&mut out, str_chars(".*").as_slice());
            }
            let esc = regex_escape(string_from_chars(piece.as_slice()).as_str());
            append(&mut out, str_chars(esc.as_str()).as_slice());
            piece = Vec::new();
            more = true;
            proof {
                reveal_strlit(".*");
                let q = sp.push(Seq::empty());
                assert(q.drop_last() =~= sp);
                if sp.len() > 1 {
                    assert(sp.drop_last().len() >= 1);
                    assert(glob_regex(sp) == glob_regex(sp.drop_last()) + ".*"@ + escape_spec(sp.last()));
                } else {
                    assert(sp.drop_last() =~= Seq::<Seq<char>>::empty());
                    assert(glob_regex(sp) == escape_spec(sp[0]));
                }
            }
        } else {
            piece.push(c);
            proof {
                let sp = split_on(pre, '*');
                let q = sp.update(sp.len() - 1, sp.last().push(c));
                assert(q.drop_last() =~= sp.drop_last());
            }
        }
        i += 1;
    }
    proof {
        assert(p@.take(i as int) =~= p@);
    }
    let ghost sp = split_on(p@, '*');
    if more {
        append(&mut out, str_chars(".*").as_slice());
    }
    let esc = regex_escape(string_from_chars(piece.as_slice()).as_str());
    append(&mut out, str_chars(esc.as_str()).as_slice());
    proof {
        reveal_strlit(".*");
        if sp.len() > 1 {
            assert(glob_regex(sp) == glob_regex(sp.drop_last()) + ".*"@ + escape_spec(sp.last()));
        } else {
            assert(sp.drop_last() =~= Seq::<Seq<char>>::empty());
            assert(glob_regex(sp) == escape_spec(sp[0]));
        }
    }
    out
}

/// Text with no `#`.
pub open spec fn no_hash(s: Seq<char>) -> bool {
    forall|i: int| 0 <= i < s.len() ==> #[trigger] s[i] != '#'
}

proof fn lemma_trim_no_hash(x: Seq<char>)
    requires
        no_hash(x),
    ensures
        no_hash(trim_spec(x)),
{
    lemma_trim_range(x);
    assert forall|i: int| 0 <= i < trim_spec(x).len() implies #[trigger] trim_spec(x)[i] != '#' by {
        assert(trim_spec(x)[i] == x[trim_start(x, 0) + i]);
    }
}

/// Everything from `#` to the end of a line is a comment: a line is read as the same record
/// as the line cut at its first `#`.
pub proof fn law_robots_comments(st: ScanV, line: Seq<char>)
    ensures
        line_step(st, line) == line_step(st, line.take(char_index(line, '#'))),
{
    let ci = char_index(line, '#');
    let cut = line.take(ci);
    lemma_char_index(line, '#');
    lemma_char_index(cut, '#');
    if char_index(cut, '#') < cut.len() {
        assert(cut[char_index(cut, '#')] == line[char_index(cut, '#')]);
    }
    assert(char_index(cut, '#') == cut.len());
    assert(cut.take(cut.len() as int) =~= cut);
}

proof fn lemma_line_step_no_hash(st: ScanV, line: Seq<char>)
    requires
        forall|i: int| 0 <= i < st.rules.len() ==> no_hash(#[trigger] st.rules[i].1),
        forall|g: int, i: int| 0 <= g < st.groups.len() && 0 <= i < st.groups[g].2.len() ==> no_hash(#[trigger] st.groups[g].2[i].1),
    ensures
        forall|i: int| 0 <= i < line_step(st, line).rules.len() ==> no_hash(#[trigger] line_step(st, line).rules[i].1),
        forall|g: int, i: int| 0 <= g < line_step(st, line).groups.len() && 0 <= i < line_step(st, line).groups[g].2.len()
            ==> no_hash(#[trigger] line_step(st, line).groups[g].2[i].1),
{
    let cut = line.take(char_index(line, '#'));
    lemma_char_index(line, '#');
    assert(no_hash(cut));
    lemma_trim_no_hash(cut);
    let content = trim_spec(cut);
    let k = char_index(content, ':');
    lemma_char_index(content, ':');
    if k < content.len() {
        assert forall|i: int| 0 <= i < content.skip(k + 1).len() implies #[trigger] content.skip(k + 1)[i] != '#' by {
            assert(content.skip(k + 1)[i] == content[k + 1 + i]);
        }
        lemma_trim_no_hash(content.skip(k + 1));
    }
    let n = line_step(st, line);
    assert forall|g: int, i: int| 0 <= g < n.groups.len() && 0 <= i < n.groups[g].2.len()
        implies no_hash(#[trigger] n.groups[g].2[i].1) by {
        if g < st.groups.len() {
            assert(n.groups[g] == st.groups[g]);
        } else {
            assert(n.groups[g].2 == st.rules);
        }
    }
}

proof fn lemma_scan_no_hash(lines: Seq<Seq<char>>)
    ensures
        forall|i: int| 0 <= i < scan_lines(scan_start(), lines).rules.len() ==> no_hash(#[trigger] scan_lines(scan_start(), lines).rules[i].1),
        forall|g: int, i: int| 0 <= g < scan_lines(scan_start(), lines).groups.len() && 0 <= i < scan_lines(scan_start(), lines).groups[g].2.len()
            ==> no_hash(#[trigger] scan_lines(scan_start(), lines).groups[g].2[i].1),
    decreases lines.len(),
{
    if lines.len() > 0 {
        lemma_scan_no_hash(lines.drop_last());
        lemma_line_step_no_hash(scan_lines(scan_start(), lines.drop_last()), lines.last());
    }
}

proof fn lemma_chosen_no_hash(groups: Seq<GroupV>, specific: bool)
    requires
        forall|g: int, i: int| 0 <= g < groups.len() && 0 <= i < groups[g].2.len() ==> no_hash(#[trigger] groups[g].2[i].1),
    ensures
        forall|i: int| 0 <= i < chosen_rules(groups, specific).len() ==> no_hash(#[trigger] chosen_rules(groups, specific)[i].1),
    decreases groups.len(),
{
    if groups.len() > 0 {
        let f = groups.drop_last();
        assert forall|g: int, i: int| 0 <= g < f.len() && 0 <= i < f[g].2.len() implies no_hash(#[trigger] f[g].2[i].1) by {
            assert(f[g] == groups[g]);
        }
        lemma_chosen_no_hash(f, specific);
        let a = chosen_rules(f, specific);
        let g = groups.last();
        let b: Seq<RuleV> = if (if specific { g.0 } else { g.1 }) { g.2 } else { Seq::empty() };
        assert forall|i: int| 0 <= i < (a + b).len() implies no_hash(#[trigger] (a + b)[i].1) by {
            if i >= a.len() {
                assert((a + b)[i] == b[i - a.len()]);
                assert(groups[groups.len() - 1] == g);
                assert(no_hash(groups[groups.len() - 1].2[i - a.len()].1));
            } else {
                assert((a + b)[i] == a[i]);
            }
        }
    }
}

/// No rule this crawler obeys carries a comment: every pattern is free of `#`.
pub proof fn law_robots_rules_uncommented(body: Seq<char>)
    ensures
        forall|i: int| 0 <= i < robots_rules(body).len() ==> no_hash(#[trigger] robots_rules(body)[i].1),
{
    let lines = split_on(body, '\n');
    lemma_scan_no_hash(lines);
    let st = scan_lines(scan_start(), lines);
    let groups = robots_groups(body);
    assert forall|g: int, i: int| 0 <= g < groups.len() && 0 <= i < groups[g].2.len() implies no_hash(#[trigger] groups[g].2[i].1) by {
        if g < st.groups.len() {
            assert(groups[g] == st.groups[g]);
        } else {
            assert(groups[g].2 == st.rules);
        }
    }
    lemma_chosen_no_hash(groups, exists|j: int| 0 <= j < groups.len() && (#[trigger] groups[j]).0);
}

} // verus!

verus! {

use crate::apple::{allowed, allowed_spec};
use crate::urls::{spec_url_join, spec_url_parse, url_join, url_parse, UrlParts};
use crate::text::{contains_seq, contains_str, str_eq};

/// Why the crawler may not request a URL: outside the boundary, or refused by `robots.txt`.
pub open spec fn target_error(u: UrlParts, rules: Seq<RuleV>) -> Option<Seq<char>> {
    if !allowed_spec(u) {
        Some("拒絕非 Apple 台灣 URL: "@ + u.serialization@)
    } else if !decision(rules, u.path@).1 {
        Some("robots.txt 不允許此路徑"@)
    } else {
        None
    }
}

/// Checks a URL before it is requested.
pub fn check_target(u: &UrlParts, robots: &Robots) -> (r: Result<(), String>)
    ensures
        match r {
            Ok(()) => target_error(*u, rule_views(robots.rules@)) is None,
            Err(e) => target_error(*u, rule_views(robots.rules@)) == Some(e@),
        },
{
    if !allowed(u) {
        let mut v: Vec<char> = Vec::new();
        crate::text::push_str(&mut v, "拒絕非 Apple 台灣 URL: ");
        crate::text::push_str(&mut v, u.serialization.as_str());
        return Err(string_from_chars(v.as_slice()));
    }
    if !robots.permits(u.path.as_str()) {
        return Err(String::from_str("robots.txt 不允許此路徑"));
    }
    Ok(())
}

/// The most responses one download goes through, redirects included.
pub open spec fn max_hops() -> nat {
    6
}

/// The most requests sent for one URL.
pub open spec fn max_attempts() -> nat {
    3
}

/// The most bytes a page may have.
pub open spec fn max_page_bytes() -> nat {
    8_000_000
}

/// A download in progress.
pub struct Fetch {
    /// The URL being requested.
    pub url: UrlParts,
    /// Redirects followed so far.
    pub hops: usize,
    /// Requests sent for this URL before the current one.
    pub attempt: usize,
    /// Bytes of body received so far.
    pub received: usize,
}

/// What the downloader does next.
pub enum FetchAction {
    /// Waits `backoff` times the retry delay (ending early with `cancelled` if the job is
    /// cancelled), then sends a GET request to `url`.
    Send { url: String, backoff: u64 },
    /// Reads the next chunk of the response body.
    Read,
    /// The body is complete; the page is decoded as UTF-8 and reported under this final URL.
    Done(String),
    /// The download fails with this error.
    Fail(String),
}

/// What happened to the last action.
pub enum FetchEvent {
    /// A response arrived: its status code, the status as text (`404 Not Found`), its
    /// `Location` header (absent, unreadable with that error, or its text) and its
    /// `Content-Type` (empty when absent or unreadable).
    Response { status: u16, status_text: String, location: Option<Result<String, String>>, content_type: String },
    /// The request failed with this error.
    SendError(String),
    /// A chunk of this many bytes of body arrived.
    Chunk(usize),
    /// The body ended.
    End,
}

/// A status worth another try: a server error or too many requests.
pub open spec fn transient(status: u16) -> bool {
    (500 <= status && status <= 599) || status == 429
}

impl Fetch {
    pub open spec fn wf(&self) -> bool {
        &&& self.hops < max_hops()
        &&& self.attempt < max_attempts()
        &&& self.received <= max_page_bytes()
    }
}

/// Starts a download: the URL must parse and be allowed; the first request waits one retry
/// delay.
pub fn start_fetch(initial: &str, robots: &Robots) -> (r: (Option<Fetch>, FetchAction))
    ensures
        match spec_url_parse(initial@) {
            Err(e) => r.0 is None && r.1 is Fail && r.1->Fail_0@ == e,
            Ok(u) => match target_error(u, rule_views(robots.rules@)) {
                Some(e) => r.0 is None && r.1 is Fail && r.1->Fail_0@ == e,
                None => r.0 == Some(Fetch { url: u, hops: 0, attempt: 0, received: 0 })
                    && r.1 is Send && r.1->url@ == u.serialization@ && r.1->backoff == 1,
            },
        },
{
    match url_parse(initial) {
        Err(e) => (None, FetchAction::Fail(e)),
        Ok(u) => match check_target(&u, robots) {
            Err(e) => (None, FetchAction::Fail(e)),
            Ok(()) => {
                let url = u.serialization.clone();
                (Some(Fetch { url: u, hops: 0, attempt: 0, received: 0 }), FetchAction::Send { url, backoff: 1 })
            },
        },
    }
}

impl Fetch {
    /// Decides what to do after an event. Transient failures (server errors, too many
    /// requests, failed requests) are retried up to three requests per URL, waiting 1, 2 and
    /// 4 retry delays; redirects are resolved and checked before they are followed, at most
    /// six responses in all; other failures, pages other than `robots.txt` that are not HTML,
    /// and bodies over 8 MB end the download.
    pub fn step(&mut self, robots: &Robots, ev: FetchEvent) -> (a: FetchAction)
        requires
            old(self).wf(),
        ensures
            match ev {
                FetchEvent::Response { status, status_text, location, content_type } => {
                    if transient(status) && old(self).attempt < 2 {
                        &&& *final(self) == Fetch { attempt: (old(self).attempt + 1) as usize, ..*old(self) }
                        &&& a is Send && a->url@ == old(self).url.serialization@
                        &&& a->backoff == (if old(self).attempt == 0 { 2u64 } else { 4u64 })
                    } else if 300 <= status && status <= 399 {
                        match location {
                            None => a is Fail && a->Fail_0@ == "redirect without location"@,
                            Some(Err(e)) => a is Fail && a->Fail_0 == e,
                            Some(Ok(loc)) => match spec_url_join(old(self).url.serialization@, loc@) {
                                Err(e) => a is Fail && a->Fail_0@ == e,
                                Ok(u) => if old(self).hops + 1 >= max_hops() {
                                    a is Fail && a->Fail_0@ == "重新導向次數超過上限"@
                                } else {
                                    match target_error(u, rule_views(robots.rules@)) {
                                        Some(e) => a is Fail && a->Fail_0@ == e,
                                        None => *final(self) == Fetch { url: u, hops: (old(self).hops + 1) as usize, attempt: 0, received: 0 }
                                            && a is Send && a->url@ == u.serialization@ && a->backoff == 1,
                                    }
                                },
                            },
                        }
                    } else if !(200 <= status && status <= 299) {
                        a is Fail && a->Fail_0@ == "HTTP "@ + status_text@
                    } else if old(self).url.path@ != "/robots.txt"@ && !contains_seq(content_type@, "text/html"@) {
                        a is Fail && a->Fail_0@ == "不支援內容類型 "@ + content_type@
                    } else {
                        a is Read && *final(self) == Fetch { received: 0, ..*old(self) }
                    }
                },
                FetchEvent::SendError(e) => if old(self).attempt < 2 {
                    &&& *final(self) == Fetch { attempt: (old(self).attempt + 1) as usize, ..*old(self) }
                    &&& a is Send && a->url@ == old(self).url.serialization@
                    &&& a->backoff == (if old(self).attempt == 0 { 2u64 } else { 4u64 })
                } else {
                    a is Fail && a->Fail_0 == e
                },
                FetchEvent::Chunk(n) => if old(self).received + n > max_page_bytes() {
                    a is Fail && a->Fail_0@ == "網頁超過 8 MB 上限"@
                } else {
                    a is Read && *final(self) == Fetch { received: (old(self).received + n) as usize, ..*old(self) }
                },
                FetchEvent::End => a is Done && a->Done_0@ == old(self).url.serialization@ && *final(self) == *old(self),
            },
            !(a is Fail) ==> final(self).wf(),
    {
        match ev {
            FetchEvent::Response { status, status_text, location, content_type } => {
                if ((500 <= status && status <= 599) || status == 429) && self.attempt < 2 {
                    self.attempt = self.attempt + 1;
                    let backoff: u64 = if self.attempt == 1 { 2 } else { 4 };
                    return FetchAction::Send { url: self.url.serialization.clone(), backoff };
                }
                if 300 <= status && status <= 399 {
                    return match location {
                        None => FetchAction::Fail(String::from_str("redirect without location")),
                        Some(Err(e)) => FetchAction::Fail(e),
                        Some(Ok(loc)) => match url_join(self.url.serialization.as_str(), loc.as_str()) {
                            Err(e) => FetchAction::Fail(e),
                            Ok(u) => {
                                if self.hops + 1 >= 6 {
                                    FetchAction::Fail(String::from_str("重新導向次數超過上限"))
                                } else {
                                    match check_target(&u, robots) {
                                        Err(e) => FetchAction::Fail(e),
                                        Ok(()) => {
                                            let url = u.serialization.clone();
                                            self.url = u;
                                            self.hops = self.hops + 1;
                                            self.attempt = 0;
                                            self.received = 0;
                                            FetchAction::Send { url, backoff: 1 }
                                        },
                                    }
                                }
                            },
                        },
                    };
                }
                if !(200 <= status && status <= 299) {
                    let mut v: Vec<char> = Vec::new();
                    crate::text::push_str(&mut v, "HTTP ");
                    crate::text::push_str(&mut v, status_text.as_str());
                    return FetchAction::Fail(string_from_chars(v.as_slice()));
                }
                let path_ok = str_eq(self.url.path.as_str(), "/robots.txt");
                if !path_ok && !contains_str(str_chars(content_type.as_str()).as_slice(), "text/html") {
                    let mut v: Vec<char> = Vec::new();
                    crate::text::push_str(&mut v, "不支援內容類型 ");
                    crate::text::push_str(&mut v, content_type.as_str());
                    return FetchAction::Fail(string_from_chars(v.as_slice()));
                }
                self.received = 0;
                FetchAction::Read
            },
            FetchEvent::SendError(e) => {
                if self.attempt < 2 {
                    self.attempt = self.attempt + 1;
                    let backoff: u64 = if self.attempt == 1 { 2 } else { 4 };
                    FetchAction::Send { url: self.url.serialization.clone(), backoff }
                } else {
                    FetchAction::Fail(e)
                }
            },
            FetchEvent::Chunk(n) => {
                if n > 8_000_000 - self.received {
                    FetchAction::Fail(String::from_str("網頁超過 8 MB 上限"))
                } else {
                    self.received = self.received + n;
                    FetchAction::Read
                }
            },
            FetchEvent::End => FetchAction::Done(self.url.serialization.clone()),
        }
    }
}

/// Whether a rule's pattern matches the path.
pub open spec fn rule_matches(r: RuleV, path: Seq<char>) -> bool {
    spec_regex_is_match(rule_regex(r.1), path) == Some(true)
}

/// Rule `i` matches the path with specificity `n` and allows it.
pub open spec fn allows_at(rules: Seq<RuleV>, path: Seq<char>, n: nat, i: int) -> bool {
    0 <= i < rules.len() && rule_matches(rules[i], path) && rule_len(rules[i].1) == n && rules[i].0
}

/// Rule `i` matches the path with specificity `n`.
pub open spec fn matches_at(rules: Seq<RuleV>, path: Seq<char>, n: nat, i: int) -> bool {
    0 <= i < rules.len() && rule_matches(rules[i], path) && rule_len(rules[i].1) == n
}

/// How `robots.txt` rules decide: the most specific matching rule wins, an `Allow` wins a tie,
/// and a path that only empty patterns, or none, match is allowed.
pub proof fn law_longest_match(rules: Seq<RuleV>, path: Seq<char>)
    ensures
        forall|i: int| 0 <= i < rules.len() && rule_matches(#[trigger] rules[i], path) ==> rule_len(rules[i].1) <= decision(rules, path).0,
        decision(rules, path).0 > 0 ==> exists|i: int| #[trigger] matches_at(rules, path, decision(rules, path).0, i),
        decision(rules, path).1 == (decision(rules, path).0 == 0 || exists|i: int| #[trigger] allows_at(rules, path, decision(rules, path).0, i)),
    decreases rules.len(),
{
    if rules.len() > 0 {
        let front = rules.drop_last();
        law_longest_match(front, path);
        let d0 = decision(front, path);
        let d = decision(rules, path);
        let last = rules.len() - 1;
        assert(rules[last] == rules.last());
        assert forall|i: int| 0 <= i < front.len() implies rules[i] == #[trigger] front[i] by {}
        assert forall|i: int| 0 <= i < rules.len() && rule_matches(#[trigger] rules[i], path) implies rule_len(rules[i].1) <= d.0 by {
            if i < front.len() {
                assert(rule_matches(front[i], path));
            }
        }
        if d.0 > 0 {
            if d == d0 {
                let w = choose|i: int| #[trigger] matches_at(front, path, d0.0, i);
                assert(matches_at(rules, path, d.0, w));
            } else {
                assert(matches_at(rules, path, d.0, last));
            }
        }
        if d == d0 {
            if d0.0 != 0 && (exists|i: int| #[trigger] allows_at(front, path, d0.0, i)) {
                let w = choose|i: int| #[trigger] allows_at(front, path, d0.0, i);
                assert(allows_at(rules, path, d.0, w));
            }
            if d.0 != 0 && (exists|i: int| #[trigger] allows_at(rules, path, d.0, i)) {
                let w = choose|i: int| #[trigger] allows_at(rules, path, d.0, i);
                if w < front.len() {
                    assert(allows_at(front, path, d0.0, w));
                }
            }
        } else {
            if d.1 {
                assert(allows_at(rules, path, d.0, last));
            } else {
                assert forall|i: int| !#[trigger] allows_at(rules, path, d.0, i) by {
                    if allows_at(rules, path, d.0, i) && i < front.len() {
                        assert(rule_matches(front[i], path));
                    }
                }
            }
        }
    }
}

/// A download sends at most three requests for one URL and goes through at most six
/// responses, redirects included, and never holds more than 8 MB of body.
pub proof fn law_fetch_bounded(f: Fetch)
    requires
        f.wf(),
    ensures
        f.attempt + 1 <= max_attempts(),
        f.hops + 1 <= max_hops(),
        f.received <= max_page_bytes(),
{
}

} // verus!
