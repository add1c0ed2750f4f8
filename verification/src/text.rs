//! Character-level text helpers shared by every parser in the crate.
use vstd::prelude::*;

verus! {

/// Unicode `White_Space` code points, the set that `char::is_whitespace` tests.
pub open spec fn is_space_spec(c: char) -> bool {
    let n = c as u32;
    (0x9 <= n && n <= 0xd) || n == 0x20 || n == 0x85 || n == 0xa0 || n == 0x1680
        || (0x2000 <= n && n <= 0x200a) || n == 0x2028 || n == 0x2029 || n == 0x202f
        || n == 0x205f || n == 0x3000
}

/// Whether `c` is Unicode white space.
pub fn is_space(c: char) -> (r: bool)
    ensures
        r == is_space_spec(c),
{
    let n = c as u32;
    (0x9 <= n && n <= 0xd) || n == 0x20 || n == 0x85 || n == 0xa0 || n == 0x1680
        || (0x2000 <= n && n <= 0x200a) || n == 0x2028 || n == 0x2029 || n == 0x202f
        || n == 0x205f || n == 0x3000
}

/// Collapses white-space runs of `s` into single spaces and trims both ends.
/// `seen` records that a word was already emitted, `gap` that white space
/// followed it.
pub open spec fn clean_from(s: Seq<char>, seen: bool, gap: bool) -> Seq<char>
    decreases s.len(),
{
    if s.len() == 0 {
        Seq::empty()
    } else if is_space_spec(s[0]) {
        clean_from(s.drop_first(), seen, true)
    } else {
        (if seen && gap { seq![' '] } else { Seq::empty() }) + seq![s[0]] + clean_from(
            s.drop_first(),
            true,
            false,
        )
    }
}

/// The words of `s` joined by single spaces.
pub open spec fn clean_spec(s: Seq<char>) -> Seq<char> {
    clean_from(s, false, false)
}

/// The characters of `s`, in order, in a vector.
pub(crate) fn str_chars(s: &str) -> (v: Vec<char>)
    ensures
        v@ == s@,
{
    broadcast use vstd::string::axiom_spec_iter;

    let mut v: Vec<char> = Vec::new();
    for c in it: s.chars()
        invariant
            v@ == it.seq().take(it.index() as int),
    {
        v.push(c);
    }
    v
}

/// `String`'s `FromIterator<&char>` (`collect`): the contract claims the string holds exactly
/// the given characters, in order.
#[verifier::external_body]
pub(crate) fn string_from_chars(v: &[char]) -> (s: String)
    ensures
        s@ == v@,
{
    v.iter().collect()
}

/// Whitespace normalisation on a character sequence.
pub fn clean_chars(s: &[char]) -> (r: Vec<char>)
    ensures
        r@ == clean_spec(s@),
{
    let mut out: Vec<char> = Vec::new();
    let mut seen = false;
    let mut gap = false;
    let mut i: usize = 0;
    proof {
        assert(s@.skip(0) =~= s@);
        assert(out@ + clean_spec(s@) =~= clean_spec(s@));
    }
    while i < s.len()
        invariant
            i <= s.len(),
            out@ + clean_from(s@.skip(i as int), seen, gap) == clean_spec(s@),
        decreases s.len() - i,
    {
        let c = s[i];
        let ghost before = out@;
        proof {
            assert(s@.skip(i as int).drop_first() =~= s@.skip(i + 1));
        }
        if is_space(c) {
            gap = true;
        } else {
            if seen && gap {
                out.push(' ');
            }
            out.push(c);
            proof {
                let rest = clean_from(s@.skip(i + 1), true, false);
                let pre: Seq<char> = if seen && gap { seq![' '] } else { Seq::empty() };
                assert(out@ =~= before + pre + seq![c]);
                assert(before + (pre + seq![c] + rest) =~= out@ + rest);
            }
            seen = true;
            gap = false;
        }
        i += 1;
    }
    proof {
        assert(s@.skip(i as int) =~= Seq::<char>::empty());
        assert(out@ + Seq::<char>::empty() =~= out@);
    }
    out
}

/// Collapses every run of white space into one space and trims the ends,
/// as `split_whitespace` followed by `join(" ")` does.
pub fn clean(text: &str) -> (r: String)
    ensures
        r@ == clean_spec(text@),
{
    let v = str_chars(text);
    let c = clean_chars(v.as_slice());
    string_from_chars(c.as_slice())
}


/// Element-wise equality of two character sequences.
pub fn chars_eq(a: &[char], b: &[char]) -> (r: bool)
    ensures
        r == (a@ == b@),
{
    if a.len() != b.len() {
        return false;
    }
    let mut i: usize = 0;
    while i < a.len()
        invariant
            i <= a.len(),
            a.len() == b.len(),
            forall|k: int| 0 <= k < i ==> a@[k] == b@[k],
        decreases a.len() - i,
    {
        if a[i] != b[i] {
            return false;
        }
        i += 1;
    }
    assert(a@ =~= b@);
    true
}

/// Equality of two strings by their characters.
pub fn str_eq(a: &str, b: &str) -> (r: bool)
    ensures
        r == (a@ == b@),
{
    let x = str_chars(a);
    let y = str_chars(b);
    chars_eq(x.as_slice(), y.as_slice())
}

/// Number of bytes the UTF-8 encoding of `c` takes.
pub open spec fn utf8_width(c: char) -> nat {
    let n = c as u32;
    if n < 0x80 {
        1
    } else if n < 0x800 {
        2
    } else if n < 0x10000 {
        3
    } else {
        4
    }
}

/// Length in bytes of the UTF-8 encoding of `s`, which is what `str::len` reports.
pub open spec fn utf8_len(s: Seq<char>) -> nat
    decreases s.len(),
{
    if s.len() == 0 {
        0
    } else {
        utf8_len(s.drop_last()) + utf8_width(s.last())
    }
}

proof fn lemma_utf8_len_prefix(s: Seq<char>, i: int)
    requires
        0 <= i <= s.len(),
    ensures
        utf8_len(s.take(i)) <= utf8_len(s),
    decreases s.len() - i,
{
    if i < s.len() {
        lemma_utf8_len_prefix(s, i + 1);
        assert(s.take(i + 1).drop_last() =~= s.take(i));
    } else {
        assert(s.take(i) =~= s);
    }
}

/// Whether the UTF-8 encoding of `s` is longer than `limit` bytes.
pub fn utf8_longer_than(s: &str, limit: usize) -> (r: bool)
    ensures
        r == (utf8_len(s@) > limit),
{
    let v = str_chars(s);
    let mut acc: usize = 0;
    let mut i: usize = 0;
    while i < v.len()
        invariant
            i <= v.len(),
            v@ == s@,
            acc == utf8_len(v@.take(i as int)),
            acc <= limit,
        decreases v.len() - i,
    {
        let n = v[i] as u32;
        let w: usize = if n < 0x80 {
            1
        } else if n < 0x800 {
            2
        } else if n < 0x10000 {
            3
        } else {
            4
        };
        proof {
            assert(v@.take(i + 1).drop_last() =~= v@.take(i as int));
        }
        if w > limit - acc {
            proof {
                lemma_utf8_len_prefix(v@, i + 1);
            }
            return true;
        }
        acc = acc + w;
        i += 1;
    }
    assert(v@.take(i as int) =~= v@);
    false
}

} // verus!

verus! {

/// Whether every character of `s` is white space (so that `trim()` leaves nothing).
pub open spec fn all_space(s: Seq<char>) -> bool {
    forall|i: int| 0 <= i < s.len() ==> is_space_spec(#[trigger] s[i])
}

/// Whether `s` is empty after trimming white space.
pub fn is_blank(s: &str) -> (r: bool)
    ensures
        r == all_space(s@),
{
    let v = str_chars(s);
    let mut i: usize = 0;
    while i < v.len()
        invariant
            i <= v@.len(),
            v@ == s@,
            forall|k: int| 0 <= k < i ==> is_space_spec(#[trigger] v@[k]),
        decreases v.len() - i,
    {
        if !is_space(v[i]) {
            return false;
        }
        i += 1;
    }
    true
}

/// Whether `needle` occurs in `hay` as a contiguous run.
pub open spec fn contains_seq(hay: Seq<char>, needle: Seq<char>) -> bool {
    exists|i: int| 0 <= i <= hay.len() - needle.len() && #[trigger] hay.subrange(i, i + needle.len()) == needle
}

/// Whether `needle` occurs at position `i` of `hay`.
pub fn occurs_at(hay: &[char], needle: &[char], i: usize) -> (r: bool)
    requires
        i + needle@.len() <= hay@.len(),
    ensures
        r == (hay@.subrange(i as int, i + needle@.len()) == needle@),
{
    let mut k: usize = 0;
    let hl = hay.len();
    while k < needle.len()
        invariant
            k <= needle@.len(),
            i + needle@.len() <= hay@.len(),
            hl == hay@.len(),
            forall|m: int| 0 <= m < k ==> hay@[i + m] == needle@[m],
        decreases needle.len() - k,
    {
        if hay[i + k] != needle[k] {
            assert(hay@.subrange(i as int, i + needle@.len())[k as int] != needle@[k as int]);
            return false;
        }
        k += 1;
    }
    assert(hay@.subrange(i as int, i + needle@.len()) =~= needle@);
    true
}

/// Substring search (`str::contains`).
pub fn contains_chars(hay: &[char], needle: &[char]) -> (r: bool)
    ensures
        r == contains_seq(hay@, needle@),
{
    if needle.len() > hay.len() {
        return false;
    }
    let last = hay.len() - needle.len();
    let mut i: usize = 0;
    loop
        invariant
            last == hay@.len() - needle@.len(),
            i <= last,
            forall|j: int| 0 <= j < i ==> #[trigger] hay@.subrange(j, j + needle@.len()) != needle@,
        decreases last - i,
    {
        if occurs_at(hay, needle, i) {
            return true;
        }
        if i == last {
            return false;
        }
        i += 1;
    }
}

} // verus!

verus! {

/// White-space normalisation that keeps line structure: words within a line are separated by
/// one space, lines with content by one newline, and blank lines and outer white space vanish.
/// This is `lines()`, `clean` on each line, dropping empty lines, and joining with `"\n"`.
pub open spec fn lines_from(s: Seq<char>, seen: bool, gap: bool, nl: bool) -> Seq<char>
    decreases s.len(),
{
    if s.len() == 0 {
        Seq::empty()
    } else if s[0] == '\n' {
        lines_from(s.drop_first(), seen, gap, true)
    } else if is_space_spec(s[0]) {
        lines_from(s.drop_first(), seen, true, nl)
    } else {
        (if seen && nl {
            seq!['\n']
        } else if seen && gap {
            seq![' ']
        } else {
            Seq::empty()
        }) + seq![s[0]] + lines_from(s.drop_first(), true, false, false)
    }
}

/// Line-preserving white-space normalisation of `s`.
pub open spec fn lines_spec(s: Seq<char>) -> Seq<char> {
    lines_from(s, false, false, false)
}

/// Line-preserving white-space normalisation (see [`lines_spec`]).
pub fn lines_chars(s: &[char]) -> (r: Vec<char>)
    ensures
        r@ == lines_spec(s@),
{
    let mut out: Vec<char> = Vec::new();
    let mut seen = false;
    let mut gap = false;
    let mut nl = false;
    let mut i: usize = 0;
    proof {
        assert(s@.skip(0) =~= s@);
        assert(out@ + lines_spec(s@) =~= lines_spec(s@));
    }
    while i < s.len()
        invariant
            i <= s.len(),
            out@ + lines_from(s@.skip(i as int), seen, gap, nl) == lines_spec(s@),
        decreases s.len() - i,
    {
        let c = s[i];
        let ghost before = out@;
        proof {
            assert(s@.skip(i as int).drop_first() =~= s@.skip(i + 1));
        }
        if c == '\n' {
            nl = true;
        } else if is_space(c) {
            gap = true;
        } else {
            let ghost pre: Seq<char> = if seen && nl {
                seq!['\n']
            } else if seen && gap {
                seq![' ']
            } else {
                Seq::empty()
            };
            if seen && nl {
                out.push('\n');
            } else if seen && gap {
                out.push(' ');
            }
            out.push(c);
            proof {
                let rest = lines_from(s@.skip(i + 1), true, false, false);
                assert(out@ =~= before + pre + seq![c]);
                assert(before + (pre + seq![c] + rest) =~= out@ + rest);
            }
            seen = true;
            gap = false;
            nl = false;
        }
        i += 1;
    }
    proof {
        assert(s@.skip(i as int) =~= Seq::<char>::empty());
        assert(out@ + Seq::<char>::empty() =~= out@);
    }
    out
}

/// Some character of `s` is not white space.
pub open spec fn has_visible(s: Seq<char>) -> bool {
    exists|i: int| 0 <= i < s.len() && !is_space_spec(#[trigger] s[i])
}

/// Two texts one after the other on separate lines: a line break between them when both
/// have content.
pub open spec fn join_lines(a: Seq<char>, b: Seq<char>) -> Seq<char> {
    if a.len() > 0 && b.len() > 0 { a + seq!['\n'] + b } else { a + b }
}

/// `t` on a line of its own after earlier content: a line break before it when it is not
/// empty.
pub open spec fn after_break(t: Seq<char>) -> Seq<char> {
    if t.len() > 0 { seq!['\n'] + t } else { t }
}

proof fn lemma_nl_space()
    ensures
        is_space_spec('\n'),
{
    assert(('\n' as u32) == 0xa);
}

proof fn lemma_lines_unseen(y: Seq<char>, g: bool, nl: bool)
    ensures
        lines_from(y, false, g, nl) == lines_from(y, false, false, false),
        lines_from(y, false, false, false).len() > 0 <==> has_visible(y),
    decreases y.len(),
{
    lemma_nl_space();
    if y.len() > 0 {
        let t = y.drop_first();
        lemma_lines_unseen(t, g, nl);
        lemma_lines_unseen(t, g, true);
        lemma_lines_unseen(t, true, nl);
        lemma_lines_unseen(t, false, true);
        lemma_lines_unseen(t, true, false);
        if has_visible(t) {
            let i = choose|i: int| 0 <= i < t.len() && !is_space_spec(#[trigger] t[i]);
            assert(y[i + 1] == t[i]);
        }
        if has_visible(y) && is_space_spec(y[0]) {
            let i = choose|i: int| 0 <= i < y.len() && !is_space_spec(#[trigger] y[i]);
            assert(t[i - 1] == y[i]);
        }
    }
}

proof fn lemma_lines_seen_break(y: Seq<char>, g: bool)
    ensures
        lines_from(y, true, g, true) == after_break(lines_from(y, false, false, false)),
    decreases y.len(),
{
    lemma_nl_space();
    if y.len() > 0 {
        let t = y.drop_first();
        lemma_lines_seen_break(t, g);
        lemma_lines_seen_break(t, true);
        lemma_lines_unseen(t, false, true);
        lemma_lines_unseen(t, true, false);
        if !is_space_spec(y[0]) {
            assert(lines_from(y, true, g, true) == seq!['\n'] + seq![y[0]] + lines_from(t, true, false, false));
            assert(lines_from(y, false, false, false) == Seq::<char>::empty() + seq![y[0]] + lines_from(t, true, false, false));
            assert(seq!['\n'] + seq![y[0]] + lines_from(t, true, false, false)
                =~= seq!['\n'] + (Seq::<char>::empty() + seq![y[0]] + lines_from(t, true, false, false)));
        }
    }
}

proof fn lemma_lines_break(x: Seq<char>, y: Seq<char>, seen: bool, gap: bool, nl: bool)
    ensures
        lines_from(x + seq!['\n'] + y, seen, gap, nl) == lines_from(x, seen, gap, nl) + (if seen || has_visible(x) {
            after_break(lines_from(y, false, false, false))
        } else {
            lines_from(y, false, false, false)
        }),
    decreases x.len(),
{
    lemma_nl_space();
    let w = x + seq!['\n'] + y;
    if x.len() == 0 {
        assert(w.drop_first() =~= y);
        assert(w[0] == '\n');
        if seen {
            lemma_lines_seen_break(y, gap);
        } else {
            lemma_lines_unseen(y, gap, true);
        }
        assert(!has_visible(x));
        assert(lines_from(x, seen, gap, nl) =~= Seq::<char>::empty());
    } else {
        let t = x.drop_first();
        assert(w.drop_first() =~= t + seq!['\n'] + y);
        assert(w[0] == x[0]);
        let tail = if seen || has_visible(x) {
            after_break(lines_from(y, false, false, false))
        } else {
            lines_from(y, false, false, false)
        };
        if has_visible(t) {
            let i = choose|i: int| 0 <= i < t.len() && !is_space_spec(#[trigger] t[i]);
            assert(x[i + 1] == t[i]);
        }
        if x[0] == '\n' {
            lemma_lines_break(t, y, seen, gap, true);
            if has_visible(x) {
                let i = choose|i: int| 0 <= i < x.len() && !is_space_spec(#[trigger] x[i]);
                assert(t[i - 1] == x[i]);
            }
        } else if is_space_spec(x[0]) {
            lemma_lines_break(t, y, seen, true, nl);
            if has_visible(x) {
                let i = choose|i: int| 0 <= i < x.len() && !is_space_spec(#[trigger] x[i]);
                assert(t[i - 1] == x[i]);
            }
        } else {
            lemma_lines_break(t, y, true, false, false);
            assert(has_visible(x));
            let pre: Seq<char> = if seen && nl {
                seq!['\n']
            } else if seen && gap {
                seq![' ']
            } else {
                Seq::empty()
            };
            assert(lines_from(w, seen, gap, nl) == pre + seq![x[0]] + lines_from(t + seq!['\n'] + y, true, false, false));
            assert(lines_from(x, seen, gap, nl) == pre + seq![x[0]] + lines_from(t, true, false, false));
            assert(pre + seq![x[0]] + (lines_from(t, true, false, false) + tail) =~= (pre + seq![x[0]] + lines_from(t, true, false, false)) + tail);
        }
    }
}

/// A line break keeps the text before it and the text after it on separate lines: the
/// normalised text of `x`, a line break and `y` is that of `x` and that of `y` joined as two
/// lines.
pub proof fn law_lines_break(x: Seq<char>, y: Seq<char>)
    ensures
        lines_spec(x + seq!['\n'] + y) == join_lines(lines_spec(x), lines_spec(y)),
{
    lemma_lines_break(x, y, false, false, false);
    lemma_lines_unseen(x, false, false);
    if lines_spec(x).len() == 0 {
        assert(lines_spec(x) + lines_spec(y) =~= lines_spec(y));
    } else if lines_spec(y).len() == 0 {
        assert(lines_spec(x) + lines_spec(y) =~= lines_spec(x));
    } else {
        assert(lines_spec(x) + (seq!['\n'] + lines_spec(y)) =~= lines_spec(x) + seq!['\n'] + lines_spec(y));
    }
}

} // verus!

verus! {

/// `s` without leading and trailing white space (`str::trim`).
pub open spec fn trim_spec(s: Seq<char>) -> Seq<char> {
    s.subrange(trim_start(s, 0), trim_end(s, s.len() as int))
}

/// Index of the first non-space character at or after `i` (or the length).
pub open spec fn trim_start(s: Seq<char>, i: int) -> int
    decreases s.len() - i,
{
    if i >= s.len() || i < 0 {
        s.len() as int
    } else if is_space_spec(s[i]) {
        trim_start(s, i + 1)
    } else {
        i
    }
}

/// One past the last non-space character before `j` (at least the first non-space index).
pub open spec fn trim_end(s: Seq<char>, j: int) -> int
    decreases j - trim_start(s, 0),
{
    if j <= trim_start(s, 0) {
        trim_start(s, 0)
    } else if is_space_spec(s[j - 1]) {
        trim_end(s, j - 1)
    } else {
        j
    }
}

/// Trimming keeps a contiguous part of the text.
pub proof fn lemma_trim_range(s: Seq<char>)
    ensures
        0 <= trim_start(s, 0) <= trim_end(s, s.len() as int) <= s.len(),
        forall|i: int| 0 <= i < trim_spec(s).len() ==> #[trigger] trim_spec(s)[i] == s[trim_start(s, 0) + i],
{
    lemma_trim_start(s, 0);
    lemma_trim_end(s, s.len() as int);
}

/// The first `c` of `s` is found at `char_index`: no `c` comes before it.
pub proof fn lemma_char_index(s: Seq<char>, c: char)
    ensures
        0 <= char_index(s, c) <= s.len(),
        forall|i: int| 0 <= i < char_index(s, c) ==> #[trigger] s[i] != c,
        char_index(s, c) < s.len() ==> s[char_index(s, c)] == c,
    decreases s.len(),
{
    if s.len() > 0 && s[0] != c {
        lemma_char_index(s.drop_first(), c);
        assert forall|i: int| 0 <= i < char_index(s, c) implies #[trigger] s[i] != c by {
            if i > 0 {
                assert(s[i] == s.drop_first()[i - 1]);
            }
        }
    }
}

proof fn lemma_trim_start(s: Seq<char>, i: int)
    requires
        0 <= i <= s.len(),
    ensures
        i <= trim_start(s, i) <= s.len(),
    decreases s.len() - i,
{
    if i < s.len() && is_space_spec(s[i]) {
        lemma_trim_start(s, i + 1);
    }
}

proof fn lemma_trim_end(s: Seq<char>, j: int)
    requires
        trim_start(s, 0) <= j <= s.len(),
    ensures
        trim_start(s, 0) <= trim_end(s, j) <= j,
    decreases j - trim_start(s, 0),
{
    if j > trim_start(s, 0) && is_space_spec(s[j - 1]) {
        lemma_trim_end(s, j - 1);
    }
}

/// Removes leading and trailing white space.
pub fn trim_chars(s: &[char]) -> (r: Vec<char>)
    ensures
        r@ == trim_spec(s@),
{
    let mut a: usize = 0;
    proof {
        lemma_trim_start(s@, 0);
    }
    while a < s.len() && is_space(s[a])
        invariant
            a <= s@.len(),
            trim_start(s@, 0) == trim_start(s@, a as int),
        decreases s.len() - a,
    {
        a += 1;
    }
    let mut b: usize = s.len();
    proof {
        lemma_trim_end(s@, s@.len() as int);
    }
    while b > a && is_space(s[b - 1])
        invariant
            a == trim_start(s@, 0),
            a <= b <= s@.len(),
            trim_end(s@, s@.len() as int) == trim_end(s@, b as int),
        decreases b,
    {
        b -= 1;
    }
    let mut out: Vec<char> = Vec::new();
    let mut i = a;
    while i < b
        invariant
            a <= i <= b <= s@.len(),
            out@ == s@.subrange(a as int, i as int),
        decreases b - i,
    {
        out.push(s[i]);
        i += 1;
        proof {
            assert(out@ =~= s@.subrange(a as int, i as int));
        }
    }
    out
}

} // verus!

verus! {

/// `s` begins with `p`.
pub open spec fn has_prefix(s: Seq<char>, p: Seq<char>) -> bool {
    p.len() <= s.len() && s.take(p.len() as int) == p
}

/// `s` ends with `p`.
pub open spec fn has_suffix(s: Seq<char>, p: Seq<char>) -> bool {
    p.len() <= s.len() && s.skip(s.len() - p.len()) == p
}

/// Whether `s` begins with `p` (`str::starts_with`).
pub fn starts_with(s: &[char], p: &str) -> (r: bool)
    ensures
        r == has_prefix(s@, p@),
{
    let pv = str_chars(p);
    if pv.len() > s.len() {
        return false;
    }
    let b = occurs_at(s, pv.as_slice(), 0);
    proof {
        assert(s@.subrange(0, pv@.len() as int) =~= s@.take(pv@.len() as int));
    }
    b
}

/// Whether `s` ends with `p` (`str::ends_with`).
pub fn ends_with(s: &[char], p: &str) -> (r: bool)
    ensures
        r == has_suffix(s@, p@),
{
    let pv = str_chars(p);
    if pv.len() > s.len() {
        return false;
    }
    let b = occurs_at(s, pv.as_slice(), s.len() - pv.len());
    proof {
        assert(s@.subrange(s@.len() - pv@.len(), s@.len() as int) =~= s@.skip(s@.len() - pv@.len()));
    }
    b
}

/// Whether `s` contains `p` (`str::contains`).
pub fn contains_str(s: &[char], p: &str) -> (r: bool)
    ensures
        r == contains_seq(s@, p@),
{
    let pv = str_chars(p);
    contains_chars(s, pv.as_slice())
}

/// Left-to-right replacement of every occurrence of the non-empty `pat` by `rep` (`str::replace`).
pub open spec fn replace_spec(s: Seq<char>, pat: Seq<char>, rep: Seq<char>) -> Seq<char>
    decreases s.len(),
{
    if s.len() == 0 || pat.len() == 0 {
        s
    } else if has_prefix(s, pat) {
        rep + replace_spec(s.skip(pat.len() as int), pat, rep)
    } else {
        seq![s[0]] + replace_spec(s.drop_first(), pat, rep)
    }
}

/// Replaces every occurrence of `pat` by `rep`.
pub fn replace_chars(s: &[char], pat: &str, rep: &str) -> (r: Vec<char>)
    ensures
        r@ == replace_spec(s@, pat@, rep@),
{
    let pv = str_chars(pat);
    let rv = str_chars(rep);
    let mut out: Vec<char> = Vec::new();
    if pv.len() == 0 {
        let mut k: usize = 0;
        while k < s.len()
            invariant
                k <= s@.len(),
                out@ == s@.take(k as int),
            decreases s.len() - k,
        {
            out.push(s[k]);
            k += 1;
            proof {
                assert(out@ =~= s@.take(k as int));
            }
        }
        proof {
            assert(s@.take(s@.len() as int) =~= s@);
        }
        return out;
    }
    let mut i: usize = 0;
    proof {
        assert(s@.skip(0) =~= s@);
    }
    while i < s.len()
        invariant
            i <= s@.len(),
            pv@ == pat@,
            rv@ == rep@,
            pv@.len() > 0,
            out@ + replace_spec(s@.skip(i as int), pat@, rep@) == replace_spec(s@, pat@, rep@),
        decreases s.len() - i,
    {
        let ghost rest = s@.skip(i as int);
        let ghost before = out@;
        if pv.len() <= s.len() - i && occurs_at(s, pv.as_slice(), i) {
            proof {
                assert(rest.take(pv@.len() as int) =~= s@.subrange(i as int, i + pv@.len()));
                assert(rest.skip(pv@.len() as int) =~= s@.skip(i + pv@.len()));
            }
            let mut c = rv.clone();
            proof {
                assert(c@ =~= rv@);
            }
            out.append(&mut c);
            proof {
                assert(before + (rep@ + replace_spec(s@.skip(i + pv@.len()), pat@, rep@)) =~= out@ + replace_spec(s@.skip(i + pv@.len()), pat@, rep@));
            }
            i = i + pv.len();
        } else {
            proof {
                if pv@.len() <= rest.len() {
                    assert(rest.take(pv@.len() as int) =~= s@.subrange(i as int, i + pv@.len()));
                }
                assert(rest.drop_first() =~= s@.skip(i + 1));
            }
            out.push(s[i]);
            proof {
                assert(before + (seq![s@[i as int]] + replace_spec(s@.skip(i + 1), pat@, rep@)) =~= out@ + replace_spec(s@.skip(i + 1), pat@, rep@));
            }
            i += 1;
        }
    }
    proof {
        assert(s@.skip(i as int) =~= Seq::<char>::empty());
        assert(out@ + Seq::<char>::empty() =~= out@);
    }
    out
}

/// `s` without trailing copies of `c` (`str::trim_end_matches`).
pub open spec fn trim_end_char(s: Seq<char>, c: char) -> Seq<char>
    decreases s.len(),
{
    if s.len() > 0 && s.last() == c {
        trim_end_char(s.drop_last(), c)
    } else {
        s
    }
}

/// `s` without leading copies of `c` (`str::trim_start_matches`).
pub open spec fn trim_start_char(s: Seq<char>, c: char) -> Seq<char>
    decreases s.len(),
{
    if s.len() > 0 && s[0] == c {
        trim_start_char(s.drop_first(), c)
    } else {
        s
    }
}

/// Removes trailing copies of `c`.
pub fn trim_end_char_exec(s: &[char], c: char) -> (r: Vec<char>)
    ensures
        r@ == trim_end_char(s@, c),
{
    let mut b = s.len();
    proof {
        assert(s@.take(b as int) =~= s@);
    }
    while b > 0 && s[b - 1] == c
        invariant
            b <= s@.len(),
            trim_end_char(s@, c) == trim_end_char(s@.take(b as int), c),
        decreases b,
    {
        proof {
            assert(s@.take(b as int).drop_last() =~= s@.take(b - 1));
        }
        b -= 1;
    }
    let mut out: Vec<char> = Vec::new();
    let mut i: usize = 0;
    while i < b
        invariant
            i <= b <= s@.len(),
            out@ == s@.take(i as int),
        decreases b - i,
    {
        out.push(s[i]);
        i += 1;
        proof {
            assert(out@ =~= s@.take(i as int));
        }
    }
    proof {
        assert(trim_end_char(s@.take(b as int), c) == s@.take(b as int));
    }
    out
}

/// Removes leading copies of `c`.
pub fn trim_start_char_exec(s: &[char], c: char) -> (r: Vec<char>)
    ensures
        r@ == trim_start_char(s@, c),
{
    let mut a: usize = 0;
    proof {
        assert(s@.skip(0) =~= s@);
    }
    while a < s.len() && s[a] == c
        invariant
            a <= s@.len(),
            trim_start_char(s@, c) == trim_start_char(s@.skip(a as int), c),
        decreases s.len() - a,
    {
        proof {
            assert(s@.skip(a as int).drop_first() =~= s@.skip(a + 1));
        }
        a += 1;
    }
    let mut out: Vec<char> = Vec::new();
    let mut i = a;
    while i < s.len()
        invariant
            a <= i <= s@.len(),
            out@ == s@.subrange(a as int, i as int),
        decreases s.len() - i,
    {
        out.push(s[i]);
        i += 1;
        proof {
            assert(out@ =~= s@.subrange(a as int, i as int));
        }
    }
    proof {
        assert(out@ =~= s@.skip(a as int));
    }
    out
}

} // verus!

verus! {

/// `s` without any copy of `c` (`str::replace(c, "")`).
pub open spec fn remove_char(s: Seq<char>, c: char) -> Seq<char>
    decreases s.len(),
{
    if s.len() == 0 {
        Seq::empty()
    } else {
        remove_char(s.drop_last(), c) + (if s.last() == c {
            Seq::empty()
        } else {
            seq![s.last()]
        })
    }
}

/// Removes every copy of `c`.
pub fn remove_char_exec(s: &[char], c: char) -> (r: Vec<char>)
    ensures
        r@ == remove_char(s@, c),
{
    let mut out: Vec<char> = Vec::new();
    let mut i: usize = 0;
    while i < s.len()
        invariant
            i <= s@.len(),
            out@ == remove_char(s@.take(i as int), c),
        decreases s.len() - i,
    {
        proof {
            assert(s@.take(i + 1).drop_last() =~= s@.take(i as int));
        }
        if s[i] != c {
            out.push(s[i]);
        }
        i += 1;
        proof {
            assert(out@ =~= remove_char(s@.take(i as int), c));
        }
    }
    proof {
        assert(s@.take(s@.len() as int) =~= s@);
    }
    out
}

/// The position of the first `c` in `s`, or the length of `s` when there is none.
pub open spec fn char_index(s: Seq<char>, c: char) -> int
    decreases s.len(),
{
    if s.len() == 0 {
        0
    } else if s[0] == c {
        0
    } else {
        1 + char_index(s.drop_first(), c)
    }
}

/// Finds the first `c` (see [`char_index`]).
pub fn char_index_exec(s: &[char], c: char) -> (k: usize)
    ensures
        k == char_index(s@, c),
        k <= s@.len(),
{
    let mut i: usize = 0;
    proof {
        assert(s@.skip(0) =~= s@);
    }
    while i < s.len()
        invariant
            i <= s@.len(),
            char_index(s@, c) == i + char_index(s@.skip(i as int), c),
        decreases s.len() - i,
    {
        proof {
            assert(s@.skip(i as int).drop_first() =~= s@.skip(i + 1));
            assert(s@.skip(i as int)[0] == s@[i as int]);
        }
        if s[i] == c {
            return i;
        }
        i += 1;
    }
    proof {
        assert(s@.skip(i as int) =~= Seq::<char>::empty());
    }
    i
}

/// The pieces of `s` between the copies of `c` (`str::split`); there is always at least one.
pub open spec fn split_on(s: Seq<char>, c: char) -> Seq<Seq<char>>
    decreases s.len(),
{
    if s.len() == 0 {
        seq![Seq::empty()]
    } else {
        let p = split_on(s.drop_last(), c);
        if s.last() == c {
            p.push(Seq::empty())
        } else {
            p.update(p.len() - 1, p.last().push(s.last()))
        }
    }
}

pub proof fn lemma_split_on_len(s: Seq<char>, c: char)
    ensures
        split_on(s, c).len() >= 1,
    decreases s.len(),
{
    if s.len() > 0 {
        lemma_split_on_len(s.drop_last(), c);
    }
}

/// ASCII lower case of a character; other characters stay.
pub open spec fn ascii_lower(c: char) -> char {
    if 'A' <= c <= 'Z' {
        ((c as u32) + 32) as char
    } else {
        c
    }
}

/// Equality up to ASCII case (`str::eq_ignore_ascii_case`).
pub open spec fn ascii_ieq(a: Seq<char>, b: Seq<char>) -> bool {
    a.len() == b.len() && forall|i: int| 0 <= i < a.len() ==> ascii_lower(#[trigger] a[i]) == ascii_lower(b[i])
}

fn ascii_lower_code(c: char) -> (r: u32)
    ensures
        r == ascii_lower(c) as u32,
{
    let n = c as u32;
    if 'A' <= c && c <= 'Z' {
        n + 32
    } else {
        n
    }
}

/// Compares up to ASCII case.
pub fn ascii_ieq_exec(a: &[char], b: &str) -> (r: bool)
    ensures
        r == ascii_ieq(a@, b@),
{
    let bv = str_chars(b);
    if a.len() != bv.len() {
        return false;
    }
    let mut i: usize = 0;
    while i < a.len()
        invariant
            i <= a@.len(),
            a@.len() == bv@.len(),
            bv@ == b@,
            forall|k: int| 0 <= k < i ==> ascii_lower(#[trigger] a@[k]) == ascii_lower(bv@[k]),
        decreases a.len() - i,
    {
        if ascii_lower_code(a[i]) != ascii_lower_code(bv[i]) {
            return false;
        }
        i += 1;
    }
    true
}

/// The length in bytes of the UTF-8 encoding of `s`.
pub fn utf8_len_exec(s: &[char]) -> (n: u128)
    ensures
        n == utf8_len(s@),
{
    let mut acc: u128 = 0;
    let mut i: usize = 0;
    while i < s.len()
        invariant
            i <= s@.len(),
            acc == utf8_len(s@.take(i as int)),
            acc <= 4 * i,
        decreases s.len() - i,
    {
        let n = s[i] as u32;
        let w: u128 = if n < 0x80 {
            1
        } else if n < 0x800 {
            2
        } else if n < 0x10000 {
            3
        } else {
            4
        };
        proof {
            assert(s@.take(i + 1).drop_last() =~= s@.take(i as int));
        }
        acc = acc + w;
        i += 1;
    }
    proof {
        assert(s@.take(i as int) =~= s@);
    }
    acc
}

} // verus!

verus! {

/// The decimal digit character of `d` (for `d < 10`).
pub open spec fn digit_char(d: nat) -> char {
    ((('0' as u32) + d) as u32) as char
}

/// The decimal numeral of `n`, as `format!("{n}")` writes it.
pub open spec fn decimal_spec(n: nat) -> Seq<char>
    decreases n,
{
    if n < 10 {
        seq![digit_char(n)]
    } else {
        decimal_spec(n / 10) + seq![digit_char(n % 10)]
    }
}

fn digit_exec(d: u64) -> (c: char)
    requires
        d < 10,
    ensures
        c == digit_char(d as nat),
{
    match d {
        0 => '0',
        1 => '1',
        2 => '2',
        3 => '3',
        4 => '4',
        5 => '5',
        6 => '6',
        7 => '7',
        8 => '8',
        _ => '9',
    }
}

/// Appends the decimal numeral of `n`.
pub fn push_decimal(out: &mut Vec<char>, n: u64)
    ensures
        final(out)@ == old(out)@ + decimal_spec(n as nat),
    decreases n,
{
    if n >= 10 {
        push_decimal(out, n / 10);
    }
    let d = digit_exec(n % 10);
    out.push(d);
    proof {
        if n < 10 {
            assert(n % 10 == n);
        }
        assert(out@ =~= old(out)@ + decimal_spec(n as nat));
    }
}

/// Appends the characters of `s`.
pub fn push_str(out: &mut Vec<char>, s: &str)
    ensures
        final(out)@ == old(out)@ + s@,
{
    let v = str_chars(s);
    let mut i: usize = 0;
    while i < v.len()
        invariant
            i <= v@.len(),
            v@ == s@,
            out@ == old(out)@ + v@.take(i as int),
        decreases v.len() - i,
    {
        out.push(v[i]);
        i += 1;
        proof {
            assert(out@ =~= old(out)@ + v@.take(i as int));
        }
    }
    proof {
        assert(v@.take(v@.len() as int) =~= v@);
    }
}

} // verus!
