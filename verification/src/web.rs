//! The HTML the local web pages are made of, and who may change the crawler's state.
use vstd::prelude::*;
use crate::text::{decimal_spec, push_decimal, push_str, replace_chars, replace_spec, str_chars, string_from_chars, trim_chars, trim_spec};

verus! {

/// How one character is written in HTML text.
pub open spec fn escape_char(c: char) -> Seq<char> {
    if c == '&' {
        "&amp;"@
    } else if c == '<' {
        "&lt;"@
    } else if c == '>' {
        "&gt;"@
    } else if c == '"' {
        "&quot;"@
    } else if c == '\'' {
        "&#39;"@
    } else {
        seq![c]
    }
}

/// Text made safe to place in HTML: each of `& < > " '` becomes its character reference.
pub open spec fn escape_spec(s: Seq<char>) -> Seq<char>
    decreases s.len(),
{
    if s.len() == 0 {
        Seq::empty()
    } else {
        escape_spec(s.drop_last()) + escape_char(s.last())
    }
}

/// User input is text, not HTML: escapes it before it is placed in a page.
pub fn escape_html(text: &str) -> (r: String)
    ensures
        r@ == escape_spec(text@),
{
    let v = str_chars(text);
    let mut out: Vec<char> = Vec::new();
    let mut i: usize = 0;
    while i < v.len()
        invariant
            i <= v@.len(),
            v@ == text@,
            out@ == escape_spec(v@.take(i as int)),
        decreases v.len() - i,
    {
        let c = v[i];
        proof {
            assert(v@.take(i + 1).drop_last() =~= v@.take(i as int));
            assert(v@.take(i + 1).last() == c);
        }
        if c == '&' {
            push_str(&mut out, "&amp;");
        } else if c == '<' {
            push_str(&mut out, "&lt;");
        } else if c == '>' {
            push_str(&mut out, "&gt;");
        } else if c == '"' {
            push_str(&mut out, "&quot;");
        } else if c == '\'' {
            push_str(&mut out, "&#39;");
        } else {
            out.push(c);
        }
        i += 1;
        proof {
            assert(out@ =~= escape_spec(v@.take(i as int)));
        }
    }
    proof {
        assert(v@.take(v@.len() as int) =~= v@);
    }
    string_from_chars(out.as_slice())
}

/// One item of the to-do list.
pub struct Todo {
    pub title: String,
    pub done: bool,
}

/// A title as submitted is accepted when, without surrounding white space, it has 1 to 120
/// characters; the trimmed title is kept.
pub open spec fn todo_title_spec(raw: Seq<char>) -> Option<Seq<char>> {
    let t = trim_spec(raw);
    if t.len() == 0 || t.len() > 120 {
        None
    } else {
        Some(t)
    }
}

/// The title a new item gets, or `None` when the submitted title is refused.
pub fn todo_title(raw: &str) -> (r: Option<String>)
    ensures
        match r {
            Some(t) => todo_title_spec(raw@) == Some(t@),
            None => todo_title_spec(raw@) is None,
        },
{
    let t = trim_chars(str_chars(raw).as_slice());
    if t.len() == 0 || t.len() > 120 {
        None
    } else {
        Some(string_from_chars(t.as_slice()))
    }
}

/// Adds an item, if its title is accepted; the list is unchanged otherwise.
pub fn add_todo(todos: &mut Vec<Todo>, raw: &str) -> (added: bool)
    ensures
        added == (todo_title_spec(raw@) is Some),
        added ==> final(todos)@.len() == old(todos)@.len() + 1
            && final(todos)@.take(old(todos)@.len() as int) == old(todos)@
            && Some(final(todos)@.last().title@) == todo_title_spec(raw@)
            && !final(todos)@.last().done,
        !added ==> final(todos)@ == old(todos)@,
{
    match todo_title(raw) {
        Some(title) => {
            let ghost before = todos@;
            todos.push(Todo { title, done: false });
            proof {
                assert(todos@.take(before.len() as int) =~= before);
            }
            true
        },
        None => false,
    }
}

/// Flips the state of item `id`; `false`, with the list unchanged, when there is none.
pub fn toggle_todo(todos: &mut Vec<Todo>, id: usize) -> (found: bool)
    ensures
        found == (id < old(todos)@.len()),
        found ==> final(todos)@ == old(todos)@.update(id as int, Todo { title: old(todos)@[id as int].title, done: !old(todos)@[id as int].done }),
        !found ==> final(todos)@ == old(todos)@,
{
    if id < todos.len() {
        let mut t = todos.remove(id);
        t.done = !t.done;
        todos.insert(id, t);
        proof {
            assert(todos@ =~= old(todos)@.update(id as int, Todo { title: old(todos)@[id as int].title, done: !old(todos)@[id as int].done }));
        }
        true
    } else {
        false
    }
}

/// The list item of one to-do: its escaped title, marked `done` when done, and a button
/// that toggles it.
pub open spec fn todo_item(id: nat, t: Todo) -> Seq<char> {
    "<li><span class=\""@ + (if t.done { "done"@ } else { ""@ }) + "\">"@ + escape_spec(t.title@)
        + "</span><form method=\"post\" action=\"/todos/"@ + decimal_spec(id)
        + "/toggle\"><button>"@ + (if t.done { "Undo"@ } else { "Done"@ }) + "</button></form></li>"@
}

/// The list items of the first `n` to-dos.
pub open spec fn todo_items_upto(todos: Seq<Todo>, n: nat) -> Seq<char>
    decreases n,
{
    if n == 0 {
        Seq::empty()
    } else {
        todo_items_upto(todos, (n - 1) as nat) + todo_item((n - 1) as nat, todos[n - 1])
    }
}

/// The items of the list, or a hint when it is empty.
pub open spec fn todo_items_spec(todos: Seq<Todo>) -> Seq<char> {
    if todos.len() == 0 {
        "<li>Your list is empty. Add your first task above.</li>"@
    } else {
        todo_items_upto(todos, todos.len())
    }
}

/// The HTML of the list's items.
pub fn todo_items(todos: &Vec<Todo>) -> (r: String)
    ensures
        r@ == todo_items_spec(todos@),
{
    let mut out: Vec<char> = Vec::new();
    let mut i: usize = 0;
    while i < todos.len()
        invariant
            i <= todos@.len(),
            out@ == todo_items_upto(todos@, i as nat),
        decreases todos.len() - i,
    {
        let t = &todos[i];
        let ghost before = out@;
        push_str(&mut out, "<li><span class=\"");
        if t.done {
            push_str(&mut out, "done");
        } else {
            push_str(&mut out, "");
        }
        push_str(&mut out, "\">");
        push_str(&mut out, escape_html(t.title.as_str()).as_str());
        push_str(&mut out, "</span><form method=\"post\" action=\"/todos/");
        push_decimal(&mut out, i as u64);
        push_str(&mut out, "/toggle\"><button>");
        if t.done {
            push_str(&mut out, "Undo");
        } else {
            push_str(&mut out, "Done");
        }
        push_str(&mut out, "</button></form></li>");
        proof {
            assert(out@ =~= before + todo_item(i as nat, todos@[i as int]));
        }
        i += 1;
    }
    if todos.len() == 0 {
        push_str(&mut out, "<li>Your list is empty. Add your first task above.</li>");
        proof {
            assert(out@ =~= todo_items_spec(todos@));
        }
    }
    string_from_chars(out.as_slice())
}

/// The to-do page: the template with its items placed at `<!-- ITEMS -->`.
pub fn todo_page(template: &str, todos: &Vec<Todo>) -> (r: String)
    ensures
        r@ == replace_spec(template@, "<!-- ITEMS -->"@, todo_items_spec(todos@)),
{
    let items = todo_items(todos);
    let out = replace_chars(str_chars(template).as_slice(), "<!-- ITEMS -->", items.as_str());
    string_from_chars(out.as_slice())
}

/// A crawler page: the layout filled with the page's title, the navigation mark of the
/// current page, and its content.
pub open spec fn crawler_page_spec(is_settings: bool, layout: Seq<char>, settings: Seq<char>, dashboard: Seq<char>) -> Seq<char> {
    let title = if is_settings { "爬蟲設定"@ } else { "爬蟲目前工作狀態 dashboard"@ };
    let content = if is_settings { settings } else { dashboard };
    let current = "aria-current=\"page\""@;
    let a = replace_spec(layout, "{{TITLE}}"@, title);
    let b = replace_spec(a, "{{DASHBOARD_CURRENT}}"@, if is_settings { Seq::empty() } else { current });
    let c = replace_spec(b, "{{SETTINGS_CURRENT}}"@, if is_settings { current } else { Seq::empty() });
    replace_spec(c, "<!-- CONTENT -->"@, content)
}

/// Fills the shared layout for the dashboard or the settings page.
pub fn crawler_page(is_settings: bool, layout: &str, settings: &str, dashboard: &str) -> (r: String)
    ensures
        r@ == crawler_page_spec(is_settings, layout@, settings@, dashboard@),
{
    let title = if is_settings { "爬蟲設定" } else { "爬蟲目前工作狀態 dashboard" };
    let content = if is_settings { settings } else { dashboard };
    let dash = if is_settings { "" } else { "aria-current=\"page\"" };
    let sett = if is_settings { "aria-current=\"page\"" } else { "" };
    let a = replace_chars(str_chars(layout).as_slice(), "{{TITLE}}", title);
    let b = replace_chars(a.as_slice(), "{{DASHBOARD_CURRENT}}", dash);
    let c = replace_chars(b.as_slice(), "{{SETTINGS_CURRENT}}", sett);
    let d = replace_chars(c.as_slice(), "<!-- CONTENT -->", content);
    proof {
        reveal_strlit("");
        assert(""@ =~= Seq::<char>::empty());
    }
    string_from_chars(d.as_slice())
}

/// The origins of the local management pages on `port`.
pub open spec fn local_origin(origin: Seq<char>, port: u16) -> bool {
    origin == "http://127.0.0.1:"@ + decimal_spec(port as nat) || origin == "http://localhost:"@ + decimal_spec(port as nat)
}

/// A state-changing request is allowed when it carries `x-crawler-request: 1` and, if it has
/// an `Origin`, that origin is one of the local management pages on the server's port (when
/// the port is known).
pub open spec fn mutation_allowed_spec(marker: Option<Seq<char>>, origin: Option<Seq<char>>, port: Option<u16>) -> bool {
    marker == Some("1"@) && match origin {
        None => true,
        Some(o) => match port {
            Some(p) => local_origin(o, p),
            None => false,
        },
    }
}

/// Whether a state-changing request comes from the local management pages.
pub fn mutation_allowed(marker: Option<&str>, origin: Option<&str>, port: Option<u16>) -> (r: bool)
    ensures
        r == mutation_allowed_spec(
            match marker { Some(m) => Some(m@), None => None },
            match origin { Some(o) => Some(o@), None => None },
            port,
        ),
{
    let marked = match marker {
        Some(m) => crate::text::str_eq(m, "1"),
        None => false,
    };
    if !marked {
        return false;
    }
    match origin {
        None => true,
        Some(o) => match port {
            Some(p) => {
                let ov = str_chars(o);
                let mut a: Vec<char> = Vec::new();
                push_str(&mut a, "http://127.0.0.1:");
                push_decimal(&mut a, p as u64);
                let mut b: Vec<char> = Vec::new();
                push_str(&mut b, "http://localhost:");
                push_decimal(&mut b, p as u64);
                crate::text::chars_eq(ov.as_slice(), a.as_slice()) || crate::text::chars_eq(ov.as_slice(), b.as_slice())
            },
            None => false,
        },
    }
}

} // verus!
