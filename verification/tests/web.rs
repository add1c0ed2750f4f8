use apple_specs::web::{add_todo, crawler_page, escape_html, mutation_allowed, todo_items, todo_page, todo_title, toggle_todo, Todo};

fn page(todos: &Vec<Todo>) -> String {
    todo_page("<ul><!-- ITEMS --></ul>", todos)
}

#[test]
fn browser_workflow() {
    let mut todos: Vec<Todo> = Vec::new();
    assert!(page(&todos).contains("Your list is empty"));
    assert!(add_todo(&mut todos, "  Learn <Rust> & practice  "));
    for expected in ["class=\"done\"", "class=\"\""] {
        assert!(toggle_todo(&mut todos, 0));
        let html = page(&todos);
        assert!(html.contains("Learn &lt;Rust&gt; &amp; practice"));
        assert!(html.contains(expected));
    }
}

#[test]
fn invalid_requests_do_not_change_the_list() {
    let mut todos: Vec<Todo> = Vec::new();
    for title in ["   ".to_owned(), "x".repeat(121)] {
        assert!(!add_todo(&mut todos, &title));
    }
    assert!(!toggle_todo(&mut todos, 99));
    assert!(todos.is_empty());
}

#[test]
fn escaping_covers_every_markup_character() {
    assert_eq!(escape_html("a&b<c>d\"e'f"), "a&amp;b&lt;c&gt;d&quot;e&#39;f");
    assert_eq!(escape_html("純文字"), "純文字");
    assert_eq!(escape_html(""), "");
}

#[test]
fn titles_are_trimmed_and_limited() {
    assert_eq!(todo_title("  買牛奶 ").as_deref(), Some("買牛奶"));
    assert_eq!(todo_title(&"字".repeat(120)).map(|t| t.chars().count()), Some(120));
    assert!(todo_title(&"字".repeat(121)).is_none());
    assert!(todo_title("\t\n").is_none());
}

#[test]
fn items_link_each_toggle() {
    let todos = vec![
        Todo { title: "a".into(), done: false },
        Todo { title: "b".into(), done: true },
    ];
    assert_eq!(
        todo_items(&todos),
        "<li><span class=\"\">a</span><form method=\"post\" action=\"/todos/0/toggle\"><button>Done</button></form></li>\
<li><span class=\"done\">b</span><form method=\"post\" action=\"/todos/1/toggle\"><button>Undo</button></form></li>"
    );
}

#[test]
fn crawler_pages_mark_the_current_page() {
    let layout = "<title>{{TITLE}}</title><a {{DASHBOARD_CURRENT}}>d</a><a {{SETTINGS_CURRENT}}>s</a><!-- CONTENT -->";
    assert_eq!(
        crawler_page(true, layout, "S", "D"),
        "<title>爬蟲設定</title><a >d</a><a aria-current=\"page\">s</a>S"
    );
    assert_eq!(
        crawler_page(false, layout, "S", "D"),
        "<title>爬蟲目前工作狀態 dashboard</title><a aria-current=\"page\">d</a><a >s</a>D"
    );
}

#[test]
fn only_local_pages_may_change_state() {
    assert!(mutation_allowed(Some("1"), None, Some(8080)));
    assert!(mutation_allowed(Some("1"), Some("http://127.0.0.1:8080"), Some(8080)));
    assert!(mutation_allowed(Some("1"), Some("http://localhost:8080"), Some(8080)));
    assert!(!mutation_allowed(Some("1"), Some("http://localhost:9090"), Some(8080)));
    assert!(!mutation_allowed(Some("1"), Some("http://evil.test"), Some(8080)));
    assert!(!mutation_allowed(None, None, Some(8080)));
    assert!(!mutation_allowed(Some("true"), None, Some(8080)));
    assert!(!mutation_allowed(Some("1"), Some("http://localhost:8080"), None));
}
