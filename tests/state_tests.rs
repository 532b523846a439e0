use pagebreak::dom::{Attribute, Document, NodeData};
use pagebreak::errors::PageErrorCode;
use pagebreak::state::{PagebreakNode, PagebreakState, PagebreakStatusLogging};

fn new_state() -> PagebreakState {
    PagebreakState::new(Document::new(), String::from("index.html"), String::from("output"))
}

#[test]
fn test_get_file_url() {
    let mut state = new_state();
    assert_eq!(String::from("index.html"), state.get_file_url(0).unwrap());
    assert_eq!(String::from("page/2/index.html"), state.get_file_url(1).unwrap());

    state.set_file_path(String::from("about/index.html"));
    assert_eq!(String::from("about/index.html"), state.get_file_url(0).unwrap());
    assert_eq!(String::from("about/page/2/index.html"), state.get_file_url(1).unwrap());

    state.set_file_path(String::from("a/b/c/index.html"));
    state.set_url_format(String::from("../../page/:num/"));
    assert_eq!(String::from("a/page/2/index.html"), state.get_file_url(1).unwrap());
}

#[test]
fn test_bad_file_url() {
    let mut state = new_state();
    state.set_url_format(String::from("../page/:num/"));
    assert_eq!(PageErrorCode::ParentDir, state.get_file_url(1).unwrap_err().code);
}

#[test]
fn test_relative_pagination_urls() {
    let mut state = new_state();
    assert_eq!("page/2/", state.relative_path_between_pages(0, 1).unwrap());
    assert_eq!("../../", state.relative_path_between_pages(1, 0).unwrap());
    assert_eq!("../3/", state.relative_path_between_pages(1, 2).unwrap());

    state.set_file_path(String::from("file/main/index.html"));
    state.set_url_format(String::from("../pages/:num/page/"));
    assert_eq!("../pages/2/page/", state.relative_path_between_pages(0, 1).unwrap());
    assert_eq!("../../../main/", state.relative_path_between_pages(1, 0).unwrap());
    assert_eq!("../../3/page/", state.relative_path_between_pages(1, 2).unwrap());

    state.set_file_path(String::from("index.html"));
    state.set_url_format(String::from("./:num/"));
    assert_eq!("2/", state.relative_path_between_pages(0, 1).unwrap());
    assert_eq!("../", state.relative_path_between_pages(1, 0).unwrap());
}

fn attr(name: &str, value: &str) -> Attribute {
    Attribute { namespace: String::new(), name: String::from(name), value: String::from(value) }
}

fn element(doc: &mut Document, parent: usize, name: &str, attrs: Vec<Attribute>) -> usize {
    doc.add_node(
        parent,
        NodeData::Element { namespace: String::from("http://www.w3.org/1999/xhtml"), name: String::from(name) },
        attrs,
    )
}

fn text(doc: &mut Document, parent: usize, t: &str) -> usize {
    doc.add_node(parent, NodeData::Text(String::from(t)), Vec::new())
}

fn text_of(doc: &Document, n: usize) -> String {
    doc.text_content(n)
}

fn attr_of(doc: &Document, n: usize, name: &str) -> Option<String> {
    doc.find_attribute(n, &String::from(name)).map(|i| doc.attribute_value(n, i).clone())
}

/// Indices of the element children of `n`.
fn element_children(doc: &Document, n: usize) -> Vec<usize> {
    doc.children(n).iter().copied().filter(|c| doc.is_element(*c)).collect()
}

struct Site {
    doc: Document,
    title: usize,
    og_title: usize,
    canonical: usize,
    external: usize,
    relative: usize,
    container: usize,
    items: Vec<usize>,
    nav: usize,
    prev: usize,
    next: usize,
    no_prev: usize,
    current: usize,
    total: usize,
}

/// A page with a title, metadata, a container of `count` items, and navigation.
fn site(count: usize, per_page: Option<&str>) -> Site {
    let mut doc = Document::new();
    let html = element(&mut doc, 0, "html", vec![]);
    let head = element(&mut doc, html, "head", vec![]);
    let title = element(&mut doc, head, "title", vec![]);
    text(&mut doc, title, "Blog");
    let og_title = element(&mut doc, head, "meta", vec![attr("content", "Blog"), attr("property", "og:title")]);
    let canonical = element(&mut doc, head, "link", vec![attr("href", "https://example.com/"), attr("rel", "canonical")]);
    let body = element(&mut doc, html, "body", vec![]);
    let external = element(&mut doc, body, "a", vec![attr("href", "https://example.com/x")]);
    let relative = element(&mut doc, body, "a", vec![attr("href", "about/")]);
    let container_attrs = match per_page {
        Some(v) => vec![attr("data-pagebreak", v)],
        None => vec![attr("data-pagebreak", "2")],
    };
    let container = element(&mut doc, body, "div", container_attrs);
    let mut items = Vec::new();
    for i in 0..count {
        text(&mut doc, container, "\n  ");
        let item = element(&mut doc, container, "p", vec![]);
        text(&mut doc, item, &format!("{}", i + 1));
        items.push(item);
    }
    text(&mut doc, container, "\n");
    let nav = element(&mut doc, body, "nav", vec![]);
    let prev = element(&mut doc, nav, "a", vec![attr("data-pagebreak-control", "prev"), attr("href", "")]);
    let no_prev = element(&mut doc, nav, "span", vec![attr("data-pagebreak-control", "!prev")]);
    let current = element(&mut doc, nav, "span", vec![attr("data-pagebreak-label", "current")]);
    text(&mut doc, current, "1");
    let total = element(&mut doc, nav, "span", vec![attr("data-pagebreak-label", "total")]);
    text(&mut doc, total, "1");
    let next = element(&mut doc, nav, "a", vec![attr("data-pagebreak-control", "next"), attr("href", "")]);
    Site { doc, title, og_title, canonical, external, relative, container, items, nav, prev, next, no_prev, current, total }
}

fn hydrated(count: usize) -> (PagebreakState, Site) {
    let s = site(count, None);
    let mut state = PagebreakState::new(s.doc.duplicate(), String::from("index.html"), String::from("output"));
    state.hydrate().unwrap();
    (state, s)
}

#[test]
fn five_items_make_three_pages() {
    let (mut state, s) = hydrated(5);
    assert_eq!(Some(3), state.page_count());
    assert_eq!(Some(2), state.per_page());
    assert_eq!(5, state.item_count());
    let outcome = state.paginate();
    assert!(outcome.error.is_none());
    let paths: Vec<String> = outcome.pages.iter().map(|p| p.path.clone()).collect();
    assert_eq!(vec!["index.html", "page/2/index.html", "page/3/index.html"], paths);
    let expected = [vec![s.items[0], s.items[1]], vec![s.items[2], s.items[3]], vec![s.items[4]]];
    for (page, items) in outcome.pages.iter().zip(expected.iter()) {
        assert_eq!(*items, element_children(&page.document, s.container));
        let kids = page.document.children(s.container);
        assert_eq!(2 * items.len() + 1, kids.len());
        for (k, c) in kids.iter().enumerate() {
            if k % 2 == 0 {
                assert_eq!("\n  ", text_of(&page.document, *c));
            }
        }
    }
}

#[test]
fn items_that_divide_evenly_leave_no_short_page() {
    let (state, _) = hydrated(4);
    assert_eq!(Some(2), state.page_count());
    let (state, _) = hydrated(0);
    assert_eq!(Some(0), state.page_count());
}

#[test]
fn ceil_division_counts_pages() {
    assert_eq!(3, pagebreak::state::ceil_division(5, 2));
    assert_eq!(2, pagebreak::state::ceil_division(4, 2));
    assert_eq!(0, pagebreak::state::ceil_division(0, 2));
    assert_eq!(1, pagebreak::state::ceil_division(1, 10));
}

#[test]
fn escaping_url_format_is_an_error() {
    let mut state = new_state();
    state.set_url_format(String::from("../../page/:num/"));
    let err = state.get_file_url(1).unwrap_err();
    assert_eq!(PageErrorCode::ParentDir, err.code);
    assert_eq!("index.html", err.relative_path);
    assert_eq!(
        "Pagination URL resolves outside of output directory: \"../../page/2/index.html\"",
        err.message
    );
}

#[test]
fn escaping_url_format_stops_pagination() {
    let s = site(5, None);
    let mut state = PagebreakState::new(s.doc.duplicate(), String::from("index.html"), String::from("out"));
    state.hydrate().unwrap();
    state.set_url_format(String::from("../../page/:num/"));
    let before = snapshot(state.document());
    let outcome = state.paginate();
    assert_eq!(1, outcome.pages.len());
    assert_eq!("index.html", outcome.pages[0].path);
    let first = &outcome.pages[0].document;
    assert!(!first.children(s.nav).contains(&s.next));
    assert!(!first.children(s.nav).contains(&s.prev));
    assert_eq!(element_children(first, s.container), vec![s.items[0], s.items[1]]);
    let err = outcome.error.unwrap();
    assert_eq!(PageErrorCode::ParentDir, err.code);
    assert_eq!("Pagination URL resolves outside of output directory: \"../../page/2/index.html\"", err.message);
    assert_eq!(before, snapshot(state.document()));
}

#[test]
fn controls_follow_the_page() {
    let (mut state, s) = hydrated(5);
    let outcome = state.paginate();
    let first = &outcome.pages[0].document;
    let middle = &outcome.pages[1].document;
    let last = &outcome.pages[2].document;
    assert!(!first.children(s.nav).contains(&s.prev));
    assert!(first.children(s.nav).contains(&s.no_prev));
    assert!(first.children(s.nav).contains(&s.next));
    assert_eq!(Some(String::from("page/2/")), attr_of(first, s.next, "href"));
    assert!(middle.children(s.nav).contains(&s.prev));
    assert!(middle.children(s.nav).contains(&s.next));
    assert!(!middle.children(s.nav).contains(&s.no_prev));
    assert_eq!(Some(String::from("../../")), attr_of(middle, s.prev, "href"));
    assert_eq!(Some(String::from("../3/")), attr_of(middle, s.next, "href"));
    assert!(!last.children(s.nav).contains(&s.next));
    assert!(last.children(s.nav).contains(&s.prev));
    assert_eq!(Some(String::from("../2/")), attr_of(last, s.prev, "href"));
    assert_eq!("2", text_of(middle, s.current));
    assert_eq!("3", text_of(middle, s.total));
    assert_eq!(None, attr_of(state.document(), s.next, "data-pagebreak-control"));
}

#[test]
fn title_is_templated_and_restored() {
    let (mut state, s) = hydrated(5);
    let outcome = state.paginate();
    assert_eq!("Blog", text_of(&outcome.pages[0].document, s.title));
    assert_eq!("Blog | Page 2", text_of(&outcome.pages[1].document, s.title));
    assert_eq!("Blog | Page 3", text_of(&outcome.pages[2].document, s.title));
    assert_eq!(Some(String::from("Blog | Page 2")), attr_of(&outcome.pages[1].document, s.og_title, "content"));
    assert_eq!("Blog", text_of(state.document(), s.title));
    assert_eq!(Some(String::from("Blog")), attr_of(state.document(), s.og_title, "content"));
}

#[test]
fn links_are_rewritten_per_page() {
    let (mut state, s) = hydrated(5);
    let outcome = state.paginate();
    let middle = &outcome.pages[1].document;
    assert_eq!(Some(String::from("https://example.com/x")), attr_of(middle, s.external, "href"));
    assert_eq!(Some(String::from("../../about/")), attr_of(middle, s.relative, "href"));
    assert_eq!(Some(String::from("https://example.com/page/2/")), attr_of(middle, s.canonical, "href"));
    assert_eq!(Some(String::from("about/")), attr_of(state.document(), s.relative, "href"));
}

fn snapshot(doc: &Document) -> Vec<String> {
    let mut out = Vec::new();
    for n in 0..doc.len() {
        let attrs: Vec<String> = doc.attributes(n).iter().map(|a| format!("{}={}", a.name, a.value)).collect();
        let data = match doc.data(n) {
            NodeData::Text(t) => format!("text {:?}", t),
            NodeData::Element { name, .. } => format!("element {}", name),
            _ => String::from("other"),
        };
        out.push(format!("{} {:?} {:?}", data, attrs, doc.children(n)));
    }
    out
}

#[test]
fn first_page_is_the_same_after_later_pages() {
    let (mut state, _) = hydrated(5);
    let hydrated_view = snapshot(state.document());
    state.render_page(0).unwrap();
    let alone = snapshot(state.document());
    state.revert_changes();
    assert_eq!(hydrated_view, snapshot(state.document()));
    state.render_page(2).unwrap();
    state.revert_changes();
    state.render_page(1).unwrap();
    state.revert_changes();
    assert_eq!(hydrated_view, snapshot(state.document()));
    state.render_page(0).unwrap();
    assert_eq!(alone, snapshot(state.document()));
}

#[test]
fn invalid_per_page_is_a_configuration_error() {
    for value in ["abc", "0", "", "-1"] {
        let s = site(3, Some(value));
        let mut state = PagebreakState::new(s.doc, String::from("index.html"), String::from("out"));
        let err = state.hydrate().unwrap_err();
        assert_eq!(PageErrorCode::InvalidPerPage, err.code);
        assert_eq!(None, state.container_node());
    }
    let s = site(3, Some("+3"));
    let mut state = PagebreakState::new(s.doc, String::from("index.html"), String::from("out"));
    state.hydrate().unwrap();
    assert_eq!(Some(3), state.per_page());
    assert_eq!(Some(1), state.page_count());
}

#[test]
fn document_without_container_has_nothing_to_paginate() {
    let mut doc = Document::new();
    let html = element(&mut doc, 0, "html", vec![]);
    element(&mut doc, html, "body", vec![]);
    let mut state = PagebreakState::new(doc, String::from("index.html"), String::from("out"));
    state.hydrate().unwrap();
    assert_eq!(None, state.container_node());
    let outcome = state.paginate();
    assert!(outcome.pages.is_empty());
    assert!(outcome.error.is_none());
}

#[test]
fn labels_and_stripped_attributes() {
    let (state, s) = hydrated(5);
    assert_eq!(None, attr_of(state.document(), s.container, "data-pagebreak"));
    assert_eq!(None, attr_of(state.document(), s.current, "data-pagebreak-label"));
    assert_eq!(None, attr_of(state.document(), s.no_prev, "data-pagebreak-control"));
    assert_eq!("1", text_of(state.document(), s.total));
}

#[test]
fn custom_formats_from_attributes() {
    let mut doc = Document::new();
    let html = element(&mut doc, 0, "html", vec![]);
    let head = element(&mut doc, html, "head", vec![]);
    let title = element(&mut doc, head, "title", vec![]);
    text(&mut doc, title, "News");
    let container = element(
        &mut doc,
        html,
        "ul",
        vec![attr("data-pagebreak", "1"), attr("data-pagebreak-meta", "Page :num of :content"), attr("data-pagebreak-url", "./p-:num/")],
    );
    element(&mut doc, container, "li", vec![]);
    element(&mut doc, container, "li", vec![]);
    let mut state = PagebreakState::new(doc, String::from("news/archive.html"), String::from("out"));
    state.hydrate().unwrap();
    let outcome = state.paginate();
    let paths: Vec<String> = outcome.pages.iter().map(|p| p.path.clone()).collect();
    assert_eq!(vec!["news/archive.html", "news/archive/p-2/index.html"], paths);
    assert_eq!("Page 2 of News", text_of(&outcome.pages[1].document, title));
    assert_eq!(None, attr_of(state.document(), container, "data-pagebreak-meta"));
}

#[test]
fn hydration_is_reported() {
    let (state, _) = hydrated(5);
    assert_eq!("Pagebreak: Found 5 items on \"index.html\"; Building 3 pages of size 2", state.log_hydrated());
}

#[test]
fn container_children_detach_and_reattach() {
    let (mut state, s) = hydrated(3);
    let before = snapshot(state.document());
    state.detach_children();
    assert!(state.document().children(s.container).is_empty());
    state.reattach_child(PagebreakNode::new(s.items[1]));
    assert_eq!(&vec![s.items[1]], state.document().children(s.container));
    state.revert_changes();
    assert_eq!(before, snapshot(state.document()));
}

#[test]
fn control_without_link_gets_one() {
    let mut doc = Document::new();
    let html = element(&mut doc, 0, "html", vec![]);
    let container = element(&mut doc, html, "div", vec![attr("data-pagebreak", "1")]);
    element(&mut doc, container, "p", vec![]);
    element(&mut doc, container, "p", vec![]);
    let next = element(&mut doc, html, "span", vec![attr("data-pagebreak-control", "next")]);
    let mut state = PagebreakState::new(doc, String::from("index.html"), String::from("out"));
    state.hydrate().unwrap();
    let outcome = state.paginate();
    assert_eq!(Some(String::from("page/2/")), attr_of(&outcome.pages[0].document, next, "href"));
    assert_eq!(None, attr_of(state.document(), next, "href"));
}

#[test]
fn absolute_url_format_links_from_the_site_root() {
    let s = site(3, None);
    let mut state = PagebreakState::new(s.doc.duplicate(), String::from("index.html"), String::from("out"));
    state.hydrate().unwrap();
    state.set_url_format(String::from("/page/:num/"));
    let outcome = state.paginate();
    assert!(outcome.error.is_none());
    assert_eq!(2, outcome.pages.len());
    assert_eq!("/page/2/index.html", outcome.pages[1].path);
    assert_eq!(Some(String::from("/page/2/")), attr_of(&outcome.pages[0].document, s.next, "href"));
    assert_eq!(Some(String::from("/")), attr_of(&outcome.pages[1].document, s.prev, "href"));
}

#[test]
fn scheme_links_are_not_rewritten() {
    let mut doc = Document::new();
    let html = element(&mut doc, 0, "html", vec![]);
    let mail = element(&mut doc, html, "a", vec![attr("href", "mailto:me@example.com")]);
    let rel = element(&mut doc, html, "a", vec![attr("href", "x.html")]);
    let container = element(&mut doc, html, "div", vec![attr("data-pagebreak", "1")]);
    element(&mut doc, container, "p", vec![]);
    element(&mut doc, container, "p", vec![]);
    let mut state = PagebreakState::new(doc, String::from("index.html"), String::from("out"));
    state.hydrate().unwrap();
    let outcome = state.paginate();
    let second = &outcome.pages[1].document;
    assert_eq!(Some(String::from("mailto:me@example.com")), attr_of(second, mail, "href"));
    assert_eq!(Some(String::from("../../x.html")), attr_of(second, rel, "href"));
}
