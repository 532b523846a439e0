use pagebreak::paths::{parse_path, relative_link, render_path, resolve_output_path, stem_of};
use pagebreak::page::{relative_url, resolve_format};
use pagebreak::text::{decimal_string, parse_usize, replace_str};

#[test]
fn first_page_keeps_its_path() {
    assert_eq!("about/pricing.html", resolve_output_path("about/pricing.html", "./page/:num/", 0).unwrap());
    assert_eq!("index.html", resolve_output_path("index.html", "../../x/:num/", 0).unwrap());
}

#[test]
fn non_index_files_nest_under_their_stem() {
    assert_eq!(
        "about/pricing/page/2/index.html",
        resolve_output_path("about/pricing.html", "./page/:num/", 1).unwrap()
    );
    assert_eq!("about/page/3/index.html", resolve_output_path("about/index.html", "./page/:num/", 2).unwrap());
}

#[test]
fn absolute_url_format_replaces_the_directory() {
    assert_eq!("/page/2/index.html", resolve_output_path("a/index.html", "/page/:num/", 1).unwrap());
}

#[test]
fn link_to_same_page_is_current_directory() {
    assert_eq!("./", relative_link("index.html", "./page/:num/", 0, 0).unwrap());
    assert_eq!("./", relative_link("index.html", "./page/:num/", 2, 2).unwrap());
}

#[test]
fn links_round_trip() {
    let there = relative_link("blog/index.html", "./page/:num/", 0, 3).unwrap();
    let back = relative_link("blog/index.html", "./page/:num/", 3, 0).unwrap();
    assert_eq!("page/4/", there);
    assert_eq!("../../", back);
}

#[test]
fn paths_parse_and_render() {
    assert_eq!("a/b/c", render_path(&parse_path("a//b/./c/")));
    assert_eq!("./a", render_path(&parse_path("./a")));
    assert_eq!("/x/../y", render_path(&parse_path("/x/../y")));
    assert_eq!(0, parse_path("").len());
}

#[test]
fn stems() {
    assert_eq!("index", stem_of("index.html"));
    assert_eq!("a.b", stem_of("a.b.c"));
    assert_eq!(".hidden", stem_of(".hidden"));
    assert_eq!("plain", stem_of("plain"));
}

#[test]
fn text_helpers() {
    assert_eq!("0", decimal_string(0));
    assert_eq!("1234", decimal_string(1234));
    assert_eq!("x-2-2", replace_str("x-:num-:num", ":num", "2"));
    assert_eq!("abc", replace_str("abc", ":num", "2"));
    assert_eq!(Some(42), parse_usize("42"));
    assert_eq!(Some(7), parse_usize("+7"));
    assert_eq!(None, parse_usize("4x"));
    assert_eq!(None, parse_usize("99999999999999999999999"));
    assert_eq!(None, parse_usize(""));
}

#[test]
fn placeholders_in_content_stay_literal() {
    assert_eq!(":rel-to", resolve_format(":content", 1, ":rel-to", "../../", "page/2/"));
    assert_eq!("News | Page 2 :num", resolve_format(":content | Page :num", 1, "News", "", "") + " :num");
    assert_eq!("../../a/page/2/", resolve_format(":rel-froma/:rel-to", 1, "x", "../../", "page/2/"));
    assert_eq!("A :content", resolve_format(":content", 1, "A :content", "", ""));
}

#[test]
fn relative_links_are_told_apart() {
    assert!(relative_url("about/"));
    assert!(relative_url("x.html#top"));
    assert!(relative_url(""));
    assert!(!relative_url("/about/"));
    assert!(!relative_url("https://example.com/"));
    assert!(!relative_url("mailto:me@example.com"));
    assert!(!relative_url("tel:+123"));
    assert!(relative_url("1a:b"));
}
