use stovoy_site::article::compile_article;
use stovoy_site::feed::{build_index, escape_xml, generate_rss, index_json, sort_by_date};
use stovoy_site::meta::ArticleMeta;

fn meta(title: &str, date: &str, slug: &str) -> ArticleMeta {
    ArticleMeta { title: title.to_string(), date: date.to_string(), slug: slug.to_string() }
}

fn slugs(v: &[ArticleMeta]) -> Vec<String> {
    v.iter().map(|m| m.slug.clone()).collect()
}

#[test]
fn sorting_is_newest_first_and_stable() {
    let sorted = sort_by_date(vec![
        meta("a", "2024-01-01", "a"),
        meta("b", "2024-06-01", "b"),
        meta("c", "2024-01-01", "c"),
        meta("d", "2023-12-31", "d"),
        meta("e", "2024-06-01", "e"),
    ]);
    assert_eq!(slugs(&sorted), vec!["b", "e", "a", "c", "d"]);
}

#[test]
fn sorting_empty_list() {
    assert!(sort_by_date(Vec::new()).is_empty());
}

#[test]
fn xml_escaping_of_titles() {
    assert_eq!(escape_xml("a<b & \"c\" 'd' >"), "a&lt;b &amp; &quot;c&quot; &apos;d&apos; &gt;");
    assert_eq!(escape_xml(""), "");
}

#[test]
fn rss_item_holds_escaped_title() {
    let rss = generate_rss(&vec![meta("<T> & \"Q\"", "2024-01-01", "t")]);
    assert_eq!(
        rss,
        "<rss version=\"2.0\"><channel><title>stovoy.dev Blog</title><link>https://stovoy.dev</link>\
<description>Articles from stovoy.dev</description><item><title>&lt;T&gt; &amp; &quot;Q&quot;</title>\
<link>https://stovoy.dev/blog/t</link><pubDate>2024-01-01</pubDate></item></channel></rss>"
    );
}

#[test]
fn rss_without_articles() {
    assert_eq!(
        generate_rss(&Vec::new()),
        "<rss version=\"2.0\"><channel><title>stovoy.dev Blog</title><link>https://stovoy.dev</link>\
<description>Articles from stovoy.dev</description></channel></rss>"
    );
}

#[test]
fn json_listing_matches_objects() {
    let json = index_json(&vec![meta("Hi \"there\"\n", "2024-01-01", "a"), meta("x\\y\u{1}", "2023-01-01", "b")]);
    assert_eq!(
        json,
        "[{\"title\":\"Hi \\\"there\\\"\\n\",\"date\":\"2024-01-01\",\"slug\":\"a\"},\
{\"title\":\"x\\\\y\\u0001\",\"date\":\"2023-01-01\",\"slug\":\"b\"}]"
    );
    assert_eq!(index_json(&Vec::new()), "[]");
}

#[test]
fn index_and_feed_list_later_date_first() {
    let idx = build_index(vec![meta("Old", "2024-01-01", "old"), meta("New", "2024-06-01", "new")]);
    assert_eq!(slugs(&idx.entries), vec!["new", "old"]);
    let jn = idx.json.find("\"new\"").unwrap();
    let jo = idx.json.find("\"old\"").unwrap();
    assert!(jn < jo);
    let rn = idx.rss.find("/blog/new").unwrap();
    let ro = idx.rss.find("/blog/old").unwrap();
    assert!(rn < ro);
    assert_eq!(idx.json.matches("\"slug\"").count(), 2);
    assert_eq!(idx.rss.matches("<item>").count(), 2);
}

#[test]
fn explicit_date_outranks_older_modification_date() {
    let a = compile_article("post-a.md", "# A\n", 1_682_899_200).unwrap();
    let b = compile_article("post-b.md", "# B\nDate: 2024-02-10\n", 1_600_000_000).unwrap();
    let idx = build_index(vec![a.meta, b.meta]);
    assert_eq!(slugs(&idx.entries), vec!["post-b", "post-a"]);
    assert_eq!(idx.entries[0].date, "2024-02-10");
    assert_eq!(idx.entries[1].date, "2023-05-01");
    assert_eq!(
        idx.json,
        "[{\"title\":\"B\",\"date\":\"2024-02-10\",\"slug\":\"post-b\"},{\"title\":\"A\",\"date\":\"2023-05-01\",\"slug\":\"post-a\"}]"
    );
}
