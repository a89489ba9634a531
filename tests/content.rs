use stovoy_site::article::{article_page_path, compile_article, CompileError};
use stovoy_site::html::{render_page, transform_diagrams, transform_img_paths};
use stovoy_site::meta::{date_from_timestamp, extract_title_date, format_ymd, slug_from_file_name};

const MAY_FIRST_2023: i64 = 1_682_899_200;

#[test]
fn title_and_explicit_date_are_found() {
    let (title, date) = extract_title_date("# Hello World\n\nDate: 2024-02-10\nbody\n");
    assert_eq!(title, "Hello World");
    assert_eq!(date, Some("2024-02-10".to_string()));
}

#[test]
fn date_label_is_case_insensitive_and_trimmed() {
    let (title, date) = extract_title_date("dAtE:   2021-03-04  \r\n## Title ##\n");
    assert_eq!(title, "Title ##");
    assert_eq!(date, Some("2021-03-04".to_string()));
}

#[test]
fn first_heading_wins_even_when_empty() {
    let (title, _) = extract_title_date("#\n# B\n");
    assert_eq!(title, "");
    let (title, date) = extract_title_date("  # not a heading\n### Real\ndate: a\ndate: b\n# Later\n");
    assert_eq!(title, "Real");
    assert_eq!(date, Some("a".to_string()));
}

#[test]
fn text_without_heading_or_date() {
    let (title, date) = extract_title_date("plain text\nno labels here");
    assert_eq!(title, "");
    assert_eq!(date, None);
    let (title, date) = extract_title_date("");
    assert_eq!(title, "");
    assert_eq!(date, None);
}

#[test]
fn slug_is_the_file_stem_of_markdown_files() {
    assert_eq!(slug_from_file_name("post-a.md"), Some("post-a".to_string()));
    assert_eq!(slug_from_file_name("a.b.md"), Some("a.b".to_string()));
    assert_eq!(slug_from_file_name(".md"), None);
    assert_eq!(slug_from_file_name("notes.txt"), None);
    assert_eq!(slug_from_file_name("readme"), None);
    assert_eq!(slug_from_file_name("x.mdx"), None);
}

#[test]
fn dates_are_formatted_with_padding() {
    assert_eq!(format_ymd(2023, 5, 1), "2023-05-01");
    assert_eq!(format_ymd(987, 12, 31), "0987-12-31");
    assert_eq!(date_from_timestamp(MAY_FIRST_2023), Some("2023-05-01".to_string()));
    assert_eq!(date_from_timestamp(0), Some("1970-01-01".to_string()));
    assert_eq!(date_from_timestamp(MAY_FIRST_2023 + 86_399), Some("2023-05-01".to_string()));
    assert_eq!(date_from_timestamp(400_000_000_000), None);
    assert_eq!(date_from_timestamp(-1), Some("1969-12-31".to_string()));
    assert_eq!(date_from_timestamp(1_709_164_800), Some("2024-02-29".to_string()));
    assert_eq!(date_from_timestamp(-62_167_219_200), Some("0000-01-01".to_string()));
}

#[test]
fn diagram_blocks_become_containers_with_decoded_code() {
    let html = b"<p>x</p>\n<pre><code class=\"language-mermaid\">graph TD; A--&gt;B &amp; &quot;c&quot; &#39;d&#39; &lt;e&gt;\n</code></pre>\n".to_vec();
    let out = transform_diagrams(&html);
    assert_eq!(
        String::from_utf8(out).unwrap(),
        "<p>x</p>\n<pre class=\"mermaid\">graph TD; A-->B & \"c\" 'd' <e>\n</pre>\n"
    );
}

#[test]
fn diagram_entities_are_decoded_once() {
    let html = b"<pre><code class=\"language-dolphin\">&amp;lt;</code></pre>".to_vec();
    let out = transform_diagrams(&html);
    assert_eq!(String::from_utf8(out).unwrap(), "<pre class=\"mermaid\">&lt;</pre>");
}

#[test]
fn other_code_blocks_are_left_alone() {
    let html = b"<pre><code class=\"language-rust\">a &amp;&amp; b</code></pre>".to_vec();
    let out = transform_diagrams(&html);
    assert_eq!(out, html);
}

#[test]
fn relative_image_sources_are_rooted() {
    let html = b"<p><img src=\"pic.png\" alt=\"x\" /> <img alt=\"a.png\" src=\"a.png\"></p>".to_vec();
    let out = transform_img_paths(&html);
    assert_eq!(
        String::from_utf8(out).unwrap(),
        "<p><img src=\"/img/pic.png\" alt=\"x\" /> <img alt=\"a.png\" src=\"/img/a.png\"></p>"
    );
}

#[test]
fn absolute_image_sources_are_unchanged() {
    let html = b"<img src=\"https://x.org/a.png\"><img src=\"/img/b.png\"><img src=\"http://y\">".to_vec();
    let out = transform_img_paths(&html);
    assert_eq!(out, html);
}

#[test]
fn rendered_page_applies_both_transforms() {
    let md = "# T\n\n![x](pic.png)\n\n```mermaid\nA --> B\n```\n";
    let page = String::from_utf8(render_page(md)).unwrap();
    assert!(page.contains("<img src=\"/img/pic.png\" alt=\"x\" />"));
    assert!(page.contains("<pre class=\"mermaid\">A --> B\n</pre>"));
    assert!(page.starts_with("<h1>T</h1>"));
}

#[test]
fn compile_uses_explicit_date_and_slug() {
    let a = compile_article("post-b.md", "# B\nDate: 2024-02-10\n", MAY_FIRST_2023).unwrap();
    assert_eq!(a.meta.slug, "post-b");
    assert_eq!(a.meta.title, "B");
    assert_eq!(a.meta.date, "2024-02-10");
    assert_eq!(String::from_utf8(a.html).unwrap(), "<h1>B</h1>\n<p>Date: 2024-02-10</p>\n");
}

#[test]
fn compile_falls_back_to_modification_date() {
    let a = compile_article("post-a.md", "# A\nno date\n", MAY_FIRST_2023).unwrap();
    assert_eq!(a.meta.date, "2023-05-01");
}

#[test]
fn compile_errors() {
    assert_eq!(compile_article("notes.txt", "# A", 0).err(), Some(CompileError::NotMarkdown));
    assert_eq!(compile_article("a.md", "# A", 400_000_000_000).err(), Some(CompileError::NoDate));
}

#[test]
fn page_is_written_under_the_slug_directory() {
    let slug = slug_from_file_name("post-a.md").unwrap();
    assert_eq!(article_page_path(&slug), "blog/post-a/index.html");
}

#[test]
fn diagram_source_survives_rendering_verbatim() {
    let source = "A[\"x & y\"] --> B<C> & 'q' &amp;\n";
    let md = format!("```mermaid\n{source}```\n");
    let page = String::from_utf8(render_page(&md)).unwrap();
    assert_eq!(page, format!("<pre class=\"mermaid\">{source}</pre>\n"));
}
