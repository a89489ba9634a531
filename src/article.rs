//! Compiling one article: slug, metadata, HTML page and where it is written.

use vstd::prelude::*;
use vstd::string::StringExecFns;
use crate::meta::{
    ArticleMeta, markdown_slug, title_of, explicit_date_of, timestamp_date_text,
    slug_from_file_name, extract_title_date, date_from_timestamp,
};
use crate::html::{page_html, render_page};

verus! {

/// Why an article was skipped.
#[derive(Clone, Copy, PartialEq, Eq, Debug)]
pub enum CompileError {
    /// The file does not have the markdown extension.
    NotMarkdown,
    /// The text gives no date and the modification time has no four-digit year.
    NoDate,
}

/// A compiled article: its metadata and the bytes of its HTML page.
pub struct CompiledArticle {
    pub meta: ArticleMeta,
    pub html: Vec<u8>,
}

/// The date of an article: the explicit one, else that of its modification time.
pub open spec fn article_date(md: Seq<char>, modified_secs: i64) -> Option<Seq<char>> {
    match explicit_date_of(md) {
        Some(d) => Some(d),
        None => timestamp_date_text(modified_secs),
    }
}

/// Compiles the article in file `file_name` with text `markdown`, last
/// modified at `modified_secs` seconds since the Unix epoch.
pub fn compile_article(file_name: &str, markdown: &str, modified_secs: i64) -> (r: Result<
    CompiledArticle,
    CompileError,
>)
    ensures
        markdown_slug(file_name@) is None <==> r == Err::<CompiledArticle, CompileError>(
            CompileError::NotMarkdown,
        ),
        markdown_slug(file_name@) is Some && article_date(markdown@, modified_secs) is None <==> r
            == Err::<CompiledArticle, CompileError>(CompileError::NoDate),
        r matches Ok(a) ==> {
            &&& Some(a.meta.slug@) == markdown_slug(file_name@)
            &&& a.meta.title@ == title_of(markdown@)
            &&& Some(a.meta.date@) == article_date(markdown@, modified_secs)
            &&& a.html@ == page_html(markdown@)
        },
{
    let slug = match slug_from_file_name(file_name) {
        Some(s) => s,
        None => {
            return Err(CompileError::NotMarkdown);
        },
    };
    let (title, explicit) = extract_title_date(markdown);
    let date = match explicit {
        Some(d) => d,
        None => match date_from_timestamp(modified_secs) {
            Some(d) => d,
            None => {
                return Err(CompileError::NoDate);
            },
        },
    };
    let html = render_page(markdown);
    Ok(CompiledArticle { meta: ArticleMeta { title, date, slug }, html })
}

/// Where an article's page is written, under the output root.
pub open spec fn page_path(slug: Seq<char>) -> Seq<char> {
    "blog/"@ + slug + "/index.html"@
}

/// The path of an article's page, relative to the output root.
pub fn article_page_path(slug: &str) -> (r: String)
    ensures
        r@ == page_path(slug@),
{
    let mut out = String::new();
    out.append("blog/");
    out.append(slug);
    out.append("/index.html");
    out
}

/// The directory that an article's page is written to under `blog/` is its
/// slug, the file name without `.md`.
pub proof fn lemma_output_dir_is_slug(file_name: Seq<char>)
    requires
        markdown_slug(file_name) is Some,
    ensures
        ({
            let slug = markdown_slug(file_name)->0;
            let path = page_path(slug);
            &&& path.subrange(0, 5) == "blog/"@
            &&& path.subrange(5, 5 + slug.len() as int) == slug
            &&& path.subrange(5 + slug.len() as int, path.len() as int) == "/index.html"@
            &&& file_name == slug + seq!['.', 'm', 'd']
        }),
{
    let slug = markdown_slug(file_name)->0;
    let path = page_path(slug);
    reveal_strlit("blog/");
    crate::text::lemma_last_index_bounds(file_name, file_name.len() as int, '.');
    assert(path.subrange(0, 5) =~= "blog/"@);
    assert(path.subrange(5, 5 + slug.len() as int) =~= slug);
    assert(path.subrange(5 + slug.len() as int, path.len() as int) =~= "/index.html"@);
    assert(file_name =~= slug + seq!['.', 'm', 'd']);
}

} // verus!
