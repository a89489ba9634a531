//! The site index and the RSS feed: articles sorted by date, newest first,
//! written as a JSON listing and as an RSS 2.0 document.

use vstd::prelude::*;
use vstd::string::StringExecFns;
use crate::meta::{ArticleMeta, digit};
use crate::text::{
    chars_of, text_before, chars_before, lemma_before_asymmetric, lemma_before_transitive,
    lemma_before_total, lemma_before_irreflexive,
};

verus! {

broadcast use vstd::seq_lib::to_multiset_insert;

/// Where an article dated `d` goes in a list sorted newest first: after every
/// article dated `d` or later.
pub open spec fn insert_pos(s: Seq<ArticleMeta>, d: Seq<char>) -> int
    decreases s.len(),
{
    if s.len() == 0 {
        0
    } else if text_before(s[0].date@, d) {
        0
    } else {
        1 + insert_pos(s.drop_first(), d)
    }
}

/// The articles sorted by date, newest first; articles of equal date keep
/// their order.
pub open spec fn sorted_by_date(s: Seq<ArticleMeta>) -> Seq<ArticleMeta>
    decreases s.len(),
{
    if s.len() == 0 {
        s
    } else {
        let r = sorted_by_date(s.drop_last());
        r.insert(insert_pos(r, s.last().date@), s.last())
    }
}

pub proof fn lemma_insert_pos_bounds(s: Seq<ArticleMeta>, d: Seq<char>)
    ensures
        0 <= insert_pos(s, d) <= s.len(),
    decreases s.len(),
{
    if s.len() > 0 {
        lemma_insert_pos_bounds(s.drop_first(), d);
    }
}

fn find_insert_pos(s: &Vec<ArticleMeta>, d: &Vec<char>) -> (r: usize)
    ensures
        r == insert_pos(s@, d@),
{
    let mut j: usize = 0;
    assert(s@.skip(0) =~= s@);
    while j < s.len()
        invariant
            j <= s.len(),
            insert_pos(s@, d@) == j + insert_pos(s@.skip(j as int), d@),
        decreases s.len() - j,
    {
        let dj = chars_of(s[j].date.as_str());
        assert(s@.skip(j as int)[0] == s@[j as int]);
        assert(s@.skip(j as int).drop_first() =~= s@.skip(j + 1));
        if chars_before(&dj, d) {
            return j;
        }
        j = j + 1;
    }
    assert(s@.skip(j as int).len() == 0);
    j
}

/// Sorts the articles by date, newest first, keeping the order of articles
/// of equal date.
pub fn sort_by_date(metas: Vec<ArticleMeta>) -> (r: Vec<ArticleMeta>)
    ensures
        r@ == sorted_by_date(metas@),
{
    let ghost s = metas@;
    let n = metas.len();
    let mut rest = metas;
    let mut out: Vec<ArticleMeta> = Vec::new();
    let mut i: usize = 0;
    while rest.len() > 0
        invariant
            i + rest.len() == s.len(),
            s.len() == n,
            rest@ == s.skip(i as int),
            out@ == sorted_by_date(s.take(i as int)),
        decreases rest.len(),
    {
        let m = rest.remove(0);
        let d = chars_of(m.date.as_str());
        let p = find_insert_pos(&out, &d);
        proof {
            lemma_insert_pos_bounds(out@, d@);
            assert(s.take(i + 1).drop_last() =~= s.take(i as int));
            assert(s.take(i + 1).last() == m);
        }
        out.insert(p, m);
        i = i + 1;
        assert(rest@ =~= s.skip(i as int));
    }
    assert(s.take(i as int) =~= s);
    out
}

/// Sorting by date keeps every article exactly once.
pub proof fn lemma_sorted_is_permutation(s: Seq<ArticleMeta>)
    ensures
        sorted_by_date(s).to_multiset() == s.to_multiset(),
        sorted_by_date(s).len() == s.len(),
    decreases s.len(),
{
    if s.len() > 0 {
        let r = sorted_by_date(s.drop_last());
        lemma_sorted_is_permutation(s.drop_last());
        lemma_insert_pos_bounds(r, s.last().date@);
        assert(s.drop_last().insert(s.len() - 1, s.last()) =~= s);
    }
}


/// No article is older than one that follows it.
pub open spec fn newest_first(s: Seq<ArticleMeta>) -> bool {
    forall|i: int, j: int|
        0 <= i < j < s.len() ==> !text_before(#[trigger] s[i].date@, #[trigger] s[j].date@)
}

pub proof fn lemma_insert_pos_splits(s: Seq<ArticleMeta>, d: Seq<char>)
    ensures
        forall|k: int| 0 <= k < insert_pos(s, d) ==> !text_before(#[trigger] s[k].date@, d),
        insert_pos(s, d) < s.len() ==> text_before(s[insert_pos(s, d)].date@, d),
    decreases s.len(),
{
    if s.len() > 0 && !text_before(s[0].date@, d) {
        lemma_insert_pos_splits(s.drop_first(), d);
        lemma_insert_pos_bounds(s.drop_first(), d);
        assert forall|k: int| 0 <= k < insert_pos(s, d) implies !text_before(
            #[trigger] s[k].date@,
            d,
        ) by {
            if k > 0 {
                assert(s[k] == s.drop_first()[k - 1]);
            }
        }
    }
}

/// The articles come out newest first.
pub proof fn lemma_sorted_is_newest_first(s: Seq<ArticleMeta>)
    ensures
        newest_first(sorted_by_date(s)),
    decreases s.len(),
{
    if s.len() > 0 {
        let r = sorted_by_date(s.drop_last());
        let m = s.last();
        let d = m.date@;
        let p = insert_pos(r, d);
        lemma_sorted_is_newest_first(s.drop_last());
        lemma_insert_pos_bounds(r, d);
        lemma_insert_pos_splits(r, d);
        let t = r.insert(p, m);
        assert(t == sorted_by_date(s));
        assert forall|i: int, j: int| 0 <= i < j < t.len() implies !text_before(
            #[trigger] t[i].date@,
            #[trigger] t[j].date@,
        ) by {
            if j < p {
                assert(t[i] == r[i] && t[j] == r[j]);
            } else if j == p {
                assert(t[i] == r[i] && t[j] == m);
            } else if i == p {
                let y = r[j - 1];
                assert(t[j] == y && t[i] == m);
                lemma_before_total(y.date@, r[p].date@);
                lemma_before_transitive(y.date@, r[p].date@, d);
                lemma_before_asymmetric(y.date@, d);
                if p < j - 1 {
                    assert(!text_before(r[p].date@, r[j - 1].date@));
                }
                lemma_before_asymmetric(r[p].date@, y.date@);
            } else if i < p {
                assert(t[i] == r[i] && t[j] == r[j - 1]);
            } else {
                assert(t[i] == r[i - 1] && t[j] == r[j - 1]);
            }
        }
    }
}


/// The articles of `s` dated `d`, in their order in `s`.
pub open spec fn dated(s: Seq<ArticleMeta>, d: Seq<char>) -> Seq<ArticleMeta>
    decreases s.len(),
{
    if s.len() == 0 {
        Seq::empty()
    } else if s.last().date@ == d {
        dated(s.drop_last(), d).push(s.last())
    } else {
        dated(s.drop_last(), d)
    }
}

pub proof fn lemma_dated_concat(a: Seq<ArticleMeta>, b: Seq<ArticleMeta>, d: Seq<char>)
    ensures
        dated(a + b, d) == dated(a, d) + dated(b, d),
    decreases b.len(),
{
    if b.len() == 0 {
        assert(a + b =~= a);
        assert(dated(a, d) + dated(b, d) =~= dated(a, d));
    } else {
        lemma_dated_concat(a, b.drop_last(), d);
        assert((a + b).drop_last() =~= a + b.drop_last());
        assert((a + b).last() == b.last());
        if b.last().date@ == d {
            assert(dated(a, d) + dated(b.drop_last(), d).push(b.last()) =~= (dated(a, d) + dated(
                b.drop_last(),
                d,
            )).push(b.last()));
        }
    }
}

pub proof fn lemma_dated_none(s: Seq<ArticleMeta>, d: Seq<char>)
    requires
        forall|j: int| 0 <= j < s.len() ==> (#[trigger] s[j]).date@ != d,
    ensures
        dated(s, d) == Seq::<ArticleMeta>::empty(),
    decreases s.len(),
{
    if s.len() > 0 {
        assert forall|j: int| 0 <= j < s.drop_last().len() implies (
        #[trigger] s.drop_last()[j]).date@ != d by {
            assert(s.drop_last()[j] == s[j]);
        }
        lemma_dated_none(s.drop_last(), d);
    }
}

/// In a list sorted newest first, every article from where one dated `d`
/// would go on is strictly older than `d`.
pub proof fn lemma_after_insert_pos_older(r: Seq<ArticleMeta>, d: Seq<char>)
    requires
        newest_first(r),
    ensures
        forall|j: int| insert_pos(r, d) <= j < r.len() ==> text_before((#[trigger] r[j]).date@, d),
{
    lemma_insert_pos_bounds(r, d);
    lemma_insert_pos_splits(r, d);
    let p = insert_pos(r, d);
    assert forall|j: int| p <= j < r.len() implies text_before((#[trigger] r[j]).date@, d) by {
        if j > p {
            assert(!text_before(r[p].date@, r[j].date@));
            lemma_before_total(r[j].date@, r[p].date@);
            lemma_before_transitive(r[j].date@, r[p].date@, d);
        }
    }
}

/// Sorting is stable: the articles of any one date come out in the order in
/// which they went in.
pub proof fn lemma_sorted_is_stable(s: Seq<ArticleMeta>, d: Seq<char>)
    ensures
        dated(sorted_by_date(s), d) == dated(s, d),
    decreases s.len(),
{
    if s.len() > 0 {
        let x = s.last();
        let r = sorted_by_date(s.drop_last());
        let p = insert_pos(r, x.date@);
        lemma_sorted_is_stable(s.drop_last(), d);
        lemma_sorted_is_newest_first(s.drop_last());
        lemma_insert_pos_bounds(r, x.date@);
        lemma_after_insert_pos_older(r, x.date@);
        let head = r.take(p);
        let tail = r.skip(p);
        assert(r =~= head + tail);
        assert(r.insert(p, x) =~= head + seq![x] + tail);
        lemma_dated_concat(head, tail, d);
        lemma_dated_concat(head + seq![x], tail, d);
        lemma_dated_concat(head, seq![x], d);
        assert(seq![x].drop_last() =~= Seq::<ArticleMeta>::empty());
        assert(seq![x].last() == x);
        assert(dated(Seq::<ArticleMeta>::empty(), d) == Seq::<ArticleMeta>::empty());
        assert(Seq::<ArticleMeta>::empty().push(x) =~= seq![x]);
        if x.date@ == d {
            assert forall|j: int| 0 <= j < tail.len() implies (#[trigger] tail[j]).date@ != d by {
                assert(tail[j] == r[p + j]);
                lemma_before_irreflexive(d);
            }
            lemma_dated_none(tail, d);
            assert(dated(seq![x], d) =~= seq![x]);
            assert(dated(r, d) + Seq::<ArticleMeta>::empty() =~= dated(r, d));
            assert(dated(head, d) + seq![x] + Seq::<ArticleMeta>::empty() =~= dated(head, d).push(x));
        } else {
            assert(dated(seq![x], d) =~= Seq::<ArticleMeta>::empty());
            assert(dated(head, d) + Seq::<ArticleMeta>::empty() =~= dated(head, d));
        }
    }
}

/// Title of the feed's channel.
pub const CHANNEL_TITLE: &'static str = "stovoy.dev Blog";

/// Link of the feed's channel; article links are built under it.
pub const CHANNEL_LINK: &'static str = "https://stovoy.dev";

/// Description of the feed's channel.
pub const CHANNEL_DESCRIPTION: &'static str = "Articles from stovoy.dev";

/// What one character becomes in XML text.
pub open spec fn xml_escaped_char(c: char) -> Seq<char> {
    if c == '&' {
        "&amp;"@
    } else if c == '<' {
        "&lt;"@
    } else if c == '>' {
        "&gt;"@
    } else if c == '"' {
        "&quot;"@
    } else if c == '\'' {
        "&apos;"@
    } else {
        seq![c]
    }
}

/// `s` with `&`, `<`, `>`, `"` and `'` escaped for XML.
pub open spec fn xml_escaped(s: Seq<char>) -> Seq<char>
    decreases s.len(),
{
    if s.len() == 0 {
        Seq::empty()
    } else {
        xml_escaped(s.drop_last()) + xml_escaped_char(s.last())
    }
}

/// Escapes text for use inside an XML element.
pub fn escape_xml(input: &str) -> (r: String)
    ensures
        r@ == xml_escaped(input@),
{
    let v = chars_of(input);
    let mut out = String::new();
    let mut i: usize = 0;
    while i < v.len()
        invariant
            i <= v.len(),
            out@ == xml_escaped(v@.take(i as int)),
        decreases v.len() - i,
    {
        let c = v[i];
        if c == '&' {
            out.append("&amp;");
        } else if c == '<' {
            out.append("&lt;");
        } else if c == '>' {
            out.append("&gt;");
        } else if c == '"' {
            out.append("&quot;");
        } else if c == '\'' {
            out.append("&apos;");
        } else {
            out.push(c);
        }
        assert(v@.take(i + 1).drop_last() =~= v@.take(i as int));
        i = i + 1;
    }
    assert(v@.take(i as int) =~= input@);
    out
}

/// Escaped text holds no `<`, `>`, `"` or `'`: each stands as its entity.
pub proof fn lemma_xml_escaped_has_no_markup(s: Seq<char>)
    ensures
        forall|i: int|
            0 <= i < xml_escaped(s).len() ==> {
                let c = #[trigger] xml_escaped(s)[i];
                c != '<' && c != '>' && c != '"' && c != '\''
            },
    decreases s.len(),
{
    if s.len() > 0 {
        lemma_xml_escaped_has_no_markup(s.drop_last());
        reveal_strlit("&amp;");
        reveal_strlit("&lt;");
        reveal_strlit("&gt;");
        reveal_strlit("&quot;");
        reveal_strlit("&apos;");
        let a = xml_escaped(s.drop_last());
        let b = xml_escaped_char(s.last());
        assert(xml_escaped(s) == a + b);
        assert forall|i: int| 0 <= i < xml_escaped(s).len() implies {
            let c = #[trigger] xml_escaped(s)[i];
            c != '<' && c != '>' && c != '"' && c != '\''
        } by {
            if i >= a.len() {
                assert(xml_escaped(s)[i] == b[i - a.len()]);
            } else {
                assert(xml_escaped(s)[i] == a[i]);
            }
        }
    }
}

/// A lowercase hexadecimal digit.
pub open spec fn hex_digit(d: int) -> char {
    if d < 10 {
        digit(d)
    } else {
        ((d + 87) as u8) as char
    }
}

/// What one character becomes inside a JSON string literal.
pub open spec fn json_escaped_char(c: char) -> Seq<char> {
    let u = c as u32;
    if c == '"' {
        seq!['\\', '"']
    } else if c == '\\' {
        seq!['\\', '\\']
    } else if u == 0x08 {
        seq!['\\', 'b']
    } else if u == 0x09 {
        seq!['\\', 't']
    } else if u == 0x0A {
        seq!['\\', 'n']
    } else if u == 0x0C {
        seq!['\\', 'f']
    } else if u == 0x0D {
        seq!['\\', 'r']
    } else if u < 0x20 {
        seq!['\\', 'u', '0', '0', hex_digit(u as int / 16), hex_digit(u as int % 16)]
    } else {
        seq![c]
    }
}

pub open spec fn json_escaped(s: Seq<char>) -> Seq<char>
    decreases s.len(),
{
    if s.len() == 0 {
        Seq::empty()
    } else {
        json_escaped(s.drop_last()) + json_escaped_char(s.last())
    }
}

/// `s` as a JSON string literal.
pub open spec fn json_quote(s: Seq<char>) -> Seq<char> {
    seq!['"'] + json_escaped(s) + seq!['"']
}

/// Relies on `serde_json::to_string` applied to a `str`: the JSON string
/// literal that it writes, quoted, with `"`, `\` and the control characters
/// escaped. Writing into its in-memory buffer has no failure path.
#[verifier::external_body]
fn json_string(s: &str) -> (r: String)
    ensures
        r@ == json_quote(s@),
{
    serde_json::to_string(s).unwrap_or_default()
}

/// One article as a JSON object.
pub open spec fn json_entry(m: ArticleMeta) -> Seq<char> {
    "{\"title\":"@ + json_quote(m.title@) + ",\"date\":"@ + json_quote(m.date@) + ",\"slug\":"@
        + json_quote(m.slug@) + "}"@
}

/// The JSON objects of the articles, separated by commas.
pub open spec fn json_entries(s: Seq<ArticleMeta>) -> Seq<char>
    decreases s.len(),
{
    if s.len() == 0 {
        Seq::empty()
    } else if s.len() == 1 {
        json_entry(s[0])
    } else {
        json_entries(s.drop_last()) + ","@ + json_entry(s.last())
    }
}

/// The JSON array of the articles, in the order given.
pub open spec fn json_listing(s: Seq<ArticleMeta>) -> Seq<char> {
    "["@ + json_entries(s) + "]"@
}

/// Writes the articles, in the order given, as a JSON array of
/// `{title, date, slug}` objects.
pub fn index_json(metas: &Vec<ArticleMeta>) -> (r: String)
    ensures
        r@ == json_listing(metas@),
{
    let mut out = String::new();
    out.append("[");
    let mut i: usize = 0;
    while i < metas.len()
        invariant
            i <= metas.len(),
            out@ == "["@ + json_entries(metas@.take(i as int)),
        decreases metas.len() - i,
    {
        let m = &metas[i];
        if i > 0 {
            out.append(",");
        }
        out.append("{\"title\":");
        out.append(json_string(m.title.as_str()).as_str());
        out.append(",\"date\":");
        out.append(json_string(m.date.as_str()).as_str());
        out.append(",\"slug\":");
        out.append(json_string(m.slug.as_str()).as_str());
        out.append("}");
        proof {
            let t = metas@.take(i + 1);
            assert(t.drop_last() =~= metas@.take(i as int));
            assert(t.last() == *m);
            if i == 0 {
                assert(metas@.take(0) =~= Seq::<ArticleMeta>::empty());
            }
        }
        assert(out@ =~= "["@ + json_entries(metas@.take(i + 1)));
        i = i + 1;
    }
    out.append("]");
    assert(metas@.take(i as int) =~= metas@);
    out
}


/// One article as an RSS item.
pub open spec fn rss_item(m: ArticleMeta) -> Seq<char> {
    "<item><title>"@ + xml_escaped(m.title@) + "</title><link>"@ + CHANNEL_LINK@ + "/blog/"@
        + m.slug@ + "</link><pubDate>"@ + m.date@ + "</pubDate></item>"@
}

/// The RSS items of the articles, in the order given.
pub open spec fn rss_items(s: Seq<ArticleMeta>) -> Seq<char>
    decreases s.len(),
{
    if s.len() == 0 {
        Seq::empty()
    } else {
        rss_items(s.drop_last()) + rss_item(s.last())
    }
}

/// The RSS 2.0 document: the fixed channel, then one item per article.
pub open spec fn rss_document(s: Seq<ArticleMeta>) -> Seq<char> {
    "<rss version=\"2.0\"><channel><title>"@ + CHANNEL_TITLE@ + "</title><link>"@ + CHANNEL_LINK@
        + "</link><description>"@ + CHANNEL_DESCRIPTION@ + "</description>"@ + rss_items(s)
        + "</channel></rss>"@
}

/// Writes the RSS 2.0 feed of the articles, in the order given.
pub fn generate_rss(metas: &Vec<ArticleMeta>) -> (r: String)
    ensures
        r@ == rss_document(metas@),
{
    let mut out = String::new();
    out.append("<rss version=\"2.0\"><channel><title>");
    out.append(CHANNEL_TITLE);
    out.append("</title><link>");
    out.append(CHANNEL_LINK);
    out.append("</link><description>");
    out.append(CHANNEL_DESCRIPTION);
    out.append("</description>");
    let ghost head = out@;
    let mut i: usize = 0;
    while i < metas.len()
        invariant
            i <= metas.len(),
            out@ == head + rss_items(metas@.take(i as int)),
        decreases metas.len() - i,
    {
        let m = &metas[i];
        out.append("<item><title>");
        out.append(escape_xml(m.title.as_str()).as_str());
        out.append("</title><link>");
        out.append(CHANNEL_LINK);
        out.append("/blog/");
        out.append(m.slug.as_str());
        out.append("</link><pubDate>");
        out.append(m.date.as_str());
        out.append("</pubDate></item>");
        proof {
            let t = metas@.take(i + 1);
            assert(t.drop_last() =~= metas@.take(i as int));
            assert(t.last() == *m);
        }
        assert(out@ =~= head + rss_items(metas@.take(i + 1)));
        i = i + 1;
    }
    out.append("</channel></rss>");
    assert(metas@.take(i as int) =~= metas@);
    assert(out@ =~= rss_document(metas@));
    out
}

/// The outputs of the index stage.
pub struct SiteIndex {
    /// The articles, newest first.
    pub entries: Vec<ArticleMeta>,
    /// The JSON listing of the entries.
    pub json: String,
    /// The RSS feed of the entries.
    pub rss: String,
}

/// Sorts the articles newest first and writes the JSON listing and the RSS feed.
pub fn build_index(metas: Vec<ArticleMeta>) -> (r: SiteIndex)
    ensures
        r.entries@ == sorted_by_date(metas@),
        r.json@ == json_listing(r.entries@),
        r.rss@ == rss_document(r.entries@),
{
    let entries = sort_by_date(metas);
    let json = index_json(&entries);
    let rss = generate_rss(&entries);
    SiteIndex { entries, json, rss }
}

/// Both outputs list every article exactly once, newest first.
pub proof fn lemma_index_lists_each_article_once_newest_first(metas: Seq<ArticleMeta>)
    ensures
        ({
            let s = sorted_by_date(metas);
            &&& s.to_multiset() == metas.to_multiset()
            &&& s.len() == metas.len()
            &&& newest_first(s)
        }),
{
    lemma_sorted_is_permutation(metas);
    lemma_sorted_is_newest_first(metas);
}

} // verus!
