//! Output shaping of rendered article HTML: diagram blocks and image paths.
//! HTML is handled as UTF-8 bytes, the unit in which pattern matches are reported.

use vstd::prelude::*;

verus! {

/// A pattern match: the span of the whole match, and that of its first
/// group where the group took part.
pub type Capture = (usize, usize, Option<(usize, usize)>);

/// Matches the HTML of a fenced code block tagged with a diagram language.
pub const DIAGRAM_BLOCK_PATTERN: &'static str =
    "<pre><code class=\"language-(?:dolphin|mermaid)\">([\\s\\S]*?)</code></pre>";

/// Matches an `<img>` tag, with its `src` value as the group.
pub const IMG_TAG_PATTERN: &'static str = "<img[^>]*src=\"([^\"]+)\"[^>]*>";

/// The HTML rendering of a markdown text, as UTF-8 bytes.
pub uninterp spec fn markdown_html(md: Seq<char>) -> Seq<u8>;

/// Relies on pulldown-cmark's `Parser::new` and `html::push_html`: the
/// CommonMark rendering of the text.
#[verifier::external_body]
fn render_markdown(md: &str) -> (r: Vec<u8>)
    ensures
        r@ == markdown_html(md@),
{
    let mut out = String::new();
    pulldown_cmark::html::push_html(&mut out, pulldown_cmark::Parser::new(md));
    out.into_bytes()
}

/// The successive non-overlapping matches of a pattern in a text, or `None`
/// where the pattern is not a valid regular expression.
pub uninterp spec fn pattern_captures(pattern: Seq<char>, text: Seq<u8>) -> Option<Seq<Capture>>;

/// Spans lie in the text, each group within its match, and matches in order
/// without overlap.
pub open spec fn captures_well_formed(caps: Seq<Capture>, len: int) -> bool {
    &&& forall|i: int| 0 <= i < caps.len() ==> (#[trigger] caps[i]).0 <= caps[i].1 <= len
    &&& forall|i: int|
        0 <= i < caps.len() && (#[trigger] caps[i]).2 is Some ==> caps[i].0 <= (caps[i].2->0).0 <= (
        caps[i].2->0).1 <= caps[i].1
    &&& forall|i: int| 0 < i < caps.len() ==> caps[i - 1].1 <= (#[trigger] caps[i]).0
}

pub open spec fn opt_captures(o: Option<Vec<Capture>>) -> Option<Seq<Capture>> {
    match o {
        Some(v) => Some(v@),
        None => None,
    }
}

/// Relies on regex's `bytes::Regex::new` and `captures_iter`: `None` where the
/// pattern does not compile, else the successive non-overlapping matches, in
/// order, each with the byte span of the match and of its first group. The
/// two fixed patterns of this module are valid regex syntax, far below the
/// compiled-size limit, so `Regex::new` accepts them.
#[verifier::external_body]
fn find_captures(pattern: &str, text: &Vec<u8>) -> (r: Option<Vec<Capture>>)
    ensures
        opt_captures(r) == pattern_captures(pattern@, text@),
        r matches Some(v) ==> captures_well_formed(v@, text@.len() as int),
        pattern@ == DIAGRAM_BLOCK_PATTERN@ || pattern@ == IMG_TAG_PATTERN@ ==> r is Some,
{
    let re = regex::bytes::Regex::new(pattern).ok()?;
    Some(
        re.captures_iter(text.as_slice()).map(
            |c| (c.get_match().start(), c.get_match().end(), c.get(1).map(|g| (g.start(), g.end()))),
        ).collect(),
    )
}


pub open spec fn starts_with(s: Seq<u8>, p: Seq<u8>) -> bool {
    p.len() <= s.len() && s.subrange(0, p.len() as int) == p
}

/// The bytes of `&amp;`.
pub open spec fn amp_entity() -> Seq<u8> {
    seq![38u8, 97u8, 109u8, 112u8, 59u8]
}

/// The bytes of `&lt;`.
pub open spec fn lt_entity() -> Seq<u8> {
    seq![38u8, 108u8, 116u8, 59u8]
}

/// The bytes of `&gt;`.
pub open spec fn gt_entity() -> Seq<u8> {
    seq![38u8, 103u8, 116u8, 59u8]
}

/// The bytes of `&quot;`.
pub open spec fn quot_entity() -> Seq<u8> {
    seq![38u8, 113u8, 117u8, 111u8, 116u8, 59u8]
}

/// The bytes of `&#39;`.
pub open spec fn apos_entity() -> Seq<u8> {
    seq![38u8, 35u8, 51u8, 57u8, 59u8]
}

/// The first byte that the entity-decoded `s` starts with, and how many
/// bytes of `s` it takes.
pub open spec fn first_decoded(s: Seq<u8>) -> (u8, int) {
    if starts_with(s, amp_entity()) {
        (38u8, 5)
    } else if starts_with(s, lt_entity()) {
        (60u8, 4)
    } else if starts_with(s, gt_entity()) {
        (62u8, 4)
    } else if starts_with(s, quot_entity()) {
        (34u8, 6)
    } else if starts_with(s, apos_entity()) {
        (39u8, 5)
    } else {
        (s[0], 1)
    }
}

/// `s` with the entities `&amp;`, `&lt;`, `&gt;`, `&quot;` and `&#39;`
/// decoded in a single left-to-right pass.
pub open spec fn unescape_entities(s: Seq<u8>) -> Seq<u8>
    decreases s.len(),
{
    if s.len() == 0 {
        Seq::empty()
    } else {
        seq![first_decoded(s).0] + unescape_entities(s.skip(first_decoded(s).1))
    }
}

/// The entity that stands for one byte in HTML text, or the byte itself.
pub open spec fn escaped_byte(b: u8) -> Seq<u8> {
    if b == 38u8 {
        amp_entity()
    } else if b == 60u8 {
        lt_entity()
    } else if b == 62u8 {
        gt_entity()
    } else if b == 34u8 {
        quot_entity()
    } else if b == 39u8 {
        apos_entity()
    } else {
        seq![b]
    }
}

/// `s` with each special byte replaced by its entity.
pub open spec fn escape_entities(s: Seq<u8>) -> Seq<u8>
    decreases s.len(),
{
    if s.len() == 0 {
        Seq::empty()
    } else {
        escaped_byte(s[0]) + escape_entities(s.skip(1))
    }
}

/// Whether `t[i..hi]` begins with `p`.
fn starts_with_at(t: &Vec<u8>, i: usize, hi: usize, p: &[u8]) -> (r: bool)
    requires
        i <= hi <= t.len(),
    ensures
        r == starts_with(t@.subrange(i as int, hi as int), p@),
{
    if p.len() > hi - i {
        return false;
    }
    let mut j: usize = 0;
    while j < p.len()
        invariant
            j <= p.len() <= hi - i,
            i <= hi <= t.len(),
            forall|k: int| 0 <= k < j ==> t@[i + k] == p@[k],
        decreases p.len() - j,
    {
        if t[i + j] != p[j] {
            assert(t@.subrange(i as int, hi as int).subrange(0, p@.len() as int)[j as int] != p@[j as int]);
            return false;
        }
        j = j + 1;
    }
    assert(t@.subrange(i as int, hi as int).subrange(0, p@.len() as int) =~= p@);
    true
}

fn decode_at(t: &Vec<u8>, i: usize, hi: usize) -> (r: (u8, usize))
    requires
        i < hi <= t.len(),
    ensures
        r.0 == first_decoded(t@.subrange(i as int, hi as int)).0,
        r.1 == first_decoded(t@.subrange(i as int, hi as int)).1,
{
    let amp: [u8; 5] = [38u8, 97u8, 109u8, 112u8, 59u8];
    let lt: [u8; 4] = [38u8, 108u8, 116u8, 59u8];
    let gt: [u8; 4] = [38u8, 103u8, 116u8, 59u8];
    let quot: [u8; 6] = [38u8, 113u8, 117u8, 111u8, 116u8, 59u8];
    let apos: [u8; 5] = [38u8, 35u8, 51u8, 57u8, 59u8];
    assert(amp@ == amp_entity());
    assert(lt@ == lt_entity());
    assert(gt@ == gt_entity());
    assert(quot@ == quot_entity());
    assert(apos@ == apos_entity());
    if starts_with_at(t, i, hi, &amp) {
        (38u8, 5)
    } else if starts_with_at(t, i, hi, &lt) {
        (60u8, 4)
    } else if starts_with_at(t, i, hi, &gt) {
        (62u8, 4)
    } else if starts_with_at(t, i, hi, &quot) {
        (34u8, 6)
    } else if starts_with_at(t, i, hi, &apos) {
        (39u8, 5)
    } else {
        (t[i], 1)
    }
}

/// Appends `t[lo..hi]` with its entities decoded.
fn push_unescaped(out: &mut Vec<u8>, t: &Vec<u8>, lo: usize, hi: usize)
    requires
        lo <= hi <= t.len(),
    ensures
        final(out)@ == old(out)@ + unescape_entities(t@.subrange(lo as int, hi as int)),
{
    let mut i: usize = lo;
    while i < hi
        invariant
            lo <= i <= hi <= t.len(),
            old(out)@ + unescape_entities(t@.subrange(lo as int, hi as int)) == out@
                + unescape_entities(t@.subrange(i as int, hi as int)),
        decreases hi - i,
    {
        let (b, k) = decode_at(t, i, hi);
        let ghost rest = t@.subrange(i as int, hi as int);
        assert(rest.skip(k as int) =~= t@.subrange(i + k, hi as int));
        assert(unescape_entities(rest) == seq![b] + unescape_entities(rest.skip(k as int)));
        out.push(b);
        assert(out@ + unescape_entities(t@.subrange(i + k, hi as int)) =~= old(out)@
            + unescape_entities(t@.subrange(lo as int, hi as int)));
        i = i + k;
    }
    assert(t@.subrange(hi as int, hi as int) =~= Seq::<u8>::empty());
    assert(out@ + Seq::<u8>::empty() =~= out@);
}


/// Decoding entities undoes escaping: the text of a diagram block comes out
/// exactly as it was written, with each entity decoded once.
pub proof fn lemma_unescape_escape(s: Seq<u8>)
    ensures
        unescape_entities(escape_entities(s)) == s,
    decreases s.len(),
{
    if s.len() == 0 {
        assert(escape_entities(s) =~= Seq::<u8>::empty());
    } else {
        let e = escaped_byte(s[0]);
        let rest = escape_entities(s.skip(1));
        let t = e + rest;
        assert(escape_entities(s) == t);
        lemma_unescape_escape(s.skip(1));
        assert(t.skip(e.len() as int) =~= rest);
        assert(t.subrange(0, e.len() as int) =~= e);
        assert(forall|k: int| 0 <= k < e.len() ==> t[k] == e[k]);
        assert(first_decoded(t) == (s[0], e.len() as int)) by {
            assert(t[0] == e[0]);
            if e.len() > 1 {
                assert(t[1] == e[1]);
            }
            if t.len() >= 4 {
                assert(t.subrange(0, 4)[0] == t[0] && t.subrange(0, 4)[1] == t[1]);
            }
            if t.len() >= 5 {
                assert(t.subrange(0, 5)[0] == t[0] && t.subrange(0, 5)[1] == t[1]);
            }
            if t.len() >= 6 {
                assert(t.subrange(0, 6)[0] == t[0] && t.subrange(0, 6)[1] == t[1]);
            }
        }
        assert(seq![s[0]] + s.skip(1) =~= s);
    }
}


/// How a pattern match is rewritten.
#[derive(Clone, Copy, PartialEq, Eq, Debug)]
pub enum Shaping {
    /// A diagram code block becomes a diagram container holding the decoded code.
    Diagram,
    /// A relative image source is rooted under `/img/`.
    ImageSource,
}

/// The bytes of `<pre class="mermaid">`.
pub open spec fn diagram_open() -> Seq<u8> {
    seq![
        60u8, 112u8, 114u8, 101u8, 32u8, 99u8, 108u8, 97u8, 115u8, 115u8, 61u8, 34u8, 109u8, 101u8,
        114u8, 109u8, 97u8, 105u8, 100u8, 34u8, 62u8,
    ]
}

/// The bytes of `</pre>`.
pub open spec fn diagram_close() -> Seq<u8> {
    seq![60u8, 47u8, 112u8, 114u8, 101u8, 62u8]
}

/// The bytes of `/img/`.
pub open spec fn img_root() -> Seq<u8> {
    seq![47u8, 105u8, 109u8, 103u8, 47u8]
}

/// The bytes of `http`.
pub open spec fn http_prefix() -> Seq<u8> {
    seq![104u8, 116u8, 116u8, 112u8]
}

/// An image source is absolute when it starts with `http` or `/`.
pub open spec fn is_absolute_src(src: Seq<u8>) -> bool {
    starts_with(src, http_prefix()) || starts_with(src, seq![47u8])
}

/// What one match becomes.
pub open spec fn rewritten_match(kind: Shaping, text: Seq<u8>, c: Capture) -> Seq<u8> {
    match c.2 {
        None => text.subrange(c.0 as int, c.1 as int),
        Some(g) => {
            let inner = text.subrange(g.0 as int, g.1 as int);
            match kind {
                Shaping::Diagram => diagram_open() + unescape_entities(inner) + diagram_close(),
                Shaping::ImageSource => if is_absolute_src(inner) {
                    text.subrange(c.0 as int, c.1 as int)
                } else {
                    text.subrange(c.0 as int, g.0 as int) + img_root() + inner + text.subrange(
                        g.1 as int,
                        c.1 as int,
                    )
                },
            }
        },
    }
}

/// Where the text after the first `k` matches resumes.
pub open spec fn resume_at(caps: Seq<Capture>, k: int) -> int {
    if k <= 0 {
        0
    } else {
        caps[k - 1].1 as int
    }
}

/// The output up to the end of the `k`-th match.
pub open spec fn shaped_prefix(kind: Shaping, text: Seq<u8>, caps: Seq<Capture>, k: nat) -> Seq<u8>
    decreases k,
{
    if k == 0 {
        Seq::empty()
    } else {
        shaped_prefix(kind, text, caps, (k - 1) as nat) + text.subrange(
            resume_at(caps, k - 1),
            caps[k - 1].0 as int,
        ) + rewritten_match(kind, text, caps[k - 1])
    }
}

/// The text with every match rewritten and the rest kept as it is.
pub open spec fn shaped(kind: Shaping, text: Seq<u8>, caps: Seq<Capture>) -> Seq<u8> {
    shaped_prefix(kind, text, caps, caps.len()) + text.subrange(
        resume_at(caps, caps.len() as int),
        text.len() as int,
    )
}

/// Appends `t[lo..hi]`.
fn push_range(out: &mut Vec<u8>, t: &Vec<u8>, lo: usize, hi: usize)
    requires
        lo <= hi <= t.len(),
    ensures
        final(out)@ == old(out)@ + t@.subrange(lo as int, hi as int),
{
    let mut i: usize = lo;
    while i < hi
        invariant
            lo <= i <= hi <= t.len(),
            out@ == old(out)@ + t@.subrange(lo as int, i as int),
        decreases hi - i,
    {
        out.push(t[i]);
        assert(t@.subrange(lo as int, i + 1) =~= t@.subrange(lo as int, i as int).push(t@[i as int]));
        i = i + 1;
    }
}

/// Appends the bytes of `b`.
fn push_slice(out: &mut Vec<u8>, b: &[u8])
    ensures
        final(out)@ == old(out)@ + b@,
{
    let mut i: usize = 0;
    while i < b.len()
        invariant
            i <= b.len(),
            out@ == old(out)@ + b@.subrange(0, i as int),
        decreases b.len() - i,
    {
        out.push(b[i]);
        assert(b@.subrange(0, i + 1) =~= b@.subrange(0, i as int).push(b@[i as int]));
        i = i + 1;
    }
    assert(b@.subrange(0, b@.len() as int) =~= b@);
}

fn push_rewritten(out: &mut Vec<u8>, kind: Shaping, text: &Vec<u8>, c: Capture)
    requires
        c.0 <= c.1 <= text.len(),
        c.2 matches Some(g) ==> c.0 <= g.0 <= g.1 <= c.1,
    ensures
        final(out)@ == old(out)@ + rewritten_match(kind, text@, c),
{
    match c.2 {
        None => push_range(out, text, c.0, c.1),
        Some(g) => {
            match kind {
                Shaping::Diagram => {
                    // `<pre class="mermaid">` and `</pre>`
                    let open: [u8; 21] = [
                        60u8, 112u8, 114u8, 101u8, 32u8, 99u8, 108u8, 97u8, 115u8, 115u8, 61u8,
                        34u8, 109u8, 101u8, 114u8, 109u8, 97u8, 105u8, 100u8, 34u8, 62u8,
                    ];
                    let close: [u8; 6] = [60u8, 47u8, 112u8, 114u8, 101u8, 62u8];
                    assert(open@ == diagram_open());
                    assert(close@ == diagram_close());
                    push_slice(out, &open);
                    push_unescaped(out, text, g.0, g.1);
                    push_slice(out, &close);
                    assert(final(out)@ =~= old(out)@ + rewritten_match(kind, text@, c));
                },
                Shaping::ImageSource => {
                    // `http`, `/` and `/img/`
                    let http: [u8; 4] = [104u8, 116u8, 116u8, 112u8];
                    let slash: [u8; 1] = [47u8];
                    let root: [u8; 5] = [47u8, 105u8, 109u8, 103u8, 47u8];
                    assert(http@ == http_prefix());
                    assert(slash@ == seq![47u8]);
                    assert(root@ == img_root());
                    if starts_with_at(text, g.0, g.1, &http) || starts_with_at(
                        text,
                        g.0,
                        g.1,
                        &slash,
                    ) {
                        push_range(out, text, c.0, c.1);
                    } else {
                        push_range(out, text, c.0, g.0);
                        push_slice(out, &root);
                        push_range(out, text, g.0, g.1);
                        push_range(out, text, g.1, c.1);
                        assert(final(out)@ =~= old(out)@ + rewritten_match(kind, text@, c));
                    }
                },
            }
        },
    }
}

/// Rewrites each match of `caps` in `text` and keeps the text between them.
pub fn apply_shaping(kind: Shaping, text: &Vec<u8>, caps: &Vec<Capture>) -> (r: Vec<u8>)
    requires
        captures_well_formed(caps@, text@.len() as int),
    ensures
        r@ == shaped(kind, text@, caps@),
{
    let mut out: Vec<u8> = Vec::new();
    let mut k: usize = 0;
    let mut at: usize = 0;
    while k < caps.len()
        invariant
            k <= caps.len(),
            captures_well_formed(caps@, text@.len() as int),
            at == resume_at(caps@, k as int),
            at <= text.len(),
            out@ == shaped_prefix(kind, text@, caps@, k as nat),
        decreases caps.len() - k,
    {
        let c = caps[k];
        assert(caps@[k as int] == c);
        push_range(&mut out, text, at, c.0);
        push_rewritten(&mut out, kind, text, c);
        at = c.1;
        k = k + 1;
    }
    push_range(&mut out, text, at, text.len());
    out
}


/// The text shaped at every match of `pattern`, one of the fixed patterns.
pub open spec fn shaped_by(kind: Shaping, pattern: Seq<char>, text: Seq<u8>) -> Seq<u8> {
    shaped(kind, text, pattern_captures(pattern, text)->0)
}

/// Rewrites each diagram code block into a diagram container.
pub fn transform_diagrams(html: &Vec<u8>) -> (r: Vec<u8>)
    ensures
        r@ == shaped_by(Shaping::Diagram, DIAGRAM_BLOCK_PATTERN@, html@),
{
    match find_captures(DIAGRAM_BLOCK_PATTERN, html) {
        Some(caps) => apply_shaping(Shaping::Diagram, html, &caps),
        None => {
            proof {
                assert(false);
            }
            Vec::new()
        },
    }
}

/// Roots each relative `<img>` source under `/img/`.
pub fn transform_img_paths(html: &Vec<u8>) -> (r: Vec<u8>)
    ensures
        r@ == shaped_by(Shaping::ImageSource, IMG_TAG_PATTERN@, html@),
{
    match find_captures(IMG_TAG_PATTERN, html) {
        Some(caps) => apply_shaping(Shaping::ImageSource, html, &caps),
        None => {
            proof {
                assert(false);
            }
            Vec::new()
        },
    }
}

/// The HTML page of a markdown text: rendered, then its diagram blocks and
/// image sources shaped.
pub open spec fn page_html(md: Seq<char>) -> Seq<u8> {
    shaped_by(
        Shaping::ImageSource,
        IMG_TAG_PATTERN@,
        shaped_by(Shaping::Diagram, DIAGRAM_BLOCK_PATTERN@, markdown_html(md)),
    )
}

/// Renders a markdown text to its HTML page.
pub fn render_page(markdown: &str) -> (r: Vec<u8>)
    ensures
        r@ == page_html(markdown@),
{
    let html = render_markdown(markdown);
    let d = transform_diagrams(&html);
    transform_img_paths(&d)
}

/// Shaping at no match leaves the text as it is.
pub proof fn lemma_shaping_without_matches(kind: Shaping, text: Seq<u8>)
    ensures
        shaped(kind, text, Seq::empty()) == text,
{
    assert(text.subrange(0, text.len() as int) =~= text);
    assert(Seq::<u8>::empty() + text =~= text);
}

/// Applying the diagram transform twice gives what applying it once gives,
/// wherever its output holds no diagram block any more.
pub proof fn lemma_diagram_transform_idempotent(html: Seq<u8>)
    requires
        pattern_captures(
            DIAGRAM_BLOCK_PATTERN@,
            shaped_by(Shaping::Diagram, DIAGRAM_BLOCK_PATTERN@, html),
        ) == Some(Seq::<Capture>::empty()),
    ensures
        ({
            let once = shaped_by(Shaping::Diagram, DIAGRAM_BLOCK_PATTERN@, html);
            shaped_by(Shaping::Diagram, DIAGRAM_BLOCK_PATTERN@, once) == once
        }),
{
    let once = shaped_by(Shaping::Diagram, DIAGRAM_BLOCK_PATTERN@, html);
    lemma_shaping_without_matches(Shaping::Diagram, once);
}

/// A relative image source is rewritten to start with `/img/`, the rest of
/// the tag kept; an absolute or root-relative one leaves the tag unchanged.
pub proof fn lemma_img_src_rooted(text: Seq<u8>, c: Capture)
    requires
        c.0 <= c.1 <= text.len(),
        c.2 matches Some(g) && c.0 <= g.0 <= g.1 <= c.1,
    ensures
        ({
            let g = c.2->0;
            let src = text.subrange(g.0 as int, g.1 as int);
            let tag = rewritten_match(Shaping::ImageSource, text, c);
            let at = g.0 - c.0;
            &&& is_absolute_src(src) ==> tag == text.subrange(c.0 as int, c.1 as int)
            &&& !is_absolute_src(src) ==> {
                &&& tag.subrange(0, at) == text.subrange(c.0 as int, g.0 as int)
                &&& starts_with(tag.subrange(at, tag.len() as int), img_root())
                &&& tag.subrange(at + 5, at + 5 + src.len()) == src
                &&& tag.subrange(at + 5 + src.len(), tag.len() as int) == text.subrange(
                    g.1 as int,
                    c.1 as int,
                )
            }
        }),
{
    let g = c.2->0;
    let src = text.subrange(g.0 as int, g.1 as int);
    let tag = rewritten_match(Shaping::ImageSource, text, c);
    let at = g.0 - c.0;
    if !is_absolute_src(src) {
        assert(tag.subrange(0, at) =~= text.subrange(c.0 as int, g.0 as int));
        assert(tag.subrange(at, tag.len() as int).subrange(0, 5) =~= img_root());
        assert(tag.subrange(at + 5, at + 5 + src.len()) =~= src);
        assert(tag.subrange(at + 5 + src.len(), tag.len() as int) =~= text.subrange(
            g.1 as int,
            c.1 as int,
        ));
    }
}

/// The diagram container holds the block's code exactly as it was before
/// the renderer escaped it.
pub proof fn lemma_diagram_code_verbatim(text: Seq<u8>, c: Capture, code: Seq<u8>)
    requires
        c.2 matches Some(g) && text.subrange(g.0 as int, g.1 as int) == escape_entities(code),
    ensures
        rewritten_match(Shaping::Diagram, text, c) == diagram_open() + code + diagram_close(),
{
    lemma_unescape_escape(code);
}

} // verus!
