//! The source snapshot: which files of the project tree are indexed, and the
//! immutable map from their relative paths to their contents.

use vstd::prelude::*;
use vstd::string::StringExecFns;
use crate::text::{
    chars_of, string_of_range, last_index, lemma_last_index_bounds, lemma_last_index_skip,
    lemma_last_index_is_last, lemma_last_index_prefix, text_before, chars_before, lemma_before_total,
    lemma_before_transitive, lemma_before_irreflexive,
};


verus! {

/// A path segment that survives normalization: not empty and not `..`.
pub open spec fn is_kept_segment(seg: Seq<char>) -> bool {
    seg.len() > 0 && seg != seq!['.', '.']
}

/// The normalized form of `s[0..n]`: its kept `/`-separated segments, joined by `/`.
pub open spec fn normalized_prefix(s: Seq<char>, n: nat) -> Seq<char>
    recommends
        n <= s.len(),
    decreases n,
{
    if n > s.len() {
        Seq::empty()
    } else {
        let k = last_index(s, n as int, '/');
        let seg = s.subrange(k + 1, n as int);
        let head = if k < 0 {
            Seq::empty()
        } else {
            proof {
                lemma_last_index_bounds(s, n as int, '/');
            }
            normalized_prefix(s, k as nat)
        };
        if !is_kept_segment(seg) {
            head
        } else if head.len() == 0 {
            seg
        } else {
            head + seq!['/'] + seg
        }
    }
}

/// A requested path with empty and `..` segments dropped.
pub open spec fn normalized_path(s: Seq<char>) -> Seq<char> {
    normalized_prefix(s, s.len())
}

/// Every `/`-separated segment of `s[0..n]` is kept: none is empty or `..`.
pub open spec fn segments_kept(s: Seq<char>, n: nat) -> bool
    decreases n,
{
    if n > s.len() {
        false
    } else {
        let k = last_index(s, n as int, '/');
        is_kept_segment(s.subrange(k + 1, n as int)) && (k < 0 || {
            proof {
                lemma_last_index_bounds(s, n as int, '/');
            }
            segments_kept(s, k as nat)
        })
    }
}

proof fn lemma_segments_kept_prefix(s: Seq<char>, t: Seq<char>, n: nat)
    requires
        n <= s.len(),
        n <= t.len(),
        s.subrange(0, n as int) == t.subrange(0, n as int),
    ensures
        segments_kept(s, n) == segments_kept(t, n),
    decreases n,
{
    lemma_last_index_prefix(s, t, n as int, '/');
    lemma_last_index_bounds(s, n as int, '/');
    let k = last_index(s, n as int, '/');
    assert(s.subrange(k + 1, n as int) =~= s.subrange(0, n as int).subrange(k + 1, n as int));
    assert(t.subrange(k + 1, n as int) =~= t.subrange(0, n as int).subrange(k + 1, n as int));
    if k >= 0 {
        assert(s.subrange(0, k) =~= s.subrange(0, n as int).subrange(0, k));
        assert(t.subrange(0, k) =~= t.subrange(0, n as int).subrange(0, k));
        lemma_segments_kept_prefix(s, t, k as nat);
    }
}

/// A normalized path holds no traversal segment and no empty segment: every
/// segment between its separators is kept.
pub proof fn lemma_normalized_segments_kept(s: Seq<char>)
    ensures
        ({
            let r = normalized_path(s);
            r.len() == 0 || segments_kept(r, r.len())
        }),
{
    lemma_normalized_prefix_segments_kept(s, s.len());
}

proof fn lemma_normalized_prefix_segments_kept(s: Seq<char>, n: nat)
    requires
        n <= s.len(),
    ensures
        ({
            let r = normalized_prefix(s, n);
            r.len() == 0 || segments_kept(r, r.len())
        }),
    decreases n,
{
    lemma_last_index_bounds(s, n as int, '/');
    lemma_last_index_is_last(s, n as int, '/');
    let k = last_index(s, n as int, '/');
    let seg = s.subrange(k + 1, n as int);
    let head = if k < 0 {
        Seq::empty()
    } else {
        normalized_prefix(s, k as nat)
    };
    if k >= 0 {
        lemma_normalized_prefix_segments_kept(s, k as nat);
    }
    let r = normalized_prefix(s, n);
    assert(forall|q: int| 0 <= q < seg.len() ==> seg[q] != '/');
    if is_kept_segment(seg) {
        if head.len() == 0 {
            assert(r == seg);
            lemma_last_index_skip(r, 0, r.len() as int, '/');
            assert(r.subrange(0, r.len() as int) =~= r);
        } else {
            let hl = head.len() as int;
            assert(r == head + seq!['/'] + seg);
            assert(forall|q: int| hl + 1 <= q < r.len() ==> r[q] == seg[q - hl - 1]);
            lemma_last_index_skip(r, hl + 1, r.len() as int, '/');
            assert(r[hl] == '/');
            assert(last_index(r, r.len() as int, '/') == hl);
            assert(r.subrange(hl + 1, r.len() as int) =~= seg);
            assert(r.subrange(0, hl) =~= head.subrange(0, hl));
            lemma_segments_kept_prefix(r, head, hl as nat);
        }
    }
}

proof fn lemma_clean_prefix_normalizes_to_itself(p: Seq<char>, n: nat)
    requires
        n <= p.len(),
        segments_kept(p, n),
    ensures
        normalized_prefix(p, n) == p.subrange(0, n as int),
        n > 0,
    decreases n,
{
    lemma_last_index_bounds(p, n as int, '/');
    let k = last_index(p, n as int, '/');
    if k >= 0 {
        lemma_clean_prefix_normalizes_to_itself(p, k as nat);
        assert(p.subrange(0, k) + seq!['/'] + p.subrange(k + 1, n as int) =~= p.subrange(
            0,
            n as int,
        ));
    } else {
        assert(p.subrange(k + 1, n as int) =~= p.subrange(0, n as int));
    }
}

/// A path whose segments are all kept is its own normalized form: requesting
/// a stored path finds what is stored under it.
pub proof fn lemma_clean_path_normalizes_to_itself(p: Seq<char>)
    requires
        p.len() == 0 || segments_kept(p, p.len()),
    ensures
        normalized_path(p) == p,
{
    if p.len() == 0 {
        assert(p.subrange(0, 0) =~= p);
        assert(!is_kept_segment(p.subrange(0, 0)));
    } else {
        lemma_clean_prefix_normalizes_to_itself(p, p.len());
        assert(p.subrange(0, p.len() as int) =~= p);
    }
}

fn is_kept(v: &Vec<char>, lo: usize, hi: usize) -> (r: bool)
    requires
        lo <= hi <= v.len(),
    ensures
        r == is_kept_segment(v@.subrange(lo as int, hi as int)),
{
    if hi == lo {
        false
    } else if hi - lo == 2 && v[lo] == '.' && v[lo + 1] == '.' {
        assert(v@.subrange(lo as int, hi as int) =~= seq!['.', '.']);
        false
    } else {
        assert(hi - lo != 2 ==> v@.subrange(lo as int, hi as int).len() != 2);
        let ghost seg = v@.subrange(lo as int, hi as int);
        assert(hi - lo == 2 ==> seg[0] == v@[lo as int] && seg[1] == v@[lo + 1]);
        true
    }
}

/// Normalizes a requested path: splits it on `/`, drops empty segments and
/// `..`, and joins the rest with `/`.
pub fn normalize_source_path(raw: &str) -> (r: String)
    ensures
        r@ == normalized_path(raw@),
{
    let v = chars_of(raw);
    let n = v.len();
    let mut out = String::new();
    let mut start: usize = 0;
    let mut p: usize = 0;
    loop
        invariant_except_break
            n == v.len(),
            start <= p <= n,
            forall|q: int| start <= q < p ==> v@[q] != '/',
            start == 0 || v@[start - 1] == '/',
            start == 0 ==> out@ == Seq::<char>::empty(),
            start > 0 ==> out@ == normalized_prefix(v@, (start - 1) as nat),
        ensures
            out@ == normalized_prefix(v@, n as nat),
        decreases n - p,
    {
        if p == n || v[p] == '/' {
            proof {
                lemma_last_index_skip(v@, start as int, p as int, '/');
                if start > 0 {
                    assert(last_index(v@, start as int, '/') == start - 1);
                } else {
                    assert(last_index(v@, 0, '/') == -1);
                }
            }
            if is_kept(&v, start, p) {
                if !out.as_str().is_empty() {
                    out.push('/');
                }
                let seg = string_of_range(&v, start, p);
                out.append(seg.as_str());
            }
            proof {
                assert(out@ =~= normalized_prefix(v@, p as nat));
            }
            if p == n {
                break;
            }
            start = p + 1;
        }
        p = p + 1;
    }
    out
}


/// The map that a list of (path, content) pairs describes, later pairs
/// replacing earlier ones of the same path.
pub open spec fn pairs_map(ps: Seq<(String, String)>) -> Map<Seq<char>, Seq<char>>
    decreases ps.len(),
{
    if ps.len() == 0 {
        Map::empty()
    } else {
        pairs_map(ps.drop_last()).insert(ps.last().0@, ps.last().1@)
    }
}

/// The paths of `ps` increase strictly.
pub open spec fn paths_increasing(ps: Seq<(String, String)>) -> bool {
    forall|i: int, j: int|
        0 <= i < j < ps.len() ==> text_before(#[trigger] ps[i].0@, #[trigger] ps[j].0@)
}

pub proof fn lemma_pairs_map_contents(ps: Seq<(String, String)>)
    requires
        paths_increasing(ps),
    ensures
        forall|k: Seq<char>|
            #[trigger] pairs_map(ps).contains_key(k) <==> exists|i: int|
                0 <= i < ps.len() && (#[trigger] ps[i]).0@ == k,
        forall|i: int| 0 <= i < ps.len() ==> pairs_map(ps)[(#[trigger] ps[i]).0@] == ps[i].1@,
    decreases ps.len(),
{
    if ps.len() > 0 {
        let q = ps.drop_last();
        assert(paths_increasing(q)) by {
            assert forall|i: int, j: int| 0 <= i < j < q.len() implies text_before(
                #[trigger] q[i].0@,
                #[trigger] q[j].0@,
            ) by {
                assert(q[i] == ps[i] && q[j] == ps[j]);
            }
        }
        lemma_pairs_map_contents(q);
        assert forall|k: Seq<char>| #[trigger] pairs_map(ps).contains_key(k) <==> exists|i: int|
            0 <= i < ps.len() && (#[trigger] ps[i]).0@ == k by {
            if pairs_map(q).contains_key(k) {
                let i = choose|i: int| 0 <= i < q.len() && (#[trigger] q[i]).0@ == k;
                assert(ps[i] == q[i]);
            }
            if exists|i: int| 0 <= i < ps.len() && (#[trigger] ps[i]).0@ == k {
                let i = choose|i: int| 0 <= i < ps.len() && (#[trigger] ps[i]).0@ == k;
                if i < ps.len() - 1 {
                    assert(q[i] == ps[i]);
                }
            }
        }
        assert forall|i: int| 0 <= i < ps.len() implies pairs_map(ps)[(#[trigger] ps[i]).0@]
            == ps[i].1@ by {
            if i < ps.len() - 1 {
                assert(q[i] == ps[i]);
                assert(text_before(ps[i].0@, ps[ps.len() - 1].0@));
                lemma_before_irreflexive(ps[i].0@);
            }
        }
    }
}

/// Some pair of `ps` has path `k`.
pub open spec fn has_path(ps: Seq<(String, String)>, k: Seq<char>) -> bool {
    exists|i: int| 0 <= i < ps.len() && (#[trigger] ps[i]).0@ == k
}

/// Two increasing lists that hold the same pairs but for `x`, which only the
/// second holds at its path, describe maps that differ by `x` alone.
pub proof fn lemma_pairs_map_with(
    ps: Seq<(String, String)>,
    qs: Seq<(String, String)>,
    x: (String, String),
)
    requires
        paths_increasing(ps),
        paths_increasing(qs),
        forall|k: Seq<char>| k != x.0@ ==> (#[trigger] has_path(ps, k) <==> has_path(qs, k)),
        forall|i: int|
            0 <= i < ps.len() && (#[trigger] ps[i]).0@ != x.0@ ==> exists|j: int|
                0 <= j < qs.len() && #[trigger] qs[j] == ps[i],
        exists|j: int| 0 <= j < qs.len() && #[trigger] qs[j] == x,
    ensures
        pairs_map(qs) == pairs_map(ps).insert(x.0@, x.1@),
{
    lemma_pairs_map_contents(ps);
    lemma_pairs_map_contents(qs);
    let m = pairs_map(ps).insert(x.0@, x.1@);
    assert forall|k: Seq<char>| #[trigger] pairs_map(qs).contains_key(k) <==> m.contains_key(k) by {
        if k != x.0@ {
            assert(has_path(ps, k) <==> has_path(qs, k));
        }
        if k == x.0@ {
            let j = choose|j: int| 0 <= j < qs.len() && #[trigger] qs[j] == x;
            assert(qs[j].0@ == k);
        }
    }
    assert forall|k: Seq<char>| #[trigger] pairs_map(qs).contains_key(k) implies pairs_map(qs)[k]
        == m[k] by {
        if k == x.0@ {
            let j = choose|j: int| 0 <= j < qs.len() && #[trigger] qs[j] == x;
            assert(pairs_map(qs)[qs[j].0@] == qs[j].1@);
        } else {
            assert(has_path(ps, k) <==> has_path(qs, k));
            let i = choose|i: int| 0 <= i < ps.len() && (#[trigger] ps[i]).0@ == k;
            let j = choose|j: int| 0 <= j < qs.len() && #[trigger] qs[j] == ps[i];
            assert(pairs_map(qs)[qs[j].0@] == qs[j].1@);
            assert(pairs_map(ps)[ps[i].0@] == ps[i].1@);
        }
    }
    assert(pairs_map(qs) =~= m);
}

/// The first position whose path does not come before `key`.
fn find_path_pos(es: &Vec<(String, String)>, key: &Vec<char>) -> (r: usize)
    ensures
        r <= es.len(),
        forall|i: int| 0 <= i < r ==> text_before((#[trigger] es@[i]).0@, key@),
        r < es.len() ==> !text_before(es@[r as int].0@, key@),
{
    let mut j: usize = 0;
    while j < es.len()
        invariant
            j <= es.len(),
            forall|i: int| 0 <= i < j ==> text_before((#[trigger] es@[i]).0@, key@),
        decreases es.len() - j,
    {
        let pj = chars_of(es[j].0.as_str());
        if !chars_before(&pj, key) {
            return j;
        }
        j = j + 1;
    }
    j
}

/// Adds a pair to an increasing list, replacing the pair of the same path.
fn insert_sorted(entries: &mut Vec<(String, String)>, path: String, content: String)
    requires
        paths_increasing(old(entries)@),
    ensures
        paths_increasing(final(entries)@),
        pairs_map(final(entries)@) == pairs_map(old(entries)@).insert(path@, content@),
{
    let ghost ps = entries@;
    let ghost x = (path, content);
    let key = chars_of(path.as_str());
    let p = find_path_pos(&entries, &key);
    if p < entries.len() && entries[p].0 == path {
        entries.remove(p);
        entries.insert(p, (path, content));
        let ghost qs = entries@;
        assert(qs =~= ps.update(p as int, x));
        assert forall|i: int, j: int| 0 <= i < j < qs.len() implies text_before(
            #[trigger] qs[i].0@,
            #[trigger] qs[j].0@,
        ) by {
            assert(qs[i].0@ == ps[i].0@ && qs[j].0@ == ps[j].0@);
        }
        assert forall|k: Seq<char>| k != x.0@ implies (#[trigger] has_path(ps, k) <==> has_path(
            qs,
            k,
        )) by {
            if has_path(ps, k) {
                let i = choose|i: int| 0 <= i < ps.len() && (#[trigger] ps[i]).0@ == k;
                assert(qs[i].0@ == k);
            }
            if has_path(qs, k) {
                let i = choose|i: int| 0 <= i < qs.len() && (#[trigger] qs[i]).0@ == k;
                assert(ps[i].0@ == k);
            }
        }
        assert forall|i: int| 0 <= i < ps.len() && (#[trigger] ps[i]).0@ != x.0@ implies exists|
            j: int,
        | 0 <= j < qs.len() && #[trigger] qs[j] == ps[i] by {
            assert(qs[i] == ps[i]);
        }
        assert(qs[p as int] == x);
        proof {
            lemma_pairs_map_with(ps, qs, x);
        }
    } else {
        entries.insert(p, (path, content));
        let ghost qs = entries@;
        assert(qs[p as int] == x);
        proof {
            if p < ps.len() {
                lemma_before_total(key@, ps[p as int].0@);
            }
        }
        assert forall|i: int, j: int| 0 <= i < j < qs.len() implies text_before(
            #[trigger] qs[i].0@,
            #[trigger] qs[j].0@,
        ) by {
            if j < p {
                assert(qs[i] == ps[i] && qs[j] == ps[j]);
            } else if j == p {
                assert(qs[i] == ps[i]);
            } else if i < p {
                assert(qs[i] == ps[i] && qs[j] == ps[j - 1]);
            } else if i == p {
                assert(qs[j] == ps[j - 1]);
                if j - 1 > p {
                    assert(text_before(ps[p as int].0@, ps[j - 1].0@));
                    lemma_before_transitive(key@, ps[p as int].0@, ps[j - 1].0@);
                }
            } else {
                assert(qs[i] == ps[i - 1] && qs[j] == ps[j - 1]);
            }
        }
        assert forall|k: Seq<char>| k != x.0@ implies (#[trigger] has_path(ps, k) <==> has_path(
            qs,
            k,
        )) by {
            if has_path(ps, k) {
                let i = choose|i: int| 0 <= i < ps.len() && (#[trigger] ps[i]).0@ == k;
                if i < p {
                    assert(qs[i] == ps[i]);
                } else {
                    assert(qs[i + 1] == ps[i]);
                }
            }
            if has_path(qs, k) {
                let i = choose|i: int| 0 <= i < qs.len() && (#[trigger] qs[i]).0@ == k;
                if i < p {
                    assert(ps[i] == qs[i]);
                } else if i > p {
                    assert(ps[i - 1] == qs[i]);
                }
            }
        }
        assert forall|i: int| 0 <= i < ps.len() && (#[trigger] ps[i]).0@ != x.0@ implies exists|
            j: int,
        | 0 <= j < qs.len() && #[trigger] qs[j] == ps[i] by {
            if i < p {
                assert(qs[i] == ps[i]);
            } else {
                assert(qs[i + 1] == ps[i]);
            }
        }
        proof {
            lemma_pairs_map_with(ps, qs, x);
        }
    }
}

/// The source snapshot: relative paths mapped to file contents, fixed once built.
pub struct SourceFileMap {
    entries: Vec<(String, String)>,
}

impl SourceFileMap {
    /// Entries are kept in strictly increasing order of path.
    #[verifier::type_invariant]
    closed spec fn well_formed(&self) -> bool {
        paths_increasing(self.entries@)
    }

    /// The paths of the snapshot and their contents.
    pub closed spec fn view(&self) -> Map<Seq<char>, Seq<char>> {
        pairs_map(self.entries@)
    }

    /// An empty snapshot.
    pub fn new() -> (r: SourceFileMap)
        ensures
            r.view() == Map::<Seq<char>, Seq<char>>::empty(),
    {
        SourceFileMap { entries: Vec::new() }
    }

    /// Builds the snapshot from (relative path, content) pairs; a later pair
    /// replaces an earlier one of the same path.
    pub fn from_entries(pairs: Vec<(String, String)>) -> (r: SourceFileMap)
        ensures
            r.view() == pairs_map(pairs@),
    {
        let ghost s = pairs@;
        let n = pairs.len();
        let mut rest = pairs;
        let mut entries: Vec<(String, String)> = Vec::new();
        let mut i: usize = 0;
        while rest.len() > 0
            invariant
                i + rest.len() == s.len(),
                s.len() == n,
                rest@ == s.skip(i as int),
                paths_increasing(entries@),
                pairs_map(entries@) == pairs_map(s.take(i as int)),
            decreases rest.len(),
        {
            let (path, content) = rest.remove(0);
            proof {
                assert(s.take(i + 1).drop_last() =~= s.take(i as int));
                assert(s.take(i + 1).last() == (path, content));
            }
            insert_sorted(&mut entries, path, content);
            i = i + 1;
            assert(rest@ =~= s.skip(i as int));
        }
        assert(s.take(i as int) =~= s);
        SourceFileMap { entries }
    }

    /// The indexed paths, in increasing order.
    pub fn paths(&self) -> (r: Vec<String>)
        ensures
            forall|i: int| 0 <= i < r.len() ==> self.view().contains_key(#[trigger] r@[i]@),
            forall|k: Seq<char>| #[trigger] self.view().contains_key(k) ==> exists|i: int|
                0 <= i < r.len() && (#[trigger] r@[i])@ == k,
            forall|i: int, j: int|
                0 <= i < j < r.len() ==> text_before(#[trigger] r@[i]@, #[trigger] r@[j]@),
    {
        proof {
            use_type_invariant(self);
        }
        let mut out: Vec<String> = Vec::new();
        let mut i: usize = 0;
        while i < self.entries.len()
            invariant
                i <= self.entries.len(),
                out.len() == i,
                forall|j: int| 0 <= j < i ==> (#[trigger] out@[j]) == self.entries@[j].0,
            decreases self.entries.len() - i,
        {
            out.push(self.entries[i].0.clone());
            i = i + 1;
        }
        proof {
            lemma_pairs_map_contents(self.entries@);
            assert forall|i: int| 0 <= i < out.len() implies self.view().contains_key(
                #[trigger] out@[i]@,
            ) by {
                assert(out@[i] == self.entries@[i].0);
            }
            assert forall|k: Seq<char>| #[trigger] self.view().contains_key(k) implies exists|i: int|
                0 <= i < out.len() && (#[trigger] out@[i])@ == k by {
                let i = choose|i: int|
                    0 <= i < self.entries@.len() && (#[trigger] self.entries@[i]).0@ == k;
                assert(out@[i] == self.entries@[i].0);
            }
            assert forall|i: int, j: int| 0 <= i < j < out.len() implies text_before(
                #[trigger] out@[i]@,
                #[trigger] out@[j]@,
            ) by {
                assert(out@[i] == self.entries@[i].0 && out@[j] == self.entries@[j].0);
            }
        }
        out
    }

    /// Looks up a requested path: normalized first, then matched exactly.
    pub fn lookup(&self, raw_path: &str) -> (r: Option<String>)
        ensures
            ({
                let key = normalized_path(raw_path@);
                match r {
                    Some(c) => self.view().contains_key(key) && c@ == self.view()[key],
                    None => !self.view().contains_key(key),
                }
            }),
    {
        proof {
            use_type_invariant(self);
        }
        let key = normalize_source_path(raw_path);
        let mut i: usize = 0;
        while i < self.entries.len()
            invariant
                i <= self.entries.len(),
                paths_increasing(self.entries@),
                key@ == normalized_path(raw_path@),
                forall|j: int| 0 <= j < i ==> (#[trigger] self.entries@[j]).0@ != key@,
            decreases self.entries.len() - i,
        {
            if self.entries[i].0 == key {
                proof {
                    lemma_pairs_map_contents(self.entries@);
                    let e = self.entries@[i as int];
                    assert(self.view()[e.0@] == e.1@);
                }
                return Some(self.entries[i].1.clone());
            }
            i = i + 1;
        }
        proof {
            lemma_pairs_map_contents(self.entries@);
        }
        None
    }
}


/// A path component that prunes its subtree from the snapshot: hidden, or a
/// build output, dependency cache, version-control or generated-frontend directory.
pub open spec fn ignored_component(c: Seq<char>) -> bool {
    (c.len() > 0 && c[0] == '.') || c == "target"@ || c == "dist"@ || c == "node_modules"@ || c
        == "git"@ || c == "frontend_rust"@
}

/// An extension of the files that the snapshot holds.
pub open spec fn is_indexed_extension(e: Seq<char>) -> bool {
    e == "rs"@ || e == "toml"@ || e == "css"@ || e == "html"@
}

/// No component of `s[0..n]` is ignored.
pub open spec fn components_clear(s: Seq<char>, n: nat) -> bool
    decreases n,
{
    if n > s.len() {
        false
    } else {
        let k = last_index(s, n as int, '/');
        !ignored_component(s.subrange(k + 1, n as int)) && (k < 0 || {
            proof {
                lemma_last_index_bounds(s, n as int, '/');
            }
            components_clear(s, k as nat)
        })
    }
}

/// No directory on a path is ignored: every component but the last is clear.
pub open spec fn directories_clear(s: Seq<char>) -> bool {
    let k = last_index(s, s.len() as int, '/');
    k < 0 || components_clear(s, k as nat)
}

/// The last component of a path.
pub open spec fn file_name_of(s: Seq<char>) -> Seq<char> {
    s.subrange(last_index(s, s.len() as int, '/') + 1, s.len() as int)
}

/// The extension of a file name, where it has one (a leading dot starts none).
pub open spec fn extension_of(name: Seq<char>) -> Option<Seq<char>> {
    let d = last_index(name, name.len() as int, '.');
    if d > 0 {
        Some(name.subrange(d + 1, name.len() as int))
    } else {
        None
    }
}

/// A file at relative path `s` belongs in the snapshot: no directory on its
/// path is ignored and its extension is one of the indexed ones.
pub open spec fn indexed_path(s: Seq<char>) -> bool {
    &&& directories_clear(s)
    &&& extension_of(file_name_of(s)) matches Some(e) && is_indexed_extension(e)
}

fn range_is(v: &Vec<char>, lo: usize, hi: usize, lit: &str) -> (r: bool)
    requires
        lo <= hi <= v.len(),
    ensures
        r == (v@.subrange(lo as int, hi as int) == lit@),
{
    let seg = string_of_range(v, lo, hi);
    let other = String::from_str(lit);
    seg == other
}

fn ignored_range(v: &Vec<char>, lo: usize, hi: usize) -> (r: bool)
    requires
        lo <= hi <= v.len(),
    ensures
        r == ignored_component(v@.subrange(lo as int, hi as int)),
{
    (hi > lo && v[lo] == '.') || range_is(v, lo, hi, "target") || range_is(v, lo, hi, "dist")
        || range_is(v, lo, hi, "node_modules") || range_is(v, lo, hi, "git") || range_is(
        v,
        lo,
        hi,
        "frontend_rust",
    )
}

/// Whether a path component prunes its subtree from the snapshot.
pub fn is_ignored_component(name: &str) -> (r: bool)
    ensures
        r == ignored_component(name@),
{
    let v = chars_of(name);
    assert(v@.subrange(0, v@.len() as int) =~= v@);
    ignored_range(&v, 0, v.len())
}

/// Whether the file at a relative path (components separated by `/`)
/// belongs in the snapshot.
pub fn is_indexed_path(rel: &str) -> (r: bool)
    ensures
        r == indexed_path(rel@),
{
    let v = chars_of(rel);
    let n = v.len();
    let mut start: usize = n;
    while start > 0 && v[start - 1] != '/'
        invariant
            start <= n == v.len(),
            last_index(v@, n as int, '/') == last_index(v@, start as int, '/'),
        decreases start,
    {
        start = start - 1;
    }
    assert(last_index(v@, n as int, '/') == start - 1);
    if start > 0 {
        let ghost dirs = (start - 1) as nat;
        let mut end: usize = start - 1;
        let mut k: usize = start - 1;
        // Walk the directory components from the last one back.
        loop
            invariant_except_break
                n == v.len(),
                v@ == rel@,
                last_index(v@, n as int, '/') == dirs,
                k <= end <= dirs < n,
                forall|q: int| k <= q < end ==> v@[q] != '/',
                v@[end as int] == '/',
                components_clear(v@, dirs) == components_clear(v@, end as nat),
            ensures
                components_clear(v@, dirs),
            decreases k,
        {
            if k == 0 || v[k - 1] == '/' {
                proof {
                    lemma_last_index_skip(v@, k as int, end as int, '/');
                    assert(last_index(v@, end as int, '/') == k - 1);
                }
                if ignored_range(&v, k, end) {
                    assert(!components_clear(v@, end as nat));
                    return false;
                }
                if k == 0 {
                    assert(components_clear(v@, end as nat));
                    break;
                }
                end = k - 1;
                k = k - 1;
            } else {
                k = k - 1;
            }
        }
    }
    let ghost name = v@.subrange(start as int, n as int);
    assert(name == file_name_of(v@));
    let mut d: usize = n;
    while d > start && v[d - 1] != '.'
        invariant
            start <= d <= n == v.len(),
            name == v@.subrange(start as int, n as int),
            last_index(name, name.len() as int, '.') == last_index(name, d - start, '.'),
        decreases d,
    {
        assert(name[d - 1 - start] == v@[d - 1]);
        d = d - 1;
    }
    if d > start {
        assert(name[d - 1 - start] == v@[d - 1]);
    }
    if d - start >= 2 {
        assert(last_index(name, d - start, '.') == d - start - 1);
        assert(name.subrange(d - start, name.len() as int) =~= v@.subrange(d as int, n as int));
        range_is(&v, d, n, "rs") || range_is(&v, d, n, "toml") || range_is(&v, d, n, "css")
            || range_is(&v, d, n, "html")
    } else {
        false
    }
}

} // verus!
