//! Staleness detection for the maintained document. Lines judged
//! content-bearing are mapped to the cache keys that justify them; a
//! mapping is re-examined only when the fingerprint observed across its
//! keys differs from the one recorded at its last examination. The
//! generation service's verdicts arrive from outside; this module decides
//! which lines need examination and turns the verdicts into corrections.

use vstd::prelude::*;
use crate::cache::{
    lookup, CacheEntryModel, CacheManager, CacheSummary, LineMappingModel,
};
use crate::hasher::{digest_of, join_digests, FileHasher};
use crate::scanner::{
    file_name_of, file_name_spec, rel_or_full_exec, rel_or_full_spec, stem_spec,
};
use crate::strutil::{
    concat_str, contains_seq, contains_sub, is_space_char, lower_of, seq_has_str, split_lines,
    split_lines_spec, starts_with_seq, starts_with_sub, str_eq, to_lower, to_owned_str, trim_spec,
    trim_str, vec_contains_str,
};

verus! {

/// One suggested correction: the line, its replacement, and the cache
/// keys whose change motivated the re-examination.
#[derive(Debug)]
pub struct ValidationResult {
    pub line_number: usize,
    pub current_content: String,
    pub suggested_content: String,
    pub reason: String,
    pub affected_cache_entries: Vec<String>,
}

/// The mathematical model of a correction.
pub struct ValidationResultModel {
    pub line_number: usize,
    pub current_content: Seq<char>,
    pub suggested_content: Seq<char>,
    pub reason: Seq<char>,
    pub affected_cache_entries: Seq<Seq<char>>,
}

impl View for ValidationResult {
    type V = ValidationResultModel;

    open spec fn view(&self) -> ValidationResultModel {
        ValidationResultModel {
            line_number: self.line_number,
            current_content: self.current_content@,
            suggested_content: self.suggested_content@,
            reason: self.reason@,
            affected_cache_entries: self.affected_cache_entries.deep_view(),
        }
    }
}

impl DeepView for ValidationResult {
    type V = ValidationResultModel;

    open spec fn deep_view(&self) -> ValidationResultModel {
        self@
    }
}

/// One mapping that needs examination: the line, its keys, and the
/// current summaries of those keys, ready to be put to the service.
#[derive(Debug)]
pub struct PendingCheck {
    pub line_number: usize,
    pub line_content: String,
    pub cache_keys: Vec<String>,
    pub relevant_summaries: Vec<String>,
}

/// The mathematical model of a pending check.
pub struct PendingCheckModel {
    pub line_number: usize,
    pub line_content: Seq<char>,
    pub cache_keys: Seq<Seq<char>>,
    pub relevant_summaries: Seq<Seq<char>>,
}

impl View for PendingCheck {
    type V = PendingCheckModel;

    open spec fn view(&self) -> PendingCheckModel {
        PendingCheckModel {
            line_number: self.line_number,
            line_content: self.line_content@,
            cache_keys: self.cache_keys.deep_view(),
            relevant_summaries: self.relevant_summaries.deep_view(),
        }
    }
}

impl DeepView for PendingCheck {
    type V = PendingCheckModel;

    open spec fn deep_view(&self) -> PendingCheckModel {
        self@
    }
}

/// What one validation pass asks the caller to do.
pub enum ValidationPlan {
    /// The document does not exist: a single synthetic suggestion seeds a
    /// full document from the project summary; no per-line mapping.
    MissingDocument(ValidationResult),
    /// The document exists: these mappings need examination by the
    /// service; the rest were skipped.
    Checks(Vec<PendingCheck>),
}

/// A line is content-bearing when, trimmed, it is non-empty, is not a
/// heading, fence or rule, and carries at least one domain-signal token.
pub open spec fn is_content_line_spec(line: Seq<char>) -> bool {
    let t = trim_spec(line);
    &&& t.len() > 0
    &&& t[0] != '#'
    &&& !starts_with_seq(t, "```"@)
    &&& !starts_with_seq(t, "---"@)
    &&& !starts_with_seq(t, "***"@)
    &&& !starts_with_seq(t, "___"@)
    &&& (contains_seq(t, "module"@) || contains_seq(t, "function"@) || contains_seq(t, "class"@)
        || contains_seq(t, "component"@) || contains_seq(t, "file"@) || contains_seq(
        t,
        "directory"@,
    ) || contains_seq(t, "API"@) || contains_seq(t, "endpoint"@) || contains_seq(t, "service"@)
        || contains_seq(t, "manager"@) || contains_seq(t, "handler"@) || contains_seq(
        t,
        "validator"@,
    ) || contains_seq(t, "scanner"@) || contains_seq(t, "client"@) || contains_seq(t, "cache"@)
        || contains_seq(t, "config"@) || contains_seq(t, "error"@) || contains_seq(t, "test"@)
        || contains_seq(t, "util"@) || contains_seq(t, "lib"@) || contains_seq(t, "src/"@)
        || contains_seq(t, ".rs"@) || contains_seq(t, ".py"@) || contains_seq(t, ".js"@)
        || contains_seq(t, ".ts"@) || contains_seq(t, ".go"@) || contains_seq(t, ".java"@)
        || contains_seq(t, ".cpp"@) || contains_seq(t, ".c"@) || contains_seq(t, ".h"@))
}

/// Decide whether a line is content-bearing.
pub fn is_content_line(line: &str) -> (r: bool)
    ensures
        r == is_content_line_spec(line@),
{
    let ts = trim_str(line);
    let t = ts.as_str();
    if t.unicode_len() == 0 {
        return false;
    }
    if t.get_char(0) == '#' {
        return false;
    }
    if starts_with_sub(t, "```") || starts_with_sub(t, "---") || starts_with_sub(t, "***")
        || starts_with_sub(t, "___") {
        return false;
    }
    contains_sub(t, "module") || contains_sub(t, "function") || contains_sub(t, "class")
        || contains_sub(t, "component") || contains_sub(t, "file") || contains_sub(
        t,
        "directory",
    ) || contains_sub(t, "API") || contains_sub(t, "endpoint") || contains_sub(t, "service")
        || contains_sub(t, "manager") || contains_sub(t, "handler") || contains_sub(
        t,
        "validator",
    ) || contains_sub(t, "scanner") || contains_sub(t, "client") || contains_sub(t, "cache")
        || contains_sub(t, "config") || contains_sub(t, "error") || contains_sub(t, "test")
        || contains_sub(t, "util") || contains_sub(t, "lib") || contains_sub(t, "src/")
        || contains_sub(t, ".rs") || contains_sub(t, ".py") || contains_sub(t, ".js")
        || contains_sub(t, ".ts") || contains_sub(t, ".go") || contains_sub(t, ".java")
        || contains_sub(t, ".cpp") || contains_sub(t, ".c") || contains_sub(t, ".h")
}

/// The index of the first whitespace character at or after `from`.
pub open spec fn first_space(s: Seq<char>, from: int) -> int
    decreases s.len() - from,
{
    if from < 0 || from >= s.len() {
        s.len() as int
    } else if is_space_char(s[from]) {
        from
    } else {
        first_space(s, from + 1)
    }
}

proof fn lemma_first_space_props(s: Seq<char>, from: int)
    requires
        0 <= from <= s.len(),
    ensures
        from <= first_space(s, from) <= s.len(),
        first_space(s, from) < s.len() ==> is_space_char(s[first_space(s, from)]),
        forall|k: int| from <= k < first_space(s, from) ==> !is_space_char(s[k]),
    decreases s.len() - from,
{
    if from < s.len() && !is_space_char(s[from]) {
        lemma_first_space_props(s, from + 1);
    }
}

/// The whitespace-separated words of `s`, in order.
pub open spec fn split_ws(s: Seq<char>) -> Seq<Seq<char>>
    decreases s.len(),
{
    if s.len() == 0 {
        Seq::empty()
    } else if is_space_char(s[0]) {
        split_ws(s.drop_first())
    } else {
        let e = first_space(s, 0);
        if 1 <= e <= s.len() {
            seq![s.subrange(0, e)] + split_ws(s.subrange(e, s.len() as int))
        } else {
            seq![s]
        }
    }
}

/// Split a text into its whitespace-separated words.
pub fn split_ws_exec(s: &str) -> (r: Vec<String>)
    ensures
        r.deep_view() == split_ws(s@),
{
    let len = s.unicode_len();
    let mut r: Vec<String> = Vec::new();
    let mut pos: usize = 0;
    proof {
        assert(s@.subrange(0, s@.len() as int) =~= s@);
        assert(r.deep_view() + split_ws(s@.subrange(0, s@.len() as int)) =~= split_ws(s@));
    }
    while pos < len
        invariant
            len == s@.len(),
            pos <= len,
            split_ws(s@) == r.deep_view() + split_ws(s@.subrange(pos as int, s@.len() as int)),
        decreases len - pos,
    {
        let ghost rest = s@.subrange(pos as int, s@.len() as int);
        if crate::strutil::is_space(s.get_char(pos)) {
            proof {
                assert(rest.drop_first() =~= s@.subrange(pos + 1, s@.len() as int));
            }
            pos += 1;
            proof {
                assert(r.deep_view() + split_ws(rest) =~= r.deep_view() + split_ws(
                    s@.subrange(pos as int, s@.len() as int),
                ));
            }
        } else {
            let mut e: usize = pos;
            while e < len && !crate::strutil::is_space(s.get_char(e))
                invariant
                    len == s@.len(),
                    pos <= e <= len,
                    forall|k: int| pos <= k < e ==> !is_space_char(s@[k]),
                decreases len - e,
            {
                e += 1;
            }
            proof {
                lemma_first_space_props(rest, 0);
                assert(forall|k: int| 0 <= k < rest.len() ==> rest[k] == s@[k + pos]);
                assert(first_space(rest, 0) == e - pos) by {
                    if first_space(rest, 0) < e - pos {
                        assert(!is_space_char(s@[first_space(rest, 0) + pos]));
                        assert(is_space_char(rest[first_space(rest, 0)]));
                    }
                    if first_space(rest, 0) > e - pos {
                        assert(e < len);
                        assert(!is_space_char(rest[e - pos]));
                        assert(is_space_char(s@[e as int]));
                    }
                }
                assert(rest.subrange(0, e - pos) =~= s@.subrange(pos as int, e as int));
                assert(rest.subrange(e - pos, rest.len() as int) =~= s@.subrange(
                    e as int,
                    s@.len() as int,
                ));
            }
            let w = s.substring_char(pos, e);
            let w = w.to_owned();
            let ghost wv = w@;
            let ghost rv = r.deep_view();
            r.push(w);
            proof {
                assert(r.deep_view() =~= rv.push(wv));
                assert(split_ws(rest) == seq![rest.subrange(0, e - pos)] + split_ws(
                    rest.subrange(e - pos, rest.len() as int),
                ));
                assert(rv + split_ws(rest) =~= r.deep_view() + split_ws(
                    s@.subrange(e as int, s@.len() as int),
                ));
            }
            pos = e;
        }
    }
    proof {
        assert(s@.subrange(pos as int, s@.len() as int) =~= Seq::<char>::empty());
        assert(split_ws(Seq::<char>::empty()) =~= Seq::<Seq<char>>::empty());
        assert(r.deep_view() + Seq::<Seq<char>>::empty() =~= r.deep_view());
    }
    r
}

/// The first `limit` words longer than five characters, in order.
pub open spec fn first_long_words(ws: Seq<Seq<char>>, limit: int) -> Seq<Seq<char>>
    decreases ws.len(),
{
    if ws.len() == 0 || limit <= 0 {
        Seq::empty()
    } else if ws[0].len() > 5 {
        seq![ws[0]] + first_long_words(ws.drop_first(), limit - 1)
    } else {
        first_long_words(ws.drop_first(), limit)
    }
}

/// The keywords drawn from a cached summary: the first five words longer
/// than five characters, in text order — not the five longest words.
pub open spec fn five_keywords(sum: Seq<char>) -> Seq<Seq<char>> {
    first_long_words(split_ws(sum), 5)
}

/// Collect the keywords of a summary text.
fn five_keywords_exec(sum: &str) -> (r: Vec<String>)
    ensures
        r.deep_view() == five_keywords(sum@),
{
    let ws = split_ws_exec(sum);
    let ghost wsv = ws.deep_view();
    let mut r: Vec<String> = Vec::new();
    let mut j: usize = 0;
    proof {
        assert(wsv.subrange(0, wsv.len() as int) =~= wsv);
        assert(r.deep_view() + first_long_words(wsv.subrange(0, wsv.len() as int), 5)
            =~= five_keywords(sum@));
    }
    while j < ws.len() && r.len() < 5
        invariant
            wsv == ws.deep_view(),
            wsv.len() == ws@.len(),
            j <= wsv.len(),
            r@.len() <= 5,
            five_keywords(sum@) == r.deep_view() + first_long_words(
                wsv.subrange(j as int, wsv.len() as int),
                5 - r@.len(),
            ),
        decreases wsv.len() - j,
    {
        let ghost rest = wsv.subrange(j as int, wsv.len() as int);
        proof {
            assert(rest[0] == wsv[j as int]);
            assert(rest.drop_first() =~= wsv.subrange(j + 1, wsv.len() as int));
        }
        if ws[j].as_str().unicode_len() > 5 {
            let ghost rv = r.deep_view();
            let x = to_owned_str(ws[j].as_str());
            let ghost xv = x@;
            r.push(x);
            proof {
                assert(r.deep_view() =~= rv.push(xv));
                assert(first_long_words(rest, 5 - rv.len()) == seq![rest[0]]
                    + first_long_words(rest.drop_first(), 5 - rv.len() - 1));
                assert(rv + (seq![rest[0]] + first_long_words(
                    rest.drop_first(),
                    5 - rv.len() - 1,
                )) =~= r.deep_view() + first_long_words(rest.drop_first(), 5 - r@.len()));
            }
        } else {
            proof {
                assert(first_long_words(rest, 5 - r@.len()) == first_long_words(
                    rest.drop_first(),
                    5 - r@.len(),
                ));
            }
        }
        j += 1;
    }
    proof {
        let rest = wsv.subrange(j as int, wsv.len() as int);
        if r@.len() >= 5 {
            assert(first_long_words(rest, 5 - r@.len()) =~= Seq::<Seq<char>>::empty());
        } else {
            assert(j == wsv.len());
            assert(rest =~= Seq::<Seq<char>>::empty());
            assert(first_long_words(rest, 5 - r@.len()) =~= Seq::<Seq<char>>::empty());
        }
        assert(r.deep_view() + Seq::<Seq<char>>::empty() =~= r.deep_view());
    }
    r
}

/// How many keywords occur, lowercased, in the lowercased line.
pub open spec fn kw_match_count(line_lower: Seq<char>, kws: Seq<Seq<char>>) -> int
    decreases kws.len(),
{
    if kws.len() == 0 {
        0
    } else {
        kw_match_count(line_lower, kws.drop_last()) + if contains_seq(
            line_lower,
            lower_of(kws.last()),
        ) {
            1int
        } else {
            0int
        }
    }
}

/// Count the keywords that occur in the lowercased line.
fn count_kw_matches(line_lower: &str, kws: &Vec<String>) -> (r: usize)
    ensures
        r == kw_match_count(line_lower@, kws.deep_view()),
{
    let ghost kv = kws.deep_view();
    let mut r: usize = 0;
    let mut j: usize = 0;
    proof {
        assert(kv.subrange(0, 0) =~= Seq::<Seq<char>>::empty());
    }
    while j < kws.len()
        invariant
            kv == kws.deep_view(),
            kv.len() == kws@.len(),
            j <= kv.len(),
            r <= j,
            r == kw_match_count(line_lower@, kv.subrange(0, j as int)),
        decreases kv.len() - j,
    {
        let lk = to_lower(kws[j].as_str());
        if contains_sub(line_lower, lk.as_str()) {
            r += 1;
        }
        j += 1;
        proof {
            let pre = kv.subrange(0, j as int);
            assert(pre.drop_last() =~= kv.subrange(0, j - 1));
            assert(pre.last() == kv[j - 1]);
        }
    }
    proof {
        assert(kv.subrange(0, kv.len() as int) =~= kv);
    }
    r
}

/// A cache entry is relevant to a line when the lowercased line contains
/// the entry's relative path, its file name, or a name stem longer than
/// three characters, or when at least two of the entry's keywords occur
/// in the line.
pub open spec fn entry_relevant(line_lower: Seq<char>, base: Seq<char>, e: CacheEntryModel) -> bool {
    let rel = rel_or_full_spec(base, e.source_path);
    let ps = lower_of(rel);
    let f = lower_of(file_name_spec(rel));
    let st = lower_of(stem_spec(file_name_spec(rel)));
    ||| contains_seq(line_lower, ps)
    ||| contains_seq(line_lower, f)
    ||| (st.len() > 3 && contains_seq(line_lower, st))
    ||| kw_match_count(line_lower, five_keywords(e.summary)) >= 2
}

/// Decide whether one entry is relevant to a lowercased line.
fn entry_relevant_exec(line_lower: &str, base: &str, e: &CacheSummary) -> (r: bool)
    ensures
        r == entry_relevant(line_lower@, base@, e@),
{
    let rel: String = rel_or_full_exec(base, e.source_path.as_str());
    let ps = to_lower(rel.as_str());
    let fname = file_name_of(rel.as_str());
    let f = to_lower(fname.as_str());
    let stem = crate::scanner::stem_of_name(fname);
    let st = to_lower(stem.as_str());
    if contains_sub(line_lower, ps.as_str()) {
        return true;
    }
    if contains_sub(line_lower, f.as_str()) {
        return true;
    }
    if st.as_str().unicode_len() > 3 && contains_sub(line_lower, st.as_str()) {
        return true;
    }
    let kws = five_keywords_exec(e.summary.as_str());
    count_kw_matches(line_lower, &kws) >= 2
}

/// The keys of the entries relevant to a lowercased line, in entry order,
/// without duplicates.
pub open spec fn relevant_keys(
    line_lower: Seq<char>,
    base: Seq<char>,
    entries: Seq<CacheEntryModel>,
) -> Seq<Seq<char>>
    decreases entries.len(),
{
    if entries.len() == 0 {
        Seq::empty()
    } else {
        let p = relevant_keys(line_lower, base, entries.drop_last());
        let e = entries.last();
        if entry_relevant(line_lower, base, e) && !seq_has_str(p, e.source_path) {
            p.push(e.source_path)
        } else {
            p
        }
    }
}

/// The keys of the cache entries relevant to `line`.
pub fn find_relevant_cache_keys(line: &str, base_path: &str, entries: &Vec<CacheSummary>) -> (r:
    Vec<String>)
    ensures
        r.deep_view() == relevant_keys(lower_of(line@), base_path@, entries.deep_view()),
{
    let lls = to_lower(line);
    let line_lower = lls.as_str();
    let ghost em = entries.deep_view();
    let mut r: Vec<String> = Vec::new();
    let mut i: usize = 0;
    proof {
        assert(em.subrange(0, 0) =~= Seq::<CacheEntryModel>::empty());
        assert(r.deep_view() =~= relevant_keys(line_lower@, base_path@, em.subrange(0, 0)));
    }
    while i < entries.len()
        invariant
            em == entries.deep_view(),
            em.len() == entries@.len(),
            i <= em.len(),
            r.deep_view() == relevant_keys(lower_of(line@), base_path@, em.subrange(0, i as int)),
            line_lower@ == lower_of(line@),
        decreases em.len() - i,
    {
        if entry_relevant_exec(line_lower, base_path, &entries[i]) && !vec_contains_str(
            &r,
            entries[i].source_path.as_str(),
        ) {
            let ghost rv = r.deep_view();
            let x = to_owned_str(entries[i].source_path.as_str());
            let ghost xv = x@;
            r.push(x);
            proof {
                assert(r.deep_view() =~= rv.push(xv));
            }
        }
        i += 1;
        proof {
            let pre = em.subrange(0, i as int);
            assert(pre.drop_last() =~= em.subrange(0, i - 1));
            assert(pre.last() == em[i - 1]);
        }
    }
    proof {
        assert(em.subrange(0, em.len() as int) =~= em);
    }
    r
}

/// The line mappings built for a document: one per content-bearing line
/// with at least one relevant cache key, numbered from one, with no
/// examination recorded yet.
pub open spec fn mappings_spec(
    lines: Seq<Seq<char>>,
    base: Seq<char>,
    entries: Seq<CacheEntryModel>,
) -> Seq<LineMappingModel>
    decreases lines.len(),
{
    if lines.len() == 0 {
        Seq::empty()
    } else {
        let p = mappings_spec(lines.drop_last(), base, entries);
        let ln = lines.last();
        let keys = relevant_keys(lower_of(ln), base, entries);
        if is_content_line_spec(ln) && keys.len() > 0 {
            p.push(
                LineMappingModel {
                    line_number: lines.len() as usize,
                    line_content: ln,
                    cache_keys: keys,
                    last_validated_hash: None,
                },
            )
        } else {
            p
        }
    }
}

/// Build the line mappings for a document's text against the current
/// cache entries.
pub fn generate_mappings(readme_content: &str, base_path: &str, entries: &Vec<CacheSummary>) -> (r:
    Vec<crate::cache::ReadmeLineMapping>)
    ensures
        r.deep_view() == mappings_spec(
            split_lines_spec(readme_content@),
            base_path@,
            entries.deep_view(),
        ),
{
    let lines = split_lines(readme_content);
    let ghost ls = lines.deep_view();
    let ghost em = entries.deep_view();
    let mut r: Vec<crate::cache::ReadmeLineMapping> = Vec::new();
    let mut i: usize = 0;
    proof {
        assert(ls.subrange(0, 0) =~= Seq::<Seq<char>>::empty());
        assert(r.deep_view() =~= mappings_spec(ls.subrange(0, 0), base_path@, em));
    }
    while i < lines.len()
        invariant
            ls == lines.deep_view(),
            ls.len() == lines@.len(),
            em == entries.deep_view(),
            i <= ls.len(),
            r.deep_view() == mappings_spec(ls.subrange(0, i as int), base_path@, em),
        decreases ls.len() - i,
    {
        if is_content_line(lines[i].as_str()) {
            let keys = find_relevant_cache_keys(lines[i].as_str(), base_path, entries);
            if keys.len() > 0 {
                let ghost rv = r.deep_view();
                let m = crate::cache::ReadmeLineMapping {
                    line_number: i + 1,
                    line_content: to_owned_str(lines[i].as_str()),
                    cache_keys: keys,
                    last_validated_hash: None,
                };
                let ghost mv = m@;
                r.push(m);
                proof {
                    assert(r.deep_view() =~= rv.push(mv));
                }
            }
        }
        i += 1;
        proof {
            let pre = ls.subrange(0, i as int);
            assert(pre.drop_last() =~= ls.subrange(0, i - 1));
            assert(pre.last() == ls[i - 1]);
            assert(r.deep_view() =~= mappings_spec(pre, base_path@, em));
        }
    }
    proof {
        assert(ls.subrange(0, ls.len() as int) =~= ls);
    }
    r
}

/// The fingerprint currently stored for each key, in key order; an absent
/// key contributes an empty fingerprint.
pub open spec fn key_fps(keys: Seq<Seq<char>>, entries: Seq<CacheEntryModel>) -> Seq<Seq<char>> {
    keys.map(
        |i: int, k: Seq<char>|
            match lookup(entries, k) {
                Some(e) => e.content_hash,
                None => Seq::<char>::empty(),
            },
    )
}

/// The single marker recorded when a mapping is examined: the fingerprint
/// of its keys' current fingerprints combined in order.
pub open spec fn marker_spec(keys: Seq<Seq<char>>, entries: Seq<CacheEntryModel>) -> Seq<char> {
    digest_of(join_digests(key_fps(keys, entries)))
}

/// A mapping needs examination when no marker is recorded or the recorded
/// marker differs from the fingerprint observed across its keys now.
pub open spec fn needs_exam(m: LineMappingModel, entries: Seq<CacheEntryModel>) -> bool {
    m.last_validated_hash != Some(marker_spec(m.cache_keys, entries))
}

/// The summaries currently cached for the given keys, each prefixed with
/// its file name; absent keys contribute nothing.
pub open spec fn summaries_of(keys: Seq<Seq<char>>, entries: Seq<CacheEntryModel>) -> Seq<
    Seq<char>,
>
    decreases keys.len(),
{
    if keys.len() == 0 {
        Seq::empty()
    } else {
        let p = summaries_of(keys.drop_last(), entries);
        match lookup(entries, keys.last()) {
            Some(e) => p.push(file_name_spec(e.source_path) + ": "@ + e.summary),
            None => p,
        }
    }
}

/// The mappings after one validation pass: each mapping that needed
/// examination now records the observed marker.
pub open spec fn validated_mappings(
    ms: Seq<LineMappingModel>,
    entries: Seq<CacheEntryModel>,
) -> Seq<LineMappingModel> {
    ms.map(
        |i: int, m: LineMappingModel|
            if needs_exam(m, entries) {
                LineMappingModel { last_validated_hash: Some(marker_spec(m.cache_keys, entries)), ..m }
            } else {
                m
            },
    )
}

/// The checks one validation pass puts to the service: one per mapping
/// that needs examination and has at least one cached summary among its
/// keys.
pub open spec fn checks_spec(ms: Seq<LineMappingModel>, entries: Seq<CacheEntryModel>) -> Seq<
    PendingCheckModel,
>
    decreases ms.len(),
{
    if ms.len() == 0 {
        Seq::empty()
    } else {
        let p = checks_spec(ms.drop_last(), entries);
        let m = ms.last();
        if needs_exam(m, entries) && summaries_of(m.cache_keys, entries).len() > 0 {
            p.push(
                PendingCheckModel {
                    line_number: m.line_number,
                    line_content: m.line_content,
                    cache_keys: m.cache_keys,
                    relevant_summaries: summaries_of(m.cache_keys, entries),
                },
            )
        } else {
            p
        }
    }
}

/// The mappings a validation pass starts from: the recorded ones when the
/// document's fingerprint is unchanged, freshly rebuilt ones otherwise.
pub open spec fn base_mappings(
    old_cache: crate::cache::CacheModel,
    content: Seq<char>,
    base: Seq<char>,
) -> Seq<LineMappingModel> {
    if old_cache.mapping.readme_hash == digest_of(content) {
        old_cache.mapping.mappings
    } else {
        mappings_spec(split_lines_spec(content), base, old_cache.entries)
    }
}

/// One validation pass over the document. A changed (or first-seen)
/// document discards and rebuilds all mappings; every mapping whose
/// observed key fingerprints differ from its recorded marker becomes a
/// pending check and records the new observation; mappings whose keys are
/// unchanged are skipped. A missing document short-circuits into a single
/// synthetic suggestion seeded from the project summary.
pub fn plan_validation(
    cache: &mut CacheManager,
    base_path: &str,
    readme_content: Option<&str>,
    project_summary: &str,
) -> (r: ValidationPlan)
    requires
        old(cache).wf(),
    ensures
        final(cache).wf(),
        final(cache)@.entries == old(cache)@.entries,
        match readme_content {
            None => {
                &&& final(cache)@.mapping == old(cache)@.mapping
                &&& (r matches ValidationPlan::MissingDocument(v) && v@.line_number == 0
                    && v@.current_content == Seq::<char>::empty() && v@.suggested_content == "# "@
                    + (if file_name_spec(base_path@).len() > 0 {
                    file_name_spec(base_path@)
                } else {
                    "Project"@
                }) + "\n\n"@ + project_summary@ && v@.reason == "README.md does not exist"@
                    && v@.affected_cache_entries == Seq::<Seq<char>>::empty())
            },
            Some(content) => {
                &&& final(cache)@.mapping.readme_hash == digest_of(content@)
                &&& final(cache)@.mapping.mappings == validated_mappings(
                    base_mappings(old(cache)@, content@, base_path@),
                    old(cache)@.entries,
                )
                &&& (r matches ValidationPlan::Checks(cs) && cs.deep_view() == checks_spec(
                    base_mappings(old(cache)@, content@, base_path@),
                    old(cache)@.entries,
                ))
            },
        },
{
    let content = match readme_content {
        None => {
            let name = file_name_of(base_path);
            let name_str = if name.as_str().unicode_len() > 0 {
                name
            } else {
                to_owned_str("Project")
            };
            let mut suggested = concat_str("# ", name_str.as_str());
            suggested.append("\n\n");
            suggested.append(project_summary);
            let v = ValidationResult {
                line_number: 0,
                current_content: String::new(),
                suggested_content: suggested,
                reason: to_owned_str("README.md does not exist"),
                affected_cache_entries: Vec::new(),
            };
            proof {
                assert(v@.affected_cache_entries =~= Seq::<Seq<char>>::empty());
            }
            return ValidationPlan::MissingDocument(v);
        },
        Some(content) => content,
    };
    let ghost em = old(cache)@.entries;
    let ghost base_ms = base_mappings(old(cache)@, content@, base_path@);
    let digest = FileHasher::compute_content_hash(content);
    if !cache.validate_readme_hash(digest.as_str()) {
        let entries0 = cache.get_all_summaries();
        let mappings = generate_mappings(content, base_path, &entries0);
        cache.update_readme_mapping(digest, mappings);
    }
    let entries = cache.get_all_summaries();
    let n = cache.mappings_len();
    let mut checks: Vec<PendingCheck> = Vec::new();
    let mut i: usize = 0;
    proof {
        assert(checks.deep_view() =~= checks_spec(base_ms.subrange(0, 0), em));
        assert(cache@.mapping.mappings =~= Seq::new(
            base_ms.len(),
            |k: int|
                if k < 0 && needs_exam(base_ms[k], em) {
                    LineMappingModel {
                        last_validated_hash: Some(marker_spec(base_ms[k].cache_keys, em)),
                        ..base_ms[k]
                    }
                } else {
                    base_ms[k]
                },
        ));
    }
    while i < n
        invariant
            cache.wf(),
            cache@.entries == em,
            entries.deep_view() == em,
            n == base_ms.len(),
            cache@.mapping.mappings.len() == n,
            i <= n,
            cache@.mapping.readme_hash == digest_of(content@),
            cache@.mapping.mappings == Seq::new(
                base_ms.len(),
                |k: int|
                    if k < i && needs_exam(base_ms[k], em) {
                        LineMappingModel {
                            last_validated_hash: Some(marker_spec(base_ms[k].cache_keys, em)),
                            ..base_ms[k]
                        }
                    } else {
                        base_ms[k]
                    },
            ),
            checks.deep_view() == checks_spec(base_ms.subrange(0, i as int), em),
        decreases n - i,
    {
        let m = cache.get_mapping_at(i);
        proof {
            assert(m@ == base_ms[i as int]);
        }
        let mut fps: Vec<String> = Vec::new();
        let mut j: usize = 0;
        proof {
            assert(fps.deep_view() =~= key_fps(m@.cache_keys, em).subrange(0, 0));
        }
        while j < m.cache_keys.len()
            invariant
                cache.wf(),
                cache@.entries == em,
                m@.cache_keys.len() == m.cache_keys@.len(),
                j <= m@.cache_keys.len(),
                fps.deep_view() == key_fps(m@.cache_keys, em).subrange(0, j as int),
            decreases m.cache_keys@.len() - j,
        {
            let ghost fv = fps.deep_view();
            let x: String = match cache.get_cache_summary(m.cache_keys[j].as_str()) {
                Some(e) => e.content_hash,
                None => String::new(),
            };
            let ghost xv = x@;
            fps.push(x);
            j += 1;
            proof {
                assert(fps.deep_view() =~= fv.push(xv));
                assert(fps.deep_view() =~= key_fps(m@.cache_keys, em).subrange(0, j as int));
            }
        }
        proof {
            assert(key_fps(m@.cache_keys, em).subrange(
                0,
                key_fps(m@.cache_keys, em).len() as int,
            ) =~= key_fps(m@.cache_keys, em));
        }
        let marker = FileHasher::compute_directory_hash(&fps);
        let needs = match &m.last_validated_hash {
            Some(h) => !str_eq(h.as_str(), marker.as_str()),
            None => true,
        };
        proof {
            assert(needs == needs_exam(base_ms[i as int], em));
        }
        let ghost ms_before = cache@.mapping.mappings;
        let ghost checks_before = checks.deep_view();
        if needs {
            let mut sums: Vec<String> = Vec::new();
            let mut j2: usize = 0;
            proof {
                assert(sums.deep_view() =~= summaries_of(m@.cache_keys.subrange(0, 0), em));
            }
            while j2 < m.cache_keys.len()
                invariant
                    cache.wf(),
                    cache@.entries == em,
                    m@.cache_keys.len() == m.cache_keys@.len(),
                    j2 <= m@.cache_keys.len(),
                    sums.deep_view() == summaries_of(m@.cache_keys.subrange(0, j2 as int), em),
                decreases m.cache_keys@.len() - j2,
            {
                let ghost sv = sums.deep_view();
                match cache.get_cache_summary(m.cache_keys[j2].as_str()) {
                    Some(e) => {
                        let name = file_name_of(e.source_path.as_str());
                        let mut s = concat_str(name.as_str(), ": ");
                        s.append(e.summary.as_str());
                        let ghost s_v = s@;
                        sums.push(s);
                        proof {
                            assert(sums.deep_view() =~= sv.push(s_v));
                        }
                    },
                    None => {},
                }
                j2 += 1;
                proof {
                    let pre = m@.cache_keys.subrange(0, j2 as int);
                    assert(pre.drop_last() =~= m@.cache_keys.subrange(0, j2 - 1));
                    assert(pre.last() == m@.cache_keys[j2 - 1]);
                    assert(sums.deep_view() =~= summaries_of(pre, em));
                }
            }
            proof {
                assert(m@.cache_keys.subrange(0, m@.cache_keys.len() as int) =~= m@.cache_keys);
            }
            if sums.len() > 0 {
                let c = PendingCheck {
                    line_number: m.line_number,
                    line_content: to_owned_str(m.line_content.as_str()),
                    cache_keys: crate::strutil::clone_string_vec(&m.cache_keys),
                    relevant_summaries: sums,
                };
                let ghost cv = c@;
                checks.push(c);
                proof {
                    assert(checks.deep_view() =~= checks_before.push(cv));
                }
            }
            cache.set_mapping_validated(i, marker);
        }
        i += 1;
        proof {
            let pre = base_ms.subrange(0, i as int);
            assert(pre.drop_last() =~= base_ms.subrange(0, i - 1));
            assert(pre.last() == base_ms[i - 1]);
            assert(checks.deep_view() =~= checks_spec(pre, em));
            assert(cache@.mapping.mappings =~= Seq::new(
                base_ms.len(),
                |k: int|
                    if k < i && needs_exam(base_ms[k], em) {
                        LineMappingModel {
                            last_validated_hash: Some(marker_spec(base_ms[k].cache_keys, em)),
                            ..base_ms[k]
                        }
                    } else {
                        base_ms[k]
                    },
            ));
        }
    }
    proof {
        assert(base_ms.subrange(0, base_ms.len() as int) =~= base_ms);
        assert(cache@.mapping.mappings =~= validated_mappings(base_ms, em));
    }
    ValidationPlan::Checks(checks)
}

/// The correction one service verdict yields: none when the service
/// failed, answered the no-change sentinel, or repeated the line; the
/// trimmed replacement otherwise.
pub open spec fn suggestion_spec(c: PendingCheckModel, resp: Option<Seq<char>>) -> Option<
    ValidationResultModel,
> {
    match resp {
        None => None,
        Some(t) => {
            let tt = trim_spec(t);
            if tt != "NO_CHANGE"@ && tt != c.line_content {
                Some(
                    ValidationResultModel {
                        line_number: c.line_number,
                        current_content: c.line_content,
                        suggested_content: tt,
                        reason: "Content outdated based on current code"@,
                        affected_cache_entries: c.cache_keys,
                    },
                )
            } else {
                None
            }
        },
    }
}

/// Turn one service verdict into a correction, or into nothing.
pub fn apply_suggestion(check: &PendingCheck, response: Option<&str>) -> (r: Option<
    ValidationResult,
>)
    ensures
        r.deep_view() == suggestion_spec(
            check@,
            match response {
                Some(t) => Some(t@),
                None => None,
            },
        ),
{
    let t = match response {
        Some(t) => t,
        None => {
            return None;
        },
    };
    let tt = trim_str(t);
    if !str_eq(tt.as_str(), "NO_CHANGE") && !str_eq(tt.as_str(), check.line_content.as_str()) {
        Some(
            ValidationResult {
                line_number: check.line_number,
                current_content: to_owned_str(check.line_content.as_str()),
                suggested_content: tt,
                reason: to_owned_str("Content outdated based on current code"),
                affected_cache_entries: crate::strutil::clone_string_vec(&check.cache_keys),
            },
        )
    } else {
        None
    }
}

/// The ordered corrections of a validation pass, given the service's
/// verdict for each pending check.
pub open spec fn results_spec(
    cs: Seq<PendingCheckModel>,
    resps: Seq<Option<Seq<char>>>,
) -> Seq<ValidationResultModel>
    decreases cs.len(),
{
    if cs.len() == 0 || cs.len() != resps.len() {
        Seq::empty()
    } else {
        let p = results_spec(cs.drop_last(), resps.drop_last());
        match suggestion_spec(cs.last(), resps.last()) {
            Some(v) => p.push(v),
            None => p,
        }
    }
}

/// Collect the corrections for all pending checks. An empty result means
/// no corrections are needed, not that nothing was checked.
pub fn finish_validation(checks: &Vec<PendingCheck>, responses: &Vec<Option<String>>) -> (r: Vec<
    ValidationResult,
>)
    requires
        checks@.len() == responses@.len(),
    ensures
        r.deep_view() == results_spec(checks.deep_view(), responses.deep_view()),
{
    let ghost cv = checks.deep_view();
    let ghost pv = responses.deep_view();
    let mut r: Vec<ValidationResult> = Vec::new();
    let mut i: usize = 0;
    proof {
        assert(r.deep_view() =~= results_spec(cv.subrange(0, 0), pv.subrange(0, 0)));
    }
    while i < checks.len()
        invariant
            cv == checks.deep_view(),
            pv == responses.deep_view(),
            cv.len() == checks@.len(),
            pv.len() == responses@.len(),
            cv.len() == pv.len(),
            i <= cv.len(),
            r.deep_view() == results_spec(cv.subrange(0, i as int), pv.subrange(0, i as int)),
        decreases cv.len() - i,
    {
        let resp: Option<&str> = match &responses[i] {
            Some(t) => Some(t.as_str()),
            None => None,
        };
        match apply_suggestion(&checks[i], resp) {
            Some(v) => {
                let ghost rv = r.deep_view();
                let ghost vv = v@;
                r.push(v);
                proof {
                    assert(r.deep_view() =~= rv.push(vv));
                }
            },
            None => {},
        }
        i += 1;
        proof {
            let prec = cv.subrange(0, i as int);
            let prep = pv.subrange(0, i as int);
            assert(prec.drop_last() =~= cv.subrange(0, i - 1));
            assert(prep.drop_last() =~= pv.subrange(0, i - 1));
            assert(prec.last() == cv[i - 1]);
            assert(prep.last() == pv[i - 1]);
            assert(r.deep_view() =~= results_spec(prec, prep));
        }
    }
    proof {
        assert(cv.subrange(0, cv.len() as int) =~= cv);
        assert(pv.subrange(0, pv.len() as int) =~= pv);
    }
    r
}

} // verus!
