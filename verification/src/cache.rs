//! The content-addressed summary store. An entry is valid for a node only
//! while its stored fingerprint equals the node's current fingerprint; a
//! mismatch is a miss, never an update in place. The store also keeps the
//! document line mappings, which are clearable independently of the
//! summary entries.

use vstd::prelude::*;
use crate::strutil::{str_eq, seq_has_str, vec_contains_str};

verus! {

/// One cached summary record.
#[derive(Debug)]
pub struct CacheSummary {
    pub source_path: String,
    pub content_hash: String,
    pub summary: String,
    pub timestamp: u64,
    pub is_directory: bool,
}

/// The mathematical model of a cache entry.
pub struct CacheEntryModel {
    pub source_path: Seq<char>,
    pub content_hash: Seq<char>,
    pub summary: Seq<char>,
    pub timestamp: u64,
    pub is_directory: bool,
}

impl View for CacheSummary {
    type V = CacheEntryModel;

    open spec fn view(&self) -> CacheEntryModel {
        CacheEntryModel {
            source_path: self.source_path@,
            content_hash: self.content_hash@,
            summary: self.summary@,
            timestamp: self.timestamp,
            is_directory: self.is_directory,
        }
    }
}

impl DeepView for CacheSummary {
    type V = CacheEntryModel;

    open spec fn deep_view(&self) -> CacheEntryModel {
        self@
    }
}

/// One line of the maintained document mapped to the cache keys that
/// justify it, with the fingerprint recorded when it was last examined.
#[derive(Debug)]
pub struct ReadmeLineMapping {
    pub line_number: usize,
    pub line_content: String,
    pub cache_keys: Vec<String>,
    pub last_validated_hash: Option<String>,
}

/// The mathematical model of a line mapping.
pub struct LineMappingModel {
    pub line_number: usize,
    pub line_content: Seq<char>,
    pub cache_keys: Seq<Seq<char>>,
    pub last_validated_hash: Option<Seq<char>>,
}

impl View for ReadmeLineMapping {
    type V = LineMappingModel;

    open spec fn view(&self) -> LineMappingModel {
        LineMappingModel {
            line_number: self.line_number,
            line_content: self.line_content@,
            cache_keys: self.cache_keys.deep_view(),
            last_validated_hash: match self.last_validated_hash {
                Some(ref h) => Some(h@),
                None => None,
            },
        }
    }
}

impl DeepView for ReadmeLineMapping {
    type V = LineMappingModel;

    open spec fn deep_view(&self) -> LineMappingModel {
        self@
    }
}

/// The document mapping set: the document fingerprint the mappings were
/// built from, and the mappings themselves.
#[derive(Debug)]
pub struct ReadmeMappingData {
    pub version: String,
    pub readme_hash: String,
    pub mappings: Vec<ReadmeLineMapping>,
}

/// The mathematical model of the mapping set.
pub struct MappingDataModel {
    pub version: Seq<char>,
    pub readme_hash: Seq<char>,
    pub mappings: Seq<LineMappingModel>,
}

impl View for ReadmeMappingData {
    type V = MappingDataModel;

    open spec fn view(&self) -> MappingDataModel {
        MappingDataModel {
            version: self.version@,
            readme_hash: self.readme_hash@,
            mappings: self.mappings.deep_view(),
        }
    }
}

impl Default for ReadmeMappingData {
    /// An empty mapping set with no document fingerprint.
    fn default() -> (r: Self)
        ensures
            r@.version == "1.0.0"@,
            r@.readme_hash == Seq::<char>::empty(),
            r@.mappings == Seq::<LineMappingModel>::empty(),
    {
        let r = ReadmeMappingData {
            version: "1.0.0".to_owned(),
            readme_hash: String::new(),
            mappings: Vec::new(),
        };
        proof {
            assert(r@.mappings =~= Seq::<LineMappingModel>::empty());
        }
        r
    }
}

/// The first entry recorded for `path`, if any. Under the store invariant
/// paths are unique, so this is the entry for `path`.
pub open spec fn lookup(s: Seq<CacheEntryModel>, path: Seq<char>) -> Option<CacheEntryModel>
    decreases s.len(),
{
    if s.len() == 0 {
        None
    } else if s[0].source_path == path {
        Some(s[0])
    } else {
        lookup(s.drop_first(), path)
    }
}

/// No two entries share a path.
pub open spec fn unique_paths(s: Seq<CacheEntryModel>) -> bool {
    forall|i: int, j: int|
        0 <= i < j < s.len() ==> (#[trigger] s[i]).source_path != (#[trigger] s[j]).source_path
}

pub proof fn lemma_lookup_found(s: Seq<CacheEntryModel>, path: Seq<char>, i: int)
    requires
        unique_paths(s),
        0 <= i < s.len(),
        s[i].source_path == path,
    ensures
        lookup(s, path) == Some(s[i]),
    decreases s.len(),
{
    if s[0].source_path == path {
        assert(i == 0);
    } else {
        let d = s.drop_first();
        assert(unique_paths(d)) by {
            assert(forall|k: int| 0 <= k < d.len() ==> #[trigger] d[k] == s[k + 1]);
        }
        assert(d[i - 1] == s[i]);
        lemma_lookup_found(d, path, i - 1);
    }
}

pub proof fn lemma_lookup_none(s: Seq<CacheEntryModel>, path: Seq<char>)
    requires
        forall|i: int| 0 <= i < s.len() ==> (#[trigger] s[i]).source_path != path,
    ensures
        lookup(s, path) == None::<CacheEntryModel>,
    decreases s.len(),
{
    if s.len() > 0 {
        let d = s.drop_first();
        assert(forall|k: int| 0 <= k < d.len() ==> #[trigger] d[k] == s[k + 1]);
        lemma_lookup_none(d, path);
    }
}

pub proof fn lemma_lookup_membership(s: Seq<CacheEntryModel>, path: Seq<char>)
    ensures
        match lookup(s, path) {
            Some(e) => exists|i: int|
                0 <= i < s.len() && #[trigger] s[i] == e && e.source_path == path,
            None => forall|i: int| 0 <= i < s.len() ==> (#[trigger] s[i]).source_path != path,
        },
    decreases s.len(),
{
    if s.len() > 0 {
        let d = s.drop_first();
        assert(forall|k: int| 0 <= k < d.len() ==> #[trigger] d[k] == s[k + 1]);
        if s[0].source_path != path {
            lemma_lookup_membership(d, path);
            match lookup(d, path) {
                Some(e) => {
                    let i = choose|i: int|
                        0 <= i < d.len() && #[trigger] d[i] == e && e.source_path == path;
                    assert(s[i + 1] == e);
                },
                None => {
                    assert forall|i: int| 0 <= i < s.len() implies (
                    #[trigger] s[i]).source_path != path by {
                        if i > 0 {
                            assert(d[i - 1] == s[i]);
                        }
                    }
                },
            }
        } else {
            assert(s[0] == s[0] && s[0].source_path == path);
        }
    }
}

/// The model of the whole store.
pub struct CacheModel {
    pub entries: Seq<CacheEntryModel>,
    pub mapping: MappingDataModel,
}

/// The summary store: per-node content-addressed entries plus the document
/// line mapping set.
#[derive(Debug)]
pub struct CacheManager {
    entries: Vec<CacheSummary>,
    mapping_data: ReadmeMappingData,
}

impl View for CacheManager {
    type V = CacheModel;

    closed spec fn view(&self) -> CacheModel {
        CacheModel { entries: self.entries.deep_view(), mapping: self.mapping_data@ }
    }
}

impl CacheManager {
    /// The store invariant: entry paths are unique, so each node has at
    /// most one record.
    pub open spec fn wf(&self) -> bool {
        unique_paths(self@.entries)
    }

    /// The summary served for `(path, hash)`: the stored summary when an
    /// entry for `path` exists and its fingerprint equals `hash`, nothing
    /// otherwise. This is the sole gate against serving stale summaries.
    pub open spec fn get_spec(&self, path: Seq<char>, hash: Seq<char>) -> Option<Seq<char>> {
        match lookup(self@.entries, path) {
            Some(e) => if e.content_hash == hash {
                Some(e.summary)
            } else {
                None
            },
            None => None,
        }
    }

    /// An empty store.
    pub fn new() -> (r: Self)
        ensures
            r.wf(),
            r@.entries == Seq::<CacheEntryModel>::empty(),
            r@.mapping.version == "1.0.0"@,
            r@.mapping.readme_hash == Seq::<char>::empty(),
            r@.mapping.mappings == Seq::<LineMappingModel>::empty(),
    {
        let r = CacheManager { entries: Vec::new(), mapping_data: ReadmeMappingData::default() };
        proof {
            assert(r@.entries =~= Seq::<CacheEntryModel>::empty());
        }
        r
    }

    /// The index of the entry for `path`, if one exists.
    fn find_entry(&self, source_path: &str) -> (r: Option<usize>)
        ensures
            match r {
                Some(i) => i < self@.entries.len() && self@.entries[i as int].source_path
                    == source_path@,
                None => forall|i: int|
                    0 <= i < self@.entries.len() ==> (#[trigger] self@.entries[i]).source_path
                        != source_path@,
            },
    {
        let mut i: usize = 0;
        while i < self.entries.len()
            invariant
                i <= self@.entries.len(),
                self@.entries.len() == self.entries@.len(),
                forall|k: int|
                    0 <= k < i ==> (#[trigger] self@.entries[k]).source_path != source_path@,
            decreases self.entries@.len() - i,
        {
            if str_eq(self.entries[i].source_path.as_str(), source_path) {
                return Some(i);
            }
            i += 1;
        }
        None
    }

    /// Serve the cached summary for `path` only when the stored
    /// fingerprint equals `content_hash`; any mismatch, including a
    /// missing entry, is a miss.
    pub fn get_cached_summary(&self, source_path: &str, content_hash: &str) -> (r: Option<
        String,
    >)
        requires
            self.wf(),
        ensures
            r.deep_view() == self.get_spec(source_path@, content_hash@),
    {
        match self.find_entry(source_path) {
            Some(i) => {
                proof {
                    lemma_lookup_found(self@.entries, source_path@, i as int);
                }
                if str_eq(self.entries[i].content_hash.as_str(), content_hash) {
                    Some(crate::strutil::to_owned_str(self.entries[i].summary.as_str()))
                } else {
                    None
                }
            },
            None => {
                proof {
                    lemma_lookup_none(self@.entries, source_path@);
                }
                None
            },
        }
    }

    /// The full record for `path`, whatever its fingerprint.
    pub fn get_cache_summary(&self, source_path: &str) -> (r: Option<CacheSummary>)
        requires
            self.wf(),
        ensures
            r.deep_view() == lookup(self@.entries, source_path@),
    {
        match self.find_entry(source_path) {
            Some(i) => {
                proof {
                    lemma_lookup_found(self@.entries, source_path@, i as int);
                }
                Some(clone_entry(&self.entries[i]))
            },
            None => {
                proof {
                    lemma_lookup_none(self@.entries, source_path@);
                }
                None
            },
        }
    }

    /// Store (overwriting) the entry for `source_path`. Immediately after,
    /// fetching with the same fingerprint returns exactly `summary`, and
    /// fetching with any other fingerprint returns nothing; entries for
    /// other paths are untouched.
    pub fn store_summary(
        &mut self,
        source_path: &str,
        content_hash: String,
        summary: String,
        timestamp: u64,
        is_directory: bool,
    )
        requires
            old(self).wf(),
        ensures
            final(self).wf(),
            final(self).get_spec(source_path@, content_hash@) == Some(summary@),
            forall|h: Seq<char>|
                h != content_hash@ ==> #[trigger] final(self).get_spec(source_path@, h)
                    == None::<Seq<char>>,
            lookup(final(self)@.entries, source_path@) == Some(
                CacheEntryModel {
                    source_path: source_path@,
                    content_hash: content_hash@,
                    summary: summary@,
                    timestamp: timestamp,
                    is_directory: is_directory,
                },
            ),
            forall|p: Seq<char>|
                p != source_path@ ==> #[trigger] lookup(final(self)@.entries, p) == lookup(
                    old(self)@.entries,
                    p,
                ),
            final(self)@.mapping == old(self)@.mapping,
    {
        let entry = CacheSummary {
            source_path: crate::strutil::to_owned_str(source_path),
            content_hash,
            summary,
            timestamp,
            is_directory,
        };
        let ghost m1 = self@.entries;
        let found = self.find_entry(source_path);
        match found {
            Some(i) => {
                self.entries.remove(i);
                proof {
                    assert(self@.entries =~= m1.remove(i as int));
                }
            },
            None => {},
        }
        let ghost m2 = self@.entries;
        proof {
            // Every entry for another path survives with its position
            // possibly shifted, and no entry for source_path remains.
            assert(forall|k: int|
                0 <= k < m2.len() ==> (#[trigger] m2[k]).source_path != source_path@) by {
                match found {
                    Some(i) => {
                        assert(forall|k: int|
                            0 <= k < m2.len() ==> #[trigger] m2[k] == if k < i as int {
                                m1[k]
                            } else {
                                m1[k + 1]
                            });
                    },
                    None => {},
                }
            }
            assert(unique_paths(m2)) by {
                match found {
                    Some(i) => {
                        assert(forall|k: int|
                            0 <= k < m2.len() ==> #[trigger] m2[k] == if k < i as int {
                                m1[k]
                            } else {
                                m1[k + 1]
                            });
                    },
                    None => {},
                }
            }
        }
        self.entries.push(entry);
        let ghost m3 = self@.entries;
        proof {
            assert(m3 =~= m2.push(entry@));
            assert(unique_paths(m3)) by {
                assert(forall|k: int| 0 <= k < m2.len() ==> #[trigger] m3[k] == m2[k]);
                assert(m3[m3.len() - 1] == entry@);
            }
            lemma_lookup_found(m3, source_path@, m3.len() - 1);
            assert forall|p: Seq<char>| p != source_path@ implies #[trigger] lookup(m3, p)
                == lookup(m1, p) by {
                lemma_lookup_membership(m1, p);
                match lookup(m1, p) {
                    Some(e) => {
                        let i1 = choose|i: int|
                            0 <= i < m1.len() && #[trigger] m1[i] == e && e.source_path == p;
                        match found {
                            Some(j) => {
                                assert(i1 != j as int);
                                if i1 < j as int {
                                    assert(m3[i1] == m1[i1]);
                                    lemma_lookup_found(m3, p, i1);
                                } else {
                                    assert(m3[i1 - 1] == m1[i1]);
                                    lemma_lookup_found(m3, p, i1 - 1);
                                }
                            },
                            None => {
                                assert(m3[i1] == m1[i1]);
                                lemma_lookup_found(m3, p, i1);
                            },
                        }
                    },
                    None => {
                        assert(forall|k: int|
                            0 <= k < m3.len() ==> (#[trigger] m3[k]).source_path != p) by {
                            match found {
                                Some(j) => {
                                    assert(forall|k: int|
                                        0 <= k < m2.len() ==> #[trigger] m2[k]
                                            == if k < j as int {
                                            m1[k]
                                        } else {
                                            m1[k + 1]
                                        });
                                },
                                None => {},
                            }
                        }
                        lemma_lookup_none(m3, p);
                    },
                }
            }
        }
    }

    /// Remove the entry for `source_path` if present; afterwards no
    /// fingerprint fetches anything for it. Other paths are untouched.
    pub fn invalidate_entry(&mut self, source_path: &str)
        requires
            old(self).wf(),
        ensures
            final(self).wf(),
            lookup(final(self)@.entries, source_path@) == None::<CacheEntryModel>,
            forall|h: Seq<char>| #[trigger] final(self).get_spec(source_path@, h)
                == None::<Seq<char>>,
            forall|p: Seq<char>|
                p != source_path@ ==> #[trigger] lookup(final(self)@.entries, p) == lookup(
                    old(self)@.entries,
                    p,
                ),
            final(self)@.mapping == old(self)@.mapping,
    {
        let ghost m1 = self@.entries;
        let found = self.find_entry(source_path);
        match found {
            Some(i) => {
                self.entries.remove(i);
                proof {
                    assert(self@.entries =~= m1.remove(i as int));
                }
            },
            None => {},
        }
        let ghost m2 = self@.entries;
        proof {
            match found {
                Some(i) => {
                    assert(forall|k: int|
                        0 <= k < m2.len() ==> #[trigger] m2[k] == if k < i as int {
                            m1[k]
                        } else {
                            m1[k + 1]
                        });
                },
                None => {},
            }
            assert(unique_paths(m2));
            assert(forall|k: int|
                0 <= k < m2.len() ==> (#[trigger] m2[k]).source_path != source_path@);
            lemma_lookup_none(m2, source_path@);
            assert forall|p: Seq<char>| p != source_path@ implies #[trigger] lookup(m2, p)
                == lookup(m1, p) by {
                lemma_lookup_membership(m1, p);
                match lookup(m1, p) {
                    Some(e) => {
                        let i1 = choose|i: int|
                            0 <= i < m1.len() && #[trigger] m1[i] == e && e.source_path == p;
                        match found {
                            Some(j) => {
                                assert(i1 != j as int);
                                if i1 < j as int {
                                    assert(m2[i1] == m1[i1]);
                                    lemma_lookup_found(m2, p, i1);
                                } else {
                                    assert(m2[i1 - 1] == m1[i1]);
                                    lemma_lookup_found(m2, p, i1 - 1);
                                }
                            },
                            None => {},
                        }
                    },
                    None => {
                        assert(forall|k: int|
                            0 <= k < m2.len() ==> (#[trigger] m2[k]).source_path != p);
                        lemma_lookup_none(m2, p);
                    },
                }
            }
        }
    }

    /// Remove every summary entry; the mapping set is kept.
    pub fn clear_cache(&mut self)
        ensures
            final(self).wf(),
            final(self)@.entries == Seq::<CacheEntryModel>::empty(),
            forall|p: Seq<char>, h: Seq<char>| #[trigger] final(self).get_spec(p, h)
                == None::<Seq<char>>,
            final(self)@.mapping == old(self)@.mapping,
    {
        self.entries = Vec::new();
        proof {
            assert(self@.entries =~= Seq::<CacheEntryModel>::empty());
        }
    }

    /// Reset the mapping set; the summary entries are kept. The two sides
    /// of the store are clearable independently.
    pub fn clear_mappings(&mut self)
        ensures
            final(self)@.entries == old(self)@.entries,
            final(self)@.mapping.readme_hash == Seq::<char>::empty(),
            final(self)@.mapping.mappings == Seq::<LineMappingModel>::empty(),
            old(self).wf() ==> final(self).wf(),
    {
        self.mapping_data = ReadmeMappingData::default();
    }

    /// Always true: each entry is validated by its own fingerprint, so the
    /// store as a whole has no separate validity state.
    pub fn is_cache_valid(&self) -> (r: bool)
        ensures
            r == true,
    {
        true
    }

    /// Entry count and total summary text size. The size counts the
    /// characters of the stored summary texts (saturating at the machine
    /// limit); the durable records around them live outside the store.
    pub fn get_cache_stats(&self) -> (r: (usize, u64))
        ensures
            r.0 == self@.entries.len(),
            r.1 == if total_size(self@.entries) <= u64::MAX {
                total_size(self@.entries)
            } else {
                u64::MAX as int
            },
    {
        let mut size: u64 = 0;
        let mut i: usize = 0;
        while i < self.entries.len()
            invariant
                i <= self@.entries.len(),
                self@.entries.len() == self.entries@.len(),
                size == if total_size(self@.entries.subrange(0, i as int)) <= u64::MAX {
                    total_size(self@.entries.subrange(0, i as int))
                } else {
                    u64::MAX as int
                },
            decreases self.entries@.len() - i,
        {
            let l = self.entries[i].summary.as_str().unicode_len();
            let l64 = l as u64;
            if size > u64::MAX - l64 {
                size = u64::MAX;
            } else {
                size = size + l64;
            }
            i += 1;
            proof {
                let pre = self@.entries.subrange(0, i as int);
                assert(pre.drop_last() =~= self@.entries.subrange(0, i - 1));
                lemma_total_size_nonneg(pre.drop_last());
            }
        }
        proof {
            assert(self@.entries.subrange(0, self@.entries.len() as int) =~= self@.entries);
        }
        (self.entries.len(), size)
    }

    /// Remove entries whose creation timestamp is older than the cutoff:
    /// `now` minus `max_age_seconds`. Returns how many were removed.
    /// Housekeeping only: validity always comes from fingerprints.
    pub fn cleanup_old_entries(&mut self, max_age_seconds: u64, now: u64) -> (removed: usize)
        requires
            old(self).wf(),
        ensures
            final(self).wf(),
            final(self)@.entries == keep_recent(
                old(self)@.entries,
                if now >= max_age_seconds {
                    (now - max_age_seconds) as u64
                } else {
                    0u64
                },
            ),
            removed == old(self)@.entries.len() - final(self)@.entries.len(),
            final(self)@.mapping == old(self)@.mapping,
    {
        let cutoff: u64 = if now >= max_age_seconds {
            now - max_age_seconds
        } else {
            0
        };
        let ghost m1 = self@.entries;
        let mut kept: Vec<CacheSummary> = Vec::new();
        let mut i: usize = 0;
        proof {
            assert(kept.deep_view() =~= keep_recent(m1.subrange(0, 0), cutoff));
        }
        while i < self.entries.len()
            invariant
                i <= m1.len(),
                m1 == self.entries.deep_view(),
                m1.len() == self.entries@.len(),
                kept.deep_view() == keep_recent(m1.subrange(0, i as int), cutoff),
                kept@.len() <= i,
            decreases self.entries@.len() - i,
        {
            let ghost kdv = kept.deep_view();
            if self.entries[i].timestamp >= cutoff {
                let e = clone_entry(&self.entries[i]);
                kept.push(e);
                proof {
                    assert(kept.deep_view() =~= kdv.push(m1[i as int]));
                }
            }
            i += 1;
            proof {
                let pre = m1.subrange(0, i as int);
                assert(pre.drop_last() =~= m1.subrange(0, i - 1));
                assert(kept.deep_view() =~= keep_recent(pre, cutoff));
            }
        }
        proof {
            assert(m1.subrange(0, m1.len() as int) =~= m1);
        }
        let removed = self.entries.len() - kept.len();
        self.entries = kept;
        proof {
            lemma_keep_recent_wf(m1, cutoff);
        }
        removed
    }

    /// Replace the mapping set with mappings rebuilt for a document whose
    /// fingerprint is `readme_hash`. The summary entries are untouched.
    pub fn update_readme_mapping(&mut self, readme_hash: String, mappings: Vec<ReadmeLineMapping>)
        ensures
            final(self)@.mapping.readme_hash == readme_hash@,
            final(self)@.mapping.mappings == mappings.deep_view(),
            final(self)@.mapping.version == old(self)@.mapping.version,
            final(self)@.entries == old(self)@.entries,
            old(self).wf() ==> final(self).wf(),
    {
        self.mapping_data.readme_hash = readme_hash;
        self.mapping_data.mappings = mappings;
    }

    /// The current mapping set.
    pub fn get_readme_mapping(&self) -> (r: &ReadmeMappingData)
        ensures
            r@ == self@.mapping,
    {
        &self.mapping_data
    }

    /// The line numbers of every mapping that lists `cache_key` among its
    /// justifying keys.
    pub fn get_affected_readme_lines(&self, cache_key: &str) -> (r: Vec<usize>)
        ensures
            r@ == affected_lines(self@.mapping.mappings, cache_key@),
    {
        let ghost ms = self@.mapping.mappings;
        let mut r: Vec<usize> = Vec::new();
        let mut i: usize = 0;
        proof {
            assert(r@ =~= affected_lines(ms.subrange(0, 0), cache_key@));
        }
        while i < self.mapping_data.mappings.len()
            invariant
                i <= ms.len(),
                ms == self.mapping_data.mappings.deep_view(),
                ms.len() == self.mapping_data.mappings@.len(),
                r@ == affected_lines(ms.subrange(0, i as int), cache_key@),
            decreases self.mapping_data.mappings@.len() - i,
        {
            if vec_contains_str(&self.mapping_data.mappings[i].cache_keys, cache_key) {
                r.push(self.mapping_data.mappings[i].line_number);
            }
            i += 1;
            proof {
                let pre = ms.subrange(0, i as int);
                assert(pre.drop_last() =~= ms.subrange(0, i - 1));
                assert(pre.last() == ms[i - 1]);
                assert(r@ =~= affected_lines(pre, cache_key@));
            }
        }
        proof {
            assert(ms.subrange(0, ms.len() as int) =~= ms);
        }
        r
    }

    /// Whether the document fingerprint recorded with the mappings equals
    /// the document's current fingerprint. When it does not, all mappings
    /// must be discarded and rebuilt.
    pub fn validate_readme_hash(&self, current_hash: &str) -> (r: bool)
        ensures
            r == (self@.mapping.readme_hash == current_hash@),
    {
        str_eq(self.mapping_data.readme_hash.as_str(), current_hash)
    }

    /// How many line mappings are recorded.
    pub fn mappings_len(&self) -> (r: usize)
        ensures
            r == self@.mapping.mappings.len(),
    {
        self.mapping_data.mappings.len()
    }

    /// A copy of the line mapping at `i`.
    pub fn get_mapping_at(&self, i: usize) -> (r: ReadmeLineMapping)
        requires
            i < self@.mapping.mappings.len(),
        ensures
            r@ == self@.mapping.mappings[i as int],
    {
        clone_mapping(&self.mapping_data.mappings[i])
    }

    /// Record on the mapping at `i` the fingerprint observed across its
    /// cache keys during this examination; everything else is untouched.
    pub fn set_mapping_validated(&mut self, i: usize, marker: String)
        requires
            i < old(self)@.mapping.mappings.len(),
        ensures
            final(self)@.mapping.mappings == old(self)@.mapping.mappings.update(
                i as int,
                LineMappingModel {
                    last_validated_hash: Some(marker@),
                    ..old(self)@.mapping.mappings[i as int]
                },
            ),
            final(self)@.mapping.readme_hash == old(self)@.mapping.readme_hash,
            final(self)@.mapping.version == old(self)@.mapping.version,
            final(self)@.entries == old(self)@.entries,
            old(self).wf() ==> final(self).wf(),
    {
        let ghost ms = self@.mapping.mappings;
        let ghost mv = marker@;
        let m = self.mapping_data.mappings.remove(i);
        let updated = ReadmeLineMapping {
            line_number: m.line_number,
            line_content: m.line_content,
            cache_keys: m.cache_keys,
            last_validated_hash: Some(marker),
        };
        self.mapping_data.mappings.insert(i, updated);
        proof {
            assert(self@.mapping.mappings =~= ms.update(
                i as int,
                LineMappingModel { last_validated_hash: Some(mv), ..ms[i as int] },
            ));
        }
    }

    /// A copy of every entry in the store, in storage order.
    pub fn get_all_summaries(&self) -> (r: Vec<CacheSummary>)
        ensures
            r.deep_view() == self@.entries,
    {
        let mut r: Vec<CacheSummary> = Vec::new();
        let mut i: usize = 0;
        while i < self.entries.len()
            invariant
                i <= self@.entries.len(),
                self@.entries.len() == self.entries@.len(),
                r.deep_view() =~= self@.entries.subrange(0, i as int),
            decreases self.entries@.len() - i,
        {
            let ghost rv = r.deep_view();
            let e = clone_entry(&self.entries[i]);
            r.push(e);
            proof {
                assert(r.deep_view() =~= rv.push(self@.entries[i as int]));
            }
            i += 1;
        }
        proof {
            assert(self@.entries.subrange(0, self@.entries.len() as int) =~= self@.entries);
        }
        r
    }
}

/// Cache round trip: while the store holds an entry for a node — as it
/// does immediately after `store_summary` — fetching with the entry's own
/// fingerprint returns exactly the stored text, and fetching with any
/// other fingerprint returns nothing.
pub proof fn lemma_cache_round_trip(
    m: &CacheManager,
    path: Seq<char>,
    hash: Seq<char>,
    text: Seq<char>,
)
    requires
        lookup(m@.entries, path) matches Some(e) && e.content_hash == hash && e.summary == text,
    ensures
        m.get_spec(path, hash) == Some(text),
        forall|h: Seq<char>| h != hash ==> #[trigger] m.get_spec(path, h) == None::<Seq<char>>,
{
}

/// Invalidation: while the store holds no entry for a node — as after
/// `invalidate_entry` — no fingerprint fetches anything for it, the
/// previously valid one included.
pub proof fn lemma_invalidation_blocks_fetch(m: &CacheManager, path: Seq<char>)
    requires
        lookup(m@.entries, path) is None,
    ensures
        forall|h: Seq<char>| #[trigger] m.get_spec(path, h) == None::<Seq<char>>,
{
}

/// A field-for-field copy of a line mapping.
pub fn clone_mapping(m: &ReadmeLineMapping) -> (r: ReadmeLineMapping)
    ensures
        r@ == m@,
{
    let last_validated_hash = match &m.last_validated_hash {
        Some(h) => Some(crate::strutil::to_owned_str(h.as_str())),
        None => None,
    };
    let r = ReadmeLineMapping {
        line_number: m.line_number,
        line_content: crate::strutil::to_owned_str(m.line_content.as_str()),
        cache_keys: crate::strutil::clone_string_vec(&m.cache_keys),
        last_validated_hash,
    };
    proof {
        assert(r@.cache_keys =~= m@.cache_keys);
    }
    r
}

/// A field-for-field copy of an entry.
pub fn clone_entry(e: &CacheSummary) -> (r: CacheSummary)
    ensures
        r@ == e@,
{
    CacheSummary {
        source_path: crate::strutil::to_owned_str(e.source_path.as_str()),
        content_hash: crate::strutil::to_owned_str(e.content_hash.as_str()),
        summary: crate::strutil::to_owned_str(e.summary.as_str()),
        timestamp: e.timestamp,
        is_directory: e.is_directory,
    }
}

/// The sum of the summary text lengths of all entries.
pub open spec fn total_size(s: Seq<CacheEntryModel>) -> int
    decreases s.len(),
{
    if s.len() == 0 {
        0
    } else {
        total_size(s.drop_last()) + s.last().summary.len()
    }
}

proof fn lemma_total_size_nonneg(s: Seq<CacheEntryModel>)
    ensures
        total_size(s) >= 0,
    decreases s.len(),
{
    if s.len() > 0 {
        lemma_total_size_nonneg(s.drop_last());
    }
}

/// The entries whose timestamp is at or after the cutoff, in order.
pub open spec fn keep_recent(s: Seq<CacheEntryModel>, cutoff: u64) -> Seq<CacheEntryModel>
    decreases s.len(),
{
    if s.len() == 0 {
        s
    } else {
        let p = keep_recent(s.drop_last(), cutoff);
        if s.last().timestamp >= cutoff {
            p.push(s.last())
        } else {
            p
        }
    }
}

proof fn lemma_keep_recent_wf(s: Seq<CacheEntryModel>, cutoff: u64)
    requires
        unique_paths(s),
    ensures
        unique_paths(keep_recent(s, cutoff)),
        keep_recent(s, cutoff).len() <= s.len(),
        forall|k: int|
            0 <= k < keep_recent(s, cutoff).len() ==> s.contains(
                #[trigger] keep_recent(s, cutoff)[k],
            ),
    decreases s.len(),
{
    if s.len() > 0 {
        let d = s.drop_last();
        assert(unique_paths(d)) by {
            assert(forall|k: int| 0 <= k < d.len() ==> #[trigger] d[k] == s[k]);
        }
        lemma_keep_recent_wf(d, cutoff);
        let kd = keep_recent(d, cutoff);
        assert(forall|k: int| 0 <= k < kd.len() ==> d.contains(#[trigger] kd[k]));
        assert forall|k: int| 0 <= k < kd.len() implies s.contains(#[trigger] kd[k]) by {
            let i = choose|i: int| 0 <= i < d.len() && d[i] == kd[k];
            assert(s[i] == kd[k]);
        }
        if s.last().timestamp >= cutoff {
            let r = kd.push(s.last());
            assert(s.contains(s.last())) by {
                assert(s[s.len() - 1] == s.last());
            }
            assert(unique_paths(r)) by {
                assert forall|i: int, j: int| 0 <= i < j < r.len() implies (
                #[trigger] r[i]).source_path != (#[trigger] r[j]).source_path by {
                    if j < r.len() - 1 {
                        assert(r[i] == kd[i] && r[j] == kd[j]);
                    } else {
                        assert(r[j] == s.last());
                        assert(kd.len() <= d.len());
                        let ii = choose|t: int| 0 <= t < d.len() && d[t] == kd[i];
                        assert(s[ii] == kd[i]);
                        assert(s[ii].source_path != s[s.len() - 1].source_path);
                    }
                }
            }
        }
    }
}

/// The line numbers of the mappings that list `key`, in order.
pub open spec fn affected_lines(ms: Seq<LineMappingModel>, key: Seq<char>) -> Seq<usize>
    decreases ms.len(),
{
    if ms.len() == 0 {
        Seq::empty()
    } else {
        let p = affected_lines(ms.drop_last(), key);
        if seq_has_str(ms.last().cache_keys, key) {
            p.push(ms.last().line_number)
        } else {
            p
        }
    }
}

} // verus!
