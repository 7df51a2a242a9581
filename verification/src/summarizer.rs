//! The bottom-up tree summarization orchestrator. The scanned tree is
//! flattened into a post-order arena; the engine walks it slot by slot,
//! serving summaries from the cache whenever a node's fingerprint is
//! unchanged, and asking the caller to read a file or to call the
//! generation service otherwise. A directory is taken up only after all
//! its children reached a terminal state; when the service fails on a
//! directory, a deterministic concatenation of the child summaries stands
//! in, and is never cached.

use vstd::prelude::*;
use crate::cache::{lookup, CacheManager};
use crate::hasher::{digest_of, join_digests, FileHasher};
use crate::scanner::{
    count_seq, count_spec, file_name_of, file_name_spec, lemma_count_seq_nonneg,
    lemma_count_seq_prefix_le, lemma_count_spec_pos, rel_or_full_exec, rel_or_full_spec, FileNode,
};
use crate::strutil::{concat_str, to_owned_str, trim_spec, trim_str};

verus! {

/// One node of the post-order arena: its path, kind, children (by arena
/// index, all smaller than its own), and the fingerprint and summary once
/// reached.
#[derive(Debug)]
pub struct Slot {
    pub path: String,
    pub is_directory: bool,
    pub children: Vec<usize>,
    pub content_hash: Option<String>,
    pub summary: Option<String>,
}

/// What the engine is waiting for.
#[derive(Debug)]
pub enum Phase {
    /// Nothing: the next call starts or resumes the walk.
    Ready,
    /// The text of the file at the current slot.
    AwaitContent,
    /// The service's summary for the file at the current slot, whose
    /// fingerprint is recorded here.
    AwaitLeaf { content_hash: String },
    /// The service's summary for the directory at the current slot; the
    /// formatted child summaries are kept for the degraded fallback.
    AwaitDirectory { dir_hash: String, child_summaries: Vec<String> },
}

/// What the caller hands the engine.
#[derive(Debug)]
pub enum EngineEvent {
    /// Begin, or resume after a finished walk.
    Start,
    /// The text of the requested file; nothing when it was unreadable.
    Content(Option<String>),
    /// The service's summary; nothing when the call failed after retries.
    ServiceResult(Option<String>),
}

/// What the engine asks the caller to do next.
#[derive(Debug)]
pub enum EngineAction {
    /// Read this file and reply with `Content`.
    NeedContent { path: String },
    /// Ask the service to summarize this file and reply with
    /// `ServiceResult`.
    CallLeafService { rel_path: String, content: String },
    /// Ask the service to compose this directory's summary from its
    /// children's and reply with `ServiceResult`.
    CallDirectoryService { name: String, child_summaries: Vec<String> },
    /// The walk is over; the root's summary, if the tree produced one.
    Finished { root_summary: Option<String> },
}

/// The kind of event the engine can take next.
#[derive(Debug, PartialEq, Eq, Structural)]
pub enum ExpectedEvent {
    Start,
    Content,
    ServiceResult,
}

/// A slot the walk has not reached: nothing computed yet.
pub open spec fn unprocessed(s: Slot) -> bool {
    s.content_hash is None && s.summary is None
}

/// Every child index points strictly below its owner: the arena is in
/// post-order, so children are always processed before their parent.
pub open spec fn slots_wf(slots: Seq<Slot>) -> bool {
    forall|i: int, k: int|
        0 <= i < slots.len() && 0 <= k < slots[i].children@.len() ==> (
        #[trigger] slots[i].children@[k]) < i
}

/// A child's display name: the file name of its relative path, or a
/// placeholder when there is none.
pub open spec fn child_name_spec(base: Seq<char>, path: Seq<char>) -> Seq<char> {
    let f = file_name_spec(rel_or_full_spec(base, path));
    if f.len() > 0 {
        f
    } else {
        "unknown"@
    }
}

/// A directory's display name: the file name of its relative path, or the
/// root marker when the directory is the base itself.
pub open spec fn dir_name_spec(base: Seq<char>, path: Seq<char>) -> Seq<char> {
    let f = file_name_spec(rel_or_full_spec(base, path));
    if f.len() > 0 {
        f
    } else {
        "project root"@
    }
}

/// A child's summary formatted with its name and a directory or file
/// marker.
pub open spec fn format_child_summary_spec(name: Seq<char>, is_dir: bool, s: Seq<char>) -> Seq<
    char,
> {
    if is_dir {
        "**"@ + name + "/** (directory): "@ + s
    } else {
        "**"@ + name + "**: "@ + s
    }
}

/// The formatted summaries of the children that produced one, in child
/// order.
pub open spec fn collected_summaries(slots: Seq<Slot>, children: Seq<usize>, base: Seq<char>) -> Seq<
    Seq<char>,
>
    decreases children.len(),
{
    if children.len() == 0 {
        Seq::empty()
    } else {
        let p = collected_summaries(slots, children.drop_last(), base);
        let ci = children.last() as int;
        if 0 <= ci < slots.len() {
            match slots[ci].summary {
                Some(s) => p.push(
                    format_child_summary_spec(
                        child_name_spec(base, slots[ci].path@),
                        slots[ci].is_directory,
                        s@,
                    ),
                ),
                None => p,
            }
        } else {
            p
        }
    }
}

/// The fingerprints of the children that have one, in child order: the
/// input to the directory's fingerprint.
pub open spec fn collected_hashes(slots: Seq<Slot>, children: Seq<usize>) -> Seq<Seq<char>>
    decreases children.len(),
{
    if children.len() == 0 {
        Seq::empty()
    } else {
        let p = collected_hashes(slots, children.drop_last());
        let ci = children.last() as int;
        if 0 <= ci < slots.len() {
            match slots[ci].content_hash {
                Some(h) => p.push(h@),
                None => p,
            }
        } else {
            p
        }
    }
}

/// Child summaries joined with a comma separator.
pub open spec fn join_comma(subs: Seq<Seq<char>>) -> Seq<char>
    decreases subs.len(),
{
    if subs.len() == 0 {
        Seq::empty()
    } else if subs.len() == 1 {
        subs[0]
    } else {
        subs[0] + ", "@ + join_comma(subs.drop_first())
    }
}

proof fn lemma_join_comma_push(s: Seq<Seq<char>>, x: Seq<char>)
    ensures
        join_comma(s.push(x)) == if s.len() == 0 {
            x
        } else {
            join_comma(s) + ", "@ + x
        },
    decreases s.len(),
{
    let p = s.push(x);
    if s.len() == 0 {
        assert(p.len() == 1);
        assert(p[0] == x);
    } else if s.len() == 1 {
        assert(p[0] == s[0]);
        assert(p.drop_first() =~= seq![x]);
        assert(join_comma(p.drop_first()) == x);
    } else {
        lemma_join_comma_push(s.drop_first(), x);
        assert(p.drop_first() =~= s.drop_first().push(x));
        assert(join_comma(s) + ", "@ + x =~= s[0] + ", "@ + (join_comma(s.drop_first()) + ", "@
            + x));
    }
}

/// The degraded directory summary used when the service fails: a
/// deterministic concatenation of the child summaries. It is present but
/// never cached, since it is not the service's answer.
pub open spec fn fallback_summary_spec(subs: Seq<Seq<char>>) -> Seq<char> {
    "Contains: "@ + join_comma(subs)
}

/// Format one child summary with its name and marker.
pub fn format_child_summary(name: &str, is_dir: bool, s: &str) -> (r: String)
    ensures
        r@ == format_child_summary_spec(name@, is_dir, s@),
{
    let mut r = concat_str("**", name);
    if is_dir {
        r.append("/** (directory): ");
    } else {
        r.append("**: ");
    }
    r.append(s);
    r
}

/// Build the degraded directory summary from the child summaries.
pub fn fallback_directory_summary(subs: &Vec<String>) -> (r: String)
    ensures
        r@ == fallback_summary_spec(subs.deep_view()),
{
    let ghost dv = subs.deep_view();
    let mut r = to_owned_str("Contains: ");
    let mut i: usize = 0;
    proof {
        assert(join_comma(dv.subrange(0, 0)) =~= Seq::<char>::empty());
        assert(r@ =~= "Contains: "@ + join_comma(dv.subrange(0, 0)));
    }
    while i < subs.len()
        invariant
            dv == subs.deep_view(),
            dv.len() == subs@.len(),
            i <= dv.len(),
            r@ == "Contains: "@ + join_comma(dv.subrange(0, i as int)),
        decreases dv.len() - i,
    {
        if i > 0 {
            r.append(", ");
        }
        r.append(subs[i].as_str());
        i += 1;
        proof {
            let pre = dv.subrange(0, i as int);
            lemma_join_comma_push(dv.subrange(0, i - 1), dv[i - 1]);
            assert(dv.subrange(0, i - 1).push(dv[i - 1]) =~= pre);
            assert(r@ =~= "Contains: "@ + join_comma(pre));
        }
    }
    proof {
        assert(dv.subrange(0, dv.len() as int) =~= dv);
    }
    r
}

/// Replace the fingerprint of the slot at `i`.
fn set_slot_hash(slots: &mut Vec<Slot>, i: usize, h: Option<String>)
    requires
        i < old(slots)@.len(),
    ensures
        final(slots)@ == old(slots)@.update(
            i as int,
            Slot { content_hash: h, ..old(slots)@[i as int] },
        ),
{
    let s = slots.remove(i);
    let s2 = Slot { content_hash: h, ..s };
    slots.insert(i, s2);
    proof {
        assert(slots@ =~= old(slots)@.update(
            i as int,
            Slot { content_hash: h, ..old(slots)@[i as int] },
        ));
    }
}

/// Replace the summary of the slot at `i`.
fn set_slot_summary(slots: &mut Vec<Slot>, i: usize, s: Option<String>)
    requires
        i < old(slots)@.len(),
    ensures
        final(slots)@ == old(slots)@.update(
            i as int,
            Slot { summary: s, ..old(slots)@[i as int] },
        ),
{
    let old_slot = slots.remove(i);
    let s2 = Slot { summary: s, ..old_slot };
    slots.insert(i, s2);
    proof {
        assert(slots@ =~= old(slots)@.update(
            i as int,
            Slot { summary: s, ..old(slots)@[i as int] },
        ));
    }
}

/// The slots encode `n` at index `i`: same path and kind, and the
/// children indices point at encodings of `n`'s children in child order,
/// laid out contiguously in post-order just below — the last child's
/// subtree roots at `i - 1`, the one before it a whole subtree further
/// left, and so on.
pub open spec fn slot_encodes(slots: Seq<Slot>, i: int, n: FileNode) -> bool
    decreases n, 0int,
{
    &&& 0 <= i < slots.len()
    &&& slots[i].path@ == n.path@
    &&& slots[i].is_directory == n.is_directory
    &&& children_encode(slots, i - 1, slots[i].children@, n.children@)
}

/// The indices `idxs` point at encodings of `children`, in order, with
/// the last child's subtree rooted at `end`.
pub open spec fn children_encode(
    slots: Seq<Slot>,
    end: int,
    idxs: Seq<usize>,
    children: Seq<FileNode>,
) -> bool
    decreases children, 1int,
{
    if idxs.len() != children.len() {
        false
    } else if children.len() == 0 {
        true
    } else {
        &&& idxs.last() as int == end
        &&& slot_encodes(slots, end, children.last())
        &&& children_encode(
            slots,
            end - count_spec(children.last()),
            idxs.drop_last(),
            children.drop_last(),
        )
    }
}

proof fn lemma_encodes_grow(s1: Seq<Slot>, s2: Seq<Slot>, i: int, n: FileNode)
    requires
        slot_encodes(s1, i, n),
        s1.len() <= s2.len(),
        forall|j: int| 0 <= j < s1.len() ==> s2[j] == s1[j],
    ensures
        slot_encodes(s2, i, n),
    decreases n, 0int,
{
    assert(s2[i] == s1[i]);
    lemma_children_encode_grow(s1, s2, i - 1, s1[i].children@, n.children@);
}

proof fn lemma_children_encode_grow(
    s1: Seq<Slot>,
    s2: Seq<Slot>,
    end: int,
    idxs: Seq<usize>,
    children: Seq<FileNode>,
)
    requires
        children_encode(s1, end, idxs, children),
        s1.len() <= s2.len(),
        forall|j: int| 0 <= j < s1.len() ==> s2[j] == s1[j],
    ensures
        children_encode(s2, end, idxs, children),
    decreases children, 1int,
{
    if children.len() > 0 {
        lemma_encodes_grow(s1, s2, end, children.last());
        lemma_children_encode_grow(
            s1,
            s2,
            end - count_spec(children.last()),
            idxs.drop_last(),
            children.drop_last(),
        );
    }
}

/// Append the tree below `node` to the arena in post-order: children
/// first, then the node itself, which becomes the last slot.
fn flatten_into(node: &FileNode, slots: &mut Vec<Slot>)
    requires
        slots_wf(old(slots)@),
        old(slots)@.len() + count_spec(*node) <= usize::MAX,
    ensures
        slots_wf(final(slots)@),
        final(slots)@.len() == old(slots)@.len() + count_spec(*node),
        forall|i: int| 0 <= i < old(slots)@.len() ==> final(slots)@[i] == old(slots)@[i],
        forall|i: int|
            old(slots)@.len() <= i < final(slots)@.len() ==> unprocessed(
                #[trigger] final(slots)@[i],
            ),
        slot_encodes(final(slots)@, final(slots)@.len() - 1, *node),
    decreases *node,
{
    let ghost base_len = slots@.len();
    proof {
        lemma_count_seq_nonneg(node.children@);
        assert(node.children@.subrange(0, 0) =~= Seq::<FileNode>::empty());
    }
    let mut child_idxs: Vec<usize> = Vec::new();
    let mut k: usize = 0;
    while k < node.children.len()
        invariant
            slots_wf(slots@),
            base_len + count_spec(*node) <= usize::MAX,
            slots@.len() == base_len + count_seq(node.children@.subrange(0, k as int)),
            k <= node.children@.len(),
            child_idxs@.len() == k,
            forall|i: int| 0 <= i < base_len ==> slots@[i] == old(slots)@[i],
            forall|i: int|
                base_len <= i < slots@.len() ==> unprocessed(#[trigger] slots@[i]),
            forall|t: int|
                0 <= t < child_idxs@.len() ==> (#[trigger] child_idxs@[t]) < slots@.len(),
            children_encode(
                slots@,
                slots@.len() - 1,
                child_idxs@,
                node.children@.subrange(0, k as int),
            ),
        decreases node.children@.len() - k,
    {
        proof {
            assert(decreases_to!(*node => node.children@[k as int]));
            lemma_count_seq_prefix_le(node.children@, k + 1);
            assert(node.children@.subrange(0, k + 1).drop_last() =~= node.children@.subrange(
                0,
                k as int,
            ));
            assert(node.children@.subrange(0, k + 1).last() == node.children@[k as int]);
            lemma_count_seq_nonneg(node.children@.subrange(0, k as int));
        }
        let ghost prev_slots = slots@;
        let ghost prev_idxs = child_idxs@;
        flatten_into(&node.children[k], slots);
        let idx = slots.len() - 1;
        child_idxs.push(idx);
        k += 1;
        proof {
            let pre = node.children@.subrange(0, k as int);
            assert(pre.drop_last() =~= node.children@.subrange(0, k - 1));
            assert(pre.last() == node.children@[k - 1]);
            lemma_count_spec_pos(node.children@[k - 1]);
            assert(prev_slots.len() <= slots@.len());
            assert forall|t: int| 0 <= t < child_idxs@.len() implies (
            #[trigger] child_idxs@[t]) < slots@.len() by {
                if t < child_idxs@.len() - 1 {
                    assert(child_idxs@[t] == prev_idxs[t]);
                }
            }
            lemma_children_encode_grow(
                prev_slots,
                slots@,
                prev_slots.len() - 1,
                prev_idxs,
                pre.drop_last(),
            );
            assert(child_idxs@.drop_last() =~= prev_idxs);
            assert(children_encode(slots@, slots@.len() - 1, child_idxs@, pre));
        }
    }
    proof {
        assert(node.children@.subrange(0, node.children@.len() as int) =~= node.children@);
    }
    let slot = Slot {
        path: to_owned_str(node.path.as_str()),
        is_directory: node.is_directory,
        children: child_idxs,
        content_hash: None,
        summary: None,
    };
    let ghost before_push = slots@;
    let ghost slot_g = slot;
    slots.push(slot);
    proof {
        assert(forall|i: int| 0 <= i < before_push.len() ==> slots@[i] == before_push[i]);
        assert(slots_wf(slots@)) by {
            assert(slots@[slots@.len() - 1].children@ == slot_g.children@);
        }
        lemma_children_encode_grow(
            before_push,
            slots@,
            before_push.len() - 1,
            slot_g.children@,
            node.children@,
        );
        assert(slot_encodes(slots@, slots@.len() - 1, *node));
    }
}

/// What the returned action promises about the engine's new state: a
/// request is made only for the slot at the current position, a service
/// request only on a cache miss (or under forced regeneration), and the
/// finished walk reports the root slot's summary.
pub open spec fn step_action_ok(
    pre: HierarchicalSummarizer,
    post: HierarchicalSummarizer,
    r: EngineAction,
) -> bool {
    match r {
        EngineAction::NeedContent { path } => {
            let i = post.pos as int;
            &&& post.phase is AwaitContent
            &&& i < post.slots@.len()
            &&& path@ == post.slots@[i].path@
            &&& !post.slots@[i].is_directory
        },
        EngineAction::CallLeafService { rel_path, content } => {
            let i = post.pos as int;
            let d = digest_of(content@);
            &&& i < post.slots@.len()
            &&& !post.slots@[i].is_directory
            &&& (post.phase matches Phase::AwaitLeaf { content_hash } && content_hash@ == d)
            &&& (post.slots@[i].content_hash matches Some(h) && h@ == d)
            &&& trim_spec(content@).len() > 0
            &&& (pre.force_regeneration || post.cache.get_spec(post.slots@[i].path@, d)
                is None)
            &&& rel_path@ == rel_or_full_spec(pre.base_path@, post.slots@[i].path@)
        },
        EngineAction::CallDirectoryService { name, child_summaries } => {
            let i = post.pos as int;
            let d = digest_of(join_digests(collected_hashes(post.slots@, post.slots@[i].children@)));
            &&& i < post.slots@.len()
            &&& post.slots@[i].is_directory
            &&& child_summaries.deep_view() == collected_summaries(
                post.slots@,
                post.slots@[i].children@,
                pre.base_path@,
            )
            &&& child_summaries@.len() > 0
            &&& (post.phase matches Phase::AwaitDirectory { dir_hash, child_summaries: kept }
                && dir_hash@ == d && kept.deep_view() == child_summaries.deep_view())
            &&& (post.slots@[i].content_hash matches Some(h) && h@ == d)
            &&& (pre.force_regeneration || post.cache.get_spec(post.slots@[i].path@, d)
                is None)
            &&& name@ == dir_name_spec(pre.base_path@, post.slots@[i].path@)
        },
        EngineAction::Finished { root_summary } => {
            &&& post.pos == post.slots@.len()
            &&& post.phase is Ready
            &&& if post.slots@.len() > 0 {
                match (root_summary, post.slots@[post.slots@.len() - 1].summary) {
                    (Some(a), Some(b)) => a@ == b@,
                    (None, None) => true,
                    _ => false,
                }
            } else {
                root_summary is None
            }
        },
    }
}

/// What taking the event did to the slot that was waiting and to the
/// store: a service success is adopted and cached under the recorded
/// fingerprint, a leaf failure leaves the node without a summary, a
/// directory failure falls back to the concatenated child summaries
/// without caching, a cache hit on a fresh fingerprint is adopted without
/// any service call, and an unreadable or empty file is skipped.
pub open spec fn step_event_ok(
    pre: HierarchicalSummarizer,
    post: HierarchicalSummarizer,
    event: EngineEvent,
) -> bool {
    match (pre.phase, event) {
        (Phase::Ready, EngineEvent::Start) => post.cache@ == pre.cache@,
        (Phase::AwaitContent, EngineEvent::Content(res)) => {
            let i = pre.pos as int;
            let path = pre.slots@[i].path@;
            match res {
                None => {
                    &&& post.slots@[i].content_hash is None
                    &&& post.slots@[i].summary is None
                    &&& post.cache@ == pre.cache@
                },
                Some(content) => {
                    let d = digest_of(content@);
                    &&& (post.slots@[i].content_hash matches Some(h) && h@ == d)
                    &&& post.cache@ == pre.cache@
                    &&& (!pre.force_regeneration && pre.cache.get_spec(path, d) is Some
                        ==> (post.slots@[i].summary matches Some(t) && Some(t@)
                        == pre.cache.get_spec(path, d)))
                    &&& ((pre.force_regeneration || pre.cache.get_spec(path, d) is None)
                        && trim_spec(content@).len() == 0 ==> post.slots@[i].summary is None)
                },
            }
        },
        (Phase::AwaitLeaf { content_hash }, EngineEvent::ServiceResult(res)) => {
            let i = pre.pos as int;
            let path = pre.slots@[i].path@;
            match res {
                Some(text) => {
                    &&& post.cache.get_spec(path, content_hash@) == Some(text@)
                    &&& (forall|p: Seq<char>|
                        p != path ==> #[trigger] lookup(post.cache@.entries, p) == lookup(
                            pre.cache@.entries,
                            p,
                        ))
                    &&& (post.slots@[i].summary matches Some(s) && s@ == text@)
                },
                None => {
                    &&& post.cache@ == pre.cache@
                    &&& post.slots@[i].summary is None
                },
            }
        },
        (Phase::AwaitDirectory { dir_hash, child_summaries }, EngineEvent::ServiceResult(
            res,
        )) => {
            let i = pre.pos as int;
            let path = pre.slots@[i].path@;
            match res {
                Some(text) => {
                    &&& post.cache.get_spec(path, dir_hash@) == Some(text@)
                    &&& (forall|p: Seq<char>|
                        p != path ==> #[trigger] lookup(post.cache@.entries, p) == lookup(
                            pre.cache@.entries,
                            p,
                        ))
                    &&& (post.slots@[i].summary matches Some(s) && s@ == text@)
                },
                None => {
                    &&& post.cache@ == pre.cache@
                    &&& (post.slots@[i].summary matches Some(s) && s@ == fallback_summary_spec(
                        child_summaries.deep_view(),
                    ))
                },
            }
        },
        _ => true,
    }
}


proof fn lemma_collected_unchanged(
    s1: Seq<Slot>,
    s2: Seq<Slot>,
    children: Seq<usize>,
    base: Seq<char>,
)
    requires
        s1.len() == s2.len(),
        forall|k: int|
            0 <= k < children.len() ==> (#[trigger] children[k]) < s1.len() && s1[children[k] as int]
                == s2[children[k] as int],
    ensures
        collected_summaries(s1, children, base) == collected_summaries(s2, children, base),
        collected_hashes(s1, children) == collected_hashes(s2, children),
    decreases children.len(),
{
    if children.len() > 0 {
        let d = children.drop_last();
        assert(forall|k: int| 0 <= k < d.len() ==> #[trigger] d[k] == children[k]);
        lemma_collected_unchanged(s1, s2, d, base);
        assert(children[children.len() - 1] == children.last());
    }
}


proof fn lemma_event_ok_stable(
    pre: HierarchicalSummarizer,
    a: HierarchicalSummarizer,
    b: HierarchicalSummarizer,
    event: EngineEvent,
)
    requires
        step_event_ok(pre, a, event),
        b.cache == a.cache,
        !(pre.phase is Ready) ==> pre.pos < a.slots@.len() && pre.pos < b.slots@.len()
            && b.slots@[pre.pos as int] == a.slots@[pre.pos as int],
    ensures
        step_event_ok(pre, b, event),
{
}

/// The first arena index that was not settled by the event a step took:
/// taking an event settles the slot that was waiting.
pub open spec fn settled_lo(pre: HierarchicalSummarizer) -> int {
    if pre.phase is Ready {
        pre.pos as int
    } else {
        pre.pos + 1
    }
}

/// What holds of a slot the walk settled on its own, without any outside
/// exchange: such a slot is always a directory, either skipped because no
/// child produced a summary, or settled from the store because its
/// fingerprint was served (which never happens under forced
/// regeneration).
pub open spec fn auto_slot_ok(
    pre: HierarchicalSummarizer,
    post: HierarchicalSummarizer,
    k: int,
) -> bool {
    0 <= k < post.slots@.len() && {
        let s = post.slots@[k];
        &&& s.is_directory
        &&& {
            let subs = collected_summaries(post.slots@, s.children@, pre.base_path@);
            let d = digest_of(join_digests(collected_hashes(post.slots@, s.children@)));
            if subs.len() == 0 {
                unprocessed(s)
            } else {
                &&& !pre.force_regeneration
                &&& (s.content_hash matches Some(h) && h@ == d)
                &&& (s.summary matches Some(t) && post.cache.get_spec(s.path@, d) == Some(t@))
            }
        }
    }
}

proof fn lemma_auto_slots_stable(
    pre: HierarchicalSummarizer,
    a: HierarchicalSummarizer,
    b: HierarchicalSummarizer,
    lo: int,
    hi: int,
)
    requires
        forall|k: int| lo <= k < hi ==> auto_slot_ok(pre, a, k),
        hi <= a.slots@.len(),
        b.slots@.len() == a.slots@.len(),
        forall|j: int| 0 <= j < hi ==> b.slots@[j] == a.slots@[j],
        slots_wf(a.slots@),
        b.cache == a.cache,
    ensures
        forall|k: int| lo <= k < hi ==> auto_slot_ok(pre, b, k),
{
    assert forall|k: int| lo <= k < hi implies auto_slot_ok(pre, b, k) by {
        assert(auto_slot_ok(pre, a, k));
        let s = a.slots@[k];
        assert(b.slots@[k] == s);
        assert forall|c: int|
            0 <= c < s.children@.len() implies (#[trigger] s.children@[c]) < a.slots@.len()
                && a.slots@[s.children@[c] as int] == b.slots@[s.children@[c] as int] by {
            assert(s.children@[c] < k);
        }
        lemma_collected_unchanged(a.slots@, b.slots@, s.children@, pre.base_path@);
    }
}

/// A service request is issued only on a cache miss: when regeneration is
/// not forced and the walk reaches a node whose current fingerprint the
/// store already serves, the stored summary is adopted and no request is
/// made — so a rerun over unchanged content makes no service calls.
pub proof fn lemma_service_request_needs_miss(
    pre: HierarchicalSummarizer,
    post: HierarchicalSummarizer,
    r: EngineAction,
)
    requires
        step_action_ok(pre, post, r),
        !pre.force_regeneration,
    ensures
        r matches EngineAction::CallLeafService { rel_path, content } ==> post.cache.get_spec(
            post.slots@[post.pos as int].path@,
            digest_of(content@),
        ) is None,
        r matches EngineAction::CallDirectoryService { name, child_summaries }
            ==> post.cache.get_spec(
            post.slots@[post.pos as int].path@,
            digest_of(join_digests(collected_hashes(post.slots@, post.slots@[post.pos as int].children@))),
        ) is None,
{
}

/// The bottom-up summarizer: walks the arena in post-order, consulting
/// the store before asking for service calls, and composing directory
/// summaries from child summaries.
#[derive(Debug)]
pub struct HierarchicalSummarizer {
    pub slots: Vec<Slot>,
    pub pos: usize,
    pub phase: Phase,
    pub cache: CacheManager,
    pub force_regeneration: bool,
    pub base_path: String,
    pub now: u64,
    pub service_calls: u64,
}

impl HierarchicalSummarizer {
    /// The engine invariant: post-order arena, position within bounds, a
    /// well-formed store, and a phase that matches the current slot.
    pub open spec fn wf(self) -> bool {
        &&& slots_wf(self.slots@)
        &&& self.pos <= self.slots@.len()
        &&& self.cache.wf()
        &&& if self.phase is AwaitLeaf || self.phase is AwaitDirectory {
            forall|k: int|
                self.pos < k < self.slots@.len() ==> unprocessed(#[trigger] self.slots@[k])
        } else {
            forall|k: int|
                self.pos <= k < self.slots@.len() ==> unprocessed(#[trigger] self.slots@[k])
        }
        &&& match self.phase {
            Phase::Ready => true,
            Phase::AwaitContent => self.pos < self.slots@.len() && !self.slots@[self.pos as int].is_directory,
            Phase::AwaitLeaf { content_hash } => self.pos < self.slots@.len()
                && !self.slots@[self.pos as int].is_directory && (match self.slots@[self.pos as int].content_hash {
                Some(h) => h@ == content_hash@,
                None => false,
            }),
            Phase::AwaitDirectory { dir_hash, child_summaries } => self.pos < self.slots@.len()
                && self.slots@[self.pos as int].is_directory && (match self.slots@[self.pos as int].content_hash {
                Some(h) => h@ == dir_hash@,
                None => false,
            }),
        }
    }

    /// Which events the engine accepts in its current phase.
    pub open spec fn event_ok(self, event: EngineEvent) -> bool {
        match (self.phase, event) {
            (Phase::Ready, EngineEvent::Start) => true,
            (Phase::AwaitContent, EngineEvent::Content(_)) => true,
            (Phase::AwaitLeaf { .. }, EngineEvent::ServiceResult(_)) => true,
            (Phase::AwaitDirectory { .. }, EngineEvent::ServiceResult(_)) => true,
            _ => false,
        }
    }

    /// The kind of event the engine accepts next; callers check this
    /// before `step`.
    pub fn expected_event(&self) -> (r: ExpectedEvent)
        ensures
            (r == ExpectedEvent::Start) == (self.phase is Ready),
            (r == ExpectedEvent::Content) == (self.phase is AwaitContent),
            (r == ExpectedEvent::ServiceResult) == (self.phase is AwaitLeaf || self.phase
                is AwaitDirectory),
    {
        match &self.phase {
            Phase::Ready => ExpectedEvent::Start,
            Phase::AwaitContent => ExpectedEvent::Content,
            Phase::AwaitLeaf { .. } => ExpectedEvent::ServiceResult,
            Phase::AwaitDirectory { .. } => ExpectedEvent::ServiceResult,
        }
    }

    /// Build the engine over a scanned tree and a summary store.
    pub fn new(
        root: &FileNode,
        cache: CacheManager,
        force_regeneration: bool,
        base_path: String,
        now: u64,
    ) -> (r: Self)
        requires
            cache.wf(),
            count_spec(*root) <= usize::MAX,
        ensures
            r.wf(),
            r.pos == 0,
            r.phase is Ready,
            r.cache@ == cache@,
            r.force_regeneration == force_regeneration,
            r.base_path == base_path,
            r.now == now,
            r.service_calls == 0,
            r.slots@.len() == count_spec(*root),
            r.slots@.len() >= 1,
            slot_encodes(r.slots@, r.slots@.len() - 1, *root),
    {
        proof {
            lemma_count_spec_pos(*root);
        }
        let mut slots: Vec<Slot> = Vec::new();
        flatten_into(root, &mut slots);
        HierarchicalSummarizer {
            slots,
            pos: 0,
            phase: Phase::Ready,
            cache,
            force_regeneration,
            base_path,
            now,
            service_calls: 0,
        }
    }


    /// Drive the walk by one exchange: take the pending event, settle the
    /// slot that was waiting, advance over everything that needs no
    /// outside help (skips and cache hits), and return the next request,
    /// or the root summary when every slot is terminal.
    #[verifier::loop_isolation(false)]
    pub fn step(&mut self, event: EngineEvent) -> (r: EngineAction)
        requires
            old(self).wf(),
            old(self).event_ok(event),
        ensures
            final(self).wf(),
            final(self).base_path == old(self).base_path,
            final(self).force_regeneration == old(self).force_regeneration,
            final(self).now == old(self).now,
            final(self).slots@.len() == old(self).slots@.len(),
            final(self).pos >= old(self).pos,
            forall|i: int|
                0 <= i < old(self).pos ==> final(self).slots@[i] == old(self).slots@[i],
            final(self).cache@.mapping == old(self).cache@.mapping,
            (r is CallLeafService || r is CallDirectoryService) ==> final(self).service_calls
                == if old(self).service_calls < u64::MAX {
                old(self).service_calls + 1
            } else {
                old(self).service_calls as int
            },
            !(r is CallLeafService || r is CallDirectoryService) ==> final(self).service_calls
                == old(self).service_calls,
            step_event_ok(*old(self), *final(self), event),
            step_action_ok(*old(self), *final(self), r),
            forall|k: int|
                settled_lo(*old(self)) <= k < final(self).pos ==> auto_slot_ok(
                    *old(self),
                    *final(self),
                    k,
                ),
            match (old(self).phase, event) {
                (Phase::AwaitContent, EngineEvent::Content(res)) => match res {
                    Some(content) => ((old(self).force_regeneration || old(self).cache.get_spec(
                        old(self).slots@[old(self).pos as int].path@,
                        digest_of(content@),
                    ) is None) && trim_spec(content@).len() > 0) ==> (r matches
                        EngineAction::CallLeafService { rel_path, content: c2 } && c2@ == content@
                        && final(self).pos == old(self).pos),
                    None => true,
                },
                _ => true,
            },
    {
        let total = self.slots.len();
        proof {
            assert(self.slots@.len() == total);
        }
        let mut ph = Phase::Ready;
        core::mem::swap(&mut self.phase, &mut ph);
        match (ph, event) {
            (Phase::Ready, EngineEvent::Start) => {},
            (Phase::AwaitContent, EngineEvent::Content(res)) => {
                match res {
                    None => {
                        set_slot_hash(&mut self.slots, self.pos, None);
                        set_slot_summary(&mut self.slots, self.pos, None);
                        self.pos = self.pos + 1;
                    },
                    Some(content) => {
                        let hash = FileHasher::compute_content_hash(content.as_str());
                        let hash2 = to_owned_str(hash.as_str());
                        set_slot_hash(&mut self.slots, self.pos, Some(hash2));
                        let cached: Option<String> = if self.force_regeneration {
                            None
                        } else {
                            self.cache.get_cached_summary(
                                self.slots[self.pos].path.as_str(),
                                hash.as_str(),
                            )
                        };
                        match cached {
                            Some(s) => {
                                set_slot_summary(&mut self.slots, self.pos, Some(s));
                                self.pos = self.pos + 1;
                            },
                            None => {
                                let t = trim_str(content.as_str());
                                if t.as_str().unicode_len() == 0 {
                                    set_slot_summary(&mut self.slots, self.pos, None);
                                    self.pos = self.pos + 1;
                                } else {
                                    let rel = rel_or_full_exec(
                                        self.base_path.as_str(),
                                        self.slots[self.pos].path.as_str(),
                                    );
                                    self.phase = Phase::AwaitLeaf { content_hash: hash };
                                    if self.service_calls < u64::MAX {
                                        self.service_calls = self.service_calls + 1;
                                    }
                                    return EngineAction::CallLeafService { rel_path: rel, content };
                                }
                            },
                        }
                    },
                }
            },
            (Phase::AwaitLeaf { content_hash }, EngineEvent::ServiceResult(res)) => {
                match res {
                    Some(text) => {
                        let path = to_owned_str(self.slots[self.pos].path.as_str());
                        let text2 = to_owned_str(text.as_str());
                        self.cache.store_summary(path.as_str(), content_hash, text2, self.now, false);
                        set_slot_summary(&mut self.slots, self.pos, Some(text));
                    },
                    None => {
                        set_slot_summary(&mut self.slots, self.pos, None);
                    },
                }
                self.pos = self.pos + 1;
            },
            (Phase::AwaitDirectory { dir_hash, child_summaries }, EngineEvent::ServiceResult(
                res,
            )) => {
                match res {
                    Some(text) => {
                        let path = to_owned_str(self.slots[self.pos].path.as_str());
                        let text2 = to_owned_str(text.as_str());
                        self.cache.store_summary(path.as_str(), dir_hash, text2, self.now, true);
                        set_slot_summary(&mut self.slots, self.pos, Some(text));
                    },
                    None => {
                        let fb = fallback_directory_summary(&child_summaries);
                        set_slot_summary(&mut self.slots, self.pos, Some(fb));
                    },
                }
                self.pos = self.pos + 1;
            },
            _ => {
                proof {
                    assert(false);
                }
            },
        }
        let ghost mid = *self;
        proof {
            assert(step_event_ok(*old(self), mid, event));
            assert(old(self).pos <= mid.pos);
            assert(settled_lo(*old(self)) == mid.pos);
            assert(forall|i: int|
                0 <= i < old(self).pos ==> mid.slots@[i] == old(self).slots@[i]);
        }
        loop
            invariant
                self.wf(),
                self.phase is Ready,
                self.slots@.len() == mid.slots@.len(),
                self.base_path == mid.base_path,
                self.force_regeneration == mid.force_regeneration,
                self.now == mid.now,
                self.cache == mid.cache,
                self.service_calls == mid.service_calls,
                mid.pos <= self.pos,
                self.pos <= self.slots@.len(),
                forall|i: int| 0 <= i < mid.pos ==> self.slots@[i] == mid.slots@[i],
                forall|k: int|
                    settled_lo(*old(self)) <= k < self.pos ==> auto_slot_ok(
                        *old(self),
                        *self,
                        k,
                    ),
            decreases self.slots@.len() - self.pos,
        {
            if self.pos >= self.slots.len() {
                let root_summary: Option<String> = if self.slots.len() > 0 {
                    match &self.slots[self.slots.len() - 1].summary {
                        Some(s) => Some(to_owned_str(s.as_str())),
                        None => None,
                    }
                } else {
                    None
                };
                proof {
                    if !(old(self).phase is Ready) {
                        assert(self.slots@[old(self).pos as int] == mid.slots@[old(
                            self,
                        ).pos as int]);
                    }
                    lemma_event_ok_stable(*old(self), mid, *self, event);
                    assert forall|i: int| 0 <= i < old(self).pos implies self.slots@[i] == old(
                        self,
                    ).slots@[i] by {
                        assert(self.slots@[i] == mid.slots@[i]);
                    }
                }
                return EngineAction::Finished { root_summary };
            }
            let i = self.pos;
            let ghost before = *self;
            if !self.slots[i].is_directory {
                self.phase = Phase::AwaitContent;
                let path = to_owned_str(self.slots[i].path.as_str());
                proof {
                    lemma_auto_slots_stable(
                        *old(self),
                        before,
                        *self,
                        settled_lo(*old(self)),
                        self.pos as int,
                    );
                    if !(old(self).phase is Ready) {
                        assert(self.slots@[old(self).pos as int] == mid.slots@[old(
                            self,
                        ).pos as int]);
                    }
                    lemma_event_ok_stable(*old(self), mid, *self, event);
                    assert forall|t: int| 0 <= t < old(self).pos implies self.slots@[t] == old(
                        self,
                    ).slots@[t] by {
                        assert(self.slots@[t] == mid.slots@[t]);
                    }
                }
                return EngineAction::NeedContent { path };
            } else {
                let subs = self.collect_child_summaries(i);
                if subs.len() == 0 {
                    self.pos = i + 1;
                    proof {
                        lemma_auto_slots_stable(
                            *old(self),
                            before,
                            *self,
                            settled_lo(*old(self)),
                            i as int,
                        );
                        assert(auto_slot_ok(*old(self), *self, i as int));
                    }
                } else {
                    let hashes = self.collect_child_hashes(i);
                    let dhash = FileHasher::compute_directory_hash(&hashes);
                    let ghost slots_before = self.slots@;
                    let dhash2 = to_owned_str(dhash.as_str());
                    set_slot_hash(&mut self.slots, i, Some(dhash2));
                    proof {
                        lemma_collected_unchanged(
                            slots_before,
                            self.slots@,
                            self.slots@[i as int].children@,
                            self.base_path@,
                        );
                    }
                    let path = to_owned_str(self.slots[i].path.as_str());
                    let cached: Option<String> = if self.force_regeneration {
                        None
                    } else {
                        self.cache.get_cached_summary(path.as_str(), dhash.as_str())
                    };
                    match cached {
                        Some(s) => {
                            let ghost slots_mid2 = self.slots@;
                            set_slot_summary(&mut self.slots, i, Some(s));
                            self.pos = i + 1;
                            proof {
                                lemma_collected_unchanged(
                                    slots_mid2,
                                    self.slots@,
                                    self.slots@[i as int].children@,
                                    self.base_path@,
                                );
                                lemma_auto_slots_stable(
                                    *old(self),
                                    before,
                                    *self,
                                    settled_lo(*old(self)),
                                    i as int,
                                );
                                assert(auto_slot_ok(*old(self), *self, i as int));
                            }
                        },
                        None => {
                            let rel = rel_or_full_exec(self.base_path.as_str(), path.as_str());
                            let f = file_name_of(rel.as_str());
                            let name = if f.as_str().unicode_len() > 0 {
                                f
                            } else {
                                to_owned_str("project root")
                            };
                            let subs_kept = crate::strutil::clone_string_vec(&subs);
                            self.phase = Phase::AwaitDirectory {
                                dir_hash: dhash,
                                child_summaries: subs_kept,
                            };
                            if self.service_calls < u64::MAX {
                                self.service_calls = self.service_calls + 1;
                            }
                            proof {
                                lemma_auto_slots_stable(
                                    *old(self),
                                    before,
                                    *self,
                                    settled_lo(*old(self)),
                                    self.pos as int,
                                );
                                if !(old(self).phase is Ready) {
                                    assert(self.slots@[old(self).pos as int] == mid.slots@[old(
                                        self,
                                    ).pos as int]);
                                }
                                lemma_event_ok_stable(*old(self), mid, *self, event);
                                assert forall|t: int|
                                    0 <= t < old(self).pos implies self.slots@[t] == old(
                                    self,
                                ).slots@[t] by {
                                    assert(self.slots@[t] == mid.slots@[t]);
                                }
                            }
                            return EngineAction::CallDirectoryService {
                                name,
                                child_summaries: subs,
                            };
                        },
                    }
                }
            }
        }
    }

    /// The formatted summaries of slot `i`'s children that produced one.
    fn collect_child_summaries(&self, i: usize) -> (r: Vec<String>)
        requires
            self.wf(),
            i < self.slots@.len(),
        ensures
            r.deep_view() == collected_summaries(
                self.slots@,
                self.slots@[i as int].children@,
                self.base_path@,
            ),
    {
        let ghost ch = self.slots@[i as int].children@;
        let mut r: Vec<String> = Vec::new();
        let mut k: usize = 0;
        proof {
            assert(r.deep_view() =~= collected_summaries(
                self.slots@,
                ch.subrange(0, 0),
                self.base_path@,
            ));
        }
        while k < self.slots[i].children.len()
            invariant
                self.wf(),
                i < self.slots@.len(),
                ch == self.slots@[i as int].children@,
                k <= ch.len(),
                r.deep_view() == collected_summaries(
                    self.slots@,
                    ch.subrange(0, k as int),
                    self.base_path@,
                ),
            decreases ch.len() - k,
        {
            let ci = self.slots[i].children[k];
            proof {
                assert(ch[k as int] < i);
            }
            let ghost rv = r.deep_view();
            match &self.slots[ci].summary {
                Some(s) => {
                    let rel = rel_or_full_exec(self.base_path.as_str(), self.slots[ci].path.as_str());
                    let f = file_name_of(rel.as_str());
                    let name = if f.as_str().unicode_len() > 0 {
                        f
                    } else {
                        to_owned_str("unknown")
                    };
                    let formatted = format_child_summary(
                        name.as_str(),
                        self.slots[ci].is_directory,
                        s.as_str(),
                    );
                    let ghost fv = formatted@;
                    r.push(formatted);
                    proof {
                        assert(r.deep_view() =~= rv.push(fv));
                    }
                },
                None => {},
            }
            k += 1;
            proof {
                let pre = ch.subrange(0, k as int);
                assert(pre.drop_last() =~= ch.subrange(0, k - 1));
                assert(pre.last() == ch[k - 1]);
                assert(r.deep_view() =~= collected_summaries(self.slots@, pre, self.base_path@));
            }
        }
        proof {
            assert(ch.subrange(0, ch.len() as int) =~= ch);
        }
        r
    }

    /// The fingerprints of slot `i`'s children that have one.
    fn collect_child_hashes(&self, i: usize) -> (r: Vec<String>)
        requires
            self.wf(),
            i < self.slots@.len(),
        ensures
            r.deep_view() == collected_hashes(self.slots@, self.slots@[i as int].children@),
    {
        let ghost ch = self.slots@[i as int].children@;
        let mut r: Vec<String> = Vec::new();
        let mut k: usize = 0;
        proof {
            assert(r.deep_view() =~= collected_hashes(self.slots@, ch.subrange(0, 0)));
        }
        while k < self.slots[i].children.len()
            invariant
                self.wf(),
                i < self.slots@.len(),
                ch == self.slots@[i as int].children@,
                k <= ch.len(),
                r.deep_view() == collected_hashes(self.slots@, ch.subrange(0, k as int)),
            decreases ch.len() - k,
        {
            let ci = self.slots[i].children[k];
            proof {
                assert(ch[k as int] < i);
            }
            let ghost rv = r.deep_view();
            match &self.slots[ci].content_hash {
                Some(h) => {
                    let x = to_owned_str(h.as_str());
                    let ghost xv = x@;
                    r.push(x);
                    proof {
                        assert(r.deep_view() =~= rv.push(xv));
                    }
                },
                None => {},
            }
            k += 1;
            proof {
                let pre = ch.subrange(0, k as int);
                assert(pre.drop_last() =~= ch.subrange(0, k - 1));
                assert(pre.last() == ch[k - 1]);
                assert(r.deep_view() =~= collected_hashes(self.slots@, pre));
            }
        }
        proof {
            assert(ch.subrange(0, ch.len() as int) =~= ch);
        }
        r
    }

    /// Entry count and total size of the underlying store.
    pub fn get_cache_stats(&self) -> (r: (usize, u64))
        ensures
            r.0 == self.cache@.entries.len(),
            r.1 == if crate::cache::total_size(self.cache@.entries) <= u64::MAX {
                crate::cache::total_size(self.cache@.entries)
            } else {
                u64::MAX as int
            },
    {
        self.cache.get_cache_stats()
    }

    /// Remove store entries older than the cutoff; housekeeping only.
    pub fn cleanup_cache(&mut self, max_age_seconds: u64, now: u64) -> (removed: usize)
        requires
            old(self).cache.wf(),
        ensures
            final(self).cache.wf(),
            removed == old(self).cache@.entries.len() - final(self).cache@.entries.len(),
            final(self).slots@ == old(self).slots@,
            final(self).pos == old(self).pos,
    {
        self.cache.cleanup_old_entries(max_age_seconds, now)
    }

    /// Hand the store back, with everything cached during the walk.
    pub fn into_cache(self) -> (r: CacheManager)
        ensures
            r@ == self.cache@,
    {
        self.cache
    }

    /// How many service calls the walk has asked for so far.
    pub fn service_call_count(&self) -> (r: u64)
        ensures
            r == self.service_calls,
    {
        self.service_calls
    }
}

} // verus!
