//! The scanned source tree: nodes with paths, the skip rules, the
//! source-file test, and tree assembly with the deterministic child order
//! (directories before files, then lexicographic by path) that fingerprint
//! stability depends on. Walking the filesystem happens outside; this
//! module consumes the walker's flat listing.

use vstd::prelude::*;
use crate::error::DocTreeError;
use crate::strutil::{
    concat_str, contains_seq, contains_sub, lower_of, starts_with_seq, starts_with_sub, str_eq,
    to_lower, to_owned_str,
};

verus! {

/// One node of the scanned tree: a file or a directory, its children in
/// deterministic order, and the fingerprint and summary once computed.
#[derive(Debug)]
pub struct FileNode {
    pub path: String,
    pub is_directory: bool,
    pub children: Vec<FileNode>,
    pub content_hash: Option<String>,
    pub summary: Option<String>,
}


/// The recognized source-code extensions, lowercased.
pub open spec fn is_source_ext(e: Seq<char>) -> bool {
    ||| e == "rs"@
    ||| e == "py"@
    ||| e == "js"@
    ||| e == "ts"@
    ||| e == "tsx"@
    ||| e == "jsx"@
    ||| e == "go"@
    ||| e == "java"@
    ||| e == "cpp"@
    ||| e == "c"@
    ||| e == "h"@
    ||| e == "hpp"@
    ||| e == "cs"@
    ||| e == "php"@
    ||| e == "rb"@
    ||| e == "swift"@
    ||| e == "kt"@
    ||| e == "scala"@
    ||| e == "clj"@
    ||| e == "hs"@
    ||| e == "elm"@
    ||| e == "dart"@
    ||| e == "r"@
    ||| e == "jl"@
    ||| e == "ml"@
    ||| e == "fs"@
    ||| e == "pl"@
    ||| e == "sh"@
    ||| e == "bash"@
    ||| e == "zsh"@
    ||| e == "fish"@
    ||| e == "ps1"@
    ||| e == "html"@
    ||| e == "css"@
    ||| e == "scss"@
    ||| e == "sass"@
    ||| e == "less"@
    ||| e == "vue"@
    ||| e == "svelte"@
    ||| e == "xml"@
    ||| e == "yaml"@
    ||| e == "yml"@
    ||| e == "json"@
    ||| e == "toml"@
    ||| e == "ini"@
    ||| e == "cfg"@
    ||| e == "conf"@
    ||| e == "dockerfile"@
    ||| e == "makefile"@
    ||| e == "cmake"@
    ||| e == "sql"@
    ||| e == "graphql"@
    ||| e == "proto"@
    ||| e == "thrift"@
    ||| e == "avro"@
    ||| e == "md"@
    ||| e == "mdx"@
    ||| e == "tex"@
    ||| e == "rst"@
}

impl FileNode {
    /// A fresh node with no children and nothing computed.
    pub fn new(path: String, is_directory: bool) -> (r: Self)
        ensures
            r.path == path,
            r.is_directory == is_directory,
            r.children@ == Seq::<FileNode>::empty(),
            r.content_hash is None,
            r.summary is None,
    {
        let r = FileNode {
            path,
            is_directory,
            children: Vec::new(),
            content_hash: None,
            summary: None,
        };
        proof {
            assert(r.children@ =~= Seq::<FileNode>::empty());
        }
        r
    }

    /// Append a child.
    pub fn add_child(&mut self, child: FileNode)
        ensures
            final(self).children@ == old(self).children@.push(child),
            final(self).path == old(self).path,
            final(self).is_directory == old(self).is_directory,
            final(self).content_hash == old(self).content_hash,
            final(self).summary == old(self).summary,
    {
        self.children.push(child);
    }

    /// The node's path relative to `base`: empty for `base` itself, the
    /// suffix after `base/` for a node under it, and an error otherwise.
    pub fn get_relative_path(&self, base: &str) -> (r: Result<String, DocTreeError>)
        ensures
            match r {
                Ok(s) => rel_path_spec(base@, self.path@) == Some(s@),
                Err(e) => rel_path_spec(base@, self.path@) is None && e is Path,
            },
    {
        relative_path_of(base, self.path.as_str())
    }

    /// Whether this node is a file with a recognized source-code
    /// extension; directories never are.
    pub fn is_source_code_file(&self) -> (r: bool)
        ensures
            r == (!self.is_directory && is_source_ext(lower_of(ext_spec(self.path@)))),
    {
        if self.is_directory {
            return false;
        }
        is_source_path(self.path.as_str())
    }
}

/// The index of the last occurrence of `c` in `s`, or -1.
pub open spec fn last_index_of(s: Seq<char>, c: char) -> int
    decreases s.len(),
{
    if s.len() == 0 {
        -1
    } else if s.last() == c {
        s.len() - 1
    } else {
        last_index_of(s.drop_last(), c)
    }
}

proof fn lemma_last_index_of(s: Seq<char>, c: char, d: int)
    requires
        -1 <= d < s.len(),
        d >= 0 ==> s[d] == c,
        forall|k: int| d < k < s.len() ==> s[k] != c,
    ensures
        last_index_of(s, c) == d,
    decreases s.len(),
{
    if s.len() > 0 {
        if s.last() == c {
            assert(d == s.len() - 1);
        } else {
            assert(d < s.len() - 1);
            let t = s.drop_last();
            lemma_last_index_of(t, c, d);
        }
    }
}

/// The file name part of a path: everything after the last separator.
pub open spec fn file_name_spec(p: Seq<char>) -> Seq<char> {
    p.subrange(last_index_of(p, '/') + 1, p.len() as int)
}

/// The parent of a path: everything before the last separator, empty when
/// there is none.
pub open spec fn parent_of(p: Seq<char>) -> Seq<char> {
    if last_index_of(p, '/') >= 0 {
        p.subrange(0, last_index_of(p, '/'))
    } else {
        Seq::empty()
    }
}

/// The extension of a path's file name: what follows the last dot, unless
/// the dot is leading or absent.
pub open spec fn ext_spec(p: Seq<char>) -> Seq<char> {
    let f = file_name_spec(p);
    let d = last_index_of(f, '.');
    if d > 0 {
        f.subrange(d + 1, f.len() as int)
    } else {
        Seq::empty()
    }
}

/// The index of the last occurrence of `c`, if any.
fn rlast_index(s: &str, c: char) -> (r: Option<usize>)
    ensures
        match r {
            Some(i) => last_index_of(s@, c) == i && i < s@.len(),
            None => last_index_of(s@, c) == -1,
        },
{
    let len = s.unicode_len();
    let mut j: usize = len;
    while j > 0
        invariant
            len == s@.len(),
            j <= len,
            forall|k: int| j <= k < len ==> s@[k] != c,
        decreases j,
    {
        if s.get_char(j - 1) == c {
            proof {
                lemma_last_index_of(s@, c, j - 1);
            }
            return Some(j - 1);
        }
        j -= 1;
    }
    proof {
        lemma_last_index_of(s@, c, -1);
    }
    None
}

/// The file name part of a path.
pub fn file_name_of(p: &str) -> (r: String)
    ensures
        r@ == file_name_spec(p@),
{
    let len = p.unicode_len();
    match rlast_index(p, '/') {
        Some(i) => {
            let r = p.substring_char(i + 1, len);
            r.to_owned()
        },
        None => {
            proof {
                assert(p@.subrange(0, p@.len() as int) =~= p@);
            }
            to_owned_str(p)
        },
    }
}

/// The parent of a path, empty when there is no separator.
pub fn parent_path_of(p: &str) -> (r: String)
    ensures
        r@ == parent_of(p@),
{
    match rlast_index(p, '/') {
        Some(i) => {
            let r = p.substring_char(0, i);
            r.to_owned()
        },
        None => String::new(),
    }
}

/// The extension of a path's file name, empty when there is none.
pub fn extension_of(p: &str) -> (r: String)
    ensures
        r@ == ext_spec(p@),
{
    let f = file_name_of(p);
    let flen = f.as_str().unicode_len();
    match rlast_index(f.as_str(), '.') {
        Some(d) if d > 0 => {
            let r = f.as_str().substring_char(d + 1, flen);
            r.to_owned()
        },
        _ => String::new(),
    }
}

/// The file name without its extension; a leading dot does not begin an
/// extension.
pub open spec fn stem_spec(f: Seq<char>) -> Seq<char> {
    let d = last_index_of(f, '.');
    if d > 0 {
        f.subrange(0, d)
    } else {
        f
    }
}

/// The stem of a file name: the name without its extension.
pub fn stem_of_name(f: String) -> (r: String)
    ensures
        r@ == stem_spec(f@),
{
    match rlast_index(f.as_str(), '.') {
        Some(d) => {
            if d > 0 {
                let r = f.as_str().substring_char(0, d);
                r.to_owned()
            } else {
                f
            }
        },
        None => f,
    }
}

/// The relative form of `p` with respect to `base`.
pub open spec fn rel_path_spec(base: Seq<char>, p: Seq<char>) -> Option<Seq<char>> {
    if p == base {
        Some(Seq::empty())
    } else if starts_with_seq(p, base + "/"@) {
        Some(p.subrange(base.len() + "/"@.len() as int, p.len() as int))
    } else {
        None
    }
}

/// Compute the relative form of `p` with respect to `base`.
pub fn relative_path_of(base: &str, p: &str) -> (r: Result<String, DocTreeError>)
    ensures
        match r {
            Ok(s) => rel_path_spec(base@, p@) == Some(s@),
            Err(e) => rel_path_spec(base@, p@) is None && e is Path,
        },
{
    if str_eq(p, base) {
        return Ok(String::new());
    }
    let prefix = concat_str(base, "/");
    let plen = prefix.as_str().unicode_len();
    if starts_with_sub(p, prefix.as_str()) {
        let r = p.substring_char(plen, p.unicode_len());
        Ok(r.to_owned())
    } else {
        Err(DocTreeError::path("cannot compute relative path".to_owned()))
    }
}

/// Whether a path names a file with a recognized source-code extension.
pub fn is_source_path(path: &str) -> (r: bool)
    ensures
        r == is_source_ext(lower_of(ext_spec(path@))),
{
    let ext = extension_of(path);
    let le = to_lower(ext.as_str());
    let e = le.as_str();
    str_eq(e, "rs") || str_eq(e, "py") || str_eq(e, "js") || str_eq(e, "ts") || str_eq(
        e,
        "tsx",
    ) || str_eq(e, "jsx") || str_eq(e, "go") || str_eq(e, "java") || str_eq(e, "cpp")
        || str_eq(e, "c") || str_eq(e, "h") || str_eq(e, "hpp") || str_eq(e, "cs") || str_eq(
        e,
        "php",
    ) || str_eq(e, "rb") || str_eq(e, "swift") || str_eq(e, "kt") || str_eq(e, "scala")
        || str_eq(e, "clj") || str_eq(e, "hs") || str_eq(e, "elm") || str_eq(e, "dart")
        || str_eq(e, "r") || str_eq(e, "jl") || str_eq(e, "ml") || str_eq(e, "fs") || str_eq(
        e,
        "pl",
    ) || str_eq(e, "sh") || str_eq(e, "bash") || str_eq(e, "zsh") || str_eq(e, "fish")
        || str_eq(e, "ps1") || str_eq(e, "html") || str_eq(e, "css") || str_eq(e, "scss")
        || str_eq(e, "sass") || str_eq(e, "less") || str_eq(e, "vue") || str_eq(e, "svelte")
        || str_eq(e, "xml") || str_eq(e, "yaml") || str_eq(e, "yml") || str_eq(e, "json")
        || str_eq(e, "toml") || str_eq(e, "ini") || str_eq(e, "cfg") || str_eq(e, "conf")
        || str_eq(e, "dockerfile") || str_eq(e, "makefile") || str_eq(e, "cmake") || str_eq(
        e,
        "sql",
    ) || str_eq(e, "graphql") || str_eq(e, "proto") || str_eq(e, "thrift") || str_eq(
        e,
        "avro",
    ) || str_eq(e, "md") || str_eq(e, "mdx") || str_eq(e, "tex") || str_eq(e, "rst")
}

/// The relative form of a path when it lies under `base`, the path itself
/// otherwise.
pub open spec fn rel_or_full_spec(base: Seq<char>, p: Seq<char>) -> Seq<char> {
    match rel_path_spec(base, p) {
        Some(r) => r,
        None => p,
    }
}

/// Compute a path's relative form, keeping the full path when it does not
/// lie under `base`.
pub fn rel_or_full_exec(base: &str, p: &str) -> (r: String)
    ensures
        r@ == rel_or_full_spec(base@, p@),
{
    match relative_path_of(base, p) {
        Ok(s) => s,
        Err(_) => to_owned_str(p),
    }
}

/// The names whose files and directories the walk leaves out.
pub open spec fn skipped_name(f: Seq<char>) -> bool {
    ||| f == "node_modules"@
    ||| f == "target"@
    ||| f == "build"@
    ||| f == "dist"@
    ||| f == "out"@
    ||| f == "__pycache__"@
    ||| f == ".pytest_cache"@
    ||| f == ".mypy_cache"@
    ||| f == ".tox"@
    ||| f == ".coverage"@
    ||| f == "coverage"@
    ||| f == ".venv"@
    ||| f == "venv"@
    ||| f == "env"@
    ||| f == ".env"@
}

/// Paths the walk leaves out: the cache directory, anything under a git
/// metadata directory, hidden names other than `.gitignore`, and the
/// usual build and dependency directories.
pub open spec fn should_skip_spec(p: Seq<char>) -> bool {
    ||| contains_seq(p, ".doctreeai_cache"@)
    ||| contains_seq(p, ".git/"@)
    ||| {
        let f = file_name_spec(p);
        (f.len() > 0 && f[0] == '.' && f != ".gitignore"@) || skipped_name(f)
    }
}

/// The scanned tree's builder: holds the base path, assembles and orders
/// the tree from a flat listing.
#[derive(Debug)]
pub struct DirectoryScanner {
    pub base_path: String,
}

impl DirectoryScanner {
    pub fn new(base_path: String) -> (r: Self)
        ensures
            r.base_path == base_path,
    {
        DirectoryScanner { base_path }
    }

    /// Whether the walk leaves this path out.
    pub fn should_skip_path(&self, path: &str) -> (r: bool)
        ensures
            r == should_skip_spec(path@),
    {
        if contains_sub(path, ".doctreeai_cache") {
            return true;
        }
        if contains_sub(path, ".git/") {
            return true;
        }
        let fname = file_name_of(path);
        let f = fname.as_str();
        if f.unicode_len() > 0 && f.get_char(0) == '.' && !str_eq(f, ".gitignore") {
            return true;
        }
        str_eq(f, "node_modules") || str_eq(f, "target") || str_eq(f, "build") || str_eq(
            f,
            "dist",
        ) || str_eq(f, "out") || str_eq(f, "__pycache__") || str_eq(f, ".pytest_cache") || str_eq(
            f,
            ".mypy_cache",
        ) || str_eq(f, ".tox") || str_eq(f, ".coverage") || str_eq(f, "coverage") || str_eq(
            f,
            ".venv",
        ) || str_eq(f, "venv") || str_eq(f, "env") || str_eq(f, ".env")
    }

    /// Attach to `parent` every pending node whose parent path is
    /// `parent`'s path, recursively for directories, and put the children
    /// into the deterministic order. Nodes that belong nowhere stay in
    /// `pending`.
    pub fn build_tree(parent: &mut FileNode, pending: &mut Vec<FileNode>)
        ensures
            final(parent).path == old(parent).path,
            final(parent).is_directory == old(parent).is_directory,
            final(parent).content_hash == old(parent).content_hash,
            final(parent).summary == old(parent).summary,
            final(parent).children@.len() >= old(parent).children@.len(),
            forall|a: int|
                0 <= a < old(parent).children@.len() ==> final(parent).children@[a] == old(
                    parent,
                ).children@[a],
            forall|a: int|
                old(parent).children@.len() <= a < final(parent).children@.len() ==> parent_of(
                    (#[trigger] final(parent).children@[a]).path@,
                ) == old(parent).path@,
            forall|a: int|
                old(parent).children@.len() <= a && a + 1 < final(parent).children@.len()
                    ==> node_le(
                    #[trigger] final(parent).children@[a],
                    final(parent).children@[a + 1],
                ),
            final(pending)@.len() <= old(pending)@.len(),
            forall|j: int|
                0 <= j < final(pending)@.len() ==> old(pending)@.contains(
                    #[trigger] final(pending)@[j],
                ),
            flat_input(*old(parent), old(pending)@) ==> {
                &&& count_spec(*final(parent)) + final(pending)@.len() == 1 + old(
                    pending,
                )@.len()
                &&& tree_sorted(*final(parent))
                &&& forall|j: int|
                    0 <= j < final(pending)@.len() ==> !has_dir_with_path(
                        *final(parent),
                        parent_of((#[trigger] final(pending)@[j]).path@),
                    )
                &&& forall|j: int|
                    0 <= j < final(pending)@.len() ==> (
                    #[trigger] final(pending)@[j]).children@.len() == 0
            },
        decreases old(pending)@.len(),
    {
        broadcast use vstd::seq_lib::group_to_multiset_ensures;
        broadcast use vstd::multiset::group_multiset_axioms;

        let ghost entry_len = pending@.len();
        let ghost pend0 = pending@;
        let ghost flat = flat_input(*old(parent), pend0);
        let ghost old_clen: int = parent.children@.len() as int;
        let parent_path = to_owned_str(parent.path.as_str());
        // Pull out of the listing every node whose parent path is this
        // node's path.
        let mut kids: Vec<FileNode> = Vec::new();
        let mut i: usize = 0;
        while i < pending.len()
            invariant
                i <= pending@.len(),
                pending@.len() + kids@.len() == entry_len,
                parent_path@ == old(parent).path@,
                forall|j: int|
                    0 <= j < i ==> parent_of((#[trigger] pending@[j]).path@) != parent_path@,
                forall|j: int|
                    0 <= j < pending@.len() ==> pend0.contains(#[trigger] pending@[j]),
                forall|t: int|
                    0 <= t < kids@.len() ==> pend0.contains(#[trigger] kids@[t]) && parent_of(
                        kids@[t].path@,
                    ) == parent_path@,
            decreases pending@.len() - i,
        {
            let pp = parent_path_of(pending[i].path.as_str());
            if str_eq(pp.as_str(), parent_path.as_str()) {
                let ghost pv = pending@;
                let ghost kv = kids@;
                let n = pending.remove(i);
                kids.push(n);
                proof {
                    assert(pv.contains(pv[i as int]));
                    assert forall|j: int|
                        0 <= j < pending@.len() implies pend0.contains(
                        #[trigger] pending@[j]) by {
                        if j < i {
                            assert(pending@[j] == pv[j]);
                        } else {
                            assert(pending@[j] == pv[j + 1]);
                        }
                    }
                    assert forall|j: int|
                        0 <= j < i implies parent_of((#[trigger] pending@[j]).path@)
                        != parent_path@ by {
                        assert(pending@[j] == pv[j]);
                    }
                }
            } else {
                i += 1;
            }
        }
        proof {
            assert(forall|j: int|
                0 <= j < pending@.len() ==> parent_of((#[trigger] pending@[j]).path@)
                    != parent_path@);
        }
        // Put the extracted children into the deterministic order before
        // any of them is worked on; attaching in this order keeps it.
        let ghost kids_pre = kids@;
        sort_nodes(&mut kids);
        let ghost kids_sorted = kids@;
        proof {
            assert forall|t: int|
                0 <= t < kids_sorted.len() implies pend0.contains(#[trigger] kids_sorted[t])
                    && parent_of(kids_sorted[t].path@) == parent_path@ && (flat
                    ==> kids_sorted[t].children@.len() == 0) by {
                assert(kids_sorted.contains(kids_sorted[t]));
                assert(kids_sorted.to_multiset().count(kids_sorted[t]) > 0);
                assert(kids_pre.contains(kids_sorted[t]));
                let u = choose|u: int| 0 <= u < kids_pre.len() && kids_pre[u] == kids_sorted[t];
                if flat {
                    let w = choose|w: int| 0 <= w < pend0.len() && pend0[w] == kids_pre[u];
                }
            }
        }
        while kids.len() > 0
            invariant
                entry_len == old(pending)@.len(),
                pend0 == old(pending)@,
                flat == flat_input(*old(parent), pend0),
                old_clen == old(parent).children@.len(),
                parent.path == old(parent).path,
                parent.is_directory == old(parent).is_directory,
                parent.content_hash == old(parent).content_hash,
                parent.summary == old(parent).summary,
                parent_path@ == old(parent).path@,
                kids@.len() <= kids_sorted.len(),
                pending@.len() + kids_sorted.len() <= entry_len,
                sorted_nodes(kids_sorted),
                forall|t: int|
                    0 <= t < kids@.len() ==> #[trigger] kids@[t] == kids_sorted[kids_sorted.len()
                        - kids@.len() + t],
                forall|t: int|
                    0 <= t < kids_sorted.len() ==> pend0.contains(#[trigger] kids_sorted[t])
                        && parent_of(kids_sorted[t].path@) == parent_path@ && (flat
                        ==> kids_sorted[t].children@.len() == 0),
                parent.children@.len() == old_clen + kids_sorted.len() - kids@.len(),
                forall|a: int| 0 <= a < old_clen ==> parent.children@[a] == old(parent).children@[a],
                forall|a: int|
                    old_clen <= a < parent.children@.len() ==> (
                    #[trigger] parent.children@[a]).path@ == kids_sorted[a - old_clen].path@
                        && parent.children@[a].is_directory == kids_sorted[a
                        - old_clen].is_directory && parent_of(parent.children@[a].path@)
                        == parent_path@,
                forall|j: int|
                    0 <= j < pending@.len() ==> pend0.contains(#[trigger] pending@[j]),
                forall|j: int|
                    0 <= j < pending@.len() ==> parent_of((#[trigger] pending@[j]).path@)
                        != parent_path@,
                flat ==> forall|j: int|
                    0 <= j < pending@.len() ==> (#[trigger] pending@[j]).children@.len() == 0,
                flat ==> count_seq(parent.children@.subrange(old_clen, parent.children@.len() as int))
                    + kids@.len() + pending@.len() == entry_len,
                flat ==> children_trees_sorted(parent.children@),
                flat ==> forall|j: int|
                    0 <= j < pending@.len() ==> !children_have_dir(
                        parent.children@,
                        parent_of((#[trigger] pending@[j]).path@),
                    ),
            decreases kids@.len(),
        {
            let ghost kv = kids@;
            let mut child = kids.remove(0);
            let ghost child0 = child;
            proof {
                assert(child0 == kids_sorted[kids_sorted.len() - kv.len()]);
                assert forall|t: int|
                    0 <= t < kids@.len() implies #[trigger] kids@[t] == kids_sorted[
                kids_sorted.len() - kids@.len() + t] by {
                    assert(kids@[t] == kv[t + 1]);
                }
            }
            let ghost pend_before = pending@;
            if child.is_directory {
                assert(pending@.len() < entry_len);
                Self::build_tree(&mut child, pending);
            }
            proof {
                assert forall|j: int|
                    0 <= j < pending@.len() implies pend0.contains(#[trigger] pending@[j])
                        && parent_of(pending@[j].path@) != parent_path@ && (flat
                        ==> pending@[j].children@.len() == 0) by {
                    if child0.is_directory {
                        assert(pend_before.contains(pending@[j]));
                        let w = choose|w: int|
                            0 <= w < pend_before.len() && pend_before[w] == pending@[j];
                    }
                }
            }
            let ghost cv = parent.children@;
            let ghost childf = child;
            parent.add_child(child);
            proof {
                let a = cv.len() as int;
                assert(parent.children@ == cv.push(childf));
                let newc = childf;
                assert(parent.children@[a] == newc);
                assert(newc.path@ == child0.path@ && newc.is_directory == child0.is_directory);
                if flat && child0.is_directory {
                    assert(flat_input(child0, pend_before));
                }
                if flat {
                    // Conservation: the attached subtree holds one node
                    // for the kid plus one for each listing node it
                    // absorbed.
                    let seg_pre = cv.subrange(old_clen, cv.len() as int);
                    let seg = parent.children@.subrange(old_clen, parent.children@.len() as int);
                    assert(seg.drop_last() =~= seg_pre);
                    assert(seg.last() == newc);
                    if child0.is_directory {
                        assert(count_spec(newc) + pending@.len() == 1 + pend_before.len());
                    } else {
                        assert(newc.children@.len() == 0);
                        assert(count_seq(newc.children@) == 0);
                        assert(count_spec(newc) == 1);
                    }
                    // Order and assembly facts carry to the grown child
                    // sequence.
                    assert(tree_sorted(newc)) by {
                        if !child0.is_directory {
                            assert(newc.children@.len() == 0);
                            assert(sorted_nodes(newc.children@));
                            assert(children_trees_sorted(newc.children@));
                        }
                    }
                    assert(children_trees_sorted(parent.children@)) by {
                        assert(cv.push(newc).drop_last() =~= cv);
                        assert(cv.push(newc).last() == newc);
                        assert(children_trees_sorted(cv.push(newc)));
                    }
                    assert forall|j: int|
                        0 <= j < pending@.len() implies !children_have_dir(
                        parent.children@,
                        parent_of((#[trigger] pending@[j]).path@),
                    ) by {
                        let q = parent_of(pending@[j].path@);
                        assert(!children_have_dir(cv, q));
                        assert(!has_dir_with_path(newc, q)) by {
                            if !child0.is_directory {
                                assert(newc.children@.len() == 0);
                                assert(!children_have_dir(newc.children@, q));
                            }
                        }
                        assert(cv.push(newc).drop_last() =~= cv);
                        assert(cv.push(newc).last() == newc);
                        assert(!children_have_dir(cv.push(newc), q));
                    }
                }
            }
        }
        proof {
            if flat {
                assert(old_clen == 0);
                let whole = parent.children@.subrange(0, parent.children@.len() as int);
                assert(whole =~= parent.children@);
                assert(count_seq(parent.children@) + pending@.len() == entry_len);
                assert(count_spec(*parent) == 1 + count_seq(parent.children@));
                assert(sorted_nodes(parent.children@)) by {
                    assert forall|a: int|
                        0 <= a && a + 1 < parent.children@.len() implies node_le(
                        #[trigger] parent.children@[a],
                        parent.children@[a + 1],
                    ) by {
                        assert(node_le(kids_sorted[a], kids_sorted[a + 1]));
                    }
                }
                assert forall|j: int|
                    0 <= j < pending@.len() implies !has_dir_with_path(
                    *parent,
                    parent_of((#[trigger] pending@[j]).path@),
                ) by {
                    assert(parent_of(pending@[j].path@) != parent_path@);
                }
            }
            assert forall|a: int|
                old_clen <= a && a + 1 < parent.children@.len() implies node_le(
                #[trigger] parent.children@[a],
                parent.children@[a + 1],
            ) by {
                assert(node_le(kids_sorted[a - old_clen], kids_sorted[a + 1 - old_clen]));
            }
        }
    }

    /// The number of nodes in the tree, capped at the machine limit.
    pub fn count_nodes(node: &FileNode) -> (r: usize)
        ensures
            r == if count_spec(*node) <= usize::MAX {
                count_spec(*node)
            } else {
                usize::MAX as int
            },
        decreases *node,
    {
        let mut total: usize = 1;
        let mut i: usize = 0;
        proof {
            assert(count_seq(node.children@.subrange(0, 0)) == 0);
        }
        while i < node.children.len()
            invariant
                i <= node.children@.len(),
                total == if 1 + count_seq(node.children@.subrange(0, i as int)) <= usize::MAX {
                    1 + count_seq(node.children@.subrange(0, i as int))
                } else {
                    usize::MAX as int
                },
            decreases node.children@.len() - i,
        {
            proof {
                assert(decreases_to!(*node => node.children@[i as int]));
                lemma_count_seq_nonneg(node.children@.subrange(0, i as int));
                lemma_count_spec_pos(node.children@[i as int]);
            }
            let c = Self::count_nodes(&node.children[i]);
            if total > usize::MAX - c {
                total = usize::MAX;
            } else {
                total = total + c;
            }
            i += 1;
            proof {
                let pre = node.children@.subrange(0, i as int);
                assert(pre.drop_last() =~= node.children@.subrange(0, i - 1));
            }
        }
        proof {
            assert(node.children@.subrange(0, node.children@.len() as int) =~= node.children@);
        }
        total
    }

    /// Copies of every source-code file node in the tree, in walk order.
    /// Each copy carries the node's path, flags, fingerprint and summary;
    /// file nodes have no children of their own.
    pub fn filter_source_files(node: &FileNode) -> (r: Vec<FileNode>)
        ensures
            shallow_eq_seq(r@, source_files_spec(*node)),
        decreases *node,
    {
        let mut r: Vec<FileNode> = Vec::new();
        if !node.is_directory && node.is_source_code_file() {
            r.push(shallow_copy(node));
        }
        let ghost whole = source_files_spec(*node);
        let ghost head = if !node.is_directory && is_source_ext(
            lower_of(ext_spec(node.path@)),
        ) {
            seq![*node]
        } else {
            Seq::<FileNode>::empty()
        };
        let mut i: usize = 0;
        proof {
        assert(whole == head + children_source_files(node.children@));
            assert(children_source_files(node.children@.subrange(0, 0))
                =~= Seq::<FileNode>::empty());
            assert(shallow_eq_seq(r@, head + children_source_files(
                node.children@.subrange(0, 0),
            )));
        }
        while i < node.children.len()
            invariant
                i <= node.children@.len(),
                head == if !node.is_directory && is_source_ext(lower_of(ext_spec(node.path@))) {
                    seq![*node]
                } else {
                    Seq::<FileNode>::empty()
                },
                shallow_eq_seq(r@, head + children_source_files(
                    node.children@.subrange(0, i as int),
                )),
            decreases node.children@.len() - i,
        {
            proof {
                assert(decreases_to!(*node => node.children@[i as int]));
            }
            let mut sub = Self::filter_source_files(&node.children[i]);
            let ghost rv = r@;
            let ghost subv = sub@;
            append_nodes(&mut r, sub);
            i += 1;
            proof {
                let pre = node.children@.subrange(0, i as int);
                assert(pre.drop_last() =~= node.children@.subrange(0, i - 1));
                lemma_shallow_eq_append(
                    rv,
                    head + children_source_files(node.children@.subrange(0, i - 1)),
                    subv,
                    source_files_spec(node.children@[i - 1]),
                );
                assert(head + children_source_files(node.children@.subrange(0, i - 1))
                    + source_files_spec(node.children@[i - 1]) =~= head
                    + children_source_files(pre));
            }
        }
        proof {
            assert(node.children@.subrange(0, node.children@.len() as int) =~= node.children@);
        }
        r
    }

    /// Copies of every directory node in the tree, in walk order. Each
    /// copy carries the node's path, flags, fingerprint and summary,
    /// without its children.
    pub fn get_directories(node: &FileNode) -> (r: Vec<FileNode>)
        ensures
            shallow_eq_seq(r@, directories_spec(*node)),
        decreases *node,
    {
        let mut r: Vec<FileNode> = Vec::new();
        if node.is_directory {
            r.push(shallow_copy(node));
        }
        let ghost whole = directories_spec(*node);
        let ghost head = if node.is_directory {
            seq![*node]
        } else {
            Seq::<FileNode>::empty()
        };
        let mut i: usize = 0;
        proof {
            assert(whole == head + children_directories(node.children@));
            assert(children_directories(node.children@.subrange(0, 0))
                =~= Seq::<FileNode>::empty());
            assert(shallow_eq_seq(r@, head + children_directories(
                node.children@.subrange(0, 0),
            )));
        }
        while i < node.children.len()
            invariant
                i <= node.children@.len(),
                head == if node.is_directory {
                    seq![*node]
                } else {
                    Seq::<FileNode>::empty()
                },
                shallow_eq_seq(r@, head + children_directories(
                    node.children@.subrange(0, i as int),
                )),
            decreases node.children@.len() - i,
        {
            proof {
                assert(decreases_to!(*node => node.children@[i as int]));
            }
            let mut sub = Self::get_directories(&node.children[i]);
            let ghost rv = r@;
            let ghost subv = sub@;
            append_nodes(&mut r, sub);
            i += 1;
            proof {
                let pre = node.children@.subrange(0, i as int);
                assert(pre.drop_last() =~= node.children@.subrange(0, i - 1));
                lemma_shallow_eq_append(
                    rv,
                    head + children_directories(node.children@.subrange(0, i - 1)),
                    subv,
                    directories_spec(node.children@[i - 1]),
                );
                assert(head + children_directories(node.children@.subrange(0, i - 1))
                    + directories_spec(node.children@[i - 1]) =~= head + children_directories(
                    pre,
                ));
            }
        }
        proof {
            assert(node.children@.subrange(0, node.children@.len() as int) =~= node.children@);
        }
        r
    }
}

/// The number of nodes in the tree below and including `n`.
pub open spec fn count_spec(n: FileNode) -> int
    decreases n, 0int,
{
    1 + count_seq(n.children@)
}

pub open spec fn count_seq(s: Seq<FileNode>) -> int
    decreases s, 1int,
{
    if s.len() == 0 {
        0
    } else {
        count_spec(s.last()) + count_seq(s.drop_last())
    }
}

pub proof fn lemma_count_seq_nonneg(s: Seq<FileNode>)
    ensures
        count_seq(s) >= 0,
    decreases s, 1int,
{
    if s.len() > 0 {
        lemma_count_spec_pos(s.last());
        lemma_count_seq_nonneg(s.drop_last());
    }
}

pub proof fn lemma_count_spec_pos(n: FileNode)
    ensures
        count_spec(n) >= 1,
    decreases n, 0int,
{
    lemma_count_seq_nonneg(n.children@);
}

pub proof fn lemma_count_seq_prefix_le(s: Seq<FileNode>, k: int)
    requires
        0 <= k <= s.len(),
    ensures
        count_seq(s.subrange(0, k)) <= count_seq(s),
    decreases s.len() - k,
{
    if k == s.len() {
        assert(s.subrange(0, s.len() as int) =~= s);
    } else {
        let p = s.subrange(0, k + 1);
        assert(p.drop_last() =~= s.subrange(0, k));
        assert(p.last() == s[k]);
        lemma_count_spec_pos(s[k]);
        lemma_count_seq_prefix_le(s, k + 1);
    }
}

/// The source-code file nodes of the tree, in walk order.
pub open spec fn source_files_spec(n: FileNode) -> Seq<FileNode>
    decreases n, 0int,
{
    let head = if !n.is_directory && is_source_ext(lower_of(ext_spec(n.path@))) {
        seq![n]
    } else {
        Seq::<FileNode>::empty()
    };
    head + children_source_files(n.children@)
}

pub open spec fn children_source_files(s: Seq<FileNode>) -> Seq<FileNode>
    decreases s, 1int,
{
    if s.len() == 0 {
        Seq::empty()
    } else {
        children_source_files(s.drop_last()) + source_files_spec(s.last())
    }
}

/// The directory nodes of the tree, in walk order.
pub open spec fn directories_spec(n: FileNode) -> Seq<FileNode>
    decreases n, 0int,
{
    let head = if n.is_directory {
        seq![n]
    } else {
        Seq::<FileNode>::empty()
    };
    head + children_directories(n.children@)
}

pub open spec fn children_directories(s: Seq<FileNode>) -> Seq<FileNode>
    decreases s, 1int,
{
    if s.len() == 0 {
        Seq::empty()
    } else {
        children_directories(s.drop_last()) + directories_spec(s.last())
    }
}

/// Two nodes agree on everything but their children.
pub open spec fn shallow_eq(a: FileNode, b: FileNode) -> bool {
    &&& a.path@ == b.path@
    &&& a.is_directory == b.is_directory
    &&& match (a.content_hash, b.content_hash) {
        (Some(x), Some(y)) => x@ == y@,
        (None, None) => true,
        _ => false,
    }
    &&& match (a.summary, b.summary) {
        (Some(x), Some(y)) => x@ == y@,
        (None, None) => true,
        _ => false,
    }
}

/// Pointwise shallow equality of two node sequences.
pub open spec fn shallow_eq_seq(a: Seq<FileNode>, b: Seq<FileNode>) -> bool {
    a.len() == b.len() && forall|i: int| 0 <= i < a.len() ==> shallow_eq(a[i], #[trigger] b[i])
}

proof fn lemma_shallow_eq_append(
    a1: Seq<FileNode>,
    b1: Seq<FileNode>,
    a2: Seq<FileNode>,
    b2: Seq<FileNode>,
)
    requires
        shallow_eq_seq(a1, b1),
        shallow_eq_seq(a2, b2),
    ensures
        shallow_eq_seq(a1 + a2, b1 + b2),
{
    assert forall|i: int| 0 <= i < (a1 + a2).len() implies shallow_eq(
        (a1 + a2)[i],
        #[trigger] (b1 + b2)[i],
    ) by {
        if i < a1.len() {
            assert((a1 + a2)[i] == a1[i] && (b1 + b2)[i] == b1[i]);
        } else {
            assert((a1 + a2)[i] == a2[i - a1.len()] && (b1 + b2)[i] == b2[i - a1.len()]);
        }
    }
}

/// A copy of a node without its children.
fn shallow_copy(n: &FileNode) -> (r: FileNode)
    ensures
        shallow_eq(r, *n),
        r.children@ == Seq::<FileNode>::empty(),
{
    let content_hash = match &n.content_hash {
        Some(h) => Some(to_owned_str(h.as_str())),
        None => None,
    };
    let summary = match &n.summary {
        Some(s) => Some(to_owned_str(s.as_str())),
        None => None,
    };
    let r = FileNode {
        path: to_owned_str(n.path.as_str()),
        is_directory: n.is_directory,
        children: Vec::new(),
        content_hash,
        summary,
    };
    proof {
        assert(r.children@ =~= Seq::<FileNode>::empty());
    }
    r
}

/// Move all nodes of `src` onto the end of `dst`.
fn append_nodes(dst: &mut Vec<FileNode>, src: Vec<FileNode>)
    ensures
        final(dst)@ == old(dst)@ + src@,
{
    let mut src = src;
    let ghost sv = src@;
    let ghost dst0 = dst@;
    let ghost mut i: int = 0;
    proof {
        assert(dst@ + sv.subrange(0, 0) =~= dst@);
    }
    while src.len() > 0
        invariant
            i + src@.len() == sv.len(),
            0 <= i <= sv.len(),
            forall|k: int| 0 <= k < src@.len() ==> src@[k] == sv[i + k],
            dst@ == dst0 + sv.subrange(0, i),
        decreases src@.len(),
    {
        let n = src.remove(0);
        dst.push(n);
        proof {
            i = i + 1;
            assert(dst@ =~= dst0 + sv.subrange(0, i));
        }
    }
    proof {
        assert(sv.subrange(0, sv.len() as int) =~= sv);
    }
}

/// Lexicographic order on character sequences.
pub open spec fn lex_le_spec(a: Seq<char>, b: Seq<char>) -> bool
    decreases a.len(),
{
    if a.len() == 0 {
        true
    } else if b.len() == 0 {
        false
    } else if a[0] != b[0] {
        (a[0] as u32) < (b[0] as u32)
    } else {
        lex_le_spec(a.drop_first(), b.drop_first())
    }
}

proof fn lemma_lex_le_total(a: Seq<char>, b: Seq<char>)
    ensures
        lex_le_spec(a, b) || lex_le_spec(b, a),
    decreases a.len(),
{
    if a.len() > 0 && b.len() > 0 {
        if a[0] == b[0] {
            lemma_lex_le_total(a.drop_first(), b.drop_first());
        } else {
            lemma_char_cast_injective(a[0], b[0]);
        }
    }
}

proof fn lemma_char_cast_injective(x: char, y: char)
    requires
        x != y,
    ensures
        x as u32 != y as u32,
{
    assert(x as u32 != y as u32) by {
        if x as u32 == y as u32 {
            assert(x == y);
        }
    }
}

proof fn lemma_lex_le_refl(a: Seq<char>)
    ensures
        lex_le_spec(a, a),
    decreases a.len(),
{
    if a.len() > 0 {
        lemma_lex_le_refl(a.drop_first());
    }
}

proof fn lemma_node_le_refl(a: FileNode)
    ensures
        node_le(a, a),
{
    lemma_lex_le_refl(a.path@);
}

proof fn lemma_lex_le_trans(a: Seq<char>, b: Seq<char>, c: Seq<char>)
    requires
        lex_le_spec(a, b),
        lex_le_spec(b, c),
    ensures
        lex_le_spec(a, c),
    decreases a.len(),
{
    if a.len() > 0 && b.len() > 0 && c.len() > 0 && a[0] == b[0] && b[0] == c[0] {
        lemma_lex_le_trans(a.drop_first(), b.drop_first(), c.drop_first());
    }
}

proof fn lemma_lex_le_skip(a: Seq<char>, b: Seq<char>, i: int)
    requires
        0 <= i <= a.len(),
        i <= b.len(),
        forall|k: int| 0 <= k < i ==> a[k] == b[k],
    ensures
        lex_le_spec(a, b) == lex_le_spec(
            a.subrange(i, a.len() as int),
            b.subrange(i, b.len() as int),
        ),
    decreases i,
{
    if i == 0 {
        assert(a.subrange(0, a.len() as int) =~= a);
        assert(b.subrange(0, b.len() as int) =~= b);
    } else {
        assert(a.len() > 0 && b.len() > 0 && a[0] == b[0]);
        let da = a.drop_first();
        let db = b.drop_first();
        assert(forall|k: int| 0 <= k < i - 1 ==> da[k] == db[k]);
        lemma_lex_le_skip(da, db, i - 1);
        assert(da.subrange(i - 1, da.len() as int) =~= a.subrange(i, a.len() as int));
        assert(db.subrange(i - 1, db.len() as int) =~= b.subrange(i, b.len() as int));
    }
}

/// Decide the lexicographic order on two strings.
fn lex_le(a: &str, b: &str) -> (r: bool)
    ensures
        r == lex_le_spec(a@, b@),
{
    let alen = a.unicode_len();
    let blen = b.unicode_len();
    let mut i: usize = 0;
    while i < alen && i < blen
        invariant
            alen == a@.len(),
            blen == b@.len(),
            i <= alen,
            i <= blen,
            forall|k: int| 0 <= k < i ==> a@[k] == b@[k],
        decreases alen - i,
    {
        let ca = a.get_char(i);
        let cb = b.get_char(i);
        if ca != cb {
            proof {
                lemma_lex_le_skip(a@, b@, i as int);
            }
            return (ca as u32) < (cb as u32);
        }
        i += 1;
    }
    proof {
        lemma_lex_le_skip(a@, b@, i as int);
    }
    alen <= blen
}

/// The deterministic child order: directories before files, then
/// lexicographic by path.
pub open spec fn node_le(a: FileNode, b: FileNode) -> bool {
    if a.is_directory != b.is_directory {
        a.is_directory
    } else {
        lex_le_spec(a.path@, b.path@)
    }
}

proof fn lemma_node_le_total(a: FileNode, b: FileNode)
    ensures
        node_le(a, b) || node_le(b, a),
{
    if a.is_directory == b.is_directory {
        lemma_lex_le_total(a.path@, b.path@);
    }
}

proof fn lemma_node_le_trans(a: FileNode, b: FileNode, c: FileNode)
    requires
        node_le(a, b),
        node_le(b, c),
    ensures
        node_le(a, c),
{
    if a.is_directory == b.is_directory && b.is_directory == c.is_directory {
        lemma_lex_le_trans(a.path@, b.path@, c.path@);
    }
}

/// Every adjacent pair is in order.
pub open spec fn sorted_nodes(s: Seq<FileNode>) -> bool {
    forall|i: int| 0 <= i && i + 1 < s.len() ==> node_le(#[trigger] s[i], s[i + 1])
}

/// Every directory level of the tree is in the deterministic child
/// order.
pub open spec fn tree_sorted(n: FileNode) -> bool
    decreases n, 0int,
{
    sorted_nodes(n.children@) && children_trees_sorted(n.children@)
}

pub open spec fn children_trees_sorted(s: Seq<FileNode>) -> bool
    decreases s, 1int,
{
    if s.len() == 0 {
        true
    } else {
        children_trees_sorted(s.drop_last()) && tree_sorted(s.last())
    }
}

/// The tree holds a directory whose path is exactly `q`.
pub open spec fn has_dir_with_path(n: FileNode, q: Seq<char>) -> bool
    decreases n, 0int,
{
    (n.is_directory && n.path@ == q) || children_have_dir(n.children@, q)
}

pub open spec fn children_have_dir(s: Seq<FileNode>, q: Seq<char>) -> bool
    decreases s, 1int,
{
    if s.len() == 0 {
        false
    } else {
        children_have_dir(s.drop_last(), q) || has_dir_with_path(s.last(), q)
    }
}

/// What the walker hands over: a parent with no children yet and a flat
/// listing of nodes that carry no subtrees of their own.
pub open spec fn flat_input(parent: FileNode, pending: Seq<FileNode>) -> bool {
    parent.children@.len() == 0 && forall|j: int|
        0 <= j < pending.len() ==> (#[trigger] pending[j]).children@.len() == 0
}

/// Decide the deterministic child order on two nodes.
fn node_le_exec(a: &FileNode, b: &FileNode) -> (r: bool)
    ensures
        r == node_le(*a, *b),
{
    if a.is_directory != b.is_directory {
        a.is_directory
    } else {
        lex_le(a.path.as_str(), b.path.as_str())
    }
}

/// Put nodes into the deterministic child order, keeping exactly the same
/// collection of nodes.
pub fn sort_nodes(v: &mut Vec<FileNode>)
    ensures
        sorted_nodes(final(v)@),
        final(v)@.to_multiset() == old(v)@.to_multiset(),
        final(v)@.len() == old(v)@.len(),
{
    broadcast use vstd::seq_lib::group_to_multiset_ensures;
    broadcast use vstd::multiset::group_multiset_axioms;

    let ghost orig = v@;
    let mut rest: Vec<FileNode> = Vec::new();
    core::mem::swap(v, &mut rest);
    proof {
        vstd::multiset::lemma_multiset_empty_len(v@.to_multiset());
        assert(v@.to_multiset().add(rest@.to_multiset()) =~= orig.to_multiset());
    }
    while rest.len() > 0
        invariant
            v@.to_multiset().add(rest@.to_multiset()) =~= orig.to_multiset(),
            v@.len() + rest@.len() == orig.len(),
            sorted_nodes(v@),
            forall|i: int, j: int|
                0 <= i < v@.len() && 0 <= j < rest@.len() ==> node_le(
                    #[trigger] v@[i],
                    #[trigger] rest@[j],
                ),
        decreases rest@.len(),
    {
        // Find the least remaining node.
        let mut m: usize = 0;
        let mut j: usize = 1;
        proof {
            lemma_node_le_refl(rest@[0]);
        }
        while j < rest.len()
            invariant
                m < j,
                m < rest@.len(),
                j <= rest@.len(),
                forall|k: int| 0 <= k < j ==> node_le(rest@[m as int], #[trigger] rest@[k]),
            decreases rest@.len() - j,
        {
            if !node_le_exec(&rest[m], &rest[j]) {
                proof {
                    lemma_node_le_total(rest@[m as int], rest@[j as int]);
                    assert forall|k: int| 0 <= k < j + 1 implies node_le(
                        rest@[j as int],
                        #[trigger] rest@[k],
                    ) by {
                        if k < j {
                            lemma_node_le_trans(rest@[j as int], rest@[m as int], rest@[k]);
                        } else {
                            lemma_node_le_refl(rest@[j as int]);
                        }
                    }
                }
                m = j;
            }
            j += 1;
        }
        proof {
            assert(forall|k: int|
                0 <= k < rest@.len() ==> node_le(rest@[m as int], #[trigger] rest@[k]));
        }
        let ghost rv = rest@;
        let ghost vv = v@;
        let n = rest.remove(m);
        let ghost nv = n;
        v.push(n);
        proof {
            assert(v@.to_multiset().add(rest@.to_multiset()) =~= orig.to_multiset()) by {
                assert(rv.contains(rv[m as int]));
                vstd::seq_lib::to_multiset_remove::<FileNode>(rv, m as int);
                vstd::seq_lib::to_multiset_build::<FileNode>(vv, nv);
                vstd::seq_lib::to_multiset_contains::<FileNode>(rv, nv);
                assert(rest@ == rv.remove(m as int));
                assert(v@ == vv.push(nv));
                assert(nv == rv[m as int]);
                assert(rv.to_multiset().count(rv[m as int]) > 0);
            }
            assert(sorted_nodes(v@)) by {
                assert(forall|i: int| 0 <= i < vv.len() ==> #[trigger] v@[i] == vv[i]);
                if vv.len() > 0 {
                    assert(node_le(v@[vv.len() - 1], v@[vv.len() as int]));
                }
            }
            assert forall|i: int, j2: int|
                0 <= i < v@.len() && 0 <= j2 < rest@.len() implies node_le(
                #[trigger] v@[i],
                #[trigger] rest@[j2],
            ) by {
                let oldj = if j2 < m as int {
                    j2
                } else {
                    j2 + 1
                };
                assert(rest@[j2] == rv[oldj]);
                if i < vv.len() {
                    assert(v@[i] == vv[i]);
                } else {
                    assert(v@[i] == rv[m as int]);
                }
            }
        }
    }
}

} // verus!
