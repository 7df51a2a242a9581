//! Inspection of a maintained document's text: which section headings it
//! has, whether it appears to describe the project, and the template for a
//! fresh minimal document. Reading and writing the document itself happens
//! outside; this module only consumes and produces text.

use vstd::prelude::*;
use crate::strutil::{
    contains_seq, contains_sub, concat_str, lower_of, split_lines, split_lines_spec, to_lower,
    trim_spec, trim_str,
};

verus! {

/// What an inspection of the document's text found. The size is the
/// document's length in characters.
#[derive(Debug)]
pub struct ReadmeInfo {
    pub exists: bool,
    pub size: usize,
    pub has_project_description: bool,
    pub sections: Vec<String>,
}

/// `s` with every leading `#` removed.
pub open spec fn strip_hashes(s: Seq<char>) -> Seq<char>
    decreases s.len(),
{
    if s.len() > 0 && s[0] == '#' {
        strip_hashes(s.drop_first())
    } else {
        s
    }
}

/// The section title a line contributes: present when the trimmed line is
/// a markdown heading with a non-empty title after its hash marks.
pub open spec fn heading_title(line: Seq<char>) -> Option<Seq<char>> {
    let t = trim_spec(line);
    if t.len() > 1 && t[0] == '#' {
        let u = trim_spec(strip_hashes(t));
        if u.len() > 0 {
            Some(u)
        } else {
            None
        }
    } else {
        None
    }
}

/// The titles of all heading lines, in order.
pub open spec fn section_titles(lines: Seq<Seq<char>>) -> Seq<Seq<char>>
    decreases lines.len(),
{
    if lines.len() == 0 {
        Seq::empty()
    } else {
        let p = section_titles(lines.drop_last());
        match heading_title(lines.last()) {
            Some(t) => p.push(t),
            None => p,
        }
    }
}

/// Whether a lowercased document text contains one of the usual signs of
/// a project description.
pub open spec fn describes_project(lc: Seq<char>) -> bool {
    contains_seq(lc, "description"@) || contains_seq(lc, "about"@) || contains_seq(
        lc,
        "overview"@,
    ) || contains_seq(lc, "what is"@) || contains_seq(lc, "purpose"@)
}

proof fn lemma_strip_hashes_is_suffix(s: Seq<char>, k: int)
    requires
        0 <= k <= s.len(),
        forall|j: int| 0 <= j < k ==> s[j] == '#',
        k == s.len() || s[k] != '#',
    ensures
        strip_hashes(s) == s.subrange(k, s.len() as int),
    decreases k,
{
    if k == 0 {
        assert(s.subrange(0, s.len() as int) =~= s);
    } else {
        let d = s.drop_first();
        lemma_strip_hashes_is_suffix(d, k - 1);
        assert(d.subrange(k - 1, d.len() as int) =~= s.subrange(k, s.len() as int));
    }
}

/// The title contributed by one line, if it is a heading.
fn heading_title_exec(line: &str) -> (r: Option<String>)
    ensures
        match r {
            Some(t) => heading_title(line@) == Some(t@),
            None => heading_title(line@) == None::<Seq<char>>,
        },
{
    let t = trim_str(line);
    let tlen = t.as_str().unicode_len();
    if tlen > 1 && t.as_str().get_char(0) == '#' {
        let mut k: usize = 0;
        while k < tlen && t.as_str().get_char(k) == '#'
            invariant
                tlen == t@.len(),
                k <= tlen,
                forall|j: int| 0 <= j < k ==> t@[j] == '#',
            decreases tlen - k,
        {
            k += 1;
        }
        proof {
            lemma_strip_hashes_is_suffix(t@, k as int);
        }
        let rest = t.as_str().substring_char(k, tlen);
        let u = trim_str(rest);
        if u.as_str().unicode_len() > 0 {
            Some(u)
        } else {
            None
        }
    } else {
        None
    }
}

/// The section titles of a document's text, top to bottom.
pub fn extract_sections(content: &str) -> (r: Vec<String>)
    ensures
        r.deep_view() == section_titles(split_lines_spec(content@)),
{
    let lines = split_lines(content);
    let ghost ls = lines.deep_view();
    let mut r: Vec<String> = Vec::new();
    let mut i: usize = 0;
    proof {
        assert(r.deep_view() =~= section_titles(ls.subrange(0, 0)));
    }
    while i < lines.len()
        invariant
            ls == lines.deep_view(),
            ls.len() == lines@.len(),
            i <= ls.len(),
            r.deep_view() == section_titles(ls.subrange(0, i as int)),
        decreases lines@.len() - i,
    {
        let ghost rv = r.deep_view();
        match heading_title_exec(lines[i].as_str()) {
            Some(t) => {
                r.push(t);
                proof {
                    assert(r.deep_view() =~= rv.push(heading_title(ls[i as int])->Some_0));
                }
            },
            None => {},
        }
        i += 1;
        proof {
            let pre = ls.subrange(0, i as int);
            assert(pre.drop_last() =~= ls.subrange(0, i - 1));
            assert(pre.last() == ls[i - 1]);
            assert(r.deep_view() =~= section_titles(pre));
        }
    }
    proof {
        assert(ls.subrange(0, ls.len() as int) =~= ls);
    }
    r
}

/// Whether the document's text, lowercased, shows the usual signs of a
/// project description.
pub fn detect_project_description(content: &str) -> (r: bool)
    ensures
        r == describes_project(lower_of(content@)),
{
    let lc = to_lower(content);
    let lcs = lc.as_str();
    contains_sub(lcs, "description") || contains_sub(lcs, "about") || contains_sub(
        lcs,
        "overview",
    ) || contains_sub(lcs, "what is") || contains_sub(lcs, "purpose")
}

/// Inspect a document's text.
pub fn readme_info_from_content(content: &str) -> (r: ReadmeInfo)
    ensures
        r.exists == true,
        r.size == content@.len(),
        r.has_project_description == describes_project(lower_of(content@)),
        r.sections.deep_view() == section_titles(split_lines_spec(content@)),
{
    ReadmeInfo {
        exists: true,
        size: content.unicode_len(),
        has_project_description: detect_project_description(content),
        sections: extract_sections(content),
    }
}

/// What an inspection reports when the document does not exist.
pub fn readme_info_missing() -> (r: ReadmeInfo)
    ensures
        r.exists == false,
        r.size == 0,
        r.has_project_description == false,
        r.sections.deep_view() == Seq::<Seq<char>>::empty(),
{
    let r = ReadmeInfo {
        exists: false,
        size: 0,
        has_project_description: false,
        sections: Vec::new(),
    };
    proof {
        assert(r.sections.deep_view() =~= Seq::<Seq<char>>::empty());
    }
    r
}

/// The skeleton appended after the project name and summary in a fresh
/// minimal document.
pub open spec fn minimal_readme_tail() -> Seq<char> {
    "\n\n## Installation\n\nAdd installation instructions here.\n\n## Usage\n\nAdd usage examples here.\n\n## Contributing\n\nAdd contribution guidelines here.\n\n## License\n\nAdd license information here.\n"@
}

/// The text of a fresh minimal document: a heading with the project name,
/// the project summary, and placeholder sections.
pub fn minimal_readme_content(project_name: &str, project_summary: &str) -> (r: String)
    ensures
        r@ == "# "@ + project_name@ + "\n\n"@ + project_summary@ + minimal_readme_tail(),
{
    let mut r = concat_str("# ", project_name);
    r.append("\n\n");
    r.append(project_summary);
    r.append(
        "\n\n## Installation\n\nAdd installation instructions here.\n\n## Usage\n\nAdd usage examples here.\n\n## Contributing\n\nAdd contribution guidelines here.\n\n## License\n\nAdd license information here.\n",
    );
    r
}

} // verus!
