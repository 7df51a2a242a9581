//! Verified string utilities: substring search, prefix tests, trimming,
//! line splitting and concatenation, all specified over `Seq<char>` views.
//! Case folding is delegated to the standard library behind a trusted
//! wrapper, since Unicode lowercasing is not something to restate here.

use vstd::prelude::*;

verus! {

/// `p` occurs as a contiguous subsequence of `s`.
pub open spec fn contains_seq(s: Seq<char>, p: Seq<char>) -> bool {
    exists|i: int| 0 <= i && i + p.len() <= s.len() && #[trigger] s.subrange(i, i + p.len()) == p
}

/// `s` begins with `p`.
pub open spec fn starts_with_seq(s: Seq<char>, p: Seq<char>) -> bool {
    p.len() <= s.len() && s.subrange(0, p.len() as int) == p
}

/// The whitespace characters recognized when trimming a line.
pub open spec fn is_space_char(c: char) -> bool {
    c == ' ' || c == '\t' || c == '\n' || c == '\r'
}

pub open spec fn trim_start_spec(s: Seq<char>) -> Seq<char>
    decreases s.len(),
{
    if s.len() > 0 && is_space_char(s[0]) {
        trim_start_spec(s.drop_first())
    } else {
        s
    }
}

pub open spec fn trim_end_spec(s: Seq<char>) -> Seq<char>
    decreases s.len(),
{
    if s.len() > 0 && is_space_char(s.last()) {
        trim_end_spec(s.drop_last())
    } else {
        s
    }
}

/// `s` with leading and trailing whitespace removed.
pub open spec fn trim_spec(s: Seq<char>) -> Seq<char> {
    trim_end_spec(trim_start_spec(s))
}

pub fn is_space(c: char) -> (r: bool)
    ensures
        r == is_space_char(c),
{
    c == ' ' || c == '\t' || c == '\n' || c == '\r'
}

/// Equality of two string slices, decided character by character.
pub fn str_eq(a: &str, b: &str) -> (r: bool)
    ensures
        r == (a@ == b@),
{
    let alen = a.unicode_len();
    let blen = b.unicode_len();
    if alen != blen {
        assert(a@ != b@) by {
            assert(a@.len() != b@.len());
        }
        return false;
    }
    let mut i: usize = 0;
    while i < alen
        invariant
            alen == a@.len(),
            alen == b@.len(),
            i <= alen,
            forall|j: int| 0 <= j < i ==> a@[j] == b@[j],
        decreases alen - i,
    {
        if a.get_char(i) != b.get_char(i) {
            return false;
        }
        i += 1;
    }
    proof {
        assert(a@ =~= b@);
    }
    true
}

/// Whether `s` starts with `p`.
pub fn starts_with_sub(s: &str, p: &str) -> (r: bool)
    ensures
        r == starts_with_seq(s@, p@),
{
    let slen = s.unicode_len();
    let plen = p.unicode_len();
    if plen > slen {
        return false;
    }
    let mut i: usize = 0;
    while i < plen
        invariant
            slen == s@.len(),
            plen == p@.len(),
            plen <= slen,
            i <= plen,
            forall|j: int| 0 <= j < i ==> s@[j] == p@[j],
        decreases plen - i,
    {
        if s.get_char(i) != p.get_char(i) {
            assert(s@.subrange(0, plen as int) != p@) by {
                assert(s@.subrange(0, plen as int)[i as int] == s@[i as int]);
            }
            return false;
        }
        i += 1;
    }
    proof {
        assert(s@.subrange(0, plen as int) =~= p@);
    }
    true
}

/// Whether `p` occurs anywhere in `s`.
pub fn contains_sub(s: &str, p: &str) -> (r: bool)
    ensures
        r == contains_seq(s@, p@),
{
    let slen = s.unicode_len();
    let plen = p.unicode_len();
    if plen > slen {
        assert(!contains_seq(s@, p@));
        return false;
    }
    let mut i: usize = 0;
    while i <= slen - plen
        invariant
            slen == s@.len(),
            plen == p@.len(),
            plen <= slen,
            i <= slen - plen + 1,
            forall|k: int|
                0 <= k < i ==> #[trigger] s@.subrange(k, k + p@.len()) != p@,
        decreases slen - i,
    {
        let mut j: usize = 0;
        let mut matched = true;
        while j < plen
            invariant
                slen == s@.len(),
                plen == p@.len(),
                i + plen <= slen,
                j <= plen,
                matched ==> forall|t: int| 0 <= t < j ==> s@[i + t] == p@[t],
                !matched ==> s@.subrange(i as int, i + p@.len()) != p@,
            decreases plen - j,
        {
            if s.get_char(i + j) != p.get_char(j) {
                assert(s@.subrange(i as int, i + p@.len()) != p@) by {
                    assert(s@.subrange(i as int, i + p@.len())[j as int] == s@[i + j]);
                }
                matched = false;
                j = plen;
            } else {
                j += 1;
            }
        }
        if matched {
            proof {
                assert(s@.subrange(i as int, i + p@.len()) =~= p@);
            }
            return true;
        }
        proof {
            if plen == 0 {
                assert(s@.subrange(i as int, i as int) =~= p@);
            }
        }
        i += 1;
    }
    proof {
        assert forall|k: int| 0 <= k && k + p@.len() <= s@.len() implies #[trigger] s@.subrange(
            k,
            k + p@.len(),
        ) != p@ by {
            assert(k < i);
        }
    }
    false
}

/// The concatenation of two string slices as an owned string.
pub fn concat_str(a: &str, b: &str) -> (r: String)
    ensures
        r@ == a@ + b@,
{
    let mut r = a.to_owned();
    r.append(b);
    r
}

/// Copy a string slice into an owned string.
pub fn to_owned_str(a: &str) -> (r: String)
    ensures
        r@ == a@,
{
    a.to_owned()
}

proof fn lemma_trim_start_is_suffix(s: Seq<char>, a: int)
    requires
        0 <= a <= s.len(),
        forall|k: int| 0 <= k < a ==> is_space_char(s[k]),
        a == s.len() || !is_space_char(s[a]),
    ensures
        trim_start_spec(s) == s.subrange(a, s.len() as int),
    decreases a,
{
    if a == 0 {
        assert(trim_start_spec(s) == s);
        assert(s.subrange(0, s.len() as int) =~= s);
    } else {
        assert(is_space_char(s[0]));
        let d = s.drop_first();
        lemma_trim_start_is_suffix(d, a - 1);
        assert(d.subrange(a - 1, d.len() as int) =~= s.subrange(a, s.len() as int));
    }
}

proof fn lemma_trim_end_is_prefix(s: Seq<char>, b: int)
    requires
        0 <= b <= s.len(),
        forall|k: int| b <= k < s.len() ==> is_space_char(s[k]),
        b == 0 || !is_space_char(s[b - 1]),
    ensures
        trim_end_spec(s) == s.subrange(0, b),
    decreases s.len() - b,
{
    if b == s.len() {
        assert(trim_end_spec(s) == s);
        assert(s.subrange(0, s.len() as int) =~= s);
    } else {
        assert(is_space_char(s.last()));
        let d = s.drop_last();
        lemma_trim_end_is_prefix(d, b);
        assert(d.subrange(0, b) =~= s.subrange(0, b));
    }
}

/// `s` with leading and trailing whitespace removed.
pub fn trim_str(s: &str) -> (r: String)
    ensures
        r@ == trim_spec(s@),
{
    let len = s.unicode_len();
    let mut a: usize = 0;
    while a < len && is_space(s.get_char(a))
        invariant
            len == s@.len(),
            a <= len,
            forall|k: int| 0 <= k < a ==> is_space_char(s@[k]),
        decreases len - a,
    {
        a += 1;
    }
    proof {
        lemma_trim_start_is_suffix(s@, a as int);
    }
    let ghost t = s@.subrange(a as int, s@.len() as int);
    let mut b: usize = len;
    while b > a && is_space(s.get_char(b - 1))
        invariant
            len == s@.len(),
            a <= b <= len,
            forall|k: int| b <= k < len ==> is_space_char(s@[k]),
        decreases b,
    {
        b -= 1;
    }
    proof {
        assert forall|k: int| (b - a) <= k < t.len() implies is_space_char(t[k]) by {
            assert(t[k] == s@[k + a]);
        }
        if b > a {
            assert(t[b - a - 1] == s@[b as int - 1]);
        }
        lemma_trim_end_is_prefix(t, b - a);
        assert(t.subrange(0, b - a) =~= s@.subrange(a as int, b as int));
    }
    let r = s.substring_char(a, b);
    r.to_owned()
}

/// The lines of `s`: segments separated by a newline, each with one
/// trailing carriage return removed, and no empty final segment when the
/// text ends with a newline.
pub open spec fn split_lines_spec(s: Seq<char>) -> Seq<Seq<char>> {
    if s.len() == 0 {
        Seq::empty()
    } else if s.last() == '\n' {
        split_segments(s.drop_last())
    } else {
        split_segments(s)
    }
}

/// Split on every newline, keeping empty segments, and strip one trailing
/// carriage return from each segment.
pub open spec fn split_segments(s: Seq<char>) -> Seq<Seq<char>>
    decreases s.len(),
{
    let i = first_newline(s, 0);
    if 0 <= i && i < s.len() {
        seq![strip_cr(s.subrange(0, i))] + split_segments(
            s.subrange(i + 1, s.len() as int),
        )
    } else {
        seq![strip_cr(s)]
    }
}

/// The index of the first newline at or after `from`.
pub open spec fn first_newline(s: Seq<char>, from: int) -> int
    decreases s.len() - from,
{
    if from < 0 || from >= s.len() {
        s.len() as int
    } else if s[from] == '\n' {
        from
    } else {
        first_newline(s, from + 1)
    }
}

/// `s` with one trailing carriage return removed.
pub open spec fn strip_cr(s: Seq<char>) -> Seq<char> {
    if s.len() > 0 && s.last() == '\r' {
        s.drop_last()
    } else {
        s
    }
}

proof fn lemma_first_newline_props(s: Seq<char>, from: int)
    requires
        0 <= from <= s.len(),
    ensures
        from <= first_newline(s, from) <= s.len(),
        first_newline(s, from) < s.len() ==> s[first_newline(s, from)] == '\n',
        forall|k: int| from <= k < first_newline(s, from) ==> s[k] != '\n',
        (exists|i: int| from <= i < s.len() && s[i] == '\n') ==> first_newline(s, from)
            < s.len(),
    decreases s.len() - from,
{
    if from < s.len() && s[from] != '\n' {
        lemma_first_newline_props(s, from + 1);
    }
}

/// Strip one trailing carriage return, as an executable operation.
fn strip_cr_exec(s: String) -> (r: String)
    ensures
        r@ == strip_cr(s@),
{
    let len = s.as_str().unicode_len();
    if len > 0 && s.as_str().get_char(len - 1) == '\r' {
        let r = s.as_str().substring_char(0, len - 1);
        proof {
            assert(s@.subrange(0, len - 1) =~= s@.drop_last());
        }
        r.to_owned()
    } else {
        s
    }
}

/// Split `s` into its lines.
pub fn split_lines(s: &str) -> (r: Vec<String>)
    ensures
        r.deep_view() == split_lines_spec(s@),
{
    let len = s.unicode_len();
    let mut r: Vec<String> = Vec::new();
    if len == 0 {
        assert(r.deep_view() =~= split_lines_spec(s@));
        return r;
    }
    // Work on the text without a single final newline.
    let effective: usize = if s.get_char(len - 1) == '\n' {
        len - 1
    } else {
        len
    };
    let ghost body = if s@.last() == '\n' {
        s@.drop_last()
    } else {
        s@
    };
    proof {
        assert(s@.subrange(0, effective as int) =~= body);
        assert(split_lines_spec(s@) == split_segments(body));
    }
    let mut start: usize = 0;
    proof {
        assert(body.subrange(0, body.len() as int) =~= body);
        assert(r.deep_view() + split_segments(body) =~= split_segments(body));
    }
    loop
        invariant
            len == s@.len(),
            effective <= len,
            body == s@.subrange(0, effective as int),
            start <= effective,
            split_lines_spec(s@) == r.deep_view() + split_segments(
                body.subrange(start as int, body.len() as int),
            ),
        decreases effective - start,
    {
        let ghost rest = body.subrange(start as int, body.len() as int);
        // Find the next newline in s within [start, effective).
        let mut i: usize = start;
        while i < effective && s.get_char(i) != '\n'
            invariant
                len == s@.len(),
                effective <= len,
                start <= i <= effective,
                forall|k: int| start <= k < i ==> s@[k] != '\n',
            decreases effective - i,
        {
            i += 1;
        }
        proof {
            lemma_first_newline_props(rest, 0);
            assert forall|k: int| 0 <= k < rest.len() implies rest[k] == s@[k + start] by {}
        }
        let seg = s.substring_char(start, i);
        let seg = strip_cr_exec(seg.to_owned());
        if i < effective {
            proof {
                assert(rest[i - start] == '\n');
                assert(first_newline(rest, 0) == i - start) by {
                    if first_newline(rest, 0) < i - start {
                        assert(s@[first_newline(rest, 0) + start] != '\n');
                        assert(rest[first_newline(rest, 0)] == '\n');
                    }
                    if first_newline(rest, 0) > i - start {
                        assert(rest[i - start] != '\n');
                    }
                }
                assert(rest.subrange(0, i - start) =~= s@.subrange(
                    start as int,
                    i as int,
                ));
                assert(rest.subrange(i - start + 1, rest.len() as int) =~= body.subrange(
                    i + 1,
                    body.len() as int,
                ));
            }
            let ghost prev_dv = r.deep_view();
            r.push(seg);
            proof {
                assert(r.deep_view() =~= prev_dv.push(seg@));
            }
            proof {
                assert(split_segments(rest) == seq![strip_cr(rest.subrange(0, i - start))]
                    + split_segments(rest.subrange(i - start + 1, rest.len() as int)));
                assert(seg@ == strip_cr(rest.subrange(0, i - start)));
                assert(prev_dv + split_segments(rest) =~= r.deep_view() + split_segments(
                    body.subrange(i + 1, body.len() as int),
                ));
            }
            start = i + 1;
        } else {
            proof {
                assert(forall|k: int| 0 <= k < rest.len() ==> rest[k] != '\n');
                assert(first_newline(rest, 0) >= rest.len()) by {
                    if first_newline(rest, 0) < rest.len() {
                        assert(rest[first_newline(rest, 0)] == '\n');
                    }
                }
                assert(split_segments(rest) =~= seq![strip_cr(rest)]);
                assert(rest =~= s@.subrange(start as int, effective as int));
            }
            let ghost prev_dv = r.deep_view();
            r.push(seg);
            proof {
                assert(r.deep_view() =~= prev_dv.push(seg@));
                assert(r.deep_view() =~= split_lines_spec(s@));
            }
            return r;
        }
    }
}

/// `key` is one of the members of `ss`.
pub open spec fn seq_has_str(ss: Seq<Seq<char>>, key: Seq<char>) -> bool {
    exists|i: int| 0 <= i < ss.len() && ss[i] == key
}

/// Whether one of the strings in `v` equals `key`.
pub fn vec_contains_str(v: &Vec<String>, key: &str) -> (r: bool)
    ensures
        r == seq_has_str(v.deep_view(), key@),
{
    let ghost dv = v.deep_view();
    let mut i: usize = 0;
    while i < v.len()
        invariant
            dv == v.deep_view(),
            dv.len() == v@.len(),
            i <= dv.len(),
            forall|k: int| 0 <= k < i ==> dv[k] != key@,
        decreases dv.len() - i,
    {
        if str_eq(v[i].as_str(), key) {
            assert(dv[i as int] == key@);
            return true;
        }
        i += 1;
    }
    false
}

/// A copy of a vector of strings.
pub fn clone_string_vec(v: &Vec<String>) -> (r: Vec<String>)
    ensures
        r.deep_view() == v.deep_view(),
{
    let ghost dv = v.deep_view();
    let mut r: Vec<String> = Vec::new();
    let mut i: usize = 0;
    proof {
        assert(r.deep_view() =~= dv.subrange(0, 0));
    }
    while i < v.len()
        invariant
            dv == v.deep_view(),
            dv.len() == v@.len(),
            i <= dv.len(),
            r.deep_view() == dv.subrange(0, i as int),
        decreases dv.len() - i,
    {
        let ghost rv = r.deep_view();
        let x = to_owned_str(v[i].as_str());
        let ghost xv = x@;
        r.push(x);
        i += 1;
        proof {
            assert(r.deep_view() =~= rv.push(xv));
            assert(rv.push(xv) =~= dv.subrange(0, i as int));
        }
    }
    proof {
        assert(dv.subrange(0, dv.len() as int) =~= dv);
    }
    r
}

/// What the standard library's lowercase conversion returns: a function of
/// the characters of its input alone.
pub uninterp spec fn lower_of(s: Seq<char>) -> Seq<char>;

/// Relies on str::to_lowercase: the result depends on the characters alone.
#[verifier::external_body]
pub fn to_lower(s: &str) -> (r: String)
    ensures
        r@ == lower_of(s@),
{
    s.to_lowercase()
}

} // verus!
