//! Content fingerprinting. A file's fingerprint is the lowercase hex
//! encoding of the SHA-256 digest of its text; a directory's fingerprint
//! hashes its children's fingerprints joined in order with a delimiter.
//! Only the SHA-256 core is trusted; hex encoding and joining are verified,
//! and joining is proved injective on sequences of fixed-length digests,
//! which is what makes fingerprint changes propagate upward.

use vstd::prelude::*;
use sha2::Digest;

verus! {

/// What the SHA-256 implementation returns for the UTF-8 bytes of a text:
/// a function of the input alone.
pub uninterp spec fn sha256_of(s: Seq<char>) -> Seq<u8>;

/// Relies on sha2::Sha256 through digest's `Digest::digest`: the digest is
/// a function of the input bytes alone and is 32 bytes long.
#[verifier::external_body]
fn sha256_bytes(content: &str) -> (r: Vec<u8>)
    ensures
        r@ == sha256_of(content@),
        r@.len() == 32,
{
    sha2::Sha256::digest(content.as_bytes()).as_slice().to_vec()
}

/// The lowercase hex character for a value below 16.
pub open spec fn hex_digit(n: int) -> char {
    if n == 0 {
        '0'
    } else if n == 1 {
        '1'
    } else if n == 2 {
        '2'
    } else if n == 3 {
        '3'
    } else if n == 4 {
        '4'
    } else if n == 5 {
        '5'
    } else if n == 6 {
        '6'
    } else if n == 7 {
        '7'
    } else if n == 8 {
        '8'
    } else if n == 9 {
        '9'
    } else if n == 10 {
        'a'
    } else if n == 11 {
        'b'
    } else if n == 12 {
        'c'
    } else if n == 13 {
        'd'
    } else if n == 14 {
        'e'
    } else {
        'f'
    }
}

/// The lowercase hex encoding of a byte sequence, two characters per byte.
pub open spec fn hex_of(bytes: Seq<u8>) -> Seq<char>
    decreases bytes.len(),
{
    if bytes.len() == 0 {
        Seq::empty()
    } else {
        hex_of(bytes.drop_last()) + seq![
            hex_digit(bytes.last() as int / 16),
            hex_digit(bytes.last() as int % 16),
        ]
    }
}

pub proof fn lemma_hex_of_len(bytes: Seq<u8>)
    ensures
        hex_of(bytes).len() == 2 * bytes.len(),
    decreases bytes.len(),
{
    if bytes.len() > 0 {
        lemma_hex_of_len(bytes.drop_last());
    }
}

fn hex_digit_str(n: u8) -> (r: &'static str)
    requires
        n < 16,
    ensures
        r@ == seq![hex_digit(n as int)],
{
    proof {
        reveal_strlit("0");
        reveal_strlit("1");
        reveal_strlit("2");
        reveal_strlit("3");
        reveal_strlit("4");
        reveal_strlit("5");
        reveal_strlit("6");
        reveal_strlit("7");
        reveal_strlit("8");
        reveal_strlit("9");
        reveal_strlit("a");
        reveal_strlit("b");
        reveal_strlit("c");
        reveal_strlit("d");
        reveal_strlit("e");
        reveal_strlit("f");
    }
    let r = if n == 0 {
        "0"
    } else if n == 1 {
        "1"
    } else if n == 2 {
        "2"
    } else if n == 3 {
        "3"
    } else if n == 4 {
        "4"
    } else if n == 5 {
        "5"
    } else if n == 6 {
        "6"
    } else if n == 7 {
        "7"
    } else if n == 8 {
        "8"
    } else if n == 9 {
        "9"
    } else if n == 10 {
        "a"
    } else if n == 11 {
        "b"
    } else if n == 12 {
        "c"
    } else if n == 13 {
        "d"
    } else if n == 14 {
        "e"
    } else {
        "f"
    };
    proof {
        assert(r@ =~= seq![hex_digit(n as int)]);
    }
    r
}

/// Encode bytes as lowercase hex.
fn bytes_to_hex(bytes: &Vec<u8>) -> (r: String)
    ensures
        r@ == hex_of(bytes@),
{
    let mut r = String::new();
    let mut i: usize = 0;
    while i < bytes.len()
        invariant
            i <= bytes@.len(),
            r@ == hex_of(bytes@.subrange(0, i as int)),
        decreases bytes@.len() - i,
    {
        let b = bytes[i];
        let hi = hex_digit_str(b / 16);
        let lo = hex_digit_str(b % 16);
        r.append(hi);
        r.append(lo);
        i += 1;
        proof {
            let pre = bytes@.subrange(0, i as int);
            assert(pre.drop_last() =~= bytes@.subrange(0, i - 1));
            assert(r@ =~= hex_of(pre));
        }
    }
    proof {
        assert(bytes@.subrange(0, bytes@.len() as int) =~= bytes@);
    }
    r
}

/// The fingerprint of a text: lowercase hex of its SHA-256 digest.
pub open spec fn digest_of(s: Seq<char>) -> Seq<char> {
    hex_of(sha256_of(s))
}

/// The number of characters in a fingerprint.
pub open spec fn digest_len() -> int {
    64
}

/// Children's fingerprints joined in order with a `|` delimiter; the text
/// a directory's fingerprint is computed from.
pub open spec fn join_digests(hashes: Seq<Seq<char>>) -> Seq<char>
    decreases hashes.len(),
{
    if hashes.len() == 0 {
        Seq::empty()
    } else if hashes.len() == 1 {
        hashes[0]
    } else {
        hashes[0] + seq!['|'] + join_digests(hashes.drop_first())
    }
}

proof fn lemma_join_digests_push(s: Seq<Seq<char>>, x: Seq<char>)
    ensures
        join_digests(s.push(x)) == if s.len() == 0 {
            x
        } else {
            join_digests(s) + seq!['|'] + x
        },
    decreases s.len(),
{
    let p = s.push(x);
    if s.len() == 0 {
        assert(p.len() == 1);
        assert(p[0] == x);
    } else if s.len() == 1 {
        assert(p.len() == 2);
        assert(p[0] == s[0]);
        assert(p.drop_first() =~= seq![x]);
        assert(join_digests(p.drop_first()) == x);
        assert(join_digests(s) == s[0]);
    } else {
        lemma_join_digests_push(s.drop_first(), x);
        assert(p.drop_first() =~= s.drop_first().push(x));
        assert(join_digests(s) + seq!['|'] + x =~= s[0] + seq!['|'] + (join_digests(
            s.drop_first(),
        ) + seq!['|'] + x));
    }
}

/// All members are fingerprint-length.
pub open spec fn all_digest_len(hashes: Seq<Seq<char>>) -> bool {
    forall|i: int| 0 <= i < hashes.len() ==> (#[trigger] hashes[i]).len() == digest_len()
}

proof fn lemma_join_digests_len(s: Seq<Seq<char>>)
    requires
        all_digest_len(s),
    ensures
        s.len() == 0 ==> join_digests(s).len() == 0,
        s.len() > 0 ==> join_digests(s).len() == 65 * s.len() - 1,
    decreases s.len(),
{
    if s.len() > 1 {
        assert(all_digest_len(s.drop_first())) by {
            assert(forall|i: int|
                0 <= i < s.drop_first().len() ==> #[trigger] s.drop_first()[i] == s[i + 1]);
        }
        lemma_join_digests_len(s.drop_first());
    }
}

proof fn lemma_join_digests_index(s: Seq<Seq<char>>, i: int, j: int)
    requires
        all_digest_len(s),
        0 <= i < s.len(),
        0 <= j < digest_len(),
    ensures
        0 <= 65 * i + j < join_digests(s).len(),
        join_digests(s)[65 * i + j] == s[i][j],
    decreases s.len(),
{
    lemma_join_digests_len(s);
    if s.len() == 1 {
        assert(join_digests(s) == s[0]);
    } else {
        if i == 0 {
            assert((s[0] + seq!['|'] + join_digests(s.drop_first()))[j] == s[0][j]);
        } else {
            let d = s.drop_first();
            assert(all_digest_len(d)) by {
                assert(forall|k: int| 0 <= k < d.len() ==> #[trigger] d[k] == s[k + 1]);
            }
            lemma_join_digests_index(d, i - 1, j);
            assert(join_digests(s)[65 * i + j] == join_digests(d)[65 * i + j - 65]) by {
                assert(65 * i + j >= 65) by (nonlinear_arith)
                    requires
                        i >= 1,
                        j >= 0,
                ;
                lemma_join_digests_len(d);
            }
            assert(65 * i + j - 65 == 65 * (i - 1) + j);
            assert(d[i - 1] == s[i]);
        }
    }
}

/// Joining is injective on sequences of fingerprint-length digests: two
/// different sequences of children fingerprints always produce different
/// inputs to the directory hash.
pub proof fn lemma_join_digests_injective(s1: Seq<Seq<char>>, s2: Seq<Seq<char>>)
    requires
        all_digest_len(s1),
        all_digest_len(s2),
        s1 != s2,
    ensures
        join_digests(s1) != join_digests(s2),
{
    lemma_join_digests_len(s1);
    lemma_join_digests_len(s2);
    if s1.len() == s2.len() {
        assert(exists|i: int| 0 <= i < s1.len() && s1[i] != s2[i]) by {
            if forall|i: int| 0 <= i < s1.len() ==> #[trigger] s1[i] == s2[i] {
                assert(s1 =~= s2);
            }
        }
        let i = choose|i: int| 0 <= i < s1.len() && s1[i] != s2[i];
        assert(exists|j: int| 0 <= j < digest_len() && s1[i][j] != s2[i][j]) by {
            if forall|j: int| 0 <= j < digest_len() ==> #[trigger] s1[i][j] == s2[i][j] {
                assert(s1[i] =~= s2[i]);
            }
        }
        let j = choose|j: int| 0 <= j < digest_len() && s1[i][j] != s2[i][j];
        lemma_join_digests_index(s1, i, j);
        lemma_join_digests_index(s2, i, j);
    } else {
        assert(65 * s1.len() != 65 * s2.len()) by (nonlinear_arith)
            requires
                s1.len() != s2.len(),
        ;
    }
}

/// Reversing a sequence of fingerprints that is not a palindrome changes
/// the text a directory's fingerprint is computed from. The scenario tests
/// exercise the corresponding change of the digest itself.
pub proof fn lemma_join_digests_order_sensitive(s: Seq<Seq<char>>)
    requires
        all_digest_len(s),
        s.reverse() != s,
    ensures
        join_digests(s.reverse()) != join_digests(s),
{
    assert(all_digest_len(s.reverse())) by {
        assert(forall|i: int|
            0 <= i < s.reverse().len() ==> #[trigger] s.reverse()[i] == s[s.len() - 1 - i]);
    }
    lemma_join_digests_injective(s.reverse(), s);
}

/// Changing one child's fingerprint, with every sibling left in place,
/// changes the text the parent directory's fingerprint is computed from;
/// unrelated siblings do not mask the change.
pub proof fn lemma_directory_hash_input_changes(
    s1: Seq<Seq<char>>,
    s2: Seq<Seq<char>>,
    i: int,
)
    requires
        all_digest_len(s1),
        all_digest_len(s2),
        s1.len() == s2.len(),
        0 <= i < s1.len(),
        s1[i] != s2[i],
    ensures
        join_digests(s1) != join_digests(s2),
{
    assert(s1 != s2);
    lemma_join_digests_injective(s1, s2);
}

/// Computes content and directory fingerprints.
pub struct FileHasher;

impl FileHasher {
    /// The fingerprint of a text: deterministic, fixed-length, lowercase
    /// hex. Identical text always yields an identical fingerprint.
    pub fn compute_content_hash(content: &str) -> (r: String)
        ensures
            r@ == digest_of(content@),
            r@.len() == digest_len(),
    {
        let b = sha256_bytes(content);
        proof {
            lemma_hex_of_len(b@);
        }
        bytes_to_hex(&b)
    }

    /// The fingerprint of a directory: its children's fingerprints joined
    /// in order with a delimiter, then fingerprinted as text. Reordering
    /// the children changes the joined text and so changes the result
    /// whenever the underlying hash separates the two inputs.
    pub fn compute_directory_hash(children_hashes: &Vec<String>) -> (r: String)
        ensures
            r@ == digest_of(join_digests(children_hashes.deep_view())),
            r@.len() == digest_len(),
    {
        let joined = Self::join_hashes(children_hashes);
        Self::compute_content_hash(joined.as_str())
    }

    /// Join fingerprints with the delimiter.
    fn join_hashes(hashes: &Vec<String>) -> (r: String)
        ensures
            r@ == join_digests(hashes.deep_view()),
    {
        let ghost dv = hashes.deep_view();
        if hashes.len() == 0 {
            let r = String::new();
            assert(r@ =~= join_digests(dv));
            return r;
        }
        let mut r = hashes[0].clone();
        assert(r@ == dv[0]);
        assert(dv.subrange(0, 1) =~= seq![dv[0]]);
        let mut i: usize = 1;
        while i < hashes.len()
            invariant
                dv == hashes.deep_view(),
                dv.len() == hashes@.len(),
                1 <= i <= dv.len(),
                r@ == join_digests(dv.subrange(0, i as int)),
            decreases dv.len() - i,
        {
            proof {
                reveal_strlit("|");
            }
            r.append("|");
            r.append(hashes[i].as_str());
            proof {
                let pre = dv.subrange(0, i as int);
                lemma_join_digests_push(pre, dv[i as int]);
                assert(pre.push(dv[i as int]) =~= dv.subrange(0, i + 1));
                assert("|"@ =~= seq!['|']);
                assert(r@ =~= join_digests(dv.subrange(0, i + 1)));
            }
            i += 1;
        }
        proof {
            assert(dv.subrange(0, dv.len() as int) =~= dv);
        }
        r
    }
}

} // verus!
