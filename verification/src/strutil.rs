//! Byte-level string helpers: equality, lexicographic comparison and
//! substring tests, each specified against the string's character view.

use vstd::prelude::*;
use vstd::utf8::{encode_utf8, decode_utf8};

verus! {

/// Equal byte encodings mean equal character views (UTF-8 decoding is the
/// inverse of encoding).
pub proof fn lemma_encode_utf8_injective(a: Seq<char>, b: Seq<char>)
    requires
        encode_utf8(a) == encode_utf8(b),
    ensures
        a == b,
{
    vstd::utf8::encode_utf8_decode_utf8(a);
    vstd::utf8::encode_utf8_decode_utf8(b);
}

/// Byte-wise string equality, which coincides with equality of the
/// character views.
pub fn str_eq(a: &str, b: &str) -> (r: bool)
    ensures
        r == (a@ == b@),
{
    let ab = a.as_bytes();
    let bb = b.as_bytes();
    proof {
        if encode_utf8(a@) == encode_utf8(b@) {
            lemma_encode_utf8_injective(a@, b@);
        }
    }
    if ab.len() != bb.len() {
        proof {
            assert(encode_utf8(a@) != encode_utf8(b@));
        }
        return false;
    }
    let n = ab.len();
    let mut i: usize = 0;
    while i < n
        invariant
            n == ab@.len() == bb@.len(),
            i <= n,
            ab@ == encode_utf8(a@),
            bb@ == encode_utf8(b@),
            forall|j: int| 0 <= j < i ==> ab@[j] == bb@[j],
        decreases n - i,
    {
        if ab[i] != bb[i] {
            proof {
                assert(encode_utf8(a@) != encode_utf8(b@));
            }
            return false;
        }
        i = i + 1;
    }
    proof {
        assert(ab@ =~= bb@);
    }
    true
}

/// Lexicographic order on byte sequences: `a` strictly before `b`.
pub open spec fn bytes_lt(a: Seq<u8>, b: Seq<u8>) -> bool
    decreases a.len(),
{
    if b.len() == 0 {
        false
    } else if a.len() == 0 {
        true
    } else if a[0] < b[0] {
        true
    } else if a[0] > b[0] {
        false
    } else {
        bytes_lt(a.drop_first(), b.drop_first())
    }
}

/// Compares two strings byte-wise: `-1`, `0` or `1` as the first is
/// before, equal to, or after the second in lexicographic byte order.
pub fn str_compare(a: &str, b: &str) -> (r: i8)
    ensures
        r == 0 <==> a@ == b@,
        r == -1 <==> bytes_lt(encode_utf8(a@), encode_utf8(b@)),
        r == -1 || r == 0 || r == 1,
{
    let ab = a.as_bytes();
    let bb = b.as_bytes();
    proof {
        assert(ab@.skip(0) =~= ab@);
        assert(bb@.skip(0) =~= bb@);
    }
    let mut i: usize = 0;
    loop
        invariant
            i <= ab@.len(),
            i <= bb@.len(),
            ab@ == encode_utf8(a@),
            bb@ == encode_utf8(b@),
            forall|j: int| 0 <= j < i ==> ab@[j] == bb@[j],
            bytes_lt(ab@, bb@) == bytes_lt(ab@.skip(i as int), bb@.skip(i as int)),
        decreases ab@.len() - i,
    {
        proof {
            if i < ab@.len() {
                assert(ab@.skip(i as int)[0] == ab@[i as int]);
                assert(ab@.skip(i as int).drop_first() =~= ab@.skip(i as int + 1));
            }
            if i < bb@.len() {
                assert(bb@.skip(i as int)[0] == bb@[i as int]);
                assert(bb@.skip(i as int).drop_first() =~= bb@.skip(i as int + 1));
            }
        }
        if i >= ab.len() && i >= bb.len() {
            proof {
                assert(ab@ =~= bb@);
                lemma_encode_utf8_injective(a@, b@);
            }
            return 0;
        }
        if i >= ab.len() {
            proof {
                assert(ab@ != bb@);
                assert(bytes_lt(ab@.skip(i as int), bb@.skip(i as int)));
            }
            return -1;
        }
        if i >= bb.len() {
            proof {
                assert(ab@ != bb@);
                assert(!bytes_lt(ab@.skip(i as int), bb@.skip(i as int)));
            }
            return 1;
        }
        if ab[i] < bb[i] {
            proof {
                assert(ab@ != bb@);
            }
            return -1;
        }
        if ab[i] > bb[i] {
            proof {
                assert(ab@ != bb@);
            }
            return 1;
        }
        i = i + 1;
    }
}

/// Whether `needle` occurs as a contiguous subsequence of `hay` starting
/// at index `at`.
pub open spec fn occurs_at(hay: Seq<u8>, needle: Seq<u8>, at: int) -> bool {
    &&& 0 <= at
    &&& at + needle.len() <= hay.len()
    &&& hay.subrange(at, at + needle.len()) == needle
}

/// Whether `needle` occurs anywhere in `hay`.
pub open spec fn contains_bytes(hay: Seq<u8>, needle: Seq<u8>) -> bool {
    exists|at: int| occurs_at(hay, needle, at)
}

fn slice_match(hay: &[u8], needle: &[u8], at: usize) -> (r: bool)
    requires
        at + needle@.len() <= hay@.len(),
    ensures
        r == occurs_at(hay@, needle@, at as int),
{
    let hay_len = hay.len();
    let mut j: usize = 0;
    while j < needle.len()
        invariant
            at + needle@.len() <= hay@.len(),
            hay_len == hay@.len(),
            j <= needle@.len(),
            forall|t: int| 0 <= t < j ==> hay@[at + t] == needle@[t],
        decreases needle@.len() - j,
    {
        if hay[at + j] != needle[j] {
            proof {
                assert(hay@.subrange(at as int, at + needle@.len())[j as int] == hay@[at
                    + j]);
            }
            return false;
        }
        j = j + 1;
    }
    proof {
        assert(hay@.subrange(at as int, at + needle@.len()) =~= needle@);
    }
    true
}

/// Whether the first string contains the second, byte-wise.
pub fn str_contains(hay: &str, needle: &str) -> (r: bool)
    ensures
        r == contains_bytes(encode_utf8(hay@), encode_utf8(needle@)),
{
    let hb = hay.as_bytes();
    let nb = needle.as_bytes();
    if nb.len() > hb.len() {
        proof {
            assert(forall|at: int| !occurs_at(hb@, nb@, at));
        }
        return false;
    }
    if nb.len() == 0 {
        proof {
            assert(hb@.subrange(0, 0) =~= nb@);
            assert(occurs_at(hb@, nb@, 0));
        }
        return true;
    }
    let last = hb.len() - nb.len();
    let mut at: usize = 0;
    while at <= last
        invariant
            1 <= nb@.len() <= hb@.len(),
            hb@.len() <= usize::MAX,
            last == hb@.len() - nb@.len(),
            at <= last + 1,
            hb@ == encode_utf8(hay@),
            nb@ == encode_utf8(needle@),
            forall|t: int| 0 <= t < at ==> !occurs_at(hb@, nb@, t),
        decreases last + 1 - at,
    {
        if slice_match(hb, nb, at) {
            proof {
                assert(occurs_at(hb@, nb@, at as int));
                assert(contains_bytes(hb@, nb@));
            }
            return true;
        }
        at = at + 1;
    }
    proof {
        assert(forall|t: int| at <= t ==> !occurs_at(hb@, nb@, t));
    }
    false
}

/// Whether the first string starts with the second, byte-wise.
pub fn str_starts_with(s: &str, prefix: &str) -> (r: bool)
    ensures
        r == occurs_at(encode_utf8(s@), encode_utf8(prefix@), 0),
{
    let sb = s.as_bytes();
    let pb = prefix.as_bytes();
    if pb.len() > sb.len() {
        return false;
    }
    slice_match(sb, pb, 0)
}

/// Whether the first string ends with the second, byte-wise.
pub fn str_ends_with(s: &str, suffix: &str) -> (r: bool)
    ensures
        r == occurs_at(
            encode_utf8(s@),
            encode_utf8(suffix@),
            encode_utf8(s@).len() - encode_utf8(suffix@).len(),
        ),
{
    let sb = s.as_bytes();
    let xb = suffix.as_bytes();
    if xb.len() > sb.len() {
        proof {
            assert(encode_utf8(s@).len() - encode_utf8(suffix@).len() < 0);
        }
        return false;
    }
    slice_match(sb, xb, sb.len() - xb.len())
}

} // verus!
