//! Paths as byte strings, and the few shape questions the core asks of them.
//!
//! A path is the byte string of its textual form: absolute paths start with
//! `/`, and a path `p` lies within a directory `d` when `p == d` or `p`
//! continues `d` with a separator.

use vstd::prelude::*;

verus! {

/// The path separator.
pub open spec fn sep() -> u8 {
    47u8
}

/// Whether `p` is an absolute path.
pub open spec fn spec_is_absolute(p: Seq<u8>) -> bool {
    p.len() > 0 && p[0] == sep()
}

/// Whether `pre` is a prefix of `p`.
pub open spec fn spec_starts_with(p: Seq<u8>, pre: Seq<u8>) -> bool {
    pre.len() <= p.len() && p.subrange(0, pre.len() as int) == pre
}

/// Whether `p` is `d` itself or lies below the directory `d`.
pub open spec fn spec_is_within(p: Seq<u8>, d: Seq<u8>) -> bool {
    p == d || spec_starts_with(p, d.push(sep()))
}

/// `d/rel` as a byte string.
pub open spec fn spec_join(d: Seq<u8>, rel: Seq<u8>) -> Seq<u8> {
    d.push(sep()) + rel
}

/// `p` without its single leading separator.
pub open spec fn spec_strip_leading_sep(p: Seq<u8>) -> Seq<u8> {
    if spec_is_absolute(p) {
        p.subrange(1, p.len() as int)
    } else {
        p
    }
}

/// Whether `p` is an absolute path.
pub fn is_absolute(p: &Vec<u8>) -> (r: bool)
    ensures
        r == spec_is_absolute(p@),
{
    p.len() > 0 && p[0] == 47u8
}

/// Whether `pre` is a prefix of `p`.
pub fn starts_with(p: &Vec<u8>, pre: &Vec<u8>) -> (r: bool)
    ensures
        r == spec_starts_with(p@, pre@),
{
    if pre.len() > p.len() {
        assert(!spec_starts_with(p@, pre@));
        return false;
    }
    let mut i: usize = 0;
    while i < pre.len()
        invariant
            i <= pre.len() <= p.len(),
            forall|j: int| 0 <= j < i ==> p@[j] == pre@[j],
        decreases pre.len() - i,
    {
        if p[i] != pre[i] {
            assert(p@.subrange(0, pre.len() as int)[i as int] != pre@[i as int]);
            return false;
        }
        i += 1;
    }
    assert(p@.subrange(0, pre.len() as int) =~= pre@);
    true
}

/// Whether `p` is `d` itself or lies below the directory `d`.
pub fn is_within(p: &Vec<u8>, d: &Vec<u8>) -> (r: bool)
    ensures
        r == spec_is_within(p@, d@),
{
    if bytes_equal(p, d) {
        assert(p@ == d@);
        return true;
    }
    let mut pre = d.clone();
    pre.push(47u8);
    let r = starts_with(p, &pre);
    assert(pre@ == d@.push(sep()));
    r
}

/// Whether two byte strings are equal.
pub fn bytes_equal(a: &Vec<u8>, b: &Vec<u8>) -> (r: bool)
    ensures
        r == (a@ == b@),
{
    if a.len() != b.len() {
        assert(a@ != b@);
        return false;
    }
    let mut i: usize = 0;
    while i < a.len()
        invariant
            i <= a.len() == b.len(),
            forall|j: int| 0 <= j < i ==> a@[j] == b@[j],
        decreases a.len() - i,
    {
        if a[i] != b[i] {
            assert(a@[i as int] != b@[i as int]);
            return false;
        }
        i += 1;
    }
    assert(a@ =~= b@);
    true
}

/// `d/rel` as a fresh byte string.
pub fn join(d: &Vec<u8>, rel: &Vec<u8>) -> (r: Vec<u8>)
    ensures
        r@ == spec_join(d@, rel@),
{
    let mut out = d.clone();
    out.push(47u8);
    let mut i: usize = 0;
    while i < rel.len()
        invariant
            i <= rel.len(),
            out@ == d@.push(sep()) + rel@.subrange(0, i as int),
        decreases rel.len() - i,
    {
        out.push(rel[i]);
        assert(rel@.subrange(0, i + 1 as int) =~= rel@.subrange(0, i as int).push(rel@[i as int]));
        i += 1;
    }
    assert(rel@.subrange(0, rel@.len() as int) =~= rel@);
    out
}

/// `p` without its single leading separator.
pub fn strip_leading_sep(p: &Vec<u8>) -> (r: Vec<u8>)
    ensures
        r@ == spec_strip_leading_sep(p@),
{
    if is_absolute(p) {
        let mut out: Vec<u8> = Vec::new();
        let mut i: usize = 1;
        while i < p.len()
            invariant
                1 <= i <= p.len(),
                out@ == p@.subrange(1, i as int),
            decreases p.len() - i,
        {
            out.push(p[i]);
            assert(p@.subrange(1, i + 1 as int) =~= p@.subrange(1, i as int).push(p@[i as int]));
            i += 1;
        }
        out
    } else {
        p.clone()
    }
}


/// Whether `suf` is a suffix of `p`.
pub open spec fn spec_ends_with(p: Seq<u8>, suf: Seq<u8>) -> bool {
    suf.len() <= p.len() && p.subrange(p.len() - suf.len(), p.len() as int) == suf
}

/// Whether `suf` is a suffix of `p`.
pub fn ends_with(p: &Vec<u8>, suf: &Vec<u8>) -> (r: bool)
    ensures
        r == spec_ends_with(p@, suf@),
{
    if suf.len() > p.len() {
        assert(!spec_ends_with(p@, suf@));
        return false;
    }
    let off = p.len() - suf.len();
    let mut i: usize = 0;
    while i < suf.len()
        invariant
            i <= suf.len() <= p.len(),
            off == p.len() - suf.len(),
            forall|j: int| 0 <= j < i ==> p@[off + j] == suf@[j],
        decreases suf.len() - i,
    {
        if p[off + i] != suf[i] {
            assert(p@.subrange(p@.len() - suf@.len(), p@.len() as int)[i as int] != suf@[i as int]);
            return false;
        }
        i += 1;
    }
    assert(p@.subrange(p@.len() - suf@.len(), p@.len() as int) =~= suf@);
    true
}


/// Two prefixes of one byte string are nested: the shorter is a prefix of
/// the longer.
pub proof fn lemma_prefixes_nested(k: Seq<u8>, a: Seq<u8>, b: Seq<u8>)
    requires
        spec_starts_with(k, a),
        spec_starts_with(k, b),
        a.len() <= b.len(),
    ensures
        spec_starts_with(b, a),
{
    assert forall|j: int| 0 <= j < a.len() implies b.subrange(0, a.len() as int)[j] == a[j] by {
        assert(k.subrange(0, a.len() as int)[j] == a[j]);
        assert(k.subrange(0, b.len() as int)[j] == b[j]);
    }
    assert(b.subrange(0, a.len() as int) =~= a);
}

/// A path lying within two directories forces the directories themselves
/// to be nested.
pub proof fn lemma_within_two_dirs(k: Seq<u8>, d1: Seq<u8>, d2: Seq<u8>)
    requires
        spec_is_within(k, d1),
        spec_is_within(k, d2),
    ensures
        spec_is_within(d1, d2) || spec_is_within(d2, d1),
{
    if k == d1 {
        assert(spec_is_within(d1, d2));
    } else if k == d2 {
        assert(spec_is_within(d2, d1));
    } else {
        if d1.len() <= d2.len() {
            lemma_prefixes_nested(k, d1.push(sep()), d2.push(sep()));
            if d1.len() == d2.len() {
                assert(d1 =~= d2) by {
                    assert(forall|j: int|
                        0 <= j < d1.len() ==> d1.push(sep())[j] == d1[j] && d2.push(sep())[j]
                            == d2[j]);
                    assert(d2.push(sep()).subrange(0, d1.len() as int + 1) =~= d2.push(sep()));
                    assert(d1.push(sep()) =~= d2.push(sep()));
                }
                assert(spec_is_within(d1, d2));
            } else {
                assert(spec_starts_with(d2.push(sep()), d1.push(sep())));
                assert(spec_starts_with(d2, d1.push(sep()))) by {
                    assert forall|j: int|
                        0 <= j < d1.len() + 1 implies d2.subrange(0, d1.len() as int + 1)[j]
                        == d1.push(sep())[j] by {
                        assert(d2.push(sep())[j] == d2[j]);
                        assert(d2.push(sep()).subrange(0, d1.len() as int + 1)[j] == d1.push(
                            sep(),
                        )[j]);
                    }
                    assert(d2.subrange(0, d1.len() as int + 1) =~= d1.push(sep()));
                }
                assert(spec_is_within(d2, d1));
            }
        } else {
            lemma_prefixes_nested(k, d2.push(sep()), d1.push(sep()));
            assert(spec_starts_with(d1, d2.push(sep()))) by {
                assert forall|j: int|
                    0 <= j < d2.len() + 1 implies d1.subrange(0, d2.len() as int + 1)[j]
                    == d2.push(sep())[j] by {
                    assert(d1.push(sep())[j] == d1[j]);
                    assert(d1.push(sep()).subrange(0, d2.len() as int + 1)[j] == d2.push(
                        sep(),
                    )[j]);
                }
                assert(d1.subrange(0, d2.len() as int + 1) =~= d2.push(sep()));
            }
            assert(spec_is_within(d1, d2));
        }
    }
}

} // verus!
