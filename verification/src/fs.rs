//! The in-memory filesystem value the core works against.
//!
//! All filesystem state the engine reads or writes — source files, stored
//! objects, the index document, lockfiles — lives in one [`Fs`] value: a
//! finite map from absolute byte paths to byte contents.  A thin unverified
//! runner mirrors an `Fs` to a real disk; everything the core proves about
//! an `Fs` is a statement about the tree that runner maintains.

use vstd::prelude::*;
use crate::paths::{spec_starts_with, starts_with, bytes_equal};

verus! {

/// The finite map that a sequence of path/contents entries denotes;
/// a later entry for the same path wins.
pub open spec fn map_of(s: Seq<(Vec<u8>, Vec<u8>)>) -> Map<Seq<u8>, Seq<u8>>
    decreases s.len(),
{
    if s.len() == 0 {
        Map::empty()
    } else {
        map_of(s.drop_last()).insert(s.last().0@, s.last().1@)
    }
}

/// No two entries name the same path.
pub open spec fn keys_distinct(s: Seq<(Vec<u8>, Vec<u8>)>) -> bool {
    forall|i: int, j: int| 0 <= i < j < s.len() ==> s[i].0@ != s[j].0@
}

/// The total size of the contents stored under paths with the given prefix.
pub open spec fn weight_of(s: Seq<(Vec<u8>, Vec<u8>)>, prefix: Seq<u8>) -> nat
    decreases s.len(),
{
    if s.len() == 0 {
        0
    } else {
        weight_of(s.drop_last(), prefix) + if spec_starts_with(s.last().0@, prefix) {
            s.last().1@.len()
        } else {
            0
        }
    }
}

/// A path denotes a file in the map `s` exactly when some entry names it.
pub proof fn lemma_map_of_membership(s: Seq<(Vec<u8>, Vec<u8>)>)
    ensures
        forall|k: Seq<u8>|
            map_of(s).contains_key(k) <==> (exists|i: int| 0 <= i < s.len() && s[i].0@ == k),
    decreases s.len(),
{
    if s.len() > 0 {
        let dl = s.drop_last();
        lemma_map_of_membership(dl);
        assert forall|k: Seq<u8>|
            map_of(s).contains_key(k) <==> (exists|i: int|
                0 <= i < s.len() && s[i].0@ == k) by {
            if map_of(s).contains_key(k) {
                if k == s.last().0@ {
                    assert(s[s.len() - 1].0@ == k);
                } else {
                    assert(map_of(dl).contains_key(k));
                    assert(exists|i: int| 0 <= i < dl.len() && dl[i].0@ == k);
                    let i = choose|i: int| 0 <= i < dl.len() && dl[i].0@ == k;
                    assert(dl[i] == s[i]);
                    assert(s[i].0@ == k);
                }
            }
            if exists|i: int| 0 <= i < s.len() && s[i].0@ == k {
                let i = choose|i: int| 0 <= i < s.len() && s[i].0@ == k;
                if i < s.len() - 1 {
                    assert(dl[i] == s[i]);
                    assert(dl[i].0@ == k);
                    assert(map_of(dl).contains_key(k));
                } else {
                    assert(k == s.last().0@);
                }
                assert(map_of(s).contains_key(k));
            }
        }
    }
}

/// With distinct keys, the map sends each entry's path to that entry's bytes.
pub proof fn lemma_map_of_value(s: Seq<(Vec<u8>, Vec<u8>)>, i: int)
    requires
        keys_distinct(s),
        0 <= i < s.len(),
    ensures
        map_of(s).contains_key(s[i].0@),
        map_of(s)[s[i].0@] == s[i].1@,
    decreases s.len(),
{
    if i == s.len() - 1 {
    } else {
        assert(keys_distinct(s.drop_last()));
        assert(s.drop_last()[i] == s[i]);
        lemma_map_of_value(s.drop_last(), i);
        assert(s[i].0@ != s.last().0@);
    }
}

/// Removing the entry at `i` removes exactly that path from the map.
pub proof fn lemma_map_of_remove(s: Seq<(Vec<u8>, Vec<u8>)>, i: int)
    requires
        keys_distinct(s),
        0 <= i < s.len(),
    ensures
        map_of(s.remove(i)) =~= map_of(s).remove(s[i].0@),
        keys_distinct(s.remove(i)),
    decreases s.len(),
{
    assert(keys_distinct(s.remove(i)));
    if i == s.len() - 1 {
        assert(s.remove(i) =~= s.drop_last());
        lemma_map_of_membership(s.drop_last());
        assert(!map_of(s.drop_last()).contains_key(s[i].0@));
        assert(map_of(s.drop_last()) =~= map_of(s.drop_last()).insert(
            s.last().0@,
            s.last().1@,
        ).remove(s.last().0@));
    } else {
        assert(s.remove(i).drop_last() =~= s.drop_last().remove(i));
        assert(keys_distinct(s.drop_last()));
        lemma_map_of_remove(s.drop_last(), i);
        assert(s.remove(i).last() == s.last());
        assert(s[i].0@ != s.last().0@);
        assert(map_of(s.remove(i)) =~= map_of(s.drop_last().remove(i)).insert(
            s.last().0@,
            s.last().1@,
        ));
    }
}

/// Removing the entry at `i` lowers the weight by exactly its contribution.
pub proof fn lemma_weight_of_remove(s: Seq<(Vec<u8>, Vec<u8>)>, i: int, prefix: Seq<u8>)
    requires
        0 <= i < s.len(),
    ensures
        weight_of(s.remove(i), prefix) + (if spec_starts_with(s[i].0@, prefix) {
            s[i].1@.len() as int
        } else {
            0
        }) == weight_of(s, prefix),
    decreases s.len(),
{
    if i == s.len() - 1 {
        assert(s.remove(i) =~= s.drop_last());
    } else {
        assert(s.remove(i).drop_last() =~= s.drop_last().remove(i));
        lemma_weight_of_remove(s.drop_last(), i, prefix);
        assert(s.remove(i).last() == s.last());
    }
}

/// Appending an entry extends the map and adds the entry's contribution to
/// the weight.
pub proof fn lemma_push_entry(s: Seq<(Vec<u8>, Vec<u8>)>, e: (Vec<u8>, Vec<u8>), prefix: Seq<u8>)
    ensures
        map_of(s.push(e)) =~= map_of(s).insert(e.0@, e.1@),
        weight_of(s.push(e), prefix) == weight_of(s, prefix) + if spec_starts_with(e.0@, prefix) {
            e.1@.len() as int
        } else {
            0
        },
{
    assert(s.push(e).drop_last() =~= s);
    assert(s.push(e).last() == e);
}

/// The in-memory filesystem: a finite map from absolute byte paths to the
/// byte contents of the regular file stored there.
pub struct Fs {
    entries: Vec<(Vec<u8>, Vec<u8>)>,
}

impl View for Fs {
    type V = Map<Seq<u8>, Seq<u8>>;

    closed spec fn view(&self) -> Map<Seq<u8>, Seq<u8>> {
        map_of(self.entries@)
    }
}

impl Fs {
    /// One entry per path.
    pub closed spec fn wf(self) -> bool {
        keys_distinct(self.entries@)
    }

    /// The total size of the files whose paths carry the given prefix.
    pub closed spec fn spec_weight(self, prefix: Seq<u8>) -> nat {
        weight_of(self.entries@, prefix)
    }

    /// An empty tree.
    pub fn new() -> (r: Fs)
        ensures
            r.wf(),
            r@ =~= Map::<Seq<u8>, Seq<u8>>::empty(),
            r.spec_weight(Seq::empty()) == 0,
    {
        let entries: Vec<(Vec<u8>, Vec<u8>)> = Vec::new();
        Fs { entries }
    }

    /// The position of the entry for `path`, if one exists.
    fn find(&self, path: &Vec<u8>) -> (r: Option<usize>)
        ensures
            match r {
                Some(i) => i < self.entries@.len() && self.entries@[i as int].0@ == path@,
                None => forall|i: int| 0 <= i < self.entries@.len() ==> self.entries@[i].0@ != path@,
            },
    {
        let mut i: usize = 0;
        while i < self.entries.len()
            invariant
                i <= self.entries@.len(),
                forall|j: int| 0 <= j < i ==> self.entries@[j].0@ != path@,
            decreases self.entries@.len() - i,
        {
            if bytes_equal(&self.entries[i].0, path) {
                return Some(i);
            }
            i += 1;
        }
        None
    }

    /// Whether a file exists at `path`.
    pub fn contains_path(&self, path: &Vec<u8>) -> (r: bool)
        ensures
            r == self@.contains_key(path@),
    {
        proof {
            lemma_map_of_membership(self.entries@);
        }
        self.find(path).is_some()
    }

    /// The contents of the file at `path`, if one exists.
    pub fn read(&self, path: &Vec<u8>) -> (r: Option<&Vec<u8>>)
        requires
            self.wf(),
        ensures
            match r {
                Some(c) => self@.contains_key(path@) && c@ == self@[path@],
                None => !self@.contains_key(path@),
            },
    {
        proof {
            lemma_map_of_membership(self.entries@);
        }
        match self.find(path) {
            Some(i) => {
                proof {
                    lemma_map_of_value(self.entries@, i as int);
                }
                Some(&self.entries[i].1)
            },
            None => None,
        }
    }

    /// Writes `data` to `path`, replacing what was there.
    pub fn write(&mut self, path: &Vec<u8>, data: Vec<u8>)
        requires
            old(self).wf(),
        ensures
            final(self).wf(),
            final(self)@ =~= old(self)@.insert(path@, data@),
            forall|prefix: Seq<u8>|
                final(self).spec_weight(prefix) == old(self).spec_weight(prefix) + (
                if spec_starts_with(path@, prefix) {
                    data@.len() as int
                } else {
                    0
                }) - (if old(self)@.contains_key(path@) && spec_starts_with(path@, prefix) {
                    old(self)@[path@].len() as int
                } else {
                    0
                }),
    {
        let ghost s0 = self.entries@;
        proof {
            lemma_map_of_membership(s0);
        }
        match self.find(path) {
            Some(i) => {
                proof {
                    lemma_map_of_value(s0, i as int);
                }
                let removed = self.entries.remove(i);
                let ghost s1 = self.entries@;
                self.entries.push((path.clone(), data));
                proof {
                    assert forall|prefix: Seq<u8>|
                        final(self).spec_weight(prefix) == old(self).spec_weight(prefix) + (
                        if spec_starts_with(path@, prefix) {
                            self.entries@.last().1@.len() as int
                        } else {
                            0
                        }) - (if spec_starts_with(path@, prefix) {
                            removed.1@.len() as int
                        } else {
                            0
                        }) by {
                        lemma_weight_of_remove(s0, i as int, prefix);
                        lemma_push_entry(s1, self.entries@.last(), prefix);
                    }
                    lemma_map_of_remove(s0, i as int);
                    lemma_push_entry(s1, self.entries@.last(), Seq::empty());
                    assert(keys_distinct(self.entries@)) by {
                        lemma_map_of_membership(s1);
                        assert(forall|j: int|
                            0 <= j < s1.len() ==> s1[j].0@ != path@);
                    }
                }
            },
            None => {
                self.entries.push((path.clone(), data));
                proof {
                    assert forall|prefix: Seq<u8>|
                        final(self).spec_weight(prefix) == old(self).spec_weight(prefix) + (
                        if spec_starts_with(path@, prefix) {
                            self.entries@.last().1@.len() as int
                        } else {
                            0
                        }) by {
                        lemma_push_entry(s0, self.entries@.last(), prefix);
                    }
                    lemma_push_entry(s0, self.entries@.last(), Seq::empty());
                    assert(keys_distinct(self.entries@));
                }
            },
        }
    }

    /// Removes the file at `path`, if one exists.
    pub fn remove_file(&mut self, path: &Vec<u8>)
        requires
            old(self).wf(),
        ensures
            final(self).wf(),
            final(self)@ =~= old(self)@.remove(path@),
            forall|prefix: Seq<u8>|
                final(self).spec_weight(prefix) == old(self).spec_weight(prefix) - (
                if old(self)@.contains_key(path@) && spec_starts_with(path@, prefix) {
                    old(self)@[path@].len() as int
                } else {
                    0
                }),
    {
        let ghost s0 = self.entries@;
        proof {
            lemma_map_of_membership(s0);
        }
        match self.find(path) {
            Some(i) => {
                proof {
                    lemma_map_of_value(s0, i as int);
                    lemma_map_of_remove(s0, i as int);
                    assert forall|prefix: Seq<u8>|
                        weight_of(s0.remove(i as int), prefix) == weight_of(s0, prefix) - (
                        if spec_starts_with(path@, prefix) {
                            s0[i as int].1@.len() as int
                        } else {
                            0
                        }) by {
                        lemma_weight_of_remove(s0, i as int, prefix);
                    }
                }
                self.entries.remove(i);
            },
            None => {
                proof {
                    assert(final(self)@ =~= old(self)@.remove(path@));
                }
            },
        }
    }

    /// The paths of all files with the given path prefix, each exactly once.
    pub fn keys_with_prefix(&self, prefix: &Vec<u8>) -> (r: Vec<Vec<u8>>)
        requires
            self.wf(),
        ensures
            forall|j: int|
                0 <= j < r@.len() ==> self@.contains_key(#[trigger] r@[j]@) && spec_starts_with(
                    r@[j]@,
                    prefix@,
                ),
            forall|k: Seq<u8>|
                self@.contains_key(k) && spec_starts_with(k, prefix@) ==> exists|j: int|
                    0 <= j < r@.len() && #[trigger] r@[j]@ == k,
            forall|j1: int, j2: int| 0 <= j1 < j2 < r@.len() ==> r@[j1]@ != r@[j2]@,
    {
        proof {
            lemma_map_of_membership(self.entries@);
        }
        let mut out: Vec<Vec<u8>> = Vec::new();
        let mut i: usize = 0;
        while i < self.entries.len()
            invariant
                self.wf(),
                i <= self.entries@.len(),
                forall|j: int|
                    0 <= j < out@.len() ==> self@.contains_key(#[trigger] out@[j]@)
                        && spec_starts_with(out@[j]@, prefix@),
                forall|e: int|
                    0 <= e < i && spec_starts_with(#[trigger] self.entries@[e].0@, prefix@)
                        ==> exists|j: int| 0 <= j < out@.len() && #[trigger] out@[j]@
                        == self.entries@[e].0@,
                forall|j1: int, j2: int| 0 <= j1 < j2 < out@.len() ==> out@[j1]@ != out@[j2]@,
                forall|j: int|
                    0 <= j < out@.len() ==> exists|e: int|
                        0 <= e < i && #[trigger] out@[j]@ == self.entries@[e].0@,
            decreases self.entries@.len() - i,
        {
            let ghost out0 = out@;
            if starts_with(&self.entries[i].0, prefix) {
                proof {
                    lemma_map_of_membership(self.entries@);
                    lemma_map_of_value(self.entries@, i as int);
                    assert forall|j: int| 0 <= j < out0.len() implies out0[j]@
                        != self.entries@[i as int].0@ by {
                        let e = choose|e: int|
                            0 <= e < i && #[trigger] out0[j]@ == self.entries@[e].0@;
                    }
                }
                out.push(self.entries[i].0.clone());
                proof {
                    assert(forall|j: int| 0 <= j < out0.len() ==> out@[j] == out0[j]);
                    assert(out@[out0.len() as int]@ == self.entries@[i as int].0@);
                    assert forall|e: int|
                        0 <= e < i + 1 && spec_starts_with(
                            #[trigger] self.entries@[e].0@,
                            prefix@,
                        ) implies exists|j: int|
                        0 <= j < out@.len() && #[trigger] out@[j]@ == self.entries@[e].0@ by {
                        if e < i {
                            let j = choose|j: int|
                                0 <= j < out0.len() && #[trigger] out0[j]@ == self.entries@[e].0@;
                            assert(out@[j]@ == self.entries@[e].0@);
                        } else {
                            assert(out@[out0.len() as int]@ == self.entries@[e].0@);
                        }
                    }
                }
            }
            i += 1;
        }
        proof {
            lemma_map_of_membership(self.entries@);
            assert forall|k: Seq<u8>|
                self@.contains_key(k) && spec_starts_with(k, prefix@) implies exists|j: int|
                0 <= j < out@.len() && #[trigger] out@[j]@ == k by {
                let e = choose|e: int| 0 <= e < self.entries@.len() && self.entries@[e].0@ == k;
                assert(spec_starts_with(self.entries@[e].0@, prefix@));
            }
        }
        out
    }

    /// Whether any file path carries the given prefix.
    pub fn any_key_with_prefix(&self, prefix: &Vec<u8>) -> (r: bool)
        requires
            self.wf(),
        ensures
            r == exists|k: Seq<u8>| self@.contains_key(k) && spec_starts_with(k, prefix@),
    {
        proof {
            lemma_map_of_membership(self.entries@);
        }
        let mut i: usize = 0;
        while i < self.entries.len()
            invariant
                i <= self.entries@.len(),
                forall|j: int|
                    0 <= j < i ==> !spec_starts_with(#[trigger] self.entries@[j].0@, prefix@),
            decreases self.entries@.len() - i,
        {
            if starts_with(&self.entries[i].0, prefix) {
                proof {
                    lemma_map_of_membership(self.entries@);
                }
                return true;
            }
            i += 1;
        }
        proof {
            lemma_map_of_membership(self.entries@);
        }
        false
    }

    /// The total size of the files whose paths carry the given prefix,
    /// saturating at the top of the range.
    pub fn weight_under(&self, prefix: &Vec<u8>) -> (r: u64)
        ensures
            r as int == if self.spec_weight(prefix@) <= u64::MAX {
                self.spec_weight(prefix@) as int
            } else {
                u64::MAX as int
            },
    {
        let mut acc: u64 = 0;
        let mut i: usize = 0;
        while i < self.entries.len()
            invariant
                i <= self.entries@.len(),
                acc as int == if weight_of(self.entries@.subrange(0, i as int), prefix@)
                    <= u64::MAX {
                    weight_of(self.entries@.subrange(0, i as int), prefix@) as int
                } else {
                    u64::MAX as int
                },
            decreases self.entries@.len() - i,
        {
            let ghost pre = self.entries@.subrange(0, i as int);
            let ghost post = self.entries@.subrange(0, i + 1 as int);
            proof {
                assert(post.drop_last() =~= pre);
                assert(post.last() == self.entries@[i as int]);
            }
            if starts_with(&self.entries[i].0, prefix) {
                let l = self.entries[i].1.len();
                let l64: u64 = l as u64;
                if acc > u64::MAX - l64 {
                    acc = u64::MAX;
                } else {
                    acc = acc + l64;
                }
            }
            i += 1;
        }
        proof {
            assert(self.entries@.subrange(0, self.entries@.len() as int) =~= self.entries@);
        }
        acc
    }
}

} // verus!
