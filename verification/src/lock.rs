//! Advisory, filesystem-based mutual exclusion over a directory.
//!
//! An acquirer writes a lockfile named by a fresh random id under the
//! directory and holds the lock only while its file is the sole lockfile
//! there.  Over the in-memory filesystem value one observation decides:
//! when a foreign lockfile is present the acquisition reports a timeout,
//! exactly as the on-disk protocol does once its deadline has run out.

use vstd::prelude::*;
use crate::error::BakareError;
use crate::fs::Fs;
use crate::paths::{sep, spec_starts_with, spec_ends_with, ends_with};
use rand::RngCore;

verus! {

/// The hyphenated text that a 16-byte lock id is written as.
///
/// The text is a function of the id bytes alone; nothing more is assumed
/// of it than its length.
pub uninterp spec fn uuid_text_of(b: Seq<u8>) -> Seq<u8>;

/// Relies on rand's `OsRng::fill_bytes`: 16 bytes from the operating
/// system's generator; nothing is assumed of their values.
#[verifier::external_body]
fn random_bytes16() -> (r: Vec<u8>)
    ensures
        r@.len() == 16,
{
    let mut buffer = [0u8; 16];
    rand::rngs::OsRng.fill_bytes(&mut buffer);
    buffer.to_vec()
}

/// Relies on uuid's hyphenated formatting: the 36-character text depends
/// on the 16 id bytes alone.
#[verifier::external_body]
fn uuid_text(b: &Vec<u8>) -> (r: Vec<u8>)
    requires
        b@.len() == 16,
    ensures
        r@ == uuid_text_of(b@),
        r@.len() == 36,
{
    let mut arr = [0u8; 16];
    arr.copy_from_slice(&b[..16]);
    uuid::Uuid::from_bytes(arr).hyphenated().to_string().into_bytes()
}

/// The `.lock` file name suffix.
pub open spec fn lock_suffix() -> Seq<u8> {
    seq![46u8, 108u8, 111u8, 99u8, 107u8]
}

/// Whether `k` names a lockfile somewhere under the directory `dir`.
pub open spec fn spec_is_lock_path(k: Seq<u8>, dir: Seq<u8>) -> bool {
    spec_starts_with(k, dir.push(sep())) && spec_ends_with(k, lock_suffix())
}

/// Whether any lockfile lives under the directory `dir`.
pub open spec fn spec_any_lock(fsm: Map<Seq<u8>, Seq<u8>>, dir: Seq<u8>) -> bool {
    exists|k: Seq<u8>| fsm.contains_key(k) && spec_is_lock_path(k, dir)
}

/// Whether any lockfile lives under the directory `dir`.
fn any_lock(fs: &Fs, dir: &Vec<u8>) -> (r: bool)
    requires
        fs.wf(),
    ensures
        r == spec_any_lock(fs@, dir@),
{
    let mut pre = dir.clone();
    pre.push(47u8);
    proof {
        assert(pre@ == dir@.push(sep()));
    }
    let keys = fs.keys_with_prefix(&pre);
    let suffix: Vec<u8> = vec![46u8, 108u8, 111u8, 99u8, 107u8];
    proof {
        assert(suffix@ =~= lock_suffix());
    }
    let mut i: usize = 0;
    while i < keys.len()
        invariant
            i <= keys@.len(),
            suffix@ == lock_suffix(),
            pre@ == dir@.push(sep()),
            forall|j: int|
                0 <= j < keys@.len() ==> fs@.contains_key(#[trigger] keys@[j]@) && spec_starts_with(
                    keys@[j]@,
                    pre@,
                ),
            forall|k: Seq<u8>|
                fs@.contains_key(k) && spec_starts_with(k, pre@) ==> exists|j: int|
                    0 <= j < keys@.len() && #[trigger] keys@[j]@ == k,
            forall|j: int| 0 <= j < i ==> !spec_ends_with(#[trigger] keys@[j]@, lock_suffix()),
        decreases keys@.len() - i,
    {
        if ends_with(&keys[i], &suffix) {
            proof {
                assert(fs@.contains_key(keys@[i as int]@) && spec_is_lock_path(
                    keys@[i as int]@,
                    dir@,
                ));
            }
            return true;
        }
        i += 1;
    }
    proof {
        if spec_any_lock(fs@, dir@) {
            let k = choose|k: Seq<u8>| fs@.contains_key(k) && spec_is_lock_path(k, dir@);
            let j = choose|j: int| 0 <= j < keys@.len() && #[trigger] keys@[j]@ == k;
            assert(!spec_ends_with(keys@[j]@, lock_suffix()));
        }
    }
    false
}

/// A held repository lock: the path of the lockfile this process owns.
pub struct Lock {
    path: Vec<u8>,
    id: Ghost<Seq<u8>>,
}

impl Lock {
    /// The path of the lockfile this lock owns.
    pub closed spec fn spec_path(self) -> Seq<u8> {
        self.path@
    }

    /// The random id this lock was taken with.
    pub closed spec fn id_bytes(self) -> Seq<u8> {
        self.id@
    }

    /// Takes the lock over `index_directory`, or reports a timeout when
    /// another holder's lockfile is present.  On success exactly one file
    /// was added: this lock's own lockfile, at a path nothing else used.
    pub fn lock(fs: &mut Fs, index_directory: &Vec<u8>) -> (r: Result<Lock, BakareError>)
        requires
            old(fs).wf(),
        ensures
            final(fs).wf(),
            match r {
                Ok(l) => !spec_any_lock(old(fs)@, index_directory@) && spec_is_lock_path(
                    l.spec_path(),
                    index_directory@,
                ) && !old(fs)@.contains_key(l.spec_path()) && final(fs)@ == old(fs)@.insert(
                    l.spec_path(),
                    uuid_text_of(l.id_bytes()),
                ) && l.id_bytes().len() == 16,
                Err(e) => e == BakareError::LockTimeout && spec_any_lock(
                    old(fs)@,
                    index_directory@,
                ) && final(fs)@ == old(fs)@ && *final(fs) == *old(fs),
            },
            forall|prefix: Seq<u8>|
                final(fs).spec_weight(prefix) == old(fs).spec_weight(prefix) + (match r {
                    Ok(l) => if spec_starts_with(l.spec_path(), prefix) {
                        uuid_text_of(l.id_bytes()).len() as int
                    } else {
                        0
                    },
                    Err(_) => 0,
                }),
    {
        if any_lock(fs, index_directory) {
            return Err(BakareError::LockTimeout);
        }
        let id = random_bytes16();
        let text = uuid_text(&id);
        let mut path = index_directory.clone();
        path.push(47u8);
        let mut t = text.clone();
        path.append(&mut t);
        let suffix: Vec<u8> = vec![46u8, 108u8, 111u8, 99u8, 107u8];
        let mut sfx = suffix;
        path.append(&mut sfx);
        proof {
            assert(path@.subrange(0, index_directory@.len() as int + 1) =~= index_directory@.push(
                sep(),
            ));
            assert(spec_starts_with(path@, index_directory@.push(sep())));
            assert(path@.subrange(path@.len() - 5, path@.len() as int) =~= lock_suffix());
            assert(spec_is_lock_path(path@, index_directory@));
            assert(!old(fs)@.contains_key(path@));
        }
        fs.write(&path, text);
        Ok(Lock { path, id: Ghost(id@) })
    }

    /// Gives the lock back: removes this lock's own lockfile and nothing
    /// else.
    pub fn release(self, fs: &mut Fs)
        requires
            old(fs).wf(),
        ensures
            final(fs).wf(),
            final(fs)@ == old(fs)@.remove(self.spec_path()),
            forall|prefix: Seq<u8>|
                final(fs).spec_weight(prefix) == old(fs).spec_weight(prefix) - (if old(
                    fs,
                )@.contains_key(self.spec_path()) && spec_starts_with(self.spec_path(), prefix) {
                    old(fs)@[self.spec_path()].len() as int
                } else {
                    0
                }),
    {
        fs.remove_file(&self.path);
    }
}

} // verus!
