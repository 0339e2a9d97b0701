//! Content fingerprints: a file is identified by the cryptographic hash of
//! its whole byte content.

use vstd::prelude::*;
use crate::paths::bytes_equal;
use sha2::Digest;

verus! {

/// The digest that the hash function assigns to a byte string.
///
/// The digest is a function of the bytes alone; nothing more is assumed of
/// its values.
pub uninterp spec fn digest_of(bytes: Seq<u8>) -> Seq<u8>;

/// Relies on sha2's `Sha512::digest`: the digest depends on the input bytes
/// alone and is always 64 bytes long.
#[verifier::external_body]
fn sha512(bytes: &Vec<u8>) -> (r: Vec<u8>)
    ensures
        r@ == digest_of(bytes@),
        r@.len() == 64,
{
    sha2::Sha512::digest(bytes.as_slice()).to_vec()
}

/// The lowercase hex digit for a value below 16.
pub open spec fn hex_digit(n: u8) -> u8 {
    if n < 10 {
        (48 + n) as u8
    } else {
        (87 + n) as u8
    }
}

/// The lowercase hex form of a byte string: two digits for each byte.
pub open spec fn hex_of(bytes: Seq<u8>) -> Seq<u8>
    decreases bytes.len(),
{
    if bytes.len() == 0 {
        Seq::empty()
    } else {
        hex_of(bytes.drop_last()).push(hex_digit(bytes.last() / 16)).push(hex_digit(bytes.last() % 16))
    }
}

/// Relies on `hex::encode`: the lowercase hex form of the bytes, two digits
/// per byte, high nibble first.
#[verifier::external_body]
fn hex_bytes(bytes: &Vec<u8>) -> (r: Vec<u8>)
    ensures
        r@ == hex_of(bytes@),
{
    hex::encode(bytes).into_bytes()
}

/// The identifier of one stored file content: the hash of its bytes.
///
/// Equal content gives an equal id; the stored object file is named by the
/// lowercase hex form of the id.
#[derive(Clone, Debug, PartialEq, Eq, PartialOrd, Ord, Hash)]
pub struct ItemId {
    bytes: Vec<u8>,
}

impl View for ItemId {
    type V = Seq<u8>;

    closed spec fn view(&self) -> Seq<u8> {
        self.bytes@
    }
}

impl ItemId {
    /// The id of the given byte content.
    pub fn of(contents: &Vec<u8>) -> (r: ItemId)
        ensures
            r@ == digest_of(contents@),
            r@.len() == 64,
    {
        ItemId { bytes: sha512(contents) }
    }

    /// An id taken back from its stored raw bytes.
    pub fn from_bytes(bytes: Vec<u8>) -> (r: ItemId)
        ensures
            r@ == bytes@,
    {
        ItemId { bytes }
    }

    /// The raw bytes of the id.
    pub fn as_bytes(&self) -> (r: &Vec<u8>)
        ensures
            r@ == self@,
    {
        &self.bytes
    }

    /// Whether two ids name the same content fingerprint.
    pub fn same_as(&self, other: &ItemId) -> (r: bool)
        ensures
            r == (self@ == other@),
    {
        bytes_equal(&self.bytes, &other.bytes)
    }

    /// The lowercase hex form of the id, as the object file name.
    pub fn to_hex(&self) -> (r: Vec<u8>)
        ensures
            r@ == hex_of(self@),
    {
        hex_bytes(&self.bytes)
    }

    /// A copy that is known to carry the same bytes.
    pub fn duplicate(&self) -> (r: ItemId)
        ensures
            r@ == self@,
    {
        ItemId { bytes: self.bytes.clone() }
    }
}

/// Hex encoding keeps byte strings apart: equal hex forms mean equal bytes.
pub proof fn lemma_hex_of_injective(a: Seq<u8>, b: Seq<u8>)
    requires
        hex_of(a) == hex_of(b),
    ensures
        a == b,
    decreases a.len() + b.len(),
{
    assert(hex_of(a).len() == 2 * a.len()) by {
        lemma_hex_of_len(a);
    }
    assert(hex_of(b).len() == 2 * b.len()) by {
        lemma_hex_of_len(b);
    }
    if a.len() == 0 {
        assert(b.len() == 0);
        assert(a =~= b);
    } else {
        let ha = hex_of(a);
        assert(ha[ha.len() - 2] == hex_digit(a.last() / 16));
        assert(ha[ha.len() - 1] == hex_digit(a.last() % 16));
        assert(hex_of(b)[ha.len() - 2] == hex_digit(b.last() / 16));
        assert(hex_of(b)[ha.len() - 1] == hex_digit(b.last() % 16));
        assert(a.last() / 16 == b.last() / 16 && a.last() % 16 == b.last() % 16) by {
            lemma_hex_digit_injective(a.last() / 16, b.last() / 16);
            lemma_hex_digit_injective(a.last() % 16, b.last() % 16);
        }
        assert(a.last() == b.last());
        let da = a.drop_last();
        let db = b.drop_last();
        lemma_hex_of_len(da);
        lemma_hex_of_len(db);
        assert(ha == hex_of(da).push(hex_digit(a.last() / 16)).push(hex_digit(a.last() % 16)));
        assert(hex_of(b) == hex_of(db).push(hex_digit(b.last() / 16)).push(
            hex_digit(b.last() % 16),
        ));
        assert forall|i: int| 0 <= i < ha.len() - 2 implies hex_of(da)[i] == hex_of(db)[i] by {
            assert(hex_of(da)[i] == hex_of(da).push(hex_digit(a.last() / 16))[i]);
            assert(hex_of(da).push(hex_digit(a.last() / 16))[i] == ha[i]);
            assert(hex_of(db)[i] == hex_of(db).push(hex_digit(b.last() / 16))[i]);
            assert(hex_of(db).push(hex_digit(b.last() / 16))[i] == hex_of(b)[i]);
        }
        assert(hex_of(da) =~= hex_of(db));
        lemma_hex_of_injective(da, db);
        assert(a =~= a.drop_last().push(a.last()));
        assert(b =~= b.drop_last().push(b.last()));
    }
}

/// The hex form is twice as long as its input.
pub proof fn lemma_hex_of_len(a: Seq<u8>)
    ensures
        hex_of(a).len() == 2 * a.len(),
    decreases a.len(),
{
    if a.len() > 0 {
        lemma_hex_of_len(a.drop_last());
    }
}

proof fn lemma_hex_digit_injective(x: u8, y: u8)
    requires
        x < 16,
        y < 16,
        hex_digit(x) == hex_digit(y),
    ensures
        x == y,
{
}

} // verus!
