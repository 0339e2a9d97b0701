//! The on-disk form of the index document.
//!
//! The document is a length-prefixed binary encoding: every number is a
//! fixed-width little-endian field, every byte string is its length
//! followed by its bytes.  Encoding and parsing are both defined at the
//! specification level, and parsing an encoded document is proved to give
//! back exactly the document.

use vstd::prelude::*;
use crate::index_item::ItemModel;
use crate::index::IndexView;

verus! {

/// 256 to the `k`.
pub open spec fn pow256(k: nat) -> nat
    decreases k,
{
    if k == 0 {
        1
    } else {
        256 * pow256((k - 1) as nat)
    }
}

/// The `k`-byte little-endian form of `n`.
pub open spec fn le_bytes_of(n: nat, k: nat) -> Seq<u8>
    decreases k,
{
    if k == 0 {
        Seq::empty()
    } else {
        seq![(n % 256) as u8] + le_bytes_of(n / 256, (k - 1) as nat)
    }
}

/// The number a little-endian byte string denotes.
pub open spec fn le_val_of(s: Seq<u8>) -> nat
    decreases s.len(),
{
    if s.len() == 0 {
        0
    } else {
        (s[0] as nat) + 256 * le_val_of(s.drop_first())
    }
}

/// A little-endian form is `k` bytes long.
pub proof fn lemma_le_bytes_len(n: nat, k: nat)
    ensures
        le_bytes_of(n, k).len() == k,
    decreases k,
{
    if k > 0 {
        lemma_le_bytes_len(n / 256, (k - 1) as nat);
    }
}

/// A `k`-byte string denotes a value below 256 to the `k`.
pub proof fn lemma_le_val_bound(s: Seq<u8>)
    ensures
        le_val_of(s) < pow256(s.len()),
    decreases s.len(),
{
    if s.len() > 0 {
        lemma_le_val_bound(s.drop_first());
    }
}

/// Reading back the little-endian form of `n` gives `n`.
pub proof fn lemma_le_roundtrip(n: nat, k: nat)
    requires
        n < pow256(k),
    ensures
        le_val_of(le_bytes_of(n, k)) == n,
    decreases k,
{
    if k > 0 {
        assert(n / 256 < pow256((k - 1) as nat)) by {
            assert(n < 256 * pow256((k - 1) as nat));
            assert(n / 256 < pow256((k - 1) as nat)) by (nonlinear_arith)
                requires
                    n < 256 * pow256((k - 1) as nat);
        }
        lemma_le_roundtrip(n / 256, (k - 1) as nat);
        let s = le_bytes_of(n, k);
        assert(s.drop_first() =~= le_bytes_of(n / 256, (k - 1) as nat));
        assert(s[0] == n % 256);
        assert(le_val_of(s) == n % 256 + 256 * (n / 256));
    }
}

/// `pow256` of the widths the format uses.
pub proof fn lemma_pow256_values()
    ensures
        pow256(8) == 0x1_0000_0000_0000_0000,
        pow256(16) == 0x1_0000_0000_0000_0000_0000_0000_0000_0000,
{
    reveal_with_fuel(pow256, 17);
}

/// The `k`-byte little-endian form of `n`, as bytes on disk.
pub fn le_bytes(n: u128, k: usize) -> (r: Vec<u8>)
    ensures
        r@ == le_bytes_of(n as nat, k as nat),
        r@.len() == k,
{
    proof {
        lemma_le_bytes_len(n as nat, k as nat);
    }
    let mut out: Vec<u8> = Vec::new();
    let mut cur: u128 = n;
    let mut i: usize = 0;
    while i < k
        invariant
            i <= k,
            out@.len() == i,
            le_bytes_of(n as nat, k as nat) =~= out@ + le_bytes_of(cur as nat, (k - i) as nat),
        decreases k - i,
    {
        let ghost before = out@;
        out.push((cur % 256) as u8);
        cur = cur / 256;
        proof {
            assert(le_bytes_of(n as nat, k as nat) =~= out@ + le_bytes_of(
                cur as nat,
                (k - (i + 1)) as nat,
            )) by {
                assert(le_bytes_of(n as nat, k as nat) =~= before + (seq![
                    out@.last(),
                ] + le_bytes_of(cur as nat, (k - (i + 1)) as nat)));
            }
        }
        i += 1;
    }
    proof {
        assert(le_bytes_of(n as nat, k as nat) =~= out@);
    }
    out
}

/// The value of the `k` bytes at `pos`, read little-endian; nothing when
/// fewer than `k` bytes remain.
pub fn le_read(bytes: &Vec<u8>, pos: usize, k: usize) -> (r: Option<u128>)
    requires
        k <= 16,
    ensures
        match r {
            Some(v) => pos + k <= bytes@.len() && v as nat == le_val_of(
                bytes@.subrange(pos as int, pos + k),
            ),
            None => pos + k > bytes@.len(),
        },
{
    if pos > bytes.len() || k > bytes.len() - pos {
        return None;
    }
    proof {
        lemma_pow256_values();
    }
    let mut acc: u128 = 0;
    let mut i: usize = k;
    while i > 0
        invariant
            i <= k <= 16,
            pos + k <= bytes@.len(),
            pos + k <= usize::MAX,
            acc as nat == le_val_of(bytes@.subrange(pos + i, pos + k)),
            (acc as nat) < pow256((k - i) as nat),
        decreases i,
    {
        let ghost old_acc = acc;
        proof {
            lemma_pow256_values();
            assert(pow256((k - i) as nat) * 256 == pow256((k - (i - 1)) as nat)) by {
                assert(pow256((k - (i - 1)) as nat) == 256 * pow256((k - i) as nat));
            }
            assert(pow256((k - (i - 1)) as nat) <= pow256(16)) by {
                lemma_pow256_increases((k - (i - 1)) as nat, 16);
            }
            assert(old_acc * 256 + 255 < pow256(16)) by (nonlinear_arith)
                requires
                    (old_acc as nat) < pow256((k - i) as nat),
                    pow256((k - i) as nat) * 256 == pow256((k - (i - 1)) as nat),
                    pow256((k - (i - 1)) as nat) <= pow256(16),
                    pow256(16) == 0x1_0000_0000_0000_0000_0000_0000_0000_0000;
        }
        let idx = i - 1;
        acc = acc * 256 + (bytes[pos + idx] as u128);
        proof {
            let sub = bytes@.subrange(pos + i - 1, pos + k);
            assert(sub.drop_first() =~= bytes@.subrange(pos + i, pos + k));
            assert(sub[0] == bytes@[pos + i - 1]);
            assert(acc as nat == le_val_of(sub));
            assert((acc as nat) < pow256((k - (i - 1)) as nat)) by (nonlinear_arith)
                requires
                    acc as nat == old_acc * 256 + sub[0],
                    sub[0] < 256,
                    (old_acc as nat) < pow256((k - i) as nat),
                    pow256((k - i) as nat) * 256 == pow256((k - (i - 1)) as nat);
        }
        i -= 1;
    }
    Some(acc)
}

/// Later powers of 256 are at least earlier ones.
pub proof fn lemma_pow256_increases(a: nat, b: nat)
    requires
        a <= b,
    ensures
        pow256(a) <= pow256(b),
    decreases b,
{
    if a < b {
        lemma_pow256_increases(a, (b - 1) as nat);
        assert(pow256(b) == 256 * pow256((b - 1) as nat));
    }
}

/// The encoded form of one index item: each byte string length-prefixed,
/// the version as a fixed-width field.
pub open spec fn spec_encode_item(m: ItemModel) -> Seq<u8> {
    le_bytes_of(m.original_source_path.len(), 8) + m.original_source_path + le_bytes_of(
        m.relative_path.len(),
        8,
    ) + m.relative_path + le_bytes_of(m.id.len(), 8) + m.id + le_bytes_of(m.version as nat, 16)
}

/// The length of the encoded form of one item.
pub open spec fn spec_item_len(m: ItemModel) -> int {
    40 + m.original_source_path.len() as int + m.relative_path.len() as int + m.id.len() as int
}

/// The encoded forms of a run of items, in order.
pub open spec fn spec_encode_items(s: Seq<ItemModel>) -> Seq<u8>
    decreases s.len(),
{
    if s.len() == 0 {
        Seq::empty()
    } else {
        spec_encode_item(s.first()) + spec_encode_items(s.drop_first())
    }
}

/// The encoded form of a whole index document: its version, then each
/// keyed collection as a count followed by that many items.
pub open spec fn spec_encode_index(v: IndexView) -> Seq<u8> {
    le_bytes_of(v.version as nat, 16) + le_bytes_of(v.newest.len(), 8) + spec_encode_items(
        v.newest,
    ) + le_bytes_of(v.by_id.len(), 8) + spec_encode_items(v.by_id)
}

/// Whether an item's fields fit the fixed-width length and version fields.
pub open spec fn item_fits(m: ItemModel) -> bool {
    &&& m.original_source_path.len() < pow256(8)
    &&& m.relative_path.len() < pow256(8)
    &&& m.id.len() < pow256(8)
    &&& 0 <= m.version < pow256(16)
}

/// Whether every item of a run fits the format.
pub open spec fn items_fit(s: Seq<ItemModel>) -> bool {
    forall|i: int| 0 <= i < s.len() ==> item_fits(#[trigger] s[i])
}

/// Whether a whole document fits the format.
pub open spec fn view_fits(v: IndexView) -> bool {
    &&& items_fit(v.newest)
    &&& items_fit(v.by_id)
    &&& v.newest.len() < pow256(8)
    &&& v.by_id.len() < pow256(8)
    &&& 0 <= v.version < pow256(16)
}

/// The item parsed at `pos`, with the position just past it.
pub open spec fn spec_parse_item(s: Seq<u8>, pos: int) -> Option<(ItemModel, int)> {
    if pos < 0 || pos + 8 > s.len() {
        None
    } else {
        let n1 = le_val_of(s.subrange(pos, pos + 8));
        if pos + 8 + n1 + 8 > s.len() {
            None
        } else {
            let osp = s.subrange(pos + 8, pos + 8 + n1);
            let p1 = pos + 8 + n1;
            let n2 = le_val_of(s.subrange(p1, p1 + 8));
            if p1 + 8 + n2 + 8 > s.len() {
                None
            } else {
                let rel = s.subrange(p1 + 8, p1 + 8 + n2);
                let p2 = p1 + 8 + n2;
                let n3 = le_val_of(s.subrange(p2, p2 + 8));
                if p2 + 8 + n3 + 16 > s.len() {
                    None
                } else {
                    let idb = s.subrange(p2 + 8, p2 + 8 + n3);
                    let p3 = p2 + 8 + n3;
                    let ver = le_val_of(s.subrange(p3, p3 + 16));
                    Some(
                        (
                            ItemModel {
                                relative_path: rel,
                                original_source_path: osp,
                                id: idb,
                                version: ver as int,
                            },
                            p3 + 16,
                        ),
                    )
                }
            }
        }
    }
}

/// `n` items parsed in a row starting at `pos`.
pub open spec fn spec_parse_items(s: Seq<u8>, pos: int, n: nat) -> Option<(Seq<ItemModel>, int)>
    decreases n,
{
    if n == 0 {
        Some((Seq::empty(), pos))
    } else {
        match spec_parse_item(s, pos) {
            None => None,
            Some((m, p)) => match spec_parse_items(s, p, (n - 1) as nat) {
                None => None,
                Some((ms, p2)) => Some((seq![m] + ms, p2)),
            },
        }
    }
}

/// The document a byte string denotes, if it is a complete well-shaped
/// encoding and nothing more.
pub open spec fn spec_parse_index(s: Seq<u8>) -> Option<IndexView> {
    if s.len() < 24 {
        None
    } else {
        let ver = le_val_of(s.subrange(0, 16));
        let n1 = le_val_of(s.subrange(16, 24));
        match spec_parse_items(s, 24, n1) {
            None => None,
            Some((newest, p)) => if p + 8 > s.len() {
                None
            } else {
                let n2 = le_val_of(s.subrange(p, p + 8));
                match spec_parse_items(s, p + 8, n2) {
                    None => None,
                    Some((by_id, p2)) => if p2 == s.len() {
                        Some(IndexView { newest, by_id, version: ver as int })
                    } else {
                        None
                    },
                }
            },
        }
    }
}

/// Encoding a run and then one more item appends that item's encoding.
pub proof fn lemma_encode_items_snoc(s: Seq<ItemModel>, m: ItemModel)
    ensures
        spec_encode_items(s.push(m)) == spec_encode_items(s) + spec_encode_item(m),
    decreases s.len(),
{
    if s.len() == 0 {
        assert(s.push(m).first() == m);
        assert(s.push(m).drop_first() =~= Seq::<ItemModel>::empty());
        assert(spec_encode_items(Seq::<ItemModel>::empty()) =~= Seq::<u8>::empty());
        assert(spec_encode_items(s.push(m)) == spec_encode_item(m) + spec_encode_items(
            s.push(m).drop_first(),
        ));
        assert(spec_encode_items(s.push(m)) =~= spec_encode_items(s) + spec_encode_item(m));
    } else {
        assert(s.push(m).first() == s.first());
        assert(s.push(m).drop_first() =~= s.drop_first().push(m));
        lemma_encode_items_snoc(s.drop_first(), m);
        assert(spec_encode_items(s.push(m)) =~= spec_encode_items(s) + spec_encode_item(m));
    }
}

/// The encoded length of an item is its field lengths plus the headers.
pub proof fn lemma_encode_item_len(m: ItemModel)
    ensures
        spec_encode_item(m).len() == spec_item_len(m),
{
    lemma_le_bytes_len(m.original_source_path.len(), 8);
    lemma_le_bytes_len(m.relative_path.len(), 8);
    lemma_le_bytes_len(m.id.len(), 8);
    lemma_le_bytes_len(m.version as nat, 16);
}

/// An item's encoding, found inside a larger byte string, parses back to
/// exactly that item.
pub proof fn lemma_parse_item_of_encode(s: Seq<u8>, pos: int, m: ItemModel)
    requires
        item_fits(m),
        0 <= pos,
        pos + spec_item_len(m) <= s.len(),
        s.subrange(pos, pos + spec_item_len(m)) == spec_encode_item(m),
    ensures
        spec_parse_item(s, pos) == Some((m, pos + spec_item_len(m))),
{
    let e = spec_encode_item(m);
    let b = m.original_source_path.len() as int;
    let d = m.relative_path.len() as int;
    let f = m.id.len() as int;
    lemma_encode_item_len(m);
    lemma_le_bytes_len(m.original_source_path.len(), 8);
    lemma_le_bytes_len(m.relative_path.len(), 8);
    lemma_le_bytes_len(m.id.len(), 8);
    lemma_le_bytes_len(m.version as nat, 16);
    assert forall|a: int, c: int| 0 <= a <= c <= spec_item_len(m) implies s.subrange(
        pos + a,
        pos + c,
    ) =~= e.subrange(a, c) by {
        assert(forall|j: int|
            0 <= j < spec_item_len(m) ==> s[pos + j] == #[trigger] e[j]) by {
            assert(forall|j: int|
                0 <= j < spec_item_len(m) ==> #[trigger] e[j] == s.subrange(
                    pos,
                    pos + spec_item_len(m),
                )[j]);
        }
    }
    assert(e.subrange(0, 8) =~= le_bytes_of(m.original_source_path.len(), 8));
    assert(s.subrange(pos, pos + 8) == e.subrange(0, 8));
    lemma_le_roundtrip(m.original_source_path.len(), 8);
    let n1 = le_val_of(s.subrange(pos, pos + 8));
    assert(n1 == b);
    assert(e.subrange(8, 8 + b) =~= m.original_source_path);
    assert(s.subrange(pos + 8, pos + 8 + b) == e.subrange(8, 8 + b));
    let p1 = pos + 8 + b;
    assert(e.subrange(8 + b, 16 + b) =~= le_bytes_of(m.relative_path.len(), 8));
    assert(s.subrange(p1, p1 + 8) == e.subrange(8 + b, 16 + b));
    lemma_le_roundtrip(m.relative_path.len(), 8);
    let n2 = le_val_of(s.subrange(p1, p1 + 8));
    assert(n2 == d);
    assert(e.subrange(16 + b, 16 + b + d) =~= m.relative_path);
    assert(s.subrange(p1 + 8, p1 + 8 + d) == e.subrange(16 + b, 16 + b + d));
    let p2 = p1 + 8 + d;
    assert(e.subrange(16 + b + d, 24 + b + d) =~= le_bytes_of(m.id.len(), 8));
    assert(s.subrange(p2, p2 + 8) == e.subrange(16 + b + d, 24 + b + d));
    lemma_le_roundtrip(m.id.len(), 8);
    let n3 = le_val_of(s.subrange(p2, p2 + 8));
    assert(n3 == f);
    assert(e.subrange(24 + b + d, 24 + b + d + f) =~= m.id);
    assert(s.subrange(p2 + 8, p2 + 8 + f) == e.subrange(24 + b + d, 24 + b + d + f));
    let p3 = p2 + 8 + f;
    assert(e.subrange(24 + b + d + f, 40 + b + d + f) =~= le_bytes_of(m.version as nat, 16));
    assert(s.subrange(p3, p3 + 16) == e.subrange(24 + b + d + f, 40 + b + d + f));
    lemma_le_roundtrip(m.version as nat, 16);
    assert(le_val_of(s.subrange(p3, p3 + 16)) == m.version as nat);
}

/// The total length of an encoded run of items.
pub open spec fn spec_items_len(s: Seq<ItemModel>) -> int
    decreases s.len(),
{
    if s.len() == 0 {
        0
    } else {
        spec_item_len(s.first()) + spec_items_len(s.drop_first())
    }
}

/// An encoded run is as long as the sum of its items' encodings.
pub proof fn lemma_encode_items_len(s: Seq<ItemModel>)
    ensures
        spec_encode_items(s).len() == spec_items_len(s),
        spec_items_len(s) >= 0,
    decreases s.len(),
{
    if s.len() > 0 {
        lemma_encode_item_len(s.first());
        lemma_encode_items_len(s.drop_first());
    }
}

/// A run's encoding, found inside a larger byte string, parses back to
/// exactly that run.
pub proof fn lemma_parse_items_of_encode(s: Seq<u8>, pos: int, ms: Seq<ItemModel>)
    requires
        items_fit(ms),
        0 <= pos,
        pos + spec_items_len(ms) <= s.len(),
        s.subrange(pos, pos + spec_items_len(ms)) == spec_encode_items(ms),
    ensures
        spec_parse_items(s, pos, ms.len()) == Some((ms, pos + spec_items_len(ms))),
    decreases ms.len(),
{
    lemma_encode_items_len(ms);
    if ms.len() == 0 {
        assert(spec_parse_items(s, pos, 0) == Some((Seq::<ItemModel>::empty(), pos)));
        assert(ms =~= Seq::<ItemModel>::empty());
    } else {
        let m = ms.first();
        let rest = ms.drop_first();
        lemma_encode_item_len(m);
        lemma_encode_items_len(rest);
        assert(spec_encode_items(ms) == spec_encode_item(m) + spec_encode_items(rest));
        assert forall|j: int|
            0 <= j < spec_items_len(ms) implies s[pos + j] == #[trigger] spec_encode_items(
            ms,
        )[j] by {
            assert(spec_encode_items(ms)[j] == s.subrange(pos, pos + spec_items_len(ms))[j]);
        }
        assert(s.subrange(pos, pos + spec_item_len(m)) =~= spec_encode_item(m));
        lemma_parse_item_of_encode(s, pos, m);
        let p = pos + spec_item_len(m);
        assert forall|j: int|
            0 <= j < spec_items_len(rest) implies s[p + j] == #[trigger] spec_encode_items(
            rest,
        )[j] by {
            assert(s[pos + (spec_item_len(m) + j)] == spec_encode_items(ms)[spec_item_len(m)
                + j]);
            assert((spec_encode_item(m) + spec_encode_items(rest))[spec_item_len(m) + j]
                == spec_encode_items(rest)[j]);
        }
        assert(s.subrange(p, p + spec_items_len(rest)) =~= spec_encode_items(rest));
        lemma_parse_items_of_encode(s, p, rest);
        assert(seq![m] + rest =~= ms);
    }
}

/// A whole document's encoding parses back to exactly that document.
#[verifier::rlimit(100)]
pub proof fn lemma_parse_index_of_encode(v: IndexView)
    requires
        view_fits(v),
    ensures
        spec_parse_index(spec_encode_index(v)) == Some(v),
{
    let s = spec_encode_index(v);
    lemma_le_bytes_len(v.version as nat, 16);
    lemma_le_bytes_len(v.newest.len(), 8);
    lemma_le_bytes_len(v.by_id.len(), 8);
    lemma_encode_items_len(v.newest);
    lemma_encode_items_len(v.by_id);
    let ln = spec_items_len(v.newest);
    let lb = spec_items_len(v.by_id);
    assert(s.len() == 24 + ln + 8 + lb);
    assert(s.subrange(0, 16) =~= le_bytes_of(v.version as nat, 16));
    lemma_le_roundtrip(v.version as nat, 16);
    assert(s.subrange(16, 24) =~= le_bytes_of(v.newest.len(), 8));
    lemma_le_roundtrip(v.newest.len(), 8);
    assert(s.subrange(24, 24 + ln) =~= spec_encode_items(v.newest));
    lemma_parse_items_of_encode(s, 24, v.newest);
    let p = 24 + ln;
    assert(s.subrange(p, p + 8) =~= le_bytes_of(v.by_id.len(), 8));
    lemma_le_roundtrip(v.by_id.len(), 8);
    assert(s.subrange(p + 8, p + 8 + lb) =~= spec_encode_items(v.by_id));
    lemma_parse_items_of_encode(s, p + 8, v.by_id);
}


/// A copy of the `n` bytes at `pos`; nothing when fewer remain.
pub fn read_bytes(bytes: &Vec<u8>, pos: usize, n: usize) -> (r: Option<Vec<u8>>)
    ensures
        match r {
            Some(v) => pos + n <= bytes@.len() && v@ == bytes@.subrange(pos as int, pos + n),
            None => pos + n > bytes@.len(),
        },
{
    if pos > bytes.len() || n > bytes.len() - pos {
        return None;
    }
    let mut out: Vec<u8> = Vec::new();
    let mut i: usize = 0;
    while i < n
        invariant
            i <= n,
            pos + n <= bytes@.len(),
            pos + n <= usize::MAX,
            out@ =~= bytes@.subrange(pos as int, pos + i),
        decreases n - i,
    {
        out.push(bytes[pos + i]);
        proof {
            assert(out@ =~= bytes@.subrange(pos as int, pos + i + 1));
        }
        i += 1;
    }
    Some(out)
}

} // verus!
