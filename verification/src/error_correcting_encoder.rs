//! An error-correcting coding layer: data is cut into blocks and each
//! block carries parity bytes, so limited corruption can be repaired on
//! read.  Decoding an uncorrupted encoding gives back exactly the encoded
//! bytes, proved below.

use vstd::prelude::*;
use crate::error::BakareError;

verus! {

/// Bytes of payload per coded block.
pub open spec fn block_data_len() -> int {
    247
}

/// Bytes of a full coded block: payload plus parity.
pub open spec fn block_coded_len() -> int {
    255
}

/// The coded block the encoder produces for one run of payload bytes.
pub uninterp spec fn rs_block_of(data: Seq<u8>) -> Seq<u8>;

/// What the decoder makes of one coded block: the corrected payload, or
/// nothing when the block is damaged beyond repair.
pub uninterp spec fn rs_correct_of(block: Seq<u8>) -> Option<Seq<u8>>;

/// Relies on reed_solomon's `Encoder::encode` with eight parity bytes:
/// the coded block is the payload followed by the parity, a function of
/// the payload alone, and an undamaged coded block corrects back to its
/// payload.
#[verifier::external_body]
fn rs_encode_block(data: &Vec<u8>) -> (r: Vec<u8>)
    requires
        data@.len() <= block_data_len(),
    ensures
        r@ == rs_block_of(data@),
        r@.len() == data@.len() + 8,
        r@.subrange(0, data@.len() as int) == data@,
        rs_correct_of(r@) == Some(data@),
{
    let encoder = reed_solomon::Encoder::new(8);
    let buffer = encoder.encode(data.as_slice());
    buffer[..].to_vec()
}

/// Relies on reed_solomon's `Decoder::correct` with eight parity bytes:
/// the outcome depends on the block alone.
#[verifier::external_body]
fn rs_decode_block(block: &Vec<u8>) -> (r: Option<Vec<u8>>)
    requires
        8 <= block@.len() <= block_coded_len(),
    ensures
        match r {
            Some(d) => rs_correct_of(block@) == Some(d@) && d@.len() == block@.len() - 8,
            None => rs_correct_of(block@) is None,
        },
{
    let decoder = reed_solomon::Decoder::new(8);
    match decoder.correct(block.as_slice(), None) {
        Ok(buffer) => Some(buffer.data().to_vec()),
        Err(_) => None,
    }
}

/// The whole coded form of a byte string: one coded block per payload
/// block.
pub open spec fn spec_ecc_of(data: Seq<u8>) -> Seq<u8>
    decreases data.len(),
{
    if data.len() == 0 {
        Seq::empty()
    } else if data.len() <= block_data_len() {
        rs_block_of(data)
    } else {
        rs_block_of(data.subrange(0, block_data_len())) + spec_ecc_of(data.skip(block_data_len()))
    }
}

/// Each of the data's coded blocks has its payload's length plus parity.
pub open spec fn spec_ecc_well_sized(data: Seq<u8>) -> bool
    decreases data.len(),
{
    if data.len() == 0 {
        true
    } else if data.len() <= block_data_len() {
        rs_block_of(data).len() == data.len() + 8
    } else {
        rs_block_of(data.subrange(0, block_data_len())).len() == block_coded_len()
            && spec_ecc_well_sized(data.skip(block_data_len()))
    }
}

/// Each of the data's coded blocks corrects back to its payload.
pub open spec fn spec_ecc_decodable(data: Seq<u8>) -> bool
    decreases data.len(),
{
    if data.len() == 0 {
        true
    } else if data.len() <= block_data_len() {
        rs_correct_of(rs_block_of(data)) == Some(data)
    } else {
        rs_correct_of(rs_block_of(data.subrange(0, block_data_len()))) == Some(
            data.subrange(0, block_data_len()),
        ) && spec_ecc_decodable(data.skip(block_data_len()))
    }
}

/// What decoding a coded byte string yields: each full-width block, and
/// one final shorter block, corrected and concatenated.
pub open spec fn spec_ecc_decode(s: Seq<u8>) -> Option<Seq<u8>>
    decreases s.len(),
{
    if s.len() == 0 {
        Some(Seq::empty())
    } else if s.len() < 9 {
        None
    } else if s.len() <= block_coded_len() {
        rs_correct_of(s)
    } else {
        match rs_correct_of(s.subrange(0, block_coded_len())) {
            None => None,
            Some(d) => match spec_ecc_decode(s.skip(block_coded_len())) {
                None => None,
                Some(rest) => Some(d + rest),
            },
        }
    }
}

/// Decoding an undamaged coded form gives back exactly the bytes that
/// were encoded.
pub proof fn lemma_ecc_roundtrip(data: Seq<u8>)
    requires
        spec_ecc_well_sized(data),
        spec_ecc_decodable(data),
    ensures
        spec_ecc_decode(spec_ecc_of(data)) == Some(data),
    decreases data.len(),
{
    if data.len() == 0 {
        assert(spec_ecc_of(data) =~= Seq::<u8>::empty());
    } else if data.len() <= block_data_len() {
        let s = spec_ecc_of(data);
        assert(s.len() == data.len() + 8);
        assert(rs_correct_of(s) == Some(data));
    } else {
        let head = data.subrange(0, block_data_len());
        let tail = data.skip(block_data_len());
        let s = spec_ecc_of(data);
        assert(s == rs_block_of(head) + spec_ecc_of(tail));
        assert(rs_block_of(head).len() == block_coded_len());
        lemma_ecc_roundtrip(tail);
        assert(spec_ecc_of(tail).len() >= 9) by {
            lemma_ecc_len_min(tail);
        }
        assert(s.len() > block_coded_len());
        assert(s.subrange(0, block_coded_len()) =~= rs_block_of(head));
        assert(s.skip(block_coded_len()) =~= spec_ecc_of(tail));
        assert(head + tail =~= data);
    }
}

/// A nonempty payload's coded form is at least one whole short block.
proof fn lemma_ecc_len_min(data: Seq<u8>)
    requires
        data.len() > 0,
        spec_ecc_well_sized(data),
    ensures
        spec_ecc_of(data).len() >= data.len() + 8,
    decreases data.len(),
{
    if data.len() > block_data_len() {
        lemma_ecc_len_min(data.skip(block_data_len()));
    }
}

/// Encodes a byte string into its error-corrected coded form.
#[verifier::rlimit(60)]
pub fn encode(bytes: &Vec<u8>) -> (r: Result<Vec<u8>, BakareError>)
    ensures
        match r {
            Ok(out) => out@ == spec_ecc_of(bytes@) && spec_ecc_well_sized(bytes@)
                && spec_ecc_decodable(bytes@),
            Err(_) => false,
        },
{
    let mut out: Vec<u8> = Vec::new();
    let mut pos: usize = 0;
    let n = bytes.len();
    proof {
        assert(bytes@.skip(0) =~= bytes@);
        assert(out@ + spec_ecc_of(bytes@) =~= spec_ecc_of(bytes@));
    }
    while pos < n
        invariant
            pos <= n,
            n == bytes@.len(),
            out@ + spec_ecc_of(bytes@.skip(pos as int)) =~= spec_ecc_of(bytes@),
            spec_ecc_well_sized(bytes@.skip(pos as int)) ==> spec_ecc_well_sized(bytes@),
            spec_ecc_decodable(bytes@.skip(pos as int)) ==> spec_ecc_decodable(bytes@),
        decreases n - pos,
    {
        let take = if n - pos > 247 {
            247
        } else {
            n - pos
        };
        let mut chunk: Vec<u8> = Vec::new();
        let mut i: usize = 0;
        while i < take
            invariant
                i <= take,
                pos + take <= n,
                n == bytes@.len(),
                chunk@ =~= bytes@.subrange(pos as int, pos + i),
            decreases take - i,
        {
            chunk.push(bytes[pos + i]);
            proof {
                assert(chunk@ =~= bytes@.subrange(pos as int, pos + i + 1));
            }
            i += 1;
        }
        let ghost rest = bytes@.skip(pos as int);
        proof {
            assert(chunk@ =~= if rest.len() <= block_data_len() {
                rest
            } else {
                rest.subrange(0, block_data_len())
            });
        }
        let mut block = rs_encode_block(&chunk);
        let ghost out0 = out@;
        out.append(&mut block);
        proof {
            if rest.len() <= block_data_len() {
                assert(bytes@.skip(pos + take as int) =~= Seq::<u8>::empty());
                assert(spec_ecc_of(bytes@.skip(pos + take as int)) =~= Seq::<u8>::empty());
                assert(out@ + spec_ecc_of(bytes@.skip(pos + take as int)) =~= out0 + spec_ecc_of(
                    rest,
                ));
            } else {
                assert(rest.skip(block_data_len()) =~= bytes@.skip(pos + take as int));
                assert(out@ + spec_ecc_of(bytes@.skip(pos + take as int)) =~= out0 + spec_ecc_of(
                    rest,
                ));
            }
        }
        pos += take;
    }
    proof {
        assert(bytes@.skip(n as int) =~= Seq::<u8>::empty());
        assert(spec_ecc_of(bytes@.skip(n as int)) =~= Seq::<u8>::empty());
        assert(out@ =~= spec_ecc_of(bytes@));
    }
    Ok(out)
}

/// Decodes an error-corrected coded form, repairing what the parity can
/// repair; a stream no block schedule fits, or a block damaged beyond
/// repair, is refused.
pub fn decode(bytes: &Vec<u8>) -> (r: Result<Vec<u8>, BakareError>)
    ensures
        match r {
            Ok(out) => spec_ecc_decode(bytes@) == Some(out@),
            Err(_) => spec_ecc_decode(bytes@) is None,
        },
{
    let mut out: Vec<u8> = Vec::new();
    let mut pos: usize = 0;
    let n = bytes.len();
    proof {
        assert(bytes@.skip(0) =~= bytes@);
        if spec_ecc_decode(bytes@) is Some {
            assert(out@ + spec_ecc_decode(bytes@)->Some_0 =~= spec_ecc_decode(bytes@)->Some_0);
        }
    }
    while pos < n
        invariant
            pos <= n,
            n == bytes@.len(),
            spec_ecc_decode(bytes@) is Some <==> (spec_ecc_decode(bytes@.skip(pos as int))
                is Some),
            spec_ecc_decode(bytes@) is Some ==> spec_ecc_decode(bytes@) == Some(
                out@ + spec_ecc_decode(bytes@.skip(pos as int))->Some_0,
            ),
        decreases n - pos,
    {
        let ghost rest = bytes@.skip(pos as int);
        let remaining = n - pos;
        if remaining < 9 {
            proof {
                assert(spec_ecc_decode(rest) is None);
            }
            return Err(BakareError::IndexLoadingError);
        }
        let take = if remaining > 255 {
            255
        } else {
            remaining
        };
        let mut chunk: Vec<u8> = Vec::new();
        let mut i: usize = 0;
        while i < take
            invariant
                i <= take,
                pos + take <= n,
                n == bytes@.len(),
                chunk@ =~= bytes@.subrange(pos as int, pos + i),
            decreases take - i,
        {
            chunk.push(bytes[pos + i]);
            proof {
                assert(chunk@ =~= bytes@.subrange(pos as int, pos + i + 1));
            }
            i += 1;
        }
        proof {
            assert(chunk@ =~= if rest.len() <= block_coded_len() {
                rest
            } else {
                rest.subrange(0, block_coded_len())
            });
        }
        let mut data = match rs_decode_block(&chunk) {
            Some(d) => d,
            None => {
                proof {
                    assert(spec_ecc_decode(rest) is None);
                }
                return Err(BakareError::IndexLoadingError);
            },
        };
        let ghost out0 = out@;
        let ghost dv = data@;
        out.append(&mut data);
        proof {
            if rest.len() <= block_coded_len() {
                assert(bytes@.skip(pos + take as int) =~= Seq::<u8>::empty());
                assert(spec_ecc_decode(rest) == Some(dv));
                assert(out@ + Seq::<u8>::empty() =~= out0 + dv);
            } else {
                assert(rest.skip(block_coded_len()) =~= bytes@.skip(pos + take as int));
                if spec_ecc_decode(bytes@.skip(pos + take as int)) is Some {
                    assert(out@ + spec_ecc_decode(bytes@.skip(pos + take as int))->Some_0
                        =~= out0 + spec_ecc_decode(rest)->Some_0);
                }
            }
        }
        pos += take;
    }
    proof {
        assert(bytes@.skip(n as int) =~= Seq::<u8>::empty());
        assert(spec_ecc_decode(bytes@.skip(n as int)) == Some(Seq::<u8>::empty()));
        assert(spec_ecc_decode(bytes@) is Some);
        assert(out@ + Seq::<u8>::empty() =~= out@);
        assert(spec_ecc_decode(bytes@) == Some(out@));
    }
    Ok(out)
}

/// Law: decoding the coded form of any byte string gives the bytes back.
pub fn encoded_bytes_decode_identically(bytes: &Vec<u8>) -> (r: Result<Vec<u8>, BakareError>)
    ensures
        match r {
            Ok(out) => out@ == bytes@,
            Err(_) => false,
        },
{
    let coded = match encode(bytes) {
        Ok(c) => c,
        Err(e) => {
            proof {
                assert(false);
            }
            return Err(e);
        },
    };
    proof {
        lemma_ecc_roundtrip(bytes@);
    }
    match decode(&coded) {
        Ok(out) => Ok(out),
        Err(e) => {
            proof {
                assert(false);
            }
            Err(e)
        },
    }
}

} // verus!
