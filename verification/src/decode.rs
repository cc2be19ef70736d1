//! Stream decoding: turning a byte sequence into the Unicode characters it
//! encodes, or reporting exactly where the encoding breaks.  The contract is
//! stated against vstd's UTF-8 model (`valid_utf8`, `decode_utf8`).

use vstd::prelude::*;

use vstd::utf8::{
    decode_first_scalar, decode_utf8, is_scalar, length_of_first_scalar,
    partial_valid_partial_invalid_utf8, partial_valid_utf8, valid_first_scalar, valid_utf8,
    valid_utf8_concat,
};

verus! {

/// A byte sequence that is not valid UTF-8: `pos` is the index of the first
/// byte that does not begin a well-formed scalar encoding.
#[derive(Debug, PartialEq, Eq)]
pub struct DecodeError {
    /// Index of the first offending byte.
    pub pos: usize,
}

/// Relies on `char::from_u32`: it returns `Some` exactly for Unicode scalar
/// values, and the resulting character has that value.
#[verifier::external_body]
fn char_from_u32(v: u32) -> (r: char)
    requires
        is_scalar(v),
    ensures
        r as u32 == v,
{
    char::from_u32(v).unwrap()
}

/// Decode a whole byte sequence as UTF-8.
///
/// Succeeds, with exactly the decoded characters, if and only if the bytes
/// are valid UTF-8; otherwise reports the first position at which no
/// well-formed scalar encoding starts.  A failure never yields partial
/// output.
pub fn decode_utf8_bytes(bytes: &Vec<u8>) -> (r: Result<Vec<char>, DecodeError>)
    ensures
        r is Ok <==> valid_utf8(bytes@),
        r is Ok ==> (r->Ok_0)@ == decode_utf8(bytes@),
        r is Err ==> (r->Err_0).pos < bytes@.len(),
        r is Err ==> partial_valid_utf8(bytes@, (r->Err_0).pos as int),
        r is Err ==> !valid_first_scalar(bytes@.skip((r->Err_0).pos as int)),
{
    let n = bytes.len();
    let mut out: Vec<char> = Vec::new();
    let mut i: usize = 0;
    while i < n
        invariant
            i <= n,
            n == bytes@.len(),
            valid_utf8(bytes@.take(i as int)),
            out@ == decode_utf8(bytes@.take(i as int)),
        decreases n - i,
    {
        let ghost rest = bytes@.skip(i as int);
        proof {
            assert(rest.len() == n - i);
            assert(forall|q: int| 0 <= q < rest.len() ==> rest[q] == bytes@[i + q]);
        }
        let b0 = bytes[i];
        let mut ok = false;
        let mut v: u32 = 0;
        let mut l: usize = 1;
        if b0 <= 0x7f {
            ok = true;
            v = (b0 & 0x7f) as u32;
            l = 1;
        } else if 0xc0 <= b0 && b0 <= 0xdf {
            if n - i >= 2 {
                let b1 = bytes[i + 1];
                if 0x80 <= b1 && b1 <= 0xbf {
                    let cand: u32 = (((b0 & 0x1f) as u32) << 6u32) | ((b1 & 0x3f) as u32);
                    assert(cand <= 0x7ff) by (bit_vector)
                        requires
                            cand == (((b0 & 0x1f) as u32) << 6u32) | ((b1 & 0x3f) as u32),
                    ;
                    if cand >= 0x80 {
                        ok = true;
                        v = cand;
                        l = 2;
                    }
                }
            }
        } else if 0xe0 <= b0 && b0 <= 0xef {
            if n - i >= 3 {
                let b1 = bytes[i + 1];
                let b2 = bytes[i + 2];
                if 0x80 <= b1 && b1 <= 0xbf && 0x80 <= b2 && b2 <= 0xbf {
                    let cand: u32 = (((b0 & 0x0f) as u32) << 12u32) | (((b1 & 0x3f) as u32)
                        << 6u32) | ((b2 & 0x3f) as u32);
                    assert(cand <= 0xffff) by (bit_vector)
                        requires
                            cand == (((b0 & 0x0f) as u32) << 12u32) | (((b1 & 0x3f) as u32)
                                << 6u32) | ((b2 & 0x3f) as u32),
                    ;
                    if cand >= 0x800 && !(0xd800 <= cand && cand <= 0xdfff) {
                        ok = true;
                        v = cand;
                        l = 3;
                    }
                }
            }
        } else if 0xf0 <= b0 && b0 <= 0xf7 {
            if n - i >= 4 {
                let b1 = bytes[i + 1];
                let b2 = bytes[i + 2];
                let b3 = bytes[i + 3];
                if 0x80 <= b1 && b1 <= 0xbf && 0x80 <= b2 && b2 <= 0xbf && 0x80 <= b3 && b3
                    <= 0xbf {
                    let cand: u32 = (((b0 & 0x07) as u32) << 18u32) | (((b1 & 0x3f) as u32)
                        << 12u32) | (((b2 & 0x3f) as u32) << 6u32) | ((b3 & 0x3f) as u32);
                    if 0x10000 <= cand && cand <= 0x10ffff {
                        ok = true;
                        v = cand;
                        l = 4;
                    }
                }
            }
        }
        if !ok {
            proof {
                assert(!valid_first_scalar(rest));
                assert(!valid_utf8(rest));
                assert(rest =~= bytes@.subrange(i as int, bytes@.len() as int));
                partial_valid_partial_invalid_utf8(bytes@, i as int);
                assert(bytes@.take(i as int) =~= bytes@.subrange(0, i as int));
            }
            return Err(DecodeError { pos: i });
        }
        proof {
            assert(valid_first_scalar(rest));
            assert(v == decode_first_scalar(rest));
            assert(l == length_of_first_scalar(rest));
        }
        let c = char_from_u32(v);
        out.push(c);
        proof {
            let pre = bytes@.take(i as int);
            let mid = bytes@.subrange(i as int, i + l);
            let ext = bytes@.take(i + l);
            assert(mid.len() == l);
            assert(forall|q: int| 0 <= q < l ==> mid[q] == rest[q]);
            assert(valid_first_scalar(mid));
            assert(decode_first_scalar(mid) == v && length_of_first_scalar(mid) == l);
            assert(vstd::utf8::pop_first_scalar(mid) =~= Seq::<u8>::empty());
            assert(valid_utf8(Seq::<u8>::empty()));
            assert(decode_utf8(Seq::<u8>::empty()) =~= Seq::<char>::empty());
            assert(valid_utf8(mid));
            assert(decode_utf8(mid) =~= seq![v as char]);
            valid_utf8_concat(pre, mid);
            assert(ext =~= pre + mid);
            assert(valid_utf8(ext));
            vstd::utf8::is_char_boundary_iff_not_is_continuation_byte(ext, i as int);
            vstd::utf8::decode_utf8_split(ext, i as int);
            assert(ext.subrange(0, i as int) =~= pre);
            assert(ext.subrange(i as int, ext.len() as int) =~= mid);
            assert(decode_utf8(ext) =~= decode_utf8(pre) + seq![v as char]);
            vstd::utf8::char_u32_cast(c, v);
            assert(out@ =~= decode_utf8(bytes@.take(i + l)));
        }
        i += l;
    }
    proof {
        assert(bytes@.take(n as int) =~= bytes@);
    }
    Ok(out)
}

} // verus!
