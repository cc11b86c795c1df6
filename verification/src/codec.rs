//! Primitives of the canonical binary format: fixed-width big-endian
//! integers, length-prefixed byte strings and UTF-8 strings.
use crate::numeric::{
    bytes_of, lemma_bytes_of_exact, lemma_nat_of_bound, lemma_pow256_units, nat_of, pow256,
    push_be, read_be,
};
use vstd::prelude::*;

verus! {

/// Eight big-endian bytes.
pub open spec fn enc_u64(v: u64) -> Seq<u8> {
    bytes_of(v as nat, 8)
}

/// Four big-endian bytes.
pub open spec fn enc_u32(v: u32) -> Seq<u8> {
    bytes_of(v as nat, 4)
}

/// Sixteen big-endian bytes.
pub open spec fn enc_u128(v: u128) -> Seq<u8> {
    bytes_of(v as nat, 16)
}

/// One byte, 1 for true and 0 for false.
pub open spec fn enc_bool(b: bool) -> Seq<u8> {
    seq![if b { 1u8 } else { 0u8 }]
}

/// A sign byte followed by eight bytes of magnitude; a negative value `x`
/// is written as the magnitude of `-(x + 1)`.
pub open spec fn enc_i64(v: i64) -> Seq<u8> {
    if v >= 0 {
        seq![0u8] + bytes_of(v as nat, 8)
    } else {
        seq![1u8] + bytes_of((-(v + 1)) as nat, 8)
    }
}

/// An eight-byte length followed by the bytes themselves.
pub open spec fn enc_bytes(s: Seq<u8>) -> Seq<u8> {
    bytes_of(s.len(), 8) + s
}

/// A length-prefixed UTF-8 encoding.
pub open spec fn enc_str(s: Seq<char>) -> Seq<u8> {
    enc_bytes(vstd::utf8::encode_utf8(s))
}

/// Appends the encoding of a 64-bit value.
pub fn encode_u64(out: &mut Vec<u8>, v: u64)
    ensures
        final(out)@ == old(out)@ + enc_u64(v),
{
    push_be(out, v as u128, 8);
}

/// Appends the encoding of a 32-bit value.
pub fn encode_u32(out: &mut Vec<u8>, v: u32)
    ensures
        final(out)@ == old(out)@ + enc_u32(v),
{
    push_be(out, v as u128, 4);
}

/// Appends the encoding of a 128-bit value.
pub fn encode_u128(out: &mut Vec<u8>, v: u128)
    ensures
        final(out)@ == old(out)@ + enc_u128(v),
{
    push_be(out, v, 16);
}

/// Appends the encoding of a boolean.
pub fn encode_bool(out: &mut Vec<u8>, b: bool)
    ensures
        final(out)@ == old(out)@ + enc_bool(b),
{
    if b {
        out.push(1u8);
    } else {
        out.push(0u8);
    }
    proof {
        assert(out@ =~= old(out)@ + enc_bool(b));
    }
}

/// Appends the encoding of a signed 64-bit value.
pub fn encode_i64(out: &mut Vec<u8>, v: i64)
    ensures
        final(out)@ == old(out)@ + enc_i64(v),
{
    if v >= 0 {
        out.push(0u8);
        let ghost mid = out@;
        push_be(out, v as u128, 8);
        proof {
            assert(out@ =~= old(out)@ + enc_i64(v));
        }
    } else {
        out.push(1u8);
        let m: i64 = -(v + 1);
        let ghost mid = out@;
        push_be(out, m as u128, 8);
        proof {
            assert(out@ =~= old(out)@ + enc_i64(v));
        }
    }
}

/// Appends a length-prefixed byte string.
pub fn encode_bytes(out: &mut Vec<u8>, s: &Vec<u8>)
    ensures
        final(out)@ == old(out)@ + enc_bytes(s@),
{
    encode_u64(out, s.len() as u64);
    let mut i: usize = 0;
    let ghost mid = out@;
    while i < s.len()
        invariant
            i <= s@.len(),
            out@ == mid + s@.take(i as int),
        decreases s@.len() - i,
    {
        out.push(s[i]);
        proof {
            assert(out@ =~= mid + s@.take(i + 1));
        }
        i = i + 1;
    }
    proof {
        assert(s@.take(s@.len() as int) =~= s@);
        assert(out@ =~= old(out)@ + enc_bytes(s@));
    }
}

/// Appends a length-prefixed UTF-8 string.
pub fn encode_str(out: &mut Vec<u8>, s: &String)
    ensures
        final(out)@ == old(out)@ + enc_str(s@),
{
    let b = s.as_str().as_bytes();
    encode_u64(out, b.len() as u64);
    let mut i: usize = 0;
    let ghost mid = out@;
    while i < b.len()
        invariant
            i <= b@.len(),
            out@ == mid + b@.take(i as int),
        decreases b@.len() - i,
    {
        out.push(b[i]);
        proof {
            assert(out@ =~= mid + b@.take(i + 1));
        }
        i = i + 1;
    }
    proof {
        assert(b@.take(b@.len() as int) =~= b@);
        assert(out@ =~= old(out)@ + enc_str(s@));
    }
}

/// Reads back a 64-bit value; succeeds exactly when eight bytes remain.
pub fn decode_u64(buf: &Vec<u8>, pos: usize) -> (r: Option<(u64, usize)>)
    ensures
        match r {
            Some((v, p)) => pos + 8 <= buf@.len() && p == pos + 8 && v == nat_of(
                buf@.subrange(pos as int, pos + 8),
            ),
            None => pos + 8 > buf@.len(),
        },
{
    if buf.len() < 8 || pos > buf.len() - 8 {
        return None;
    }
    let v = read_be(buf, pos, 8);
    proof {
        lemma_nat_of_bound(buf@.subrange(pos as int, pos + 8));
        lemma_pow256_units();
    }
    Some((v as u64, pos + 8))
}

/// Reads back a 32-bit value; succeeds exactly when four bytes remain.
pub fn decode_u32(buf: &Vec<u8>, pos: usize) -> (r: Option<(u32, usize)>)
    ensures
        match r {
            Some((v, p)) => pos + 4 <= buf@.len() && p == pos + 4 && v == nat_of(
                buf@.subrange(pos as int, pos + 4),
            ),
            None => pos + 4 > buf@.len(),
        },
{
    if buf.len() < 4 || pos > buf.len() - 4 {
        return None;
    }
    let v = read_be(buf, pos, 4);
    proof {
        lemma_nat_of_bound(buf@.subrange(pos as int, pos + 4));
        lemma_pow256_units();
        crate::numeric::lemma_pow256_mono(4, 16);
    }
    Some((v as u32, pos + 4))
}

/// Reads back a 128-bit value; succeeds exactly when sixteen bytes remain.
pub fn decode_u128(buf: &Vec<u8>, pos: usize) -> (r: Option<(u128, usize)>)
    ensures
        match r {
            Some((v, p)) => pos + 16 <= buf@.len() && p == pos + 16 && v == nat_of(
                buf@.subrange(pos as int, pos + 16),
            ),
            None => pos + 16 > buf@.len(),
        },
{
    if buf.len() < 16 || pos > buf.len() - 16 {
        return None;
    }
    let v = read_be(buf, pos, 16);
    Some((v, pos + 16))
}

/// Reads back a boolean; succeeds exactly when a 0 or 1 byte remains.
pub fn decode_bool(buf: &Vec<u8>, pos: usize) -> (r: Option<(bool, usize)>)
    ensures
        match r {
            Some((b, p)) => pos < buf@.len() && p == pos + 1 && buf@[pos as int] == (if b {
                1u8
            } else {
                0u8
            }),
            None => pos >= buf@.len() || (buf@[pos as int] != 0u8 && buf@[pos as int] != 1u8),
        },
{
    if pos >= buf.len() {
        return None;
    }
    let b = buf[pos];
    if b == 0 {
        Some((false, pos + 1))
    } else if b == 1 {
        Some((true, pos + 1))
    } else {
        None
    }
}

/// Reads back a signed 64-bit value.
pub fn decode_i64(buf: &Vec<u8>, pos: usize) -> (r: Option<(i64, usize)>)
    requires
        pos <= buf@.len(),
    ensures
        match r {
            Some((v, p)) => pos + 9 <= buf@.len() && p == pos + 9 && buf@.subrange(
                pos as int,
                pos + 9,
            ) == enc_i64(v),
            None => true,
        },
        forall|v: i64, rest: Seq<u8>|
            buf@.skip(pos as int) == #[trigger] (enc_i64(v) + rest) ==> r == Some(
                (v, (pos + 9) as usize),
            ),
{
    proof {
        lemma_pow256_units();
    }
    if pos >= buf.len() {
        proof {
            assert forall|v: i64, rest: Seq<u8>|
                buf@.skip(pos as int) == #[trigger] (enc_i64(v) + rest) implies false by {
                lemma_i64_enc_decode(buf@, pos as int, v, rest);
            }
        }
        return None;
    }
    let tag = buf[pos];
    if tag != 0 && tag != 1 {
        proof {
            assert forall|v: i64, rest: Seq<u8>|
                buf@.skip(pos as int) == #[trigger] (enc_i64(v) + rest) implies false by {
                lemma_i64_enc_decode(buf@, pos as int, v, rest);
            }
        }
        return None;
    }
    match decode_u64(buf, pos + 1) {
        None => {
            proof {
                assert forall|v: i64, rest: Seq<u8>|
                    buf@.skip(pos as int) == #[trigger] (enc_i64(v) + rest) implies false by {
                    lemma_i64_enc_decode(buf@, pos as int, v, rest);
                }
            }
            None
        },
        Some((m, p)) => {
            if m > 0x7FFF_FFFF_FFFF_FFFFu64 {
                proof {
                    assert forall|v: i64, rest: Seq<u8>|
                        buf@.skip(pos as int) == #[trigger] (enc_i64(v) + rest) implies false by {
                        lemma_i64_enc_decode(buf@, pos as int, v, rest);
                    }
                }
                return None;
            }
            let v: i64 = if tag == 0 {
                m as i64
            } else {
                -(m as i64) - 1
            };
            proof {
                let written = enc_i64(v);
                lemma_bytes_of_exact(m as nat, 8);
                assert(buf@.subrange(pos as int, pos + 9) =~= written) by {
                    let mag = (if v >= 0 {
                        v as int
                    } else {
                        -(v + 1) as int
                    }) as nat;
                    assert(mag == m);
                    crate::numeric::lemma_nat_of_injective(
                        buf@.subrange(pos + 1, pos + 9),
                        bytes_of(mag, 8),
                    );
                    lemma_bytes_of_exact(mag, 8);
                    assert forall|j: int| 0 <= j < 9 implies buf@.subrange(pos as int, pos + 9)[j]
                        == written[j] by {
                        if j > 0 {
                            assert(buf@.subrange(pos + 1, pos + 9)[j - 1] == buf@[pos + j]);
                        }
                    }
                }
                assert forall|w: i64, rest: Seq<u8>|
                    buf@.skip(pos as int) == #[trigger] (enc_i64(w) + rest) implies w == v by {
                    lemma_i64_enc_decode(buf@, pos as int, w, rest);
                }
            }
            Some((v, p))
        },
    }
}

/// What the nine bytes of a signed encoding force about the value.
proof fn lemma_i64_enc_decode(b: Seq<u8>, pos: int, v: i64, rest: Seq<u8>)
    requires
        0 <= pos <= b.len(),
        b.skip(pos) == enc_i64(v) + rest,
    ensures
        b.len() >= pos + 9,
        b[pos] == (if v >= 0 {
            0u8
        } else {
            1u8
        }),
        b.subrange(pos + 1, pos + 9) == bytes_of(
            (if v >= 0 {
                v as int
            } else {
                -(v + 1) as int
            }) as nat,
            8,
        ),
        nat_of(b.subrange(pos + 1, pos + 9)) == (if v >= 0 {
            v as int
        } else {
            -(v + 1) as int
        }),
{
    let mag = (if v >= 0 {
        v as int
    } else {
        -(v + 1) as int
    }) as nat;
    assert(enc_i64(v).len() == 9);
    assert(b.skip(pos).len() == b.len() - pos);
    assert(b[pos] == (enc_i64(v) + rest)[0]);
    assert forall|j: int| 0 <= j < 8 implies b.subrange(pos + 1, pos + 9)[j] == bytes_of(mag, 8)[j]
        by {
        assert(b.subrange(pos + 1, pos + 9)[j] == b.skip(pos)[j + 1]);
        assert((enc_i64(v) + rest)[j + 1] == enc_i64(v)[j + 1]);
    }
    assert(b.subrange(pos + 1, pos + 9) =~= bytes_of(mag, 8));
    lemma_pow256_units();
    lemma_bytes_of_exact(mag, 8);
}

/// Copies `n` bytes starting at `pos`.
pub fn read_vec(buf: &Vec<u8>, pos: usize, n: usize) -> (r: Vec<u8>)
    requires
        pos + n <= buf@.len(),
    ensures
        r@ == buf@.subrange(pos as int, pos + n),
{
    let mut out: Vec<u8> = Vec::new();
    let mut i: usize = 0;
    proof {
        vstd::std_specs::vec::axiom_spec_len(buf);
    }
    while i < n
        invariant
            i <= n,
            pos + n <= buf@.len(),
            buf@.len() <= usize::MAX,
            out@ == buf@.subrange(pos as int, pos + i),
        decreases n - i,
    {
        out.push(buf[pos + i]);
        proof {
            assert(out@ =~= buf@.subrange(pos as int, pos + i + 1));
        }
        i = i + 1;
    }
    out
}

/// Reads back a length-prefixed byte string; succeeds exactly when the
/// length field and that many bytes remain.
pub fn decode_bytes(buf: &Vec<u8>, pos: usize) -> (r: Option<(Vec<u8>, usize)>)
    requires
        pos <= buf@.len(),
    ensures
        match r {
            Some((v, p)) => pos + 8 + v@.len() == p && p <= buf@.len() && buf@.subrange(
                pos as int,
                p as int,
            ) == enc_bytes(v@),
            None => true,
        },
        forall|s: Seq<u8>, rest: Seq<u8>|
            buf@.skip(pos as int) == #[trigger] (enc_bytes(s) + rest) ==> (r matches Some((v, p))
                && v@ == s && p == pos + 8 + s.len()),
{
    proof {
        lemma_pow256_units();
        lemma_buf_len_bound(buf);
    }
    let head = decode_u64(buf, pos);
    match head {
        None => {
            proof {
                assert forall|s: Seq<u8>, rest: Seq<u8>|
                    buf@.skip(pos as int) == #[trigger] (enc_bytes(s) + rest) implies false by {
                    assert(enc_bytes(s).len() >= 8);
                    assert(buf@.skip(pos as int).len() == buf@.len() - pos);
                }
            }
            None
        },
        Some((n, p8)) => {
            if n > (buf.len() - p8) as u64 {
                proof {
                    assert forall|s: Seq<u8>, rest: Seq<u8>|
                        buf@.skip(pos as int) == #[trigger] (enc_bytes(s) + rest) implies false by {
                        lemma_bytes_enc_head(buf@, pos as int, s, rest);
                    }
                }
                return None;
            }
            let body = read_vec(buf, p8, n as usize);
            proof {
                assert(buf@.subrange(pos as int, pos + 8 + n) =~= enc_bytes(body@)) by {
                    lemma_bytes_of_exact(n as nat, 8);
                    crate::numeric::lemma_nat_of_injective(
                        buf@.subrange(pos as int, pos + 8),
                        bytes_of(body@.len(), 8),
                    );
                    assert forall|j: int| 0 <= j < 8 + n implies buf@.subrange(
                        pos as int,
                        pos + 8 + n,
                    )[j] == enc_bytes(body@)[j] by {
                        if j < 8 {
                            assert(buf@.subrange(pos as int, pos + 8)[j] == buf@[pos + j]);
                        } else {
                            assert(body@[j - 8] == buf@[pos + j]);
                        }
                    }
                }
                assert forall|s: Seq<u8>, rest: Seq<u8>|
                    buf@.skip(pos as int) == #[trigger] (enc_bytes(s) + rest) implies body@ == s by {
                    lemma_bytes_enc_head(buf@, pos as int, s, rest);
                    assert forall|j: int| 0 <= j < s.len() implies s[j] == body@[j] by {
                        assert(buf@.skip(pos as int)[8 + j] == (enc_bytes(s) + rest)[8 + j]);
                        assert(buf@[pos + 8 + j] == s[j]);
                    }
                    assert(body@ =~= s);
                }
            }
            Some((body, p8 + (n as usize)))
        },
    }
}

/// What the length prefix of a byte-string encoding forces, for strings
/// short enough that the length field cannot wrap.
pub proof fn lemma_bytes_enc_head(b: Seq<u8>, pos: int, s: Seq<u8>, rest: Seq<u8>)
    requires
        0 <= pos <= b.len(),
        b.len() < pow256(8),
        b.skip(pos) == enc_bytes(s) + rest,
    ensures
        b.len() >= pos + 8 + s.len(),
        nat_of(b.subrange(pos, pos + 8)) == s.len(),
{
    assert(enc_bytes(s).len() == 8 + s.len());
    assert(b.skip(pos).len() == b.len() - pos);
    assert forall|j: int| 0 <= j < 8 implies b.subrange(pos, pos + 8)[j] == bytes_of(s.len(), 8)[j]
        by {
        assert(b.subrange(pos, pos + 8)[j] == b.skip(pos)[j]);
        assert((enc_bytes(s) + rest)[j] == enc_bytes(s)[j]);
        assert(enc_bytes(s)[j] == bytes_of(s.len(), 8)[j]);
    }
    assert(b.subrange(pos, pos + 8) =~= bytes_of(s.len(), 8));
    lemma_pow256_units();
    lemma_bytes_of_exact(s.len(), 8);
}

/// Consuming the first part of a split suffix leaves the second.
pub proof fn lemma_skip_prefix(b: Seq<u8>, pos: int, x: Seq<u8>, y: Seq<u8>)
    requires
        0 <= pos <= b.len(),
        b.skip(pos) == x + y,
    ensures
        pos + x.len() <= b.len(),
        b.skip(pos + x.len()) == y,
{
    assert(b.skip(pos).len() == b.len() - pos);
    assert forall|j: int| 0 <= j < y.len() implies #[trigger] b.skip(pos + x.len())[j] == y[j] by {
        assert(b.skip(pos + x.len())[j] == b.skip(pos)[j + x.len()]);
        assert((x + y)[j + x.len()] == y[j]);
    }
    assert(b.skip(pos + x.len()) =~= y);
}

/// The view of an in-memory buffer is addressable, so its length fits in
/// eight bytes.
pub proof fn lemma_buf_len_bound(buf: &Vec<u8>)
    ensures
        buf@.len() < pow256(8),
{
    vstd::std_specs::vec::axiom_spec_len(buf);
    lemma_pow256_units();
}

/// Relies on String::from_utf8: it returns the string whose UTF-8 encoding
/// is the given bytes, and fails exactly on byte strings that are not valid
/// UTF-8.
#[verifier::external_body]
fn string_from_utf8(v: Vec<u8>) -> (r: Option<String>)
    ensures
        r matches Some(s) ==> vstd::utf8::encode_utf8(s@) == v@,
        forall|cs: Seq<char>| v@ == vstd::utf8::encode_utf8(cs) ==> r is Some,
{
    String::from_utf8(v).ok()
}

/// Reads back a length-prefixed UTF-8 string.
pub fn decode_str(buf: &Vec<u8>, pos: usize) -> (r: Option<(String, usize)>)
    requires
        pos <= buf@.len(),
    ensures
        match r {
            Some((v, p)) => pos < p <= buf@.len() && buf@.subrange(pos as int, p as int) == enc_str(
                v@,
            ),
            None => true,
        },
        forall|s: Seq<char>, rest: Seq<u8>|
            buf@.skip(pos as int) == #[trigger] (enc_str(s) + rest) ==> (r matches Some((v, p))
                && v@ == s && p == pos + enc_str(s).len()),
{
    match decode_bytes(buf, pos) {
        None => {
            proof {
                assert forall|s: Seq<char>, rest: Seq<u8>|
                    buf@.skip(pos as int) == #[trigger] (enc_str(s) + rest) implies false by {
                    assert(enc_str(s) + rest == enc_bytes(vstd::utf8::encode_utf8(s)) + rest);
                }
            }
            None
        },
        Some((body, p)) => {
            let ghost bodyv = body@;
            match string_from_utf8(body) {
                None => {
                    proof {
                        assert forall|s: Seq<char>, rest: Seq<u8>|
                            buf@.skip(pos as int) == #[trigger] (enc_str(s) + rest) implies false by {
                            assert(enc_str(s) + rest == enc_bytes(vstd::utf8::encode_utf8(s))
                                + rest);
                            assert(bodyv == vstd::utf8::encode_utf8(s));
                        }
                    }
                    None
                },
                Some(text) => {
                    proof {
                        broadcast use vstd::utf8::encode_utf8_decode_utf8;

                        assert forall|s: Seq<char>, rest: Seq<u8>|
                            buf@.skip(pos as int) == #[trigger] (enc_str(s) + rest) implies text@
                            == s && p == pos + enc_str(s).len() by {
                            assert(enc_str(s) + rest == enc_bytes(vstd::utf8::encode_utf8(s))
                                + rest);
                            assert(bodyv == vstd::utf8::encode_utf8(s));
                            assert(vstd::utf8::encode_utf8(text@) == vstd::utf8::encode_utf8(s));
                            assert(vstd::utf8::decode_utf8(vstd::utf8::encode_utf8(text@))
                                == text@);
                            assert(vstd::utf8::decode_utf8(vstd::utf8::encode_utf8(s)) == s);
                        }
                        assert(buf@.subrange(pos as int, p as int) == enc_str(text@));
                    }
                    Some((text, p))
                },
            }
        },
    }
}

} // verus!
