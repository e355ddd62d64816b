//! Wire primitives: fixed-width append/retrieve for each scalar wire type,
//! length-prefixed byte runs, and the alignment-offset computation.
//!
//! The buffer is a flat, pre-allocated byte region; every append leaves the
//! buffer length unchanged and returns the advanced cursor.  Multi-byte
//! integers travel in little-endian order, eight bytes per unsigned word.

use vstd::prelude::*;
use vstd::bytes::*;
use vstd::slice::*;

use crate::errors::DecodeError;

verus! {

/// The bytes of `b` with the window starting at `off` replaced by `w`.
pub open spec fn splice(b: Seq<u8>, off: int, w: Seq<u8>) -> Seq<u8> {
    b.subrange(0, off) + w + b.subrange(off + w.len(), b.len() as int)
}

/// A replaced window leaves everything outside it unchanged.
pub proof fn lemma_splice_len(b: Seq<u8>, off: int, w: Seq<u8>)
    requires
        0 <= off,
        off + w.len() <= b.len(),
    ensures
        splice(b, off, w).len() == b.len(),
        splice(b, off, w).subrange(off, off + w.len() as int) == w,
        forall|i: int| 0 <= i < off ==> splice(b, off, w)[i] == b[i],
        forall|i: int| off + w.len() <= i < b.len() ==> splice(b, off, w)[i] == b[i],
{
    assert(splice(b, off, w).subrange(off, off + w.len() as int) =~= w);
}

/// Copies `bytes` into `buf[offset..offset + bytes.len()]`.
pub fn insert_bytes(buf: &mut Vec<u8>, offset: usize, bytes: &[u8]) -> (end: usize)
    requires
        offset + bytes@.len() <= old(buf)@.len(),
    ensures
        end == offset + bytes@.len(),
        final(buf)@ == splice(old(buf)@, offset as int, bytes@),
{
    let n = bytes.len();
    let total = buf.len();
    let mut i: usize = 0;
    while i < n
        invariant
            n == bytes@.len(),
            0 <= i <= n,
            offset + n <= total,
            total == buf@.len(),
            buf@.len() == old(buf)@.len(),
            forall|j: int| 0 <= j < i ==> buf@[offset + j] == bytes@[j],
            forall|j: int| 0 <= j < offset ==> buf@[j] == old(buf)@[j],
            forall|j: int| offset + i <= j < buf@.len() ==> buf@[j] == old(buf)@[j],
        decreases n - i,
    {
        let b = *slice_index_get(bytes, i);
        buf[offset + i] = b;
        i = i + 1;
    }
    assert(buf@ =~= splice(old(buf)@, offset as int, bytes@));
    offset + n
}

/// The single wire byte of a boolean.
pub open spec fn enc_bool(b: bool) -> Seq<u8> {
    seq![if b { 1u8 } else { 0u8 }]
}

/// What reading a boolean at `off` yields.
pub open spec fn dec_bool(b: Seq<u8>, off: int) -> Result<(bool, int), DecodeError> {
    if off + 1 > b.len() {
        Err(DecodeError::TooShort)
    } else if b[off] == 0u8 {
        Ok((false, off + 1))
    } else if b[off] == 1u8 {
        Ok((true, off + 1))
    } else {
        Err(DecodeError::BadBool(b[off]))
    }
}

/// Writes a boolean as a single byte, 1 for true and 0 for false.
pub fn append_bool(buf: &mut Vec<u8>, offset: usize, val: bool) -> (end: usize)
    requires
        offset + 1 <= old(buf)@.len(),
    ensures
        end == offset + 1,
        final(buf)@ == splice(old(buf)@, offset as int, enc_bool(val)),
{
    let byte: u8 = if val { 1 } else { 0 };
    let total = buf.len();
    assert(offset < total);
    buf[offset] = byte;
    assert(buf@ =~= splice(old(buf)@, offset as int, enc_bool(val)));
    offset + 1
}

/// Reads a boolean; any byte other than 0 or 1 is an invalid boolean tag.
pub fn retrieve_bool(buf: &Vec<u8>, offset: usize) -> (r: Result<(bool, usize), DecodeError>)
    ensures
        match r {
            Ok((v, end)) => dec_bool(buf@, offset as int) == Ok::<(bool, int), DecodeError>((
                v,
                end as int,
            )),
            Err(e) => dec_bool(buf@, offset as int) == Err::<(bool, int), DecodeError>(e),
        },
{
    if buf.len() < 1 || offset > buf.len() - 1 {
        return Err(DecodeError::TooShort);
    }
    let byte = buf[offset];
    if byte == 0 {
        Ok((false, offset + 1))
    } else if byte == 1 {
        Ok((true, offset + 1))
    } else {
        Err(DecodeError::BadBool(byte))
    }
}

/// The eight little-endian wire bytes of an unsigned word.
pub open spec fn enc_u64(x: u64) -> Seq<u8> {
    spec_u64_to_le_bytes(x)
}

/// What reading an unsigned word at `off` yields.
pub open spec fn dec_u64(b: Seq<u8>, off: int) -> Result<(u64, int), DecodeError> {
    if off + 8 > b.len() {
        Err(DecodeError::TooShort)
    } else {
        Ok((spec_u64_from_le_bytes(b.subrange(off, off + 8)), off + 8))
    }
}

/// Writes an unsigned word as eight little-endian bytes.
pub fn append_u64(buf: &mut Vec<u8>, offset: usize, val: u64) -> (end: usize)
    requires
        offset + 8 <= old(buf)@.len(),
    ensures
        end == offset + 8,
        final(buf)@ == splice(old(buf)@, offset as int, enc_u64(val)),
{
    proof {
        lemma_auto_spec_u64_to_from_le_bytes();
    }
    let w = u64_to_le_bytes(val);
    insert_bytes(buf, offset, w.as_slice())
}

/// Reads an unsigned word from eight little-endian bytes.
pub fn retrieve_u64(buf: &Vec<u8>, offset: usize) -> (r: Result<(u64, usize), DecodeError>)
    ensures
        match r {
            Ok((v, end)) => dec_u64(buf@, offset as int) == Ok::<(u64, int), DecodeError>((
                v,
                end as int,
            )),
            Err(e) => dec_u64(buf@, offset as int) == Err::<(u64, int), DecodeError>(e),
        },
{
    if buf.len() < 8 || offset > buf.len() - 8 {
        return Err(DecodeError::TooShort);
    }
    let window = slice_subrange(buf.as_slice(), offset, offset + 8);
    let x = u64_from_le_bytes(window);
    Ok((x, offset + 8))
}

/// What reading an unsigned word destined for a size slot yields: the word
/// must also fit this platform's address width.
pub open spec fn dec_usize(b: Seq<u8>, off: int) -> Result<(usize, int), DecodeError> {
    match dec_u64(b, off) {
        Ok((x, end)) => if x <= usize::MAX as u64 {
            Ok((x as usize, end))
        } else {
            Err(DecodeError::BadLength)
        },
        Err(e) => Err(e),
    }
}

/// Writes a size as an unsigned word.
pub fn append_usize(buf: &mut Vec<u8>, offset: usize, val: usize) -> (end: usize)
    requires
        offset + 8 <= old(buf)@.len(),
    ensures
        end == offset + 8,
        final(buf)@ == splice(old(buf)@, offset as int, enc_u64(val as u64)),
{
    append_u64(buf, offset, val as u64)
}

/// Reads a size, rejecting words beyond this platform's address width.
pub fn retrieve_usize(buf: &Vec<u8>, offset: usize) -> (r: Result<(usize, usize), DecodeError>)
    ensures
        match r {
            Ok((v, end)) => dec_usize(buf@, offset as int) == Ok::<(usize, int), DecodeError>((
                v,
                end as int,
            )),
            Err(e) => dec_usize(buf@, offset as int) == Err::<(usize, int), DecodeError>(e),
        },
{
    match retrieve_u64(buf, offset) {
        Ok((x, end)) => {
            if x <= usize::MAX as u64 {
                Ok((x as usize, end))
            } else {
                Err(DecodeError::BadLength)
            }
        },
        Err(e) => Err(e),
    }
}

/// The eight wire bytes of a signed 64-bit integer: its two's-complement
/// bit pattern as an unsigned word.
pub open spec fn enc_i64(x: i64) -> Seq<u8> {
    enc_u64(x as u64)
}

/// What reading a signed 64-bit integer at `off` yields.
pub open spec fn dec_i64(b: Seq<u8>, off: int) -> Result<(i64, int), DecodeError> {
    match dec_u64(b, off) {
        Ok((x, end)) => Ok((x as i64, end)),
        Err(e) => Err(e),
    }
}

/// The bit pattern of a signed integer survives the unsigned round trip.
pub proof fn lemma_i64_bits(x: i64)
    ensures
        (x as u64) as i64 == x,
{
    assert((x as u64) as i64 == x) by (bit_vector);
}

/// Writes a signed 64-bit integer.
pub fn append_i64(buf: &mut Vec<u8>, offset: usize, val: i64) -> (end: usize)
    requires
        offset + 8 <= old(buf)@.len(),
    ensures
        end == offset + 8,
        final(buf)@ == splice(old(buf)@, offset as int, enc_i64(val)),
{
    append_u64(buf, offset, val as u64)
}

/// Reads a signed 64-bit integer.
pub fn retrieve_i64(buf: &Vec<u8>, offset: usize) -> (r: Result<(i64, usize), DecodeError>)
    ensures
        match r {
            Ok((v, end)) => dec_i64(buf@, offset as int) == Ok::<(i64, int), DecodeError>((
                v,
                end as int,
            )),
            Err(e) => dec_i64(buf@, offset as int) == Err::<(i64, int), DecodeError>(e),
        },
{
    match retrieve_u64(buf, offset) {
        Ok((x, end)) => Ok((x as i64, end)),
        Err(e) => Err(e),
    }
}

/// The wire form of a byte run: an unsigned-word length prefix, then the
/// raw payload.
pub open spec fn enc_bytes(p: Seq<u8>) -> Seq<u8> {
    enc_u64(p.len() as u64) + p
}

/// What reading a length-prefixed byte run at `off` yields.
pub open spec fn dec_bytes(b: Seq<u8>, off: int) -> Result<(Seq<u8>, int), DecodeError> {
    match dec_usize(b, off) {
        Ok((n, start)) => if start + n <= b.len() {
            Ok((b.subrange(start, start + n), start + n))
        } else {
            Err(DecodeError::TooShort)
        },
        Err(e) => Err(e),
    }
}

/// Writes a length-prefixed byte run.
pub fn append_bytes(buf: &mut Vec<u8>, offset: usize, bytes: &[u8]) -> (end: usize)
    requires
        offset + 8 + bytes@.len() <= old(buf)@.len(),
        bytes@.len() <= u64::MAX,
    ensures
        end == offset + 8 + bytes@.len(),
        final(buf)@ == splice(old(buf)@, offset as int, enc_bytes(bytes@)),
{
    proof {
        lemma_auto_spec_u64_to_from_le_bytes();
    }
    let total = buf.len();
    let start = append_u64(buf, offset, bytes.len() as u64);
    let ghost mid = buf@;
    let end = insert_bytes(buf, start, bytes);
    proof {
        lemma_splice_len(old(buf)@, offset as int, enc_u64(bytes@.len() as u64));
        lemma_splice_len(mid, start as int, bytes@);
        assert(buf@ =~= splice(old(buf)@, offset as int, enc_bytes(bytes@)));
    }
    end
}

/// Reads a length-prefixed byte run, copying the payload out.
pub fn retrieve_bytes(buf: &Vec<u8>, offset: usize) -> (r: Result<(Vec<u8>, usize), DecodeError>)
    ensures
        match r {
            Ok((v, end)) => dec_bytes(buf@, offset as int) == Ok::<(Seq<u8>, int), DecodeError>((
                v@,
                end as int,
            )),
            Err(e) => dec_bytes(buf@, offset as int) == Err::<(Seq<u8>, int), DecodeError>(e),
        },
{
    match retrieve_usize(buf, offset) {
        Ok((n, start)) => {
            if n <= buf.len() && start <= buf.len() - n {
                let window = slice_subrange(buf.as_slice(), start, start + n);
                let payload = slice_to_vec(window);
                Ok((payload, start + n))
            } else {
                Err(DecodeError::TooShort)
            }
        },
        Err(e) => Err(e),
    }
}

/// The pad bytes needed so that `off + pad` is a multiple of `align`.
pub open spec fn pad_to(off: int, align: int) -> int {
    (align - off % align) % align
}

/// The padding is less than one alignment unit and lands on a boundary.
pub proof fn lemma_pad_to(off: int, align: int)
    requires
        0 <= off,
        0 < align,
    ensures
        0 <= pad_to(off, align) < align,
        (off + pad_to(off, align)) % align == 0,
{
    let m = off % align;
    vstd::arithmetic::div_mod::lemma_mod_bound(off, align);
    if m == 0 {
        vstd::arithmetic::div_mod::lemma_mod_self_0(align);
        assert(pad_to(off, align) == 0);
    } else {
        vstd::arithmetic::div_mod::lemma_small_mod((align - m) as nat, align as nat);
        assert(pad_to(off, align) == align - m);
        vstd::arithmetic::div_mod::lemma_fundamental_div_mod(off, align);
        let q = off / align;
        assert(off - m == align * q);
        vstd::arithmetic::div_mod::lemma_mod_multiples_basic(q, align);
        assert((q * align) % align == 0);
        assert(q * align == align * q) by (nonlinear_arith);
        vstd::arithmetic::div_mod::lemma_mod_add_multiples_vanish(off - m, align);
        assert((align + (off - m)) % align == (off - m) % align);
        assert(off + pad_to(off, align) == align + (off - m));
    }
}

/// Computes the pad bytes that bring `offset` up to a multiple of `align`.
pub fn bytes_to_alignment(offset: usize, align: usize) -> (r: usize)
    requires
        0 < align,
    ensures
        r == pad_to(offset as int, align as int),
        r < align,
        (offset + r) % (align as int) == 0,
{
    proof {
        lemma_pad_to(offset as int, align as int);
    }
    (align - offset % align) % align
}

} // verus!

verus! {

/// Splitting a window: when the bytes at `off` hold `w1 + w2`, the two
/// sub-windows hold `w1` and `w2`.
pub proof fn lemma_window(b: Seq<u8>, off: int, w1: Seq<u8>, w2: Seq<u8>)
    requires
        0 <= off,
        off + w1.len() + w2.len() <= b.len(),
        b.subrange(off, off + w1.len() + w2.len()) == w1 + w2,
    ensures
        b.subrange(off, off + w1.len() as int) == w1,
        b.subrange(off + w1.len(), off + w1.len() + w2.len()) == w2,
{
    let whole = b.subrange(off, off + w1.len() + w2.len());
    assert forall|i: int| 0 <= i < w1.len() implies b[off + i] == w1[i] by {
        assert(whole[i] == (w1 + w2)[i]);
    }
    assert forall|i: int| 0 <= i < w2.len() implies b[off + w1.len() + i] == w2[i] by {
        assert(whole[w1.len() + i] == (w1 + w2)[w1.len() + i]);
    }
    assert(b.subrange(off, off + w1.len() as int) =~= w1);
    assert(b.subrange(off + w1.len(), off + w1.len() + w2.len()) =~= w2);
}

/// A window holding a boolean's byte reads back as that boolean.
pub proof fn lemma_rt_bool(b: Seq<u8>, off: int, x: bool)
    requires
        0 <= off,
        off + 1 <= b.len(),
        b.subrange(off, off + 1) == enc_bool(x),
    ensures
        dec_bool(b, off) == Ok::<(bool, int), DecodeError>((x, off + 1)),
{
    assert(b[off] == enc_bool(x)[0]);
}

/// A window holding an unsigned word reads back as that word.
pub proof fn lemma_rt_u64(b: Seq<u8>, off: int, x: u64)
    requires
        0 <= off,
        off + 8 <= b.len(),
        b.subrange(off, off + 8) == enc_u64(x),
    ensures
        dec_u64(b, off) == Ok::<(u64, int), DecodeError>((x, off + 8)),
{
    lemma_auto_spec_u64_to_from_le_bytes();
}

/// A window holding a size's word reads back as that size.
pub proof fn lemma_rt_usize(b: Seq<u8>, off: int, n: int)
    requires
        0 <= off,
        0 <= n <= usize::MAX,
        off + 8 <= b.len(),
        b.subrange(off, off + 8) == enc_u64(n as u64),
    ensures
        dec_usize(b, off) == Ok::<(usize, int), DecodeError>((n as usize, off + 8)),
{
    lemma_rt_u64(b, off, n as u64);
}

/// A window holding a signed integer's word reads back as that integer.
pub proof fn lemma_rt_i64(b: Seq<u8>, off: int, x: i64)
    requires
        0 <= off,
        off + 8 <= b.len(),
        b.subrange(off, off + 8) == enc_i64(x),
    ensures
        dec_i64(b, off) == Ok::<(i64, int), DecodeError>((x, off + 8)),
{
    lemma_rt_u64(b, off, x as u64);
    lemma_i64_bits(x);
}

/// A window holding a length-prefixed byte run reads back as that run.
pub proof fn lemma_rt_bytes(b: Seq<u8>, off: int, p: Seq<u8>)
    requires
        0 <= off,
        p.len() <= usize::MAX,
        off + 8 + p.len() <= b.len(),
        b.subrange(off, off + 8 + p.len()) == enc_bytes(p),
    ensures
        dec_bytes(b, off) == Ok::<(Seq<u8>, int), DecodeError>((p, off + 8 + p.len())),
{
    lemma_auto_spec_u64_to_from_le_bytes();
    assert(enc_u64(p.len() as u64).len() == 8);
    lemma_window(b, off, enc_u64(p.len() as u64), p);
    lemma_rt_usize(b, off, p.len() as int);
    assert((p.len() as int as usize) as int == p.len());
}

} // verus!

verus! {

/// Two consecutive window writes amount to one write of the
/// concatenation.
pub proof fn lemma_splice_splice(b: Seq<u8>, off: int, w1: Seq<u8>, w2: Seq<u8>)
    requires
        0 <= off,
        off + w1.len() + w2.len() <= b.len(),
    ensures
        splice(splice(b, off, w1), off + w1.len(), w2) == splice(b, off, w1 + w2),
{
    lemma_splice_len(b, off, w1);
    let b1 = splice(b, off, w1);
    lemma_splice_len(b1, off + w1.len(), w2);
    let lhs = splice(b1, off + w1.len(), w2);
    let rhs = splice(b, off, w1 + w2);
    lemma_splice_len(b, off, w1 + w2);
    assert forall|i: int| 0 <= i < b.len() implies lhs[i] == rhs[i] by {
        if i < off {
            assert(lhs[i] == b1[i]);
            assert(b1[i] == b[i]);
            assert(rhs[i] == b[i]);
        } else if i < off + w1.len() {
            assert(b1.subrange(off, off + w1.len() as int) == w1);
            assert(lhs[i] == b1[i]);
            assert(b1[i] == b1.subrange(off, off + w1.len() as int)[i - off]);
            assert(rhs.subrange(off, off + (w1 + w2).len() as int) == w1 + w2);
            assert(rhs[i] == (w1 + w2)[i - off]);
        } else if i < off + w1.len() + w2.len() {
            assert(lhs.subrange(off + w1.len(), off + w1.len() + w2.len() as int) == w2);
            assert(lhs[i] == w2[i - off - w1.len()]);
            assert(rhs.subrange(off, off + (w1 + w2).len() as int) == w1 + w2);
            assert(rhs[i] == (w1 + w2)[i - off]);
        } else {
            assert(lhs[i] == b1[i]);
            assert(b1[i] == b[i]);
            assert(rhs[i] == b[i]);
        }
    }
    assert(lhs =~= rhs);
}

/// Writes a single byte at `offset`.
pub fn write_byte(buf: &mut Vec<u8>, offset: usize, byte: u8) -> (end: usize)
    requires
        offset + 1 <= old(buf)@.len(),
    ensures
        end == offset + 1,
        final(buf)@ == splice(old(buf)@, offset as int, seq![byte]),
{
    let total = buf.len();
    assert(offset < total);
    buf[offset] = byte;
    assert(buf@ =~= splice(old(buf)@, offset as int, seq![byte]));
    offset + 1
}

} // verus!

verus! {

/// Appends a single byte at the end of a growing buffer.
pub fn push_byte(v: &mut Vec<u8>, byte: u8)
    ensures
        final(v)@ == old(v)@ + seq![byte],
{
    v.push(byte);
    assert(v@ =~= old(v)@ + seq![byte]);
}

/// Appends a boolean byte at the end of a growing buffer.
pub fn push_bool(v: &mut Vec<u8>, val: bool)
    ensures
        final(v)@ == old(v)@ + enc_bool(val),
{
    let byte: u8 = if val { 1 } else { 0 };
    v.push(byte);
    assert(v@ =~= old(v)@ + enc_bool(val));
}

/// Appends an unsigned word at the end of a growing buffer.
pub fn push_u64(v: &mut Vec<u8>, val: u64)
    ensures
        final(v)@ == old(v)@ + enc_u64(val),
{
    proof {
        lemma_auto_spec_u64_to_from_le_bytes();
    }
    let w = u64_to_le_bytes(val);
    v.extend_from_slice(w.as_slice());
}

/// Appends a length-prefixed byte run at the end of a growing buffer.
pub fn push_bytes(v: &mut Vec<u8>, bytes: &[u8])
    ensures
        final(v)@ == old(v)@ + enc_bytes(bytes@),
{
    proof {
        lemma_auto_spec_u64_to_from_le_bytes();
    }
    push_u64(v, bytes.len() as u64);
    v.extend_from_slice(bytes);
    assert(v@ =~= old(v)@ + enc_bytes(bytes@));
}

} // verus!
