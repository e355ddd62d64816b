//! UTF-8 validity: the spec-level definition and a verified validator.
//!
//! String payloads travel on the wire as raw bytes; a retrieve must reject
//! any byte run that is not well-formed UTF-8.  The definition below follows
//! the UTF-8 grammar exactly: one-byte sequences below 0x80, and two- to
//! four-byte sequences whose lead byte fixes both the length and the
//! admissible range of the first continuation byte (ruling out overlong
//! forms, surrogates, and code points above 0x10FFFF).

use vstd::prelude::*;
use vstd::slice::*;

verus! {

/// A continuation byte: 0b10xxxxxx.
pub open spec fn is_cont(b: u8) -> bool {
    0x80 <= b < 0xC0
}

/// Whether `s` is a well-formed UTF-8 byte sequence.
pub open spec fn is_utf8(s: Seq<u8>) -> bool
    decreases s.len(),
{
    if s.len() == 0 {
        true
    } else {
        let b0 = s[0];
        if b0 < 0x80 {
            is_utf8(s.skip(1))
        } else if 0xC2 <= b0 && b0 <= 0xDF {
            s.len() >= 2 && is_cont(s[1]) && is_utf8(s.skip(2))
        } else if b0 == 0xE0 {
            s.len() >= 3 && 0xA0 <= s[1] && s[1] < 0xC0 && is_cont(s[2]) && is_utf8(s.skip(3))
        } else if 0xE1 <= b0 && b0 <= 0xEC {
            s.len() >= 3 && is_cont(s[1]) && is_cont(s[2]) && is_utf8(s.skip(3))
        } else if b0 == 0xED {
            s.len() >= 3 && 0x80 <= s[1] && s[1] < 0xA0 && is_cont(s[2]) && is_utf8(s.skip(3))
        } else if 0xEE <= b0 && b0 <= 0xEF {
            s.len() >= 3 && is_cont(s[1]) && is_cont(s[2]) && is_utf8(s.skip(3))
        } else if b0 == 0xF0 {
            s.len() >= 4 && 0x90 <= s[1] && s[1] < 0xC0 && is_cont(s[2]) && is_cont(s[3])
                && is_utf8(s.skip(4))
        } else if 0xF1 <= b0 && b0 <= 0xF3 {
            s.len() >= 4 && is_cont(s[1]) && is_cont(s[2]) && is_cont(s[3]) && is_utf8(s.skip(4))
        } else if b0 == 0xF4 {
            s.len() >= 4 && 0x80 <= s[1] && s[1] < 0x90 && is_cont(s[2]) && is_cont(s[3])
                && is_utf8(s.skip(4))
        } else {
            false
        }
    }
}

/// Skipping in two steps is skipping in one.
proof fn lemma_skip_skip(s: Seq<u8>, i: int, k: int)
    requires
        0 <= i,
        0 <= k,
        i + k <= s.len(),
    ensures
        s.skip(i).skip(k) == s.skip(i + k),
{
    assert(s.skip(i).skip(k) =~= s.skip(i + k));
}

/// Decides whether `bytes` is well-formed UTF-8.
pub fn validate_utf8(bytes: &[u8]) -> (r: bool)
    ensures
        r == is_utf8(bytes@),
{
    let n = bytes.len();
    let mut i: usize = 0;
    assert(bytes@.skip(0) =~= bytes@);
    while i < n
        invariant
            0 <= i <= n,
            n == bytes@.len(),
            is_utf8(bytes@) <==> is_utf8(bytes@.skip(i as int)),
        decreases n - i,
    {
        let ghost rest = bytes@.skip(i as int);
        assert(rest[0] == bytes@[i as int]);
        let b0 = *slice_index_get(bytes, i);
        let step: usize;
        if b0 < 0x80 {
            step = 1;
        } else if 0xC2 <= b0 && b0 <= 0xDF {
            if n - i < 2 || !cont_at(bytes, i + 1) {
                return false;
            }
            step = 2;
        } else if b0 == 0xE0 {
            if n - i < 3 {
                return false;
            }
            let b1 = *slice_index_get(bytes, i + 1);
            if !(0xA0 <= b1 && b1 < 0xC0) || !cont_at(bytes, i + 2) {
                return false;
            }
            step = 3;
        } else if 0xE1 <= b0 && b0 <= 0xEC {
            if n - i < 3 || !cont_at(bytes, i + 1) || !cont_at(bytes, i + 2) {
                return false;
            }
            step = 3;
        } else if b0 == 0xED {
            if n - i < 3 {
                return false;
            }
            let b1 = *slice_index_get(bytes, i + 1);
            if !(0x80 <= b1 && b1 < 0xA0) || !cont_at(bytes, i + 2) {
                return false;
            }
            step = 3;
        } else if 0xEE <= b0 && b0 <= 0xEF {
            if n - i < 3 || !cont_at(bytes, i + 1) || !cont_at(bytes, i + 2) {
                return false;
            }
            step = 3;
        } else if b0 == 0xF0 {
            if n - i < 4 {
                return false;
            }
            let b1 = *slice_index_get(bytes, i + 1);
            if !(0x90 <= b1 && b1 < 0xC0) || !cont_at(bytes, i + 2) || !cont_at(bytes, i + 3) {
                return false;
            }
            step = 4;
        } else if 0xF1 <= b0 && b0 <= 0xF3 {
            if n - i < 4 || !cont_at(bytes, i + 1) || !cont_at(bytes, i + 2)
                || !cont_at(bytes, i + 3) {
                return false;
            }
            step = 4;
        } else if b0 == 0xF4 {
            if n - i < 4 {
                return false;
            }
            let b1 = *slice_index_get(bytes, i + 1);
            if !(0x80 <= b1 && b1 < 0x90) || !cont_at(bytes, i + 2) || !cont_at(bytes, i + 3) {
                return false;
            }
            step = 4;
        } else {
            return false;
        }
        proof {
            assert(forall|j: int| 0 <= j < rest.len() ==> rest[j] == bytes@[i + j]);
            lemma_skip_skip(bytes@, i as int, step as int);
            assert(is_utf8(rest) <==> is_utf8(bytes@.skip(i + step)));
        }
        i = i + step;
    }
    assert(bytes@.skip(n as int) =~= Seq::<u8>::empty());
    true
}

/// Whether the byte at `i` is a continuation byte.
fn cont_at(bytes: &[u8], i: usize) -> (r: bool)
    requires
        i < bytes@.len(),
    ensures
        r == is_cont(bytes@[i as int]),
{
    let b = *slice_index_get(bytes, i);
    0x80 <= b && b < 0xC0
}

} // verus!
