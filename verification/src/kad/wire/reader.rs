//! A cursor over an untrusted payload. Every read either succeeds and advances
//! the cursor, or fails with `UnexpectedEof` at the offset where it began.

use vstd::prelude::*;
use crate::kad::KadId;
use crate::kad::codec::{le16, le32, le64, id_at, get_u16_le, get_u32_le, get_kad_id};
use crate::kad::wire::defs::{WireError, I2P_DEST_LEN};

verus! {

pub open spec fn is_eof_at(e: WireError, offset: int) -> bool {
    e matches WireError::UnexpectedEof { offset: o } && o == offset
}

/// Where reading an eMule 128-bit value (four 32-bit words) at `p` stops in a
/// buffer of length `n`: after the last complete word.
pub open spec fn id_eof(p: int, n: int) -> int {
    p + 4 * ((n - p) / 4)
}

pub struct Reader<'a> {
    pub b: &'a [u8],
    pub i: usize,
}

impl<'a> Reader<'a> {
    pub open spec fn data(&self) -> Seq<u8> {
        self.b@
    }

    pub open spec fn pos(&self) -> int {
        self.i as int
    }

    pub open spec fn wf(&self) -> bool {
        self.i <= self.b@.len()
    }

    pub fn new(b: &'a [u8]) -> (r: Reader<'a>)
        ensures
            r.data() == b@,
            r.pos() == 0,
            r.wf(),
    {
        Reader { b, i: 0 }
    }

    pub fn remaining(&self) -> (n: usize)
        requires
            self.wf(),
        ensures
            n == self.data().len() - self.pos(),
    {
        self.b.len() - self.i
    }

    pub fn read_u8(&mut self) -> (r: Result<u8, WireError>)
        requires
            old(self).wf(),
        ensures
            final(self).wf(),
            final(self).data() == old(self).data(),
            old(self).pos() + 1 <= old(self).data().len() ==> r == Ok::<u8, WireError>(
                old(self).data()[old(self).pos()],
            ) && final(self).pos() == old(self).pos() + 1,
            old(self).pos() + 1 > old(self).data().len() ==> r is Err && is_eof_at(
                r->Err_0,
                old(self).pos(),
            ) && final(self).pos() == old(self).pos(),
    {
        if self.i < self.b.len() {
            let v = self.b[self.i];
            self.i = self.i + 1;
            Ok(v)
        } else {
            Err(WireError::UnexpectedEof { offset: self.i })
        }
    }

    pub fn read_u16_le(&mut self) -> (r: Result<u16, WireError>)
        requires
            old(self).wf(),
        ensures
            final(self).wf(),
            final(self).data() == old(self).data(),
            old(self).pos() + 2 <= old(self).data().len() ==> r is Ok && r->Ok_0 == le16(
                old(self).data(),
                old(self).pos(),
            ) && final(self).pos() == old(self).pos() + 2,
            old(self).pos() + 2 > old(self).data().len() ==> r is Err && is_eof_at(
                r->Err_0,
                old(self).pos(),
            ) && final(self).pos() == old(self).pos(),
    {
        if self.b.len() - self.i >= 2 {
            let v = get_u16_le(self.b, self.i);
            self.i = self.i + 2;
            Ok(v)
        } else {
            Err(WireError::UnexpectedEof { offset: self.i })
        }
    }

    pub fn read_u32_le(&mut self) -> (r: Result<u32, WireError>)
        requires
            old(self).wf(),
        ensures
            final(self).wf(),
            final(self).data() == old(self).data(),
            old(self).pos() + 4 <= old(self).data().len() ==> r is Ok && r->Ok_0 == le32(
                old(self).data(),
                old(self).pos(),
            ) && final(self).pos() == old(self).pos() + 4,
            old(self).pos() + 4 > old(self).data().len() ==> r is Err && is_eof_at(
                r->Err_0,
                old(self).pos(),
            ) && final(self).pos() == old(self).pos(),
    {
        if self.b.len() - self.i >= 4 {
            let v = get_u32_le(self.b, self.i);
            self.i = self.i + 4;
            Ok(v)
        } else {
            Err(WireError::UnexpectedEof { offset: self.i })
        }
    }

    /// Two little-endian 32-bit reads: low word, then high word.
    pub fn read_u64_le(&mut self) -> (r: Result<u64, WireError>)
        requires
            old(self).wf(),
        ensures
            final(self).wf(),
            final(self).data() == old(self).data(),
            old(self).pos() + 8 <= old(self).data().len() ==> r is Ok && r->Ok_0 == le64(
                old(self).data(),
                old(self).pos(),
            ) && final(self).pos() == old(self).pos() + 8,
            old(self).pos() + 4 > old(self).data().len() ==> r is Err && is_eof_at(
                r->Err_0,
                old(self).pos(),
            ),
            old(self).pos() + 4 <= old(self).data().len() < old(self).pos() + 8 ==> r is Err
                && is_eof_at(r->Err_0, old(self).pos() + 4),
    {
        let lo = self.read_u32_le()?;
        let hi = self.read_u32_le()?;
        assert(hi * 4294967296 <= 18446744069414584320) by (nonlinear_arith)
            requires
                hi <= 4294967295,
        ;
        Ok(lo as u64 + 4294967296 * (hi as u64))
    }

    /// The eMule/iMule 128-bit encoding: four little-endian 32-bit words.
    pub fn read_uint128_emule(&mut self) -> (r: Result<KadId, WireError>)
        requires
            old(self).wf(),
        ensures
            final(self).wf(),
            final(self).data() == old(self).data(),
            old(self).pos() + 16 <= old(self).data().len() ==> r is Ok && r->Ok_0.0@ == id_at(
                old(self).data(),
                old(self).pos(),
            ) && final(self).pos() == old(self).pos() + 16,
            old(self).pos() + 16 > old(self).data().len() ==> r is Err && is_eof_at(
                r->Err_0,
                id_eof(old(self).pos(), old(self).data().len() as int),
            ),
    {
        let rem = self.b.len() - self.i;
        if rem >= 16 {
            let id = get_kad_id(self.b, self.i);
            self.i = self.i + 16;
            Ok(id)
        } else {
            let off = self.i + 4 * (rem / 4);
            self.i = off;
            Err(WireError::UnexpectedEof { offset: off })
        }
    }

    pub fn read_i2p_dest(&mut self) -> (r: Result<[u8; I2P_DEST_LEN], WireError>)
        requires
            old(self).wf(),
        ensures
            final(self).wf(),
            final(self).data() == old(self).data(),
            old(self).pos() + 387 <= old(self).data().len() ==> r is Ok && r->Ok_0@
                == old(self).data().subrange(old(self).pos(), old(self).pos() + 387)
                && final(self).pos() == old(self).pos() + 387,
            old(self).pos() + 387 > old(self).data().len() ==> r is Err && is_eof_at(
                r->Err_0,
                old(self).pos(),
            ) && final(self).pos() == old(self).pos(),
    {
        if self.b.len() - self.i >= I2P_DEST_LEN {
            let mut out = [0u8; 387];
            let n = self.b.len();
            let mut k: usize = 0;
            while k < I2P_DEST_LEN
                invariant
                    k <= 387,
                    self.i + 387 <= n,
                    n == self.b@.len(),
                    out@.len() == 387,
                    forall|j: int| 0 <= j < k ==> out@[j] == self.b@[self.i + j],
                decreases 387 - k,
            {
                out[k] = self.b[self.i + k];
                k += 1;
            }
            assert(out@ =~= self.b@.subrange(self.i as int, self.i + 387));
            self.i = self.i + I2P_DEST_LEN;
            Ok(out)
        } else {
            Err(WireError::UnexpectedEof { offset: self.i })
        }
    }

    pub fn skip(&mut self, len: usize) -> (r: Result<(), WireError>)
        requires
            old(self).wf(),
        ensures
            final(self).wf(),
            final(self).data() == old(self).data(),
            old(self).pos() + len <= old(self).data().len() ==> r is Ok && final(self).pos()
                == old(self).pos() + len,
            old(self).pos() + len > old(self).data().len() ==> r is Err && is_eof_at(
                r->Err_0,
                old(self).pos(),
            ) && final(self).pos() == old(self).pos(),
    {
        if self.b.len() - self.i >= len {
            self.i = self.i + len;
            Ok(())
        } else {
            Err(WireError::UnexpectedEof { offset: self.i })
        }
    }

    pub fn read_slice(&mut self, len: usize) -> (r: Result<&'a [u8], WireError>)
        requires
            old(self).wf(),
        ensures
            final(self).wf(),
            final(self).data() == old(self).data(),
            old(self).pos() + len <= old(self).data().len() ==> r is Ok && r->Ok_0@
                == old(self).data().subrange(old(self).pos(), old(self).pos() + len)
                && final(self).pos() == old(self).pos() + len,
            old(self).pos() + len > old(self).data().len() ==> r is Err && is_eof_at(
                r->Err_0,
                old(self).pos(),
            ) && final(self).pos() == old(self).pos(),
    {
        if self.b.len() - self.i >= len {
            let s = vstd::slice::slice_subrange(self.b, self.i, self.i + len);
            self.i = self.i + len;
            Ok(s)
        } else {
            Err(WireError::UnexpectedEof { offset: self.i })
        }
    }
}

} // verus!
