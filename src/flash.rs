use vstd::prelude::*;

verus! {

/// Why a flash operation failed.
#[derive(Debug, Clone, Copy, PartialEq, Eq, Structural)]
pub enum FlashError {
    /// The range lies outside the device.
    OutOfBounds,
    /// The device reported a fault.
    Device,
}

/// `s` with `data` written at `at`.
pub open spec fn write_at(s: Seq<u8>, at: int, data: Seq<u8>) -> Seq<u8> {
    s.subrange(0, at) + data + s.subrange(at + data.len(), s.len() as int)
}

/// `a` and `b` agree outside `at .. at + len`.
pub open spec fn same_outside(a: Seq<u8>, b: Seq<u8>, at: int, len: int) -> bool {
    &&& a.len() == b.len()
    &&& forall|i: int| 0 <= i < a.len() && !(at <= i < at + len) ==> a[i] == b[i]
}

/// A flash-like store addressed by byte offset. A device may fail any operation; a
/// failed write may have changed the bytes it was aimed at, and no others.
pub trait Flash {
    /// The bytes the device holds.
    spec fn contents(&self) -> Seq<u8>;

    fn read(&self, offset: u32, len: usize) -> (r: Result<Vec<u8>, FlashError>)
        ensures
            r is Ok ==> offset + len <= self.contents().len() && r->Ok_0@ == self.contents().subrange(
                offset as int,
                offset + len,
            ),
    ;

    fn write(&mut self, offset: u32, data: &[u8]) -> (r: Result<(), FlashError>)
        ensures
            r is Ok ==> offset + data@.len() <= old(self).contents().len() && final(self).contents()
                == write_at(old(self).contents(), offset as int, data@),
            same_outside(old(self).contents(), final(self).contents(), offset as int, data@.len() as int),
    ;
}

/// A flash device held in memory; every operation inside its bounds succeeds.
pub struct RamFlash {
    pub data: Vec<u8>,
}

impl RamFlash {
    /// An erased device of `size` bytes (every byte all ones).
    pub fn new(size: usize) -> (r: RamFlash)
        ensures
            r.data@ == Seq::new(size as nat, |i: int| 0xffu8),
    {
        let mut data: Vec<u8> = Vec::with_capacity(size);
        let mut i: usize = 0;
        while i < size
            invariant
                i <= size,
                data@ == Seq::new(i as nat, |j: int| 0xffu8),
            decreases size - i,
        {
            data.push(0xff);
            i = i + 1;
            assert(data@ =~= Seq::new(i as nat, |j: int| 0xffu8));
        }
        RamFlash { data }
    }
}

impl Flash for RamFlash {
    open spec fn contents(&self) -> Seq<u8> {
        self.data@
    }

    fn read(&self, offset: u32, len: usize) -> (r: Result<Vec<u8>, FlashError>)
        ensures
            r is Ok <==> offset + len <= self.data@.len(),
    {
        let start = offset as usize;
        if start > self.data.len() || len > self.data.len() - start {
            return Err(FlashError::OutOfBounds);
        }
        let mut out: Vec<u8> = Vec::with_capacity(len);
        let mut i: usize = 0;
        while i < len
            invariant
                start + len <= self.data@.len(),
                self.data@.len() <= usize::MAX,
                start == offset,
                i <= len,
                out@ == self.data@.subrange(start as int, start + i),
            decreases len - i,
        {
            out.push(self.data[start + i]);
            i = i + 1;
            assert(out@ =~= self.data@.subrange(start as int, start + i));
        }
        Ok(out)
    }

    fn write(&mut self, offset: u32, data: &[u8]) -> (r: Result<(), FlashError>)
        ensures
            r is Ok <==> offset + data@.len() <= old(self).data@.len(),
    {
        let start = offset as usize;
        if start > self.data.len() || data.len() > self.data.len() - start {
            return Err(FlashError::OutOfBounds);
        }
        let ghost before = self.data@;
        let mut i: usize = 0;
        while i < data.len()
            invariant
                start + data@.len() <= before.len(),
                before.len() <= usize::MAX,
                start == offset,
                i <= data@.len(),
                self.data@ == write_at(before, start as int, data@.subrange(0, i as int)),
            decreases data@.len() - i,
        {
            self.data.set(start + i, data[i]);
            i = i + 1;
            assert(self.data@ =~= write_at(before, start as int, data@.subrange(0, i as int)));
        }
        assert(data@.subrange(0, data@.len() as int) =~= data@);
        Ok(())
    }
}

} // verus!
