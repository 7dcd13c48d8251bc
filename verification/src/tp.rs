use vstd::prelude::*;

verus! {

use crate::interp_err::InterpErr;

/// Number of cells on a fresh tape.
pub const TP_LEN: usize = 2048;

/// Cursor position of a fresh tape: the midpoint of the cells.
pub const TP_START: usize = 1024;

/// The memory tape: a fixed-length run of cells and a cursor into them.
///
/// The cursor itself may move past the end of the cells; a cell access
/// through an out-of-range cursor is tolerated as a no-op (for writes)
/// or reads as zero, never as a fatal condition.
pub struct Tp {
    pub mem: Vec<u32>,
    pub ptr: usize,
}

/// A snapshot of the cell under the cursor and the cursor position.
#[derive(Clone, Copy, Debug)]
pub struct TpDbg {
    pub mem: u32,
    pub ptr: usize,
}

/// The byte streams of a run: the input bytes with a read position, and
/// the bytes written so far.
pub struct Io {
    pub inpt: Vec<u8>,
    pub pos: usize,
    pub out: Vec<u8>,
}

impl Io {
    /// The read position never passes the end of the input.
    pub open spec fn wf(&self) -> bool {
        self.pos <= self.inpt@.len()
    }

    /// The input bytes not yet consumed.
    pub open spec fn rem(&self) -> Seq<u8> {
        self.inpt@.skip(self.pos as int)
    }

    pub fn new(inpt: Vec<u8>) -> (io: Io)
        ensures
            io.wf(),
            io.inpt@ == inpt@,
            io.pos == 0,
            io.out@ == Seq::<u8>::empty(),
    {
        Io { inpt, pos: 0, out: Vec::new() }
    }
}

impl Tp {
    /// The cursor references a cell that actually exists.
    pub open spec fn ptr_vld_spec(&self) -> bool {
        self.ptr < self.mem@.len()
    }

    /// The cell under the cursor; an out-of-range cursor reads as zero.
    pub open spec fn cell(&self) -> u32 {
        if self.ptr_vld_spec() {
            self.mem@[self.ptr as int]
        } else {
            0u32
        }
    }

    pub fn new() -> (tp: Tp)
        ensures
            tp.mem@ == Seq::new(TP_LEN as nat, |i: int| 0u32),
            tp.ptr == TP_START,
    {
        let mut mem: Vec<u32> = Vec::new();
        let mut i: usize = 0;
        while i < TP_LEN
            invariant
                i <= TP_LEN,
                mem@.len() == i,
                forall|k: int| 0 <= k < i ==> mem@[k] == 0u32,
            decreases TP_LEN - i,
        {
            mem.push(0);
            i = i + 1;
        }
        proof {
            assert(mem@ =~= Seq::new(TP_LEN as nat, |j: int| 0u32));
        }
        Tp { mem, ptr: TP_START }
    }

    pub fn is_ptr_vld(&self) -> (b: bool)
        ensures
            b == self.ptr_vld_spec(),
    {
        self.mem.len() > self.ptr
    }

    pub fn dbg(&self) -> (d: TpDbg)
        ensures
            d.mem == self.cell(),
            d.ptr == self.ptr,
    {
        let mem = if self.is_ptr_vld() { self.mem[self.ptr] } else { 0 };
        let ptr = self.ptr;

        TpDbg { mem, ptr }
    }

    /// The cell under the cursor, read without side effects; this is the
    /// loop condition of the executor.
    pub fn get(&self) -> (v: u32)
        ensures
            v == self.cell(),
    {
        if self.is_ptr_vld() {
            self.mem[self.ptr]
        } else {
            0
        }
    }

    /// Checked decrement of the cell under the cursor: fails on underflow
    /// and changes nothing; an out-of-range cursor makes it a no-op.
    pub fn dec(&mut self) -> (r: Result<(), InterpErr>)
        ensures
            final(self).ptr == old(self).ptr,
            old(self).ptr_vld_spec() && old(self).cell() == 0 ==> {
                &&& r == Err::<(), InterpErr>(InterpErr::SubOvflw)
                &&& final(self).mem@ == old(self).mem@
            },
            old(self).ptr_vld_spec() && old(self).cell() > 0 ==> {
                &&& r == Ok::<(), InterpErr>(())
                &&& final(self).mem@ == old(self).mem@.update(
                    old(self).ptr as int,
                    (old(self).cell() - 1) as u32,
                )
            },
            !old(self).ptr_vld_spec() ==> {
                &&& r == Ok::<(), InterpErr>(())
                &&& final(self).mem@ == old(self).mem@
            },
    {
        if self.is_ptr_vld() {
            let v = self.mem[self.ptr];
            if v == 0 {
                return Err(InterpErr::SubOvflw);
            }
            self.mem.set(self.ptr, v - 1);
        }

        Ok(())
    }

    /// Checked increment of the cell under the cursor: fails on overflow
    /// and changes nothing; an out-of-range cursor makes it a no-op.
    pub fn inc(&mut self) -> (r: Result<(), InterpErr>)
        ensures
            final(self).ptr == old(self).ptr,
            old(self).ptr_vld_spec() && old(self).cell() == u32::MAX ==> {
                &&& r == Err::<(), InterpErr>(InterpErr::AddOvflw)
                &&& final(self).mem@ == old(self).mem@
            },
            old(self).ptr_vld_spec() && old(self).cell() < u32::MAX ==> {
                &&& r == Ok::<(), InterpErr>(())
                &&& final(self).mem@ == old(self).mem@.update(
                    old(self).ptr as int,
                    (old(self).cell() + 1) as u32,
                )
            },
            !old(self).ptr_vld_spec() ==> {
                &&& r == Ok::<(), InterpErr>(())
                &&& final(self).mem@ == old(self).mem@
            },
    {
        if self.is_ptr_vld() {
            let v = self.mem[self.ptr];
            if v == u32::MAX {
                return Err(InterpErr::AddOvflw);
            }
            self.mem.set(self.ptr, v + 1);
        }

        Ok(())
    }

    /// Checked decrement of the cursor: fails on underflow below zero and
    /// leaves the cursor unchanged.
    pub fn dec_ptr(&mut self) -> (r: Result<(), InterpErr>)
        ensures
            final(self).mem@ == old(self).mem@,
            old(self).ptr == 0 ==> r == Err::<(), InterpErr>(InterpErr::SubOvflw) && final(self).ptr == old(self).ptr,
            old(self).ptr > 0 ==> r == Ok::<(), InterpErr>(()) && final(self).ptr == old(self).ptr - 1,
    {
        if self.ptr == 0 {
            return Err(InterpErr::SubOvflw);
        }
        self.ptr = self.ptr - 1;

        Ok(())
    }

    /// Checked increment of the cursor: fails on overflow of the address
    /// type and leaves the cursor unchanged. The tape's length is not
    /// checked here; bounds are enforced lazily at cell access.
    pub fn inc_ptr(&mut self) -> (r: Result<(), InterpErr>)
        ensures
            final(self).mem@ == old(self).mem@,
            old(self).ptr == usize::MAX ==> r == Err::<(), InterpErr>(InterpErr::AddOvflw) && final(self).ptr == old(self).ptr,
            old(self).ptr < usize::MAX ==> r == Ok::<(), InterpErr>(()) && final(self).ptr == old(self).ptr + 1,
    {
        if self.ptr == usize::MAX {
            return Err(InterpErr::AddOvflw);
        }
        self.ptr = self.ptr + 1;

        Ok(())
    }

    /// Emit the cell under the cursor as one output byte, if it is in the
    /// representable range 0..=255 and the cursor is in range; otherwise
    /// do nothing. Never fails.
    pub fn print(&self, io: &mut Io) -> (r: Result<(), InterpErr>)
        ensures
            r == Ok::<(), InterpErr>(()),
            final(io).inpt@ == old(io).inpt@,
            final(io).pos == old(io).pos,
            self.ptr_vld_spec() && self.mem@[self.ptr as int] <= 255 ==> final(io).out@ == old(io).out@.push(
                self.mem@[self.ptr as int] as u8,
            ),
            !(self.ptr_vld_spec() && self.mem@[self.ptr as int] <= 255) ==> final(io).out@ == old(io).out@,
    {
        if self.is_ptr_vld() {
            let v = self.mem[self.ptr];
            if v <= 255 {
                io.out.push(v as u8);
            }
        }

        Ok(())
    }

    /// Consume exactly one input byte and store it, widened, into the cell
    /// under the cursor; an out-of-range cursor still consumes the byte
    /// but stores nothing. Fails when the input is exhausted.
    pub fn read(&mut self, io: &mut Io) -> (r: Result<(), InterpErr>)
        requires
            old(io).wf(),
        ensures
            final(io).wf(),
            final(io).inpt@ == old(io).inpt@,
            final(io).out@ == old(io).out@,
            final(self).ptr == old(self).ptr,
            old(io).pos == old(io).inpt@.len() ==> {
                &&& r == Err::<(), InterpErr>(InterpErr::NoInpt)
                &&& final(self).mem@ == old(self).mem@
                &&& final(io).pos == old(io).pos
            },
            old(io).pos < old(io).inpt@.len() ==> {
                &&& r == Ok::<(), InterpErr>(())
                &&& final(io).pos == old(io).pos + 1
                &&& (old(self).ptr_vld_spec() ==> final(self).mem@ == old(self).mem@.update(
                    old(self).ptr as int,
                    old(io).inpt@[old(io).pos as int] as u32,
                ))
                &&& (!old(self).ptr_vld_spec() ==> final(self).mem@ == old(self).mem@)
            },
    {
        if io.pos < io.inpt.len() {
            let b = io.inpt[io.pos];
            io.pos = io.pos + 1;
            if self.is_ptr_vld() {
                self.mem.set(self.ptr, b as u32);
            }
            Ok(())
        } else {
            Err(InterpErr::NoInpt)
        }
    }
}

} // verus!
