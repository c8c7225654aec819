//! Physical frame allocator: a bump allocator growing upward from the end of
//! the kernel image.
//!
//! RAM on QEMU virt starts at 0x4000_0000 and spans 128 MiB, up to
//! 0x4800_0000. There is no free: frames are handed out once and never
//! reclaimed.
use vstd::prelude::*;

verus! {

/// Size of one physical frame.
pub const FRAME_SIZE: u64 = 4096;

/// One past the last byte of RAM (128 MiB counted from 0x4000_0000).
pub const RAM_END: u64 = 0x4800_0000;

/// The bump allocator's state: the next frame to hand out, how many frames
/// the region held when it was set up, and how many have been handed out.
pub struct FrameAllocator {
    next: u64,
    total: u64,
    used: u64,
}

impl FrameAllocator {
    /// Address of the next frame that a successful allocation returns.
    pub closed spec fn next_frame(&self) -> nat {
        self.next as nat
    }

    /// Frames handed out since the allocator was set up.
    pub closed spec fn used_frames(&self) -> nat {
        self.used as nat
    }

    /// Frames the region held when the allocator was set up.
    pub closed spec fn total_frames(&self) -> nat {
        self.total as nat
    }

    /// Where the managed region begins.
    pub closed spec fn region_start(&self) -> nat {
        (self.next - FRAME_SIZE * self.used) as nat
    }

    /// Frames still available.
    pub open spec fn free_frames(&self) -> nat {
        (self.total_frames() - self.used_frames()) as nat
    }

    /// The allocator's invariant, kept by every value of the type: the
    /// region is frame aligned and ends at `RAM_END`, `next` sits exactly
    /// `used` frames into it, and `total` is the number of frames the region
    /// holds.
    #[verifier::type_invariant]
    pub closed spec fn wf(&self) -> bool {
        &&& self.next as int - FRAME_SIZE * self.used >= 0
        &&& self.region_start() % (FRAME_SIZE as nat) == 0
        &&& self.region_start() <= RAM_END
        &&& self.next <= RAM_END
        &&& self.next % FRAME_SIZE == 0
        &&& self.total as int == (RAM_END - self.region_start()) / (FRAME_SIZE as int)
    }

    /// Facts that follow from the invariant: the next frame is aligned and
    /// lies in RAM, and it is free exactly when a whole frame fits below
    /// `RAM_END`. Every allocator keeps the invariant; in executable code,
    /// `use_type_invariant` on it gives the `requires`.
    pub proof fn lemma_wf_facts(&self)
        requires
            self.wf(),
        ensures
            self.used_frames() <= self.total_frames(),
            self.next_frame() % (FRAME_SIZE as nat) == 0,
            self.next_frame() <= RAM_END,
            self.next_frame() == self.region_start() + FRAME_SIZE * self.used_frames(),
            self.free_frames() > 0 <==> self.next_frame() + FRAME_SIZE <= RAM_END,
            self.next_frame() + FRAME_SIZE * self.free_frames() == RAM_END,
    {
    }

    /// Allocators over the same region hold the same number of frames, and
    /// each has handed out as many as it no longer has free.
    pub proof fn lemma_same_region(&self, other: &FrameAllocator)
        requires
            self.wf(),
            other.wf(),
            self.region_start() == other.region_start(),
        ensures
            self.total_frames() == other.total_frames(),
            self.used_frames() + self.free_frames() == self.total_frames(),
    {
    }

    /// Set the allocator up over `kernel_end .. RAM_END`. The linker script
    /// aligns `kernel_end` to a frame boundary.
    pub fn init(kernel_end: u64) -> (a: FrameAllocator)
        requires
            kernel_end % FRAME_SIZE == 0,
            kernel_end <= RAM_END,
        ensures
            a.next_frame() == kernel_end,
            a.region_start() == kernel_end,
            a.used_frames() == 0,
            a.total_frames() == (RAM_END - kernel_end) / (FRAME_SIZE as int),
    {
        FrameAllocator { next: kernel_end, total: (RAM_END - kernel_end) / FRAME_SIZE, used: 0 }
    }

    /// Allocate one frame-aligned physical frame and return its address, or
    /// `None` once RAM is exhausted. Successive frames are consecutive, so a
    /// frame is never handed out twice; a refused request leaves the
    /// allocator unchanged, so once exhausted it stays exhausted.
    ///
    /// This only decides which frame is handed out: it does not touch the
    /// frame's memory, so the frame is not zeroed here. Clearing it is the
    /// caller's part; the page-table builder starts every new table from
    /// zeroed entries, and the boot code zeroes each frame it was handed
    /// before it copies the table in.
    pub fn alloc_frame(&mut self) -> (r: Option<u64>)
        ensures
            final(self).region_start() == old(self).region_start(),
            final(self).total_frames() == old(self).total_frames(),
            r is Some <==> old(self).next_frame() + FRAME_SIZE <= RAM_END,
            r is Some <==> old(self).free_frames() > 0,
            match r {
                Some(frame) => {
                    &&& frame == old(self).next_frame()
                    &&& frame % FRAME_SIZE == 0
                    &&& old(self).region_start() <= frame
                    &&& frame + FRAME_SIZE <= RAM_END
                    &&& final(self).next_frame() == frame + FRAME_SIZE
                    &&& final(self).used_frames() == old(self).used_frames() + 1
                },
                None => *final(self) == *old(self),
            },
    {
        proof {
            use_type_invariant(&*self);
        }
        let addr = self.next;
        if addr > RAM_END - FRAME_SIZE {
            return None;
        }
        *self = FrameAllocator { next: addr + FRAME_SIZE, total: self.total, used: self.used + 1 };
        Some(addr)
    }

    /// Address of the next frame a successful allocation returns.
    pub fn next_frame_exec(&self) -> (r: u64)
        ensures
            r == self.next_frame(),
    {
        self.next
    }

    /// Returns `(used frames, total frames)`.
    pub fn stats(&self) -> (r: (u64, u64))
        ensures
            r.0 == self.used_frames(),
            r.1 == self.total_frames(),
    {
        (self.used, self.total)
    }
}

} // verus!
