//! The allocator of host pages: a region that is handed out from its start,
//! page by page.

use vstd::prelude::*;

verus! {

/// Why the allocator did not do what was asked.
#[derive(Clone, Copy, Debug, PartialEq, Eq, Structural)]
pub enum AllocError {
    /// The region was set before; it is set once.
    AlreadyInitialized,
    /// The region ends before it starts, or before the first page boundary
    /// in it.
    InvalidRegion,
    /// The pages left do not hold the request.
    OutOfMemory,
}

/// The number of pages that `len` bytes take.
pub open spec fn pages_for(len: nat) -> nat {
    (len + 4095) / 4096
}

/// Hands out whole pages of one region of host memory, from its start to its
/// end, each page once. Until `init` has given it a region it has none to
/// hand out.
pub struct PageAllocator {
    initialized: bool,
    next: u64,
    end: u64,
}

impl PageAllocator {
    /// The start of the next block: a page boundary, not behind the end.
    pub closed spec fn wf(&self) -> bool {
        &&& self.next % 4096 == 0
        &&& self.end % 4096 == 0
        &&& self.next <= self.end
        &&& !self.initialized ==> self.next == self.end
    }

    /// Whether `init` has set the region.
    pub closed spec fn is_initialized(&self) -> bool {
        self.initialized
    }

    /// The address that the next block will have.
    pub closed spec fn next_addr(&self) -> u64 {
        self.next
    }

    /// The number of pages not handed out yet.
    pub closed spec fn free_pages(&self) -> nat {
        ((self.end - self.next) / 4096) as nat
    }

    /// The address is a page boundary, and the pages left fit below the top
    /// of the address space.
    pub proof fn lemma_bounds(&self)
        requires
            self.wf(),
        ensures
            self.next_addr() % 4096 == 0,
            self.next_addr() + 4096 * self.free_pages() <= u64::MAX,
    {
    }

    /// An allocator without a region.
    pub fn new() -> (a: PageAllocator)
        ensures
            a.wf(),
            !a.is_initialized(),
            a.free_pages() == 0,
    {
        PageAllocator { initialized: false, next: 0, end: 0 }
    }

    /// Gives the allocator the whole pages that lie in `start..end`. This is
    /// done once: a second call fails and changes nothing.
    pub fn init(&mut self, start: u64, end: u64) -> (r: Result<(), AllocError>)
        requires
            old(self).wf(),
        ensures
            final(self).wf(),
            r == if old(self).is_initialized() {
                Err::<(), AllocError>(AllocError::AlreadyInitialized)
            } else if start > end || start + (4096 - start % 4096) % 4096 > end - end % 4096 {
                Err(AllocError::InvalidRegion)
            } else {
                Ok(())
            },
            r is Err ==> *final(self) == *old(self),
            r is Ok ==> {
                &&& final(self).is_initialized()
                &&& final(self).next_addr() == start + (4096 - start % 4096) % 4096
                &&& final(self).free_pages() == (end - end % 4096 - final(self).next_addr()) / 4096
            },
    {
        if self.initialized {
            return Err(AllocError::AlreadyInitialized);
        }
        if start > end {
            return Err(AllocError::InvalidRegion);
        }
        let last = end - end % 4096;
        let pad = (4096 - start % 4096) % 4096;
        if pad > last || start > last - pad {
            return Err(AllocError::InvalidRegion);
        }
        self.initialized = true;
        self.next = start + pad;
        self.end = last;
        Ok(())
    }

    /// Hands out the next `pages_for(len)` pages, as one block, and gives its
    /// address. Where that many are not left it fails and changes nothing.
    pub fn alloc_pages(&mut self, len: u64) -> (r: Result<u64, AllocError>)
        requires
            old(self).wf(),
        ensures
            final(self).wf(),
            final(self).is_initialized() == old(self).is_initialized(),
            r == if pages_for(len as nat) <= old(self).free_pages() {
                Ok::<u64, AllocError>(old(self).next_addr())
            } else {
                Err(AllocError::OutOfMemory)
            },
            r is Err ==> *final(self) == *old(self),
            r is Ok ==> {
                &&& final(self).next_addr() == old(self).next_addr() + 4096 * pages_for(len as nat)
                &&& final(self).free_pages() == old(self).free_pages() - pages_for(len as nat)
            },
    {
        let free: u64 = (self.end - self.next) / 4096;
        let pages: u64 = len / 4096 + if len % 4096 == 0 { 0 } else { 1 };
        assert(pages == pages_for(len as nat));
        if pages > free {
            return Err(AllocError::OutOfMemory);
        }
        let addr = self.next;
        self.next = self.next + pages * 4096;
        Ok(addr)
    }
}

} // verus!
