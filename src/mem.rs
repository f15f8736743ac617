use vstd::prelude::*;

verus! {

/// Base address of the range that holds the global class-name table.
pub const CLASS_MAPPING: usize = 0x200_0000;

/// Base address of the range that holds class metadata.
pub const CLASS_MEMORY: usize = 0x4000_0000;

/// Base address of the range that holds bytecode (a 64-bit address).
pub const CODE_MEMORY: u64 = 0x1_0000_0000;

/// The size of a huge page.
pub const HUGE_PAGE_SIZE: usize = 2 * 1024 * 1024;

/// What the host machine reports about itself.
pub struct SysInfo {
    pub num_cpus: usize,
    pub page_size: usize,
    pub huge_page_size: usize,
}

/// The end of `end` rounded up to a whole number of pages, but never past `limit`.
pub open spec fn commit_end(end: nat, page: nat, limit: nat) -> nat
    recommends
        page > 0,
        end <= limit,
{
    let rounded = if end % page == 0 {
        end
    } else {
        end + (page - end % page) as nat
    };
    if rounded <= limit {
        rounded
    } else {
        limit
    }
}

/// How far the committed part of a region reaches after `n` more bytes are
/// handed out from `top`.
pub open spec fn grown_commit(committed: nat, top: nat, n: nat, page: nat, limit: nat) -> nat {
    if top + n <= committed {
        committed
    } else {
        commit_end(top + n, page, limit)
    }
}

/// The committed end after growing to hold `end` bytes.
fn grow_commit(committed: usize, end: usize, page: usize, limit: usize) -> (r: usize)
    requires
        page > 0,
        end <= limit,
        committed <= limit,
    ensures
        r == (if end <= committed {
            committed as nat
        } else {
            commit_end(end as nat, page as nat, limit as nat)
        }),
        end <= r <= limit,
        committed <= r,
{
    if end <= committed {
        committed
    } else {
        let over = end % page;
        let pad = if over == 0 {
            0
        } else {
            page - over
        };
        if pad <= limit - end {
            end + pad
        } else {
            limit
        }
    }
}

/// An arena: a reserved range of addresses from a fixed base, handed out by
/// bumping a cursor. The part below `committed` is backed by pages; it grows a
/// page at a time as the cursor passes it, up to the reservation.
/// Allocations are never freed one by one.
pub struct MemoryRange {
    top: usize,
    addr: usize,
    size: usize,
    committed: usize,
    page_size: usize,
    executable: bool,
}

impl MemoryRange {
    /// The cursor stays within the committed part, which stays within the
    /// reservation, and the whole range fits the address space. Every
    /// `MemoryRange` keeps this; `use_type_invariant` brings it into a proof.
    #[verifier::type_invariant]
    pub closed spec fn inv(self) -> bool {
        &&& self.top <= self.committed <= self.size
        &&& self.addr + self.size <= usize::MAX
        &&& self.page_size > 0
    }

    /// What the invariant says, over the range's public view: handed-out
    /// addresses lie in `base .. base + reserved`, which fits a machine word.
    pub proof fn lemma_bounds(self)
        requires
            self.inv(),
        ensures
            self.cursor() <= self.committed() <= self.reserved(),
            self.base() + self.reserved() <= usize::MAX,
            self.page() > 0,
    {
    }

    /// The fixed first address of the range.
    pub closed spec fn base(self) -> nat {
        self.addr as nat
    }

    /// How many bytes the range reserves.
    pub closed spec fn reserved(self) -> nat {
        self.size as nat
    }

    /// How many bytes from the base are backed by pages.
    pub closed spec fn committed(self) -> nat {
        self.committed as nat
    }

    /// How many bytes have been handed out.
    pub closed spec fn cursor(self) -> nat {
        self.top as nat
    }

    /// The granule in which memory is committed.
    pub closed spec fn page(self) -> nat {
        self.page_size as nat
    }

    /// Whether the range holds code.
    pub closed spec fn is_exec(self) -> bool {
        self.executable
    }

    /// Whether a range at `offset` can be had: it reserves `offset` bytes, up to
    /// twice the base, so the next subsystem's range starts where this one ends.
    pub open spec fn can_reserve(offset: nat, page_size: nat) -> bool {
        0 < offset && 2 * offset <= usize::MAX && page_size > 0
    }

    /// The range a fresh arena at `offset` covers, with its first page committed.
    pub open spec fn fresh(r: Self, offset: nat, page_size: nat, exec: bool) -> bool {
        &&& r.base() == offset
        &&& r.reserved() == offset
        &&& r.cursor() == 0
        &&& r.committed() == (if page_size <= offset {
            page_size
        } else {
            offset
        })
        &&& r.page() == page_size
        &&& r.is_exec() == exec
    }

    /// A data arena anchored at `offset`.
    pub fn at(offset: usize, page_size: usize) -> (r: Option<Self>)
        ensures
            r is Some <==> Self::can_reserve(offset as nat, page_size as nat),
            r is Some ==> Self::fresh(r.unwrap(), offset as nat, page_size as nat, false),
    {
        Self::alloc_at(offset, page_size, false)
    }

    /// A code arena anchored at `offset`: its pages may be executed.
    pub fn at_exec(offset: usize, page_size: usize) -> (r: Option<Self>)
        ensures
            r is Some <==> Self::can_reserve(offset as nat, page_size as nat),
            r is Some ==> Self::fresh(r.unwrap(), offset as nat, page_size as nat, true),
    {
        Self::alloc_at(offset, page_size, true)
    }

    /// An arena anchored at `offset`, executable or not.
    pub fn alloc_at(offset: usize, page_size: usize, executable: bool) -> (r: Option<Self>)
        ensures
            r is Some <==> Self::can_reserve(offset as nat, page_size as nat),
            r is Some ==> Self::fresh(r.unwrap(), offset as nat, page_size as nat, executable),
    {
        if offset == 0 || offset > usize::MAX / 2 || page_size == 0 {
            None
        } else {
            let committed = if page_size <= offset {
                page_size
            } else {
                offset
            };
            Some(MemoryRange { top: 0, addr: offset, size: offset, committed, page_size, executable })
        }
    }

    /// The granule in which this range commits memory.
    pub fn page_size(&self) -> (r: usize)
        ensures
            r == self.page(),
    {
        self.page_size
    }

    /// The size of a huge page.
    pub fn huge_page_size() -> (r: usize)
        ensures
            r == HUGE_PAGE_SIZE,
    {
        HUGE_PAGE_SIZE
    }

    /// How many bytes the range reserves.
    pub fn len(&self) -> (r: usize)
        ensures
            r == self.reserved(),
    {
        self.size
    }

    /// The first address of the range.
    pub fn as_ptr(&self) -> (r: usize)
        ensures
            r == self.base(),
    {
        self.addr
    }

    /// How many bytes have been handed out.
    pub fn taken(&self) -> (r: usize)
        ensures
            r == self.cursor(),
    {
        self.top
    }

    /// How many bytes are backed by pages.
    pub fn committed_len(&self) -> (r: usize)
        ensures
            r == self.committed(),
    {
        self.committed
    }

    /// The address of `bytes` fresh bytes, committing pages first where the
    /// cursor passes the committed part; `None`, with nothing changed, when
    /// the reservation has no room for them.
    pub fn alloc_bytes(&mut self, bytes: usize) -> (r: Option<usize>)
        ensures
            final(self).base() == old(self).base(),
            final(self).reserved() == old(self).reserved(),
            final(self).page() == old(self).page(),
            final(self).is_exec() == old(self).is_exec(),
            old(self).cursor() + bytes <= old(self).reserved() ==> {
                &&& r == Some((old(self).base() + old(self).cursor()) as usize)
                &&& final(self).cursor() == old(self).cursor() + bytes
                &&& final(self).committed() == grown_commit(
                    old(self).committed(),
                    old(self).cursor(),
                    bytes as nat,
                    old(self).page(),
                    old(self).reserved(),
                )
            },
            old(self).cursor() + bytes > old(self).reserved() ==> {
                &&& r is None
                &&& *final(self) == *old(self)
            },
    {
        proof {
            use_type_invariant(&*self);
        }
        if bytes <= self.size - self.top {
            let ptr = self.top;
            let end = self.top + bytes;
            let committed = grow_commit(self.committed, end, self.page_size, self.size);
            self.committed = committed;
            self.top = end;
            Some(self.addr + ptr)
        } else {
            None
        }
    }

    /// The address of room for `amount` values of `T`; `None`, with nothing
    /// changed, when their size overflows or the reservation has no room.
    pub fn alloc_many<T>(&mut self, amount: usize) -> (r: Option<usize>)
        ensures
            final(self).base() == old(self).base(),
            final(self).reserved() == old(self).reserved(),
            final(self).page() == old(self).page(),
            final(self).is_exec() == old(self).is_exec(),
            old(self).cursor() + vstd::layout::size_of::<T>() * amount <= old(self).reserved()
                ==> {
                &&& r == Some((old(self).base() + old(self).cursor()) as usize)
                &&& final(self).cursor() == old(self).cursor() + vstd::layout::size_of::<T>()
                    * amount
                &&& final(self).committed() == grown_commit(
                    old(self).committed(),
                    old(self).cursor(),
                    (vstd::layout::size_of::<T>() * amount) as nat,
                    old(self).page(),
                    old(self).reserved(),
                )
            },
            old(self).cursor() + vstd::layout::size_of::<T>() * amount > old(self).reserved()
                ==> {
                &&& r is None
                &&& *final(self) == *old(self)
            },
    {
        proof {
            use_type_invariant(&*self);
        }
        let size = core::mem::size_of::<T>();
        match size.checked_mul(amount) {
            Some(bytes) => self.alloc_bytes(bytes),
            None => {
                proof {
                    assert(size * amount > usize::MAX);
                }
                None
            },
        }
    }
}

/// A range of addresses: where it starts and how long it is.
pub struct Page {
    pub addr: usize,
    pub size: usize,
}

impl Page {
    /// How many bytes the page covers.
    pub fn len(&self) -> (r: usize)
        ensures
            r == self.size,
    {
        self.size
    }

    /// The address `offset` bytes into the page; `None` past its end or where
    /// the address does not fit a machine word.
    pub fn ptr(&self, offset: usize) -> (r: Option<usize>)
        ensures
            r is Some <==> offset < self.size && self.addr + offset <= usize::MAX,
            r is Some ==> r.unwrap() == self.addr + offset,
    {
        if offset >= self.size {
            None
        } else {
            self.addr.checked_add(offset)
        }
    }
}

/// A bump allocator over one page, with offsets from the page's start. Bytes
/// are committed a huge page at a time as they are handed out.
pub struct PoolAllocator {
    top: usize,
    inner: Page,
    data: Vec<u8>,
}

impl PoolAllocator {
    /// The cursor stays within the committed bytes, and those within the page.
    pub closed spec fn wf(self) -> bool {
        &&& self.top <= self.data@.len() <= self.inner.size
    }

    /// How many bytes have been handed out.
    pub closed spec fn cursor(self) -> nat {
        self.top as nat
    }

    /// What `wf` says, over the pool's public view.
    pub proof fn lemma_wf(self)
        requires
            self.wf(),
        ensures
            self.cursor() <= self.bytes().len() <= self.page().size,
    {
    }

    /// The page the pool draws from.
    pub closed spec fn page(self) -> Page {
        self.inner
    }

    /// The committed bytes of the page.
    pub closed spec fn bytes(self) -> Seq<u8> {
        self.data@
    }

    /// A pool over the addresses from `from` up to `to`; `None` when that range is empty.
    pub fn new(from: usize, to: usize) -> (r: Option<PoolAllocator>)
        ensures
            r is Some <==> from < to,
            r is Some ==> {
                &&& r.unwrap().page() == (Page { addr: from, size: (to - from) as usize })
                &&& r.unwrap().cursor() == 0
                &&& r.unwrap().bytes().len() == 0
                &&& r.unwrap().wf()
            },
    {
        if from < to {
            Some(PoolAllocator { top: 0, inner: Page { addr: from, size: to - from }, data: Vec::new() })
        } else {
            None
        }
    }

    /// A pool anchored at `address_range`, reaching up to twice that address.
    pub fn alloc_at(address_range: usize) -> (r: Option<PoolAllocator>)
        ensures
            r is Some <==> 0 < address_range && 2 * address_range <= usize::MAX,
            r is Some ==> {
                &&& r.unwrap().page() == (Page { addr: address_range, size: address_range })
                &&& r.unwrap().cursor() == 0
                &&& r.unwrap().wf()
            },
    {
        match address_range.checked_mul(2) {
            Some(to) => Self::new(address_range, to),
            None => None,
        }
    }

    /// How many bytes the pool's page covers.
    pub fn len(&self) -> (r: usize)
        ensures
            r == self.page().size,
    {
        self.inner.len()
    }

    /// The committed bytes of the page.
    pub fn as_bytes(&self) -> (r: &[u8])
        ensures
            r@ == self.bytes(),
    {
        self.data.as_slice()
    }

    /// The bytes handed out so far.
    pub fn taken_bytes(&self) -> (r: &[u8])
        requires
            self.wf(),
        ensures
            r@ == self.bytes().subrange(0, self.cursor() as int),
    {
        vstd::slice::slice_subrange(self.data.as_slice(), 0, self.top)
    }

    /// The offset of `bytes` fresh bytes; `None`, with nothing changed, unless
    /// they end strictly before the end of the page.
    pub fn alloc_bytes(&mut self, bytes: usize) -> (r: Option<usize>)
        requires
            old(self).wf(),
        ensures
            final(self).wf(),
            final(self).page() == old(self).page(),
            old(self).cursor() + bytes < old(self).page().size ==> {
                &&& r == Some(old(self).cursor() as usize)
                &&& final(self).cursor() == old(self).cursor() + bytes
                &&& final(self).bytes().len() == grown_commit(
                    old(self).bytes().len(),
                    old(self).cursor(),
                    bytes as nat,
                    HUGE_PAGE_SIZE as nat,
                    old(self).page().size as nat,
                )
                &&& final(self).bytes().subrange(0, old(self).bytes().len() as int)
                    == old(self).bytes()
            },
            old(self).cursor() + bytes >= old(self).page().size ==> {
                &&& r is None
                &&& *final(self) == *old(self)
            },
    {
        if bytes < self.inner.size - self.top {
            let ptr = self.top;
            let end = self.top + bytes;
            let committed = grow_commit(self.data.len(), end, HUGE_PAGE_SIZE, self.inner.size);
            self.data.resize(committed, 0);
            self.top = end;
            Some(ptr)
        } else {
            None
        }
    }
}

} // verus!
