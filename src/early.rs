//! A double-ended bump allocator over one memory extent.
//!
//! ```text
//! [ bytes-used | avail-area | pages-used ]
//! |            | -->    <-- |            |
//! start       b_pos        p_pos        end
//! ```
//!
//! Byte allocations move `b_pos` up and are reclaimed all at once when the
//! count of live byte allocations falls back to zero. Page allocations move
//! `p_pos` down and are never reclaimed.
use vstd::prelude::*;
use vstd::arithmetic::div_mod::{lemma_fundamental_div_mod, lemma_mod_multiples_basic};

verus! {

/// The smallest extent that `init` accepts: 32 KiB.
pub const MIN_HEAP_SIZE: usize = 0x8000;

/// Why an allocator request was refused.
#[derive(Debug, Clone, Copy, PartialEq, Eq, Structural)]
pub enum AllocError {
    /// A parameter is unacceptable (a page alignment that is not a multiple
    /// of the page size).
    InvalidParam,
    /// The two fronts would collide, or the live-allocation counter is full.
    NoMemory,
    /// The operation is not offered by this allocator.
    Unsupported,
}

/// The abstract state of an [`EarlyAllocator`].
pub struct AllocModel {
    pub start: int,
    pub end: int,
    pub b_pos: int,
    pub p_pos: int,
    /// Number of live byte allocations.
    pub live: nat,
    pub used_pages: nat,
    pub total_pages: nat,
}

impl AllocModel {
    /// The state invariant: both fronts stay inside the extent and never
    /// cross, the byte front is back at `start` when nothing is live, and no
    /// page is ever given back.
    pub open spec fn inv(self, page_size: int) -> bool {
        &&& page_size > 0
        &&& 0 <= self.start <= self.b_pos <= self.p_pos <= self.end <= usize::MAX
        &&& self.live <= usize::MAX
        &&& (self.live == 0 ==> self.b_pos == self.start)
        &&& self.used_pages == self.total_pages
        &&& self.used_pages * page_size <= self.end - self.p_pos
    }

    pub open spec fn used_bytes(self) -> int {
        self.b_pos - self.start
    }

    pub open spec fn available_bytes(self) -> int {
        self.p_pos - self.b_pos
    }

    pub open spec fn total_bytes(self) -> int {
        self.p_pos - self.start
    }
}

/// `pos` rounded down to a multiple of `align`.
pub open spec fn align_down_spec(pos: int, align: int) -> int {
    pos - pos % align
}

/// `pos` rounded up to a multiple of `align`.
pub open spec fn align_up_spec(pos: int, align: int) -> int {
    if pos % align == 0 {
        pos
    } else {
        pos - pos % align + align
    }
}

/// Rounding down or up gives a multiple of `align` on the expected side of `pos`.
pub proof fn lemma_align(pos: int, align: int)
    requires
        pos >= 0,
        align > 0,
    ensures
        align_down_spec(pos, align) % align == 0,
        0 <= align_down_spec(pos, align) <= pos,
        align_up_spec(pos, align) % align == 0,
        pos <= align_up_spec(pos, align) < pos + align,
{
    lemma_fundamental_div_mod(pos, align);
    lemma_mod_multiples_basic(pos / align, align);
    lemma_mod_multiples_basic(pos / align + 1, align);
    assert(align_down_spec(pos, align) == (pos / align) * align) by (nonlinear_arith)
        requires pos == align * (pos / align) + pos % align;
    assert((pos / align) * align + align == (pos / align + 1) * align) by (nonlinear_arith);
}

fn align_down(pos: usize, align: usize) -> (r: usize)
    requires
        align > 0,
    ensures
        r == align_down_spec(pos as int, align as int),
{
    proof {
        lemma_align(pos as int, align as int);
    }
    pos - pos % align
}

/// `None` when the rounded value does not fit in a `usize`.
fn align_up(pos: usize, align: usize) -> (r: Option<usize>)
    requires
        align > 0,
    ensures
        r matches Some(v) ==> v == align_up_spec(pos as int, align as int),
        r is None ==> align_up_spec(pos as int, align as int) > usize::MAX,
{
    proof {
        lemma_align(pos as int, align as int);
    }
    let rem = pos % align;
    if rem == 0 {
        Some(pos)
    } else if align - rem > usize::MAX - pos {
        None
    } else {
        Some(pos + (align - rem))
    }
}

/// Where a byte request would start.
pub open spec fn byte_start(m: AllocModel, align: int) -> int {
    align_up_spec(m.b_pos, align)
}

/// A byte request is served when it ends at or below the page front and the
/// live counter can still count it.
pub open spec fn byte_fits(m: AllocModel, size: int, align: int) -> bool {
    byte_start(m, align) + size <= m.p_pos && m.live < usize::MAX
}

/// The state after a byte request; unchanged when it is refused.
pub open spec fn alloc_step(m: AllocModel, size: int, align: int) -> AllocModel {
    if byte_fits(m, size, align) {
        AllocModel { b_pos: byte_start(m, align) + size, live: m.live + 1, ..m }
    } else {
        m
    }
}

/// The state after a byte release. The live counter saturates at zero, and
/// the byte area is reclaimed as a whole when it reaches zero.
pub open spec fn dealloc_step(m: AllocModel) -> AllocModel {
    if m.live == 0 {
        m
    } else if m.live == 1 {
        AllocModel { b_pos: m.start, live: 0, ..m }
    } else {
        AllocModel { live: (m.live - 1) as nat, ..m }
    }
}

/// Where a page request would start: `count` pages below the page front,
/// rounded down to `align`.
pub open spec fn page_start(m: AllocModel, count: int, align: int, page_size: int) -> int {
    align_down_spec(m.p_pos - count * page_size, align)
}

/// A page request is served when its start stays at or above the byte front.
pub open spec fn page_fits(m: AllocModel, count: int, align: int, page_size: int) -> bool {
    count * page_size <= m.p_pos && page_start(m, count, align, page_size) >= m.b_pos
}

/// The error of a page request, if any.
pub open spec fn page_error(m: AllocModel, count: int, align: int, page_size: int) -> Option<AllocError> {
    if align % page_size != 0 {
        Some(AllocError::InvalidParam)
    } else if !page_fits(m, count, align, page_size) {
        Some(AllocError::NoMemory)
    } else {
        None
    }
}

/// The state after a page request; unchanged when it is refused.
pub open spec fn alloc_pages_step(m: AllocModel, count: int, align: int, page_size: int) -> AllocModel {
    if page_error(m, count, align, page_size) is Some {
        m
    } else {
        AllocModel {
            p_pos: page_start(m, count, align, page_size),
            used_pages: (m.used_pages + count) as nat,
            total_pages: (m.used_pages + count) as nat,
            ..m
        }
    }
}

/// The state after serving each byte request of `reqs` (size, alignment) in
/// order.
pub open spec fn allocs(m: AllocModel, reqs: Seq<(int, int)>) -> AllocModel
    decreases reqs.len(),
{
    if reqs.len() == 0 {
        m
    } else {
        alloc_step(allocs(m, reqs.drop_last()), reqs.last().0, reqs.last().1)
    }
}

/// The state after `n` byte releases.
pub open spec fn deallocs(m: AllocModel, n: nat) -> AllocModel
    decreases n,
{
    if n == 0 {
        m
    } else {
        dealloc_step(deallocs(m, (n - 1) as nat))
    }
}

/// Every step keeps the state invariant; in particular `b_pos <= p_pos`
/// holds after every operation.
pub proof fn lemma_steps_keep_inv(m: AllocModel, size: int, align: int, count: int, page_align: int, page_size: int)
    requires
        m.inv(page_size),
        size >= 0,
        align > 0,
        count >= 0,
        page_align > 0,
    ensures
        alloc_step(m, size, align).inv(page_size),
        dealloc_step(m).inv(page_size),
        alloc_pages_step(m, count, page_align, page_size).inv(page_size),
{
    lemma_align(m.b_pos, align);
    if page_error(m, count, page_align, page_size) is None {
        lemma_align(m.p_pos - count * page_size, page_align);
        let u = m.used_pages as int;
        assert((u + count) * page_size == u * page_size + count * page_size) by (nonlinear_arith);
    }
}

/// The byte accounting adds up: used plus available is the total.
pub proof fn lemma_byte_accounting(m: AllocModel)
    ensures
        m.used_bytes() + m.available_bytes() == m.total_bytes(),
{
}

/// Byte requests and releases, served or refused, leave the total number of
/// bytes unchanged; so do refused page requests. A served page request lowers
/// `p_pos` and with it the total.
pub proof fn lemma_total_bytes_kept(m: AllocModel, size: int, align: int, count: int, page_align: int, page_size: int)
    ensures
        alloc_step(m, size, align).total_bytes() == m.total_bytes(),
        dealloc_step(m).total_bytes() == m.total_bytes(),
        page_error(m, count, page_align, page_size) is Some ==> alloc_pages_step(
            m,
            count,
            page_align,
            page_size,
        ).total_bytes() == m.total_bytes(),
{
}

/// Bulk free: starting with nothing live, serving any byte requests and then
/// releasing as many times as there were requests brings `b_pos` back to
/// `start`, with nothing live.
pub proof fn lemma_bulk_free(m: AllocModel, reqs: Seq<(int, int)>, page_size: int)
    requires
        m.inv(page_size),
        m.live == 0,
        forall|i: int| 0 <= i < reqs.len() ==> reqs[i].0 >= 0 && reqs[i].1 > 0,
    ensures
        deallocs(allocs(m, reqs), reqs.len()).b_pos == m.start,
        deallocs(allocs(m, reqs), reqs.len()).live == 0,
{
    lemma_allocs_live(m, reqs, page_size);
    let a = allocs(m, reqs);
    lemma_deallocs_live(a, reqs.len(), page_size);
}

proof fn lemma_allocs_live(m: AllocModel, reqs: Seq<(int, int)>, page_size: int)
    requires
        m.inv(page_size),
        forall|i: int| 0 <= i < reqs.len() ==> reqs[i].0 >= 0 && reqs[i].1 > 0,
    ensures
        allocs(m, reqs).inv(page_size),
        allocs(m, reqs).live <= m.live + reqs.len(),
        allocs(m, reqs).start == m.start,
    decreases reqs.len(),
{
    if reqs.len() > 0 {
        let r = reqs.drop_last();
        assert forall|i: int| 0 <= i < r.len() implies r[i].0 >= 0 && r[i].1 > 0 by {
            assert(r[i] == reqs[i]);
        }
        lemma_allocs_live(m, r, page_size);
        lemma_steps_keep_inv(allocs(m, r), reqs.last().0, reqs.last().1, 0, 1, page_size);
    }
}

proof fn lemma_deallocs_live(m: AllocModel, n: nat, page_size: int)
    requires
        m.inv(page_size),
    ensures
        deallocs(m, n).inv(page_size),
        deallocs(m, n).live == if m.live >= n { m.live - n } else { 0 },
        deallocs(m, n).start == m.start,
    decreases n,
{
    if n > 0 {
        lemma_deallocs_live(m, (n - 1) as nat, page_size);
        lemma_steps_keep_inv(deallocs(m, (n - 1) as nat), 0, 1, 0, 1, page_size);
    }
}

/// The page front never moves up: no step raises `p_pos`.
pub proof fn lemma_p_pos_never_rises(m: AllocModel, size: int, align: int, count: int, page_align: int, page_size: int)
    requires
        m.inv(page_size),
        count >= 0,
        page_align > 0,
    ensures
        alloc_step(m, size, align).p_pos == m.p_pos,
        dealloc_step(m).p_pos == m.p_pos,
        alloc_pages_step(m, count, page_align, page_size).p_pos <= m.p_pos,
{
    if page_error(m, count, page_align, page_size) is None {
        lemma_align(m.p_pos - count * page_size, page_align);
        assert(count * page_size >= 0) by (nonlinear_arith)
            requires count >= 0, page_size > 0;
    }
}

/// Every served request starts at a multiple of its alignment.
pub proof fn lemma_starts_aligned(m: AllocModel, align: int, count: int, page_align: int, page_size: int)
    requires
        m.inv(page_size),
        align > 0,
        page_align > 0,
        page_fits(m, count, page_align, page_size),
    ensures
        byte_start(m, align) % align == 0,
        page_start(m, count, page_align, page_size) % page_align == 0,
{
    lemma_align(m.b_pos, align);
    lemma_align(m.p_pos - count * page_size, page_align);
}

/// Early memory allocator over one extent, with pages of `PAGE_SIZE` bytes.
pub struct EarlyAllocator<const PAGE_SIZE: usize> {
    b_count: usize,
    p_pos: usize,
    b_pos: usize,
    start: usize,
    end: usize,
    total_pages: usize,
    used_pages: usize,
}

impl<const PAGE_SIZE: usize> View for EarlyAllocator<PAGE_SIZE> {
    type V = AllocModel;

    closed spec fn view(&self) -> AllocModel {
        AllocModel {
            start: self.start as int,
            end: self.end as int,
            b_pos: self.b_pos as int,
            p_pos: self.p_pos as int,
            live: self.b_count as nat,
            used_pages: self.used_pages as nat,
            total_pages: self.total_pages as nat,
        }
    }
}

impl<const PAGE_SIZE: usize> EarlyAllocator<PAGE_SIZE> {
    pub open spec fn wf(&self) -> bool {
        self@.inv(PAGE_SIZE as int)
    }

    /// An allocator over the empty extent at address zero; `init` gives it
    /// its memory.
    pub fn new() -> (r: Self)
        requires
            PAGE_SIZE > 0,
        ensures
            r.wf(),
            r@ == (AllocModel {
                start: 0, end: 0, b_pos: 0, p_pos: 0, live: 0, used_pages: 0, total_pages: 0,
            }),
    {
        EarlyAllocator { b_count: 0, p_pos: 0, b_pos: 0, end: 0, start: 0, total_pages: 0, used_pages: 0 }
    }

    /// Manages `[start, start + size)` from now on, with both fronts at its
    /// ends and all counters at zero. An extent under `MIN_HEAP_SIZE` bytes
    /// is not accepted.
    pub fn init(&mut self, start: usize, size: usize)
        requires
            old(self).wf(),
            size >= MIN_HEAP_SIZE,
            start + size <= usize::MAX,
        ensures
            final(self).wf(),
            final(self)@ == (AllocModel {
                start: start as int,
                end: start + size,
                b_pos: start as int,
                p_pos: start + size,
                live: 0,
                used_pages: 0,
                total_pages: 0,
            }),
    {
        self.start = start;
        self.end = start + size;
        self.b_pos = self.start;
        self.p_pos = self.end;
        self.b_count = 0;
        self.used_pages = 0;
        self.total_pages = 0;
    }

    /// Extending the extent is not offered: always `Unsupported`.
    pub fn add_memory(&mut self, start: usize, size: usize) -> (r: Result<(), AllocError>)
        requires
            old(self).wf(),
        ensures
            final(self)@ == old(self)@,
            r == Err::<(), AllocError>(AllocError::Unsupported),
    {
        Err(AllocError::Unsupported)
    }

    /// Serves `size` bytes aligned to `align` from the byte front, at the
    /// first multiple of `align` at or above `b_pos`. Fails with `NoMemory`,
    /// changing nothing, when the block would end above `p_pos`.
    pub fn alloc_bytes(&mut self, size: usize, align: usize) -> (r: Result<usize, AllocError>)
        requires
            old(self).wf(),
            align > 0,
        ensures
            final(self).wf(),
            final(self)@ == alloc_step(old(self)@, size as int, align as int),
            byte_fits(old(self)@, size as int, align as int) ==> r == Ok::<usize, AllocError>(
                byte_start(old(self)@, align as int) as usize,
            ),
            !byte_fits(old(self)@, size as int, align as int) ==> r == Err::<usize, AllocError>(
                AllocError::NoMemory,
            ),
            r matches Ok(a) ==> a % align == 0,
            final(self)@.p_pos == old(self)@.p_pos,
    {
        proof {
            lemma_align(self.b_pos as int, align as int);
        }
        let start = match align_up(self.b_pos, align) {
            Some(s) => s,
            None => return Err(AllocError::NoMemory),
        };
        if size > self.p_pos || start > self.p_pos - size {
            return Err(AllocError::NoMemory);
        }
        if self.b_count == usize::MAX {
            return Err(AllocError::NoMemory);
        }
        self.b_count = self.b_count + 1;
        self.b_pos = start + size;
        Ok(start)
    }

    /// Releases one byte allocation. When none stays live the whole byte
    /// area is reclaimed and `b_pos` is back at `start`; otherwise nothing
    /// but the counter moves. A release with nothing live changes nothing.
    pub fn dealloc(&mut self, pos: usize, size: usize, align: usize)
        requires
            old(self).wf(),
        ensures
            final(self).wf(),
            final(self)@ == dealloc_step(old(self)@),
            final(self)@.p_pos == old(self)@.p_pos,
    {
        if self.b_count == 0 {
            return;
        }
        self.b_count = self.b_count - 1;
        if self.b_count == 0 {
            self.b_pos = self.start;
        }
    }

    /// Bytes taken by the byte front: `b_pos - start`.
    pub fn used_bytes(&self) -> (r: usize)
        requires
            self.wf(),
        ensures
            r == self@.used_bytes(),
    {
        self.b_pos - self.start
    }

    /// Bytes between the two fronts: `p_pos - b_pos`.
    pub fn available_bytes(&self) -> (r: usize)
        requires
            self.wf(),
        ensures
            r == self@.available_bytes(),
    {
        self.p_pos - self.b_pos
    }

    /// Bytes the byte front could reach: `p_pos - start`.
    pub fn total_bytes(&self) -> (r: usize)
        requires
            self.wf(),
        ensures
            r == self@.total_bytes(),
    {
        self.p_pos - self.start
    }

    /// Serves `num_pages` pages from the page front: the start is `num_pages`
    /// pages below `p_pos`, rounded down to `align_pow2`. Fails with
    /// `InvalidParam` when `align_pow2` is not a multiple of `PAGE_SIZE`, and
    /// with `NoMemory` when the start would fall below `b_pos`; a refused
    /// request changes nothing.
    pub fn alloc_pages(&mut self, num_pages: usize, align_pow2: usize) -> (r: Result<usize, AllocError>)
        requires
            old(self).wf(),
            align_pow2 > 0,
        ensures
            final(self).wf(),
            final(self)@ == alloc_pages_step(old(self)@, num_pages as int, align_pow2 as int, PAGE_SIZE as int),
            page_error(old(self)@, num_pages as int, align_pow2 as int, PAGE_SIZE as int) matches Some(e)
                ==> r == Err::<usize, AllocError>(e),
            page_error(old(self)@, num_pages as int, align_pow2 as int, PAGE_SIZE as int) is None
                ==> r == Ok::<usize, AllocError>(
                page_start(old(self)@, num_pages as int, align_pow2 as int, PAGE_SIZE as int) as usize,
            ),
            r matches Ok(a) ==> a % align_pow2 == 0,
            final(self)@.p_pos <= old(self)@.p_pos,
    {
        if align_pow2 % PAGE_SIZE != 0 {
            return Err(AllocError::InvalidParam);
        }
        let bytes = match num_pages.checked_mul(PAGE_SIZE) {
            Some(b) => b,
            None => return Err(AllocError::NoMemory),
        };
        if bytes > self.p_pos {
            return Err(AllocError::NoMemory);
        }
        let next = align_down(self.p_pos - bytes, align_pow2);
        proof {
            lemma_align((self.p_pos - bytes) as int, align_pow2 as int);
        }
        if next < self.b_pos {
            return Err(AllocError::NoMemory);
        }
        proof {
            let u = self.used_pages as int;
            let n = num_pages as int;
            let ps = PAGE_SIZE as int;
            assert((u + n) * ps == u * ps + n * ps) by (nonlinear_arith);
            assert(u + n <= (u + n) * ps) by (nonlinear_arith)
                requires ps >= 1, u + n >= 0;
        }
        self.p_pos = next;
        self.used_pages = self.used_pages + num_pages;
        self.total_pages = self.used_pages;
        Ok(next)
    }

    /// Whole pages between the two fronts: `(p_pos - b_pos) / PAGE_SIZE`.
    pub fn available_pages(&self) -> (r: usize)
        requires
            self.wf(),
        ensures
            r == self@.available_bytes() / (PAGE_SIZE as int),
    {
        (self.p_pos - self.b_pos) / PAGE_SIZE
    }

    /// Pages are never given back: this changes nothing.
    pub fn dealloc_pages(&mut self, pos: usize, num_pages: usize)
        requires
            old(self).wf(),
        ensures
            final(self)@ == old(self)@,
    {
    }

    /// Pages handed out so far; equal to `used_pages`, since none comes back.
    pub fn total_pages(&self) -> (r: usize)
        requires
            self.wf(),
        ensures
            r == self@.total_pages,
    {
        self.total_pages
    }

    /// Pages handed out so far.
    pub fn used_pages(&self) -> (r: usize)
        requires
            self.wf(),
        ensures
            r == self@.used_pages,
    {
        self.used_pages
    }
}

} // verus!
