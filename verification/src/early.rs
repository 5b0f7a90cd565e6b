//! The double-ended early allocator.
//!
//! ```text
//! [ bytes-used | avail-area | pages-used ]
//! |            | -->    <-- |            |
//! start       b_pos        p_pos       end
//! ```
//!
//! The allocator only keeps books over addresses; it never touches the memory
//! behind them.

use vstd::arithmetic::power2::pow2;
use vstd::prelude::*;

verus! {

/// The one way an allocation can fail: the free span is too small.
#[derive(Clone, Copy, Debug, PartialEq, Eq, Structural)]
pub enum AllocError {
    NoMemory,
}

/// The smallest multiple of `a` that is not below `x` (for `a > 0`).
pub open spec fn align_up(x: int, a: int) -> int {
    if x % a == 0 {
        x
    } else {
        x + a - x % a
    }
}

/// The largest multiple of `a` that is not above `x` (for `a > 0`).
pub open spec fn align_down(x: int, a: int) -> int {
    x - x % a
}

/// `align_up(x, a)` is a multiple of `a`, at least `x`, and less than `x + a`.
pub proof fn lemma_align_up(x: int, a: int)
    requires
        a > 0,
    ensures
        align_up(x, a) % a == 0,
        x <= align_up(x, a) < x + a,
        x % a == 0 ==> align_up(x, a) == x,
{
    let r = x % a;
    let q = x / a;
    assert(x == a * q + r && 0 <= r < a) by (nonlinear_arith)
        requires
            a > 0,
            r == x % a,
            q == x / a,
    ;
    if r != 0 {
        assert((a * q + a) % a == 0) by (nonlinear_arith)
            requires
                a > 0,
        ;
    }
}

/// `align_down(x, a)` is a multiple of `a`, at most `x`, and more than `x - a`.
pub proof fn lemma_align_down(x: int, a: int)
    requires
        a > 0,
    ensures
        align_down(x, a) % a == 0,
        x - a < align_down(x, a) <= x,
        x >= 0 ==> align_down(x, a) >= 0,
{
    let r = x % a;
    let q = x / a;
    assert(x == a * q + r && 0 <= r < a) by (nonlinear_arith)
        requires
            a > 0,
            r == x % a,
            q == x / a,
    ;
    assert((a * q) % a == 0) by (nonlinear_arith)
        requires
            a > 0,
    ;
    assert(x >= 0 ==> a * q >= 0) by (nonlinear_arith)
        requires
            a > 0,
            q == x / a,
    ;
}

/// Where `p_pos` is a multiple of `page` and `page` is a power of two, the
/// base of a page allocation, `p_pos - count * page` rounded down to a
/// multiple of `2^align_pow2`, is a multiple of `page` too.
pub proof fn lemma_page_candidate_aligned(p_pos: int, page: int, count: int, align_pow2: nat)
    requires
        exists|j: nat| page == pow2(j),
        p_pos % page == 0,
    ensures
        align_down(p_pos - count * page, pow2(align_pow2) as int) % page == 0,
{
    let j = choose|j: nat| page == pow2(j);
    let k = align_pow2;
    let a = pow2(k) as int;
    let x = p_pos - count * page;
    vstd::arithmetic::power2::lemma_pow2_pos(j);
    vstd::arithmetic::power2::lemma_pow2_pos(k);
    vstd::arithmetic::div_mod::lemma_fundamental_div_mod(p_pos, page);
    let q = p_pos / page - count;
    assert(x == page * q) by (nonlinear_arith)
        requires
            x == p_pos - count * page,
            p_pos == page * (p_pos / page),
            q == p_pos / page - count,
    ;
    if k <= j {
        let d = (j - k) as nat;
        vstd::arithmetic::power2::lemma_pow2_adds(d, k);
        let m = pow2(d) as int;
        assert(x == (m * q) * a) by (nonlinear_arith)
            requires
                x == page * q,
                page == m * a,
        ;
        vstd::arithmetic::div_mod::lemma_mod_multiples_basic(m * q, a);
        vstd::arithmetic::div_mod::lemma_mod_multiples_basic(q, page);
        assert(x == q * page) by (nonlinear_arith)
            requires
                x == page * q,
        ;
    } else {
        let d = (k - j) as nat;
        vstd::arithmetic::power2::lemma_pow2_adds(d, j);
        let m = pow2(d) as int;
        vstd::arithmetic::div_mod::lemma_fundamental_div_mod(x, a);
        let t = x / a;
        assert(x - x % a == (t * m) * page) by (nonlinear_arith)
            requires
                x == a * t + x % a,
                a == m * page,
        ;
        vstd::arithmetic::div_mod::lemma_mod_multiples_basic(t * m, page);
    }
}

/// A power of two with an exponent of at least the width of an address is
/// above every address.
proof fn lemma_pow2_exceeds_addresses(k: nat)
    requires
        k >= usize::BITS,
    ensures
        pow2(k) > usize::MAX,
{
    vstd::arithmetic::power2::lemma2_to64();
    vstd::arithmetic::power2::lemma2_to64_rest();
    if k > usize::BITS {
        vstd::arithmetic::power2::lemma_pow2_strictly_increases(usize::BITS as nat, k);
    }
}

/// The abstract state of an allocator: the region and its two cursors.
pub ghost struct Region {
    /// Inclusive lower bound of the region.
    pub start: int,
    /// Exclusive upper bound of the region.
    pub end: int,
    /// Next unused address of the byte side.
    pub b_pos: int,
    /// Lower boundary of the page side.
    pub p_pos: int,
    /// The most recent byte allocation that can still be rolled back: its
    /// address, and the byte cursor as it was before that allocation.
    pub last: Option<(int, int)>,
}

impl Region {
    /// The cursors lie inside the region and have not crossed; a recorded
    /// allocation lies between its rollback target and the byte cursor.
    pub open spec fn wf(self) -> bool {
        &&& 0 <= self.start <= self.b_pos <= self.p_pos <= self.end <= usize::MAX
        &&& match self.last {
            Some((addr, prev)) => self.start <= prev <= addr <= self.b_pos,
            None => true,
        }
    }

    /// The state right after binding to `[start, start + size)`.
    pub open spec fn bound(start: int, size: int) -> Region {
        Region { start, end: start + size, b_pos: start, p_pos: start + size, last: None }
    }

    /// The address a byte allocation with this alignment would get.
    pub open spec fn byte_candidate(self, align: int) -> int {
        align_up(self.b_pos, align)
    }

    /// Whether a byte allocation of `size` bytes at `align` fits the free span.
    pub open spec fn bytes_fit(self, size: int, align: int) -> bool {
        self.byte_candidate(align) + size <= self.p_pos
    }

    /// The state after a byte allocation request.
    pub open spec fn after_alloc(self, size: int, align: int) -> Region {
        if self.bytes_fit(size, align) {
            Region {
                b_pos: self.byte_candidate(align) + size,
                last: Some((self.byte_candidate(align), self.b_pos)),
                ..self
            }
        } else {
            self
        }
    }

    /// Whether freeing `pos` rolls the byte cursor back.
    pub open spec fn reclaims(self, pos: int) -> bool {
        match self.last {
            Some((addr, _)) => addr == pos,
            None => false,
        }
    }

    /// The state after a request to free the byte allocation at `pos`.
    pub open spec fn after_dealloc(self, pos: int) -> Region {
        match self.last {
            Some((addr, prev)) if addr == pos => Region { b_pos: prev, last: None, ..self },
            _ => self,
        }
    }

    /// The base address a page allocation would get, for a page of `page`
    /// bytes: `count` pages below the page cursor, rounded down to a
    /// multiple of `2^align_pow2`.
    pub open spec fn page_candidate(self, page: int, count: int, align_pow2: nat) -> int {
        align_down(self.p_pos - count * page, pow2(align_pow2) as int)
    }

    /// Whether a page allocation fits the free span: its base is not below
    /// the byte cursor.
    pub open spec fn pages_fit(self, page: int, count: int, align_pow2: nat) -> bool {
        self.page_candidate(page, count, align_pow2) >= self.b_pos
    }

    /// Whether the page cursor is a multiple of the page size `page`, and
    /// `page` a power of two. Page allocations keep this; it holds from the
    /// start where the region's end is such a multiple.
    pub open spec fn page_aligned(self, page: int) -> bool {
        &&& exists|j: nat| page == pow2(j)
        &&& self.p_pos % page == 0
    }

    /// The state after a page allocation request.
    pub open spec fn after_alloc_pages(self, page: int, count: int, align_pow2: nat) -> Region {
        if self.pages_fit(page, count, align_pow2) {
            Region { p_pos: self.page_candidate(page, count, align_pow2), ..self }
        } else {
            self
        }
    }
}

/// Early memory allocator, for use before the permanent byte and page
/// allocators can work. Byte allocations move `b_pos` up from `start`; page
/// allocations move `p_pos` down from `end`. Only the most recent byte
/// allocation can be given back; pages are never given back.
pub struct EarlyAllocator<const PAGE_SIZE: usize> {
    start: usize,
    end: usize,
    b_pos: usize,
    p_pos: usize,
    last_b_alloc: Option<usize>,
    last_b_pos: usize,
}

impl<const PAGE_SIZE: usize> View for EarlyAllocator<PAGE_SIZE> {
    type V = Region;

    closed spec fn view(&self) -> Region {
        Region {
            start: self.start as int,
            end: self.end as int,
            b_pos: self.b_pos as int,
            p_pos: self.p_pos as int,
            last: match self.last_b_alloc {
                Some(addr) => Some((addr as int, self.last_b_pos as int)),
                None => None,
            },
        }
    }
}

/// `x` rounded up to a multiple of `a`, or `None` where that does not fit.
fn round_up(x: usize, a: usize) -> (r: Option<usize>)
    requires
        a > 0,
    ensures
        match r {
            Some(v) => v == align_up(x as int, a as int),
            None => align_up(x as int, a as int) > usize::MAX,
        },
{
    let rem: usize = x % a;
    if rem == 0 {
        Some(x)
    } else {
        x.checked_add(a - rem)
    }
}

impl<const PAGE_SIZE: usize> EarlyAllocator<PAGE_SIZE> {
    /// An allocator bound to no memory: every cursor is 0.
    pub fn new() -> (r: Self)
        ensures
            r@ == Region::bound(0, 0),
            r@.wf(),
    {
        EarlyAllocator { start: 0, end: 0, b_pos: 0, p_pos: 0, last_b_alloc: None, last_b_pos: 0 }
    }

    /// Binds the allocator to `[start, start + size)`; see [`Self::add_memory`].
    pub fn init(&mut self, start: usize, size: usize)
        requires
            start + size <= usize::MAX,
        ensures
            final(self)@ == Region::bound(start as int, size as int),
            final(self)@.wf(),
    {
        let _ = self.add_memory(start, size);
    }

    /// Binds the allocator to `[start, start + size)`. Both cursors are reset
    /// to the ends of the new region whatever was allocated before, and no
    /// earlier byte allocation can be rolled back any more. Always succeeds.
    pub fn add_memory(&mut self, start: usize, size: usize) -> (res: Result<(), AllocError>)
        requires
            start + size <= usize::MAX,
        ensures
            res == Ok::<(), AllocError>(()),
            final(self)@ == Region::bound(start as int, size as int),
            final(self)@.wf(),
    {
        self.start = start;
        self.end = start + size;
        self.b_pos = start;
        self.p_pos = start + size;
        self.last_b_alloc = None;
        self.last_b_pos = start;
        Ok(())
    }

    /// Reserves `size` bytes at a multiple of `align` from the low end.
    ///
    /// Succeeds exactly when the aligned request fits below the page cursor;
    /// a failed request leaves the allocator as it was.
    pub fn alloc_bytes(&mut self, size: usize, align: usize) -> (res: Result<usize, AllocError>)
        requires
            old(self)@.wf(),
            align > 0,
        ensures
            final(self)@.wf(),
            final(self)@ == old(self)@.after_alloc(size as int, align as int),
            res.is_ok() <==> old(self)@.bytes_fit(size as int, align as int),
            res.is_err() ==> res == Err::<usize, AllocError>(AllocError::NoMemory),
            res.is_ok() ==> {
                let addr = res.unwrap() as int;
                &&& addr == old(self)@.byte_candidate(align as int)
                &&& addr % (align as int) == 0
                &&& old(self)@.b_pos <= addr < old(self)@.b_pos + align
                &&& addr + size == final(self)@.b_pos
                &&& final(self)@.b_pos <= old(self)@.p_pos
            },
            res.is_err() ==> *final(self) == *old(self),
    {
        proof {
            lemma_align_up(self.b_pos as int, align as int);
        }
        let candidate: usize = match round_up(self.b_pos, align) {
            Some(c) => c,
            None => { return Err(AllocError::NoMemory); },
        };
        let top: usize = match candidate.checked_add(size) {
            Some(t) => t,
            None => { return Err(AllocError::NoMemory); },
        };
        if top > self.p_pos {
            return Err(AllocError::NoMemory);
        }
        self.last_b_alloc = Some(candidate);
        self.last_b_pos = self.b_pos;
        self.b_pos = top;
        Ok(candidate)
    }

    /// Gives back the byte allocation at `pos`.
    ///
    /// Only the most recent byte allocation can be given back, and only once:
    /// the byte cursor then returns to where it was before that allocation.
    /// Any other address leaves the allocator as it was.
    pub fn dealloc(&mut self, pos: usize, size: usize)
        requires
            old(self)@.wf(),
        ensures
            final(self)@.wf(),
            final(self)@ == old(self)@.after_dealloc(pos as int),
            !old(self)@.reclaims(pos as int) ==> *final(self) == *old(self),
            final(self)@.last.is_none() || final(self)@ == old(self)@,
            final(self)@.b_pos <= old(self)@.b_pos,
    {
        match self.last_b_alloc {
            Some(addr) => {
                if addr == pos {
                    self.b_pos = self.last_b_pos;
                    self.last_b_alloc = None;
                }
            },
            None => {},
        }
    }

    /// Bytes left between the two cursors.
    pub fn available_bytes(&self) -> (n: usize)
        requires
            self@.wf(),
        ensures
            n == self@.p_pos - self@.b_pos,
    {
        self.p_pos - self.b_pos
    }

    /// Bytes between the region's start and the byte cursor.
    pub fn used_bytes(&self) -> (n: usize)
        requires
            self@.wf(),
        ensures
            n == self@.b_pos - self@.start,
    {
        self.b_pos - self.start
    }

    /// Size of the whole region in bytes.
    pub fn total_bytes(&self) -> (n: usize)
        requires
            self@.wf(),
        ensures
            n == self@.end - self@.start,
    {
        self.end - self.start
    }

    /// Reserves `num_pages` pages at a multiple of `2^align_pow2` from the
    /// high end.
    ///
    /// The base address is `p_pos - num_pages * PAGE_SIZE` rounded down to the
    /// alignment. The request succeeds exactly when that address exists and is
    /// not below the byte cursor; a failed request leaves the allocator as it
    /// was.
    pub fn alloc_pages(&mut self, num_pages: usize, align_pow2: usize) -> (res: Result<
        usize,
        AllocError,
    >)
        requires
            old(self)@.wf(),
        ensures
            final(self)@.wf(),
            final(self)@ == old(self)@.after_alloc_pages(
                PAGE_SIZE as int,
                num_pages as int,
                align_pow2 as nat,
            ),
            res.is_ok() <==> old(self)@.pages_fit(
                PAGE_SIZE as int,
                num_pages as int,
                align_pow2 as nat,
            ),
            res.is_err() ==> res == Err::<usize, AllocError>(AllocError::NoMemory),
            res.is_ok() ==> {
                let addr = res.unwrap() as int;
                &&& addr == old(self)@.page_candidate(
                    PAGE_SIZE as int,
                    num_pages as int,
                    align_pow2 as nat,
                )
                &&& addr == final(self)@.p_pos
                &&& addr % (pow2(align_pow2 as nat) as int) == 0
                &&& old(self)@.b_pos <= addr
                &&& addr + num_pages * PAGE_SIZE <= old(self)@.p_pos
                &&& old(self)@.page_aligned(PAGE_SIZE as int) ==> addr % (PAGE_SIZE as int) == 0
            },
            res.is_err() ==> *final(self) == *old(self),
            old(self)@.page_aligned(PAGE_SIZE as int) ==> final(self)@.page_aligned(
                PAGE_SIZE as int,
            ),
    {
        proof {
            vstd::arithmetic::power2::lemma_pow2_pos(align_pow2 as nat);
            lemma_align_down(
                self.p_pos - num_pages * PAGE_SIZE,
                pow2(align_pow2 as nat) as int,
            );
        }
        let bytes: usize = match num_pages.checked_mul(PAGE_SIZE) {
            Some(b) => b,
            None => { return Err(AllocError::NoMemory); },
        };
        if bytes > self.p_pos {
            return Err(AllocError::NoMemory);
        }
        let below: usize = self.p_pos - bytes;
        let candidate: usize = if align_pow2 < usize::BITS as usize {
            let align: usize = 1usize << align_pow2;
            proof {
                vstd::bits::lemma_usize_pow2_no_overflow(align_pow2 as nat);
                vstd::bits::lemma_usize_shl_is_mul(1usize, align_pow2);
                assert(align == pow2(align_pow2 as nat));
                lemma_align_down(below as int, align as int);
            }
            below - below % align
        } else {
            proof {
                lemma_pow2_exceeds_addresses(align_pow2 as nat);
                vstd::arithmetic::div_mod::lemma_small_mod(
                    below as nat,
                    pow2(align_pow2 as nat),
                );
            }
            0
        };
        proof {
            if self@.page_aligned(PAGE_SIZE as int) {
                lemma_page_candidate_aligned(
                    self.p_pos as int,
                    PAGE_SIZE as int,
                    num_pages as int,
                    align_pow2 as nat,
                );
            }
        }
        if candidate < self.b_pos {
            return Err(AllocError::NoMemory);
        }
        self.p_pos = candidate;
        Ok(candidate)
    }

    /// Pages are never given back: this changes nothing.
    pub fn dealloc_pages(&mut self, pos: usize, num_pages: usize)
        ensures
            *final(self) == *old(self),
    {
    }

    /// Whole pages that fit in the free span between the two cursors.
    pub fn available_pages(&self) -> (n: usize)
        requires
            self@.wf(),
            PAGE_SIZE > 0,
        ensures
            n == (self@.p_pos - self@.b_pos) / (PAGE_SIZE as int),
    {
        (self.p_pos - self.b_pos) / PAGE_SIZE
    }

    /// Whole pages between the page cursor and the region's end.
    pub fn used_pages(&self) -> (n: usize)
        requires
            self@.wf(),
            PAGE_SIZE > 0,
        ensures
            n == (self@.end - self@.p_pos) / (PAGE_SIZE as int),
    {
        (self.end - self.p_pos) / PAGE_SIZE
    }

    /// Whole pages in the region.
    pub fn total_pages(&self) -> (n: usize)
        requires
            self@.wf(),
            PAGE_SIZE > 0,
        ensures
            n == (self@.end - self@.start) / (PAGE_SIZE as int),
    {
        (self.end - self.start) / PAGE_SIZE
    }
}

/// One call on an allocator, as the abstract state sees it.
pub ghost enum Request {
    /// Bind to `[start, start + size)`.
    Bind { start: int, size: int },
    /// Reserve `size` bytes at a multiple of `align`.
    Bytes { size: int, align: int },
    /// Give back the byte allocation at `pos`.
    FreeBytes { pos: int },
    /// Reserve `count` pages at a multiple of `2^align_pow2`.
    Pages { count: int, align_pow2: nat },
    /// Give back `count` pages at `pos`.
    FreePages { pos: int, count: int },
}

impl Request {
    /// The requests that the operations accept: sizes and counts are not
    /// negative, a region fits the address space, an alignment is positive.
    pub open spec fn admissible(self) -> bool {
        match self {
            Request::Bind { start, size } => 0 <= start && 0 <= size && start + size <= usize::MAX,
            Request::Bytes { size, align } => 0 <= size && 0 < align,
            Request::Pages { count, .. } => 0 <= count,
            _ => true,
        }
    }
}

impl Region {
    /// The state after serving `req`, with pages of `page` bytes: what the
    /// allocator's operation of that kind leaves behind.
    pub open spec fn step(self, page: int, req: Request) -> Region {
        match req {
            Request::Bind { start, size } => Region::bound(start, size),
            Request::Bytes { size, align } => self.after_alloc(size, align),
            Request::FreeBytes { pos } => self.after_dealloc(pos),
            Request::Pages { count, align_pow2 } => self.after_alloc_pages(page, count, align_pow2),
            Request::FreePages { .. } => self,
        }
    }

    /// The span `[lo, hi)` that serving `req` in this state hands out, if the
    /// request is an allocation that succeeds.
    pub open spec fn granted(self, page: int, req: Request) -> Option<(int, int)> {
        match req {
            Request::Bytes { size, align } if self.bytes_fit(size, align) => Some(
                (self.byte_candidate(align), self.byte_candidate(align) + size),
            ),
            Request::Pages { count, align_pow2 } if self.pages_fit(page, count, align_pow2) => Some(
                (
                    self.page_candidate(page, count, align_pow2),
                    self.page_candidate(page, count, align_pow2) + count * page,
                ),
            ),
            _ => None,
        }
    }

    /// The state after serving `reqs` one after the other.
    pub open spec fn run(self, page: int, reqs: Seq<Request>) -> Region
        decreases reqs.len(),
    {
        if reqs.len() == 0 {
            self
        } else {
            self.run(page, reqs.drop_last()).step(page, reqs.last())
        }
    }
}

/// Every admissible request keeps the cursors in order inside the region,
/// whether it succeeds or not.
pub proof fn lemma_step_keeps_order(s: Region, page: int, req: Request)
    requires
        s.wf(),
        page >= 0,
        req.admissible(),
    ensures
        s.step(page, req).wf(),
{
    match req {
        Request::Bytes { size, align } => {
            lemma_align_up(s.b_pos, align);
        },
        Request::Pages { count, align_pow2 } => {
            vstd::arithmetic::power2::lemma_pow2_pos(align_pow2);
            lemma_align_down(s.p_pos - count * page, pow2(align_pow2) as int);
            assert(count * page >= 0) by (nonlinear_arith)
                requires
                    count >= 0,
                    page >= 0,
            ;
        },
        _ => {},
    }
}

/// After any sequence of admissible requests, `start <= b_pos <= p_pos <= end`.
pub proof fn lemma_run_keeps_order(s: Region, page: int, reqs: Seq<Request>)
    requires
        s.wf(),
        page >= 0,
        forall|i: int| 0 <= i < reqs.len() ==> (#[trigger] reqs[i]).admissible(),
    ensures
        s.run(page, reqs).wf(),
    decreases reqs.len(),
{
    if reqs.len() > 0 {
        lemma_run_keeps_order(s, page, reqs.drop_last());
        lemma_step_keeps_order(s.run(page, reqs.drop_last()), page, reqs.last());
    }
}

/// A span that is handed out is taken from the free span of the state before
/// and belongs to its own side afterwards: a byte span ends at the new byte
/// cursor, a page span starts at the new page cursor. The other cursor stays.
pub proof fn lemma_granted_from_free_span(s: Region, page: int, req: Request)
    requires
        s.wf(),
        page >= 0,
        req.admissible(),
        s.granted(page, req).is_some(),
    ensures
        ({
            let (lo, hi) = s.granted(page, req).unwrap();
            let t = s.step(page, req);
            &&& s.b_pos <= lo <= hi <= s.p_pos
            &&& req is Bytes ==> hi == t.b_pos && t.p_pos == s.p_pos
            &&& req is Pages ==> lo == t.p_pos && t.b_pos == s.b_pos
        }),
{
    lemma_step_keeps_order(s, page, req);
    match req {
        Request::Bytes { size, align } => {
            lemma_align_up(s.b_pos, align);
        },
        Request::Pages { count, align_pow2 } => {
            vstd::arithmetic::power2::lemma_pow2_pos(align_pow2);
            lemma_align_down(s.p_pos - count * page, pow2(align_pow2) as int);
            assert(count * page >= 0) by (nonlinear_arith)
                requires
                    count >= 0,
                    page >= 0,
            ;
        },
        _ => {},
    }
}

/// As long as the allocator is not bound anew, the page cursor never rises:
/// after `j` requests it is at most what it was after `i <= j` of them.
pub proof fn lemma_page_cursor_never_rises(
    s: Region,
    page: int,
    reqs: Seq<Request>,
    i: int,
    j: int,
)
    requires
        s.wf(),
        page >= 0,
        0 <= i <= j <= reqs.len(),
        forall|m: int| 0 <= m < reqs.len() ==> (#[trigger] reqs[m]).admissible(),
        forall|m: int| i <= m < j ==> !((#[trigger] reqs[m]) is Bind),
    ensures
        s.run(page, reqs.take(j)).p_pos <= s.run(page, reqs.take(i)).p_pos,
        s.run(page, reqs.take(j)).end == s.run(page, reqs.take(i)).end,
        s.run(page, reqs.take(j)).wf(),
    decreases j - i,
{
    lemma_run_keeps_order(s, page, reqs.take(j));
    if i < j {
        lemma_page_cursor_never_rises(s, page, reqs, i, j - 1);
        assert(reqs.take(j).drop_last() == reqs.take(j - 1));
        assert(reqs.take(j).last() == reqs[j - 1]);
        let before = s.run(page, reqs.take(j - 1));
        lemma_step_keeps_order(before, page, reqs[j - 1]);
        match reqs[j - 1] {
            Request::Pages { count, align_pow2 } => {
                vstd::arithmetic::power2::lemma_pow2_pos(align_pow2);
                lemma_align_down(before.p_pos - count * page, pow2(align_pow2) as int);
                assert(count * page >= 0) by (nonlinear_arith)
                    requires
                        count >= 0,
                        page >= 0,
                ;
            },
            _ => {},
        }
    }
}

/// No span handed out on one side meets a span handed out on the other.
///
/// Take any sequence of admissible requests, served from a well-formed
/// state, and two of them, `i` before `j`, that both hand out a span, with
/// no new binding from `i` on up to `j`. Then:
/// - if `i` gave pages, the span of `j`, bytes or pages, ends at or below
///   the start of those pages;
/// - if `i` gave bytes and `j` gives pages, the pages start at or above the
///   end of those bytes, provided the bytes are still in use when `j` is
///   served, that is, they end at or below the byte cursor of that moment.
pub proof fn lemma_byte_and_page_spans_apart(
    s: Region,
    page: int,
    reqs: Seq<Request>,
    i: int,
    j: int,
)
    requires
        s.wf(),
        page >= 0,
        0 <= i < j < reqs.len(),
        forall|m: int| 0 <= m < reqs.len() ==> (#[trigger] reqs[m]).admissible(),
        forall|m: int| i <= m <= j ==> !((#[trigger] reqs[m]) is Bind),
        s.run(page, reqs.take(i)).granted(page, reqs[i]).is_some(),
        s.run(page, reqs.take(j)).granted(page, reqs[j]).is_some(),
    ensures
        ({
            let si = s.run(page, reqs.take(i));
            let sj = s.run(page, reqs.take(j));
            let (lo_i, hi_i) = si.granted(page, reqs[i]).unwrap();
            let (lo_j, hi_j) = sj.granted(page, reqs[j]).unwrap();
            &&& reqs[i] is Pages ==> hi_j <= lo_i
            &&& reqs[i] is Bytes && reqs[j] is Pages && hi_i <= sj.b_pos ==> hi_i <= lo_j
        }),
{
    let si = s.run(page, reqs.take(i));
    let sj = s.run(page, reqs.take(j));
    lemma_run_keeps_order(s, page, reqs.take(i));
    lemma_run_keeps_order(s, page, reqs.take(j));
    lemma_granted_from_free_span(si, page, reqs[i]);
    lemma_granted_from_free_span(sj, page, reqs[j]);
    lemma_page_cursor_never_rises(s, page, reqs, i + 1, j);
    assert(reqs.take(i + 1).drop_last() == reqs.take(i));
    assert(reqs.take(i + 1).last() == reqs[i]);
    assert(s.run(page, reqs.take(i + 1)) == si.step(page, reqs[i]));
}

/// Giving back the address that a byte allocation has just returned puts the
/// byte cursor back where it was before that allocation, and leaves nothing
/// to give back: any further request to free bytes changes nothing.
pub proof fn lemma_free_undoes_last_alloc(s: Region, size: int, align: int, again: int)
    requires
        s.wf(),
        0 <= size,
        0 < align,
        s.bytes_fit(size, align),
    ensures
        ({
            let addr = s.byte_candidate(align);
            let freed = s.after_alloc(size, align).after_dealloc(addr);
            &&& freed.b_pos == s.b_pos
            &&& freed.p_pos == s.p_pos
            &&& freed.last.is_none()
            &&& freed.after_dealloc(again) == freed
        }),
{
}

/// Of two byte allocations in a row, the first of them not empty, only the
/// second can be given back: a request to free the first changes nothing.
pub proof fn lemma_only_last_alloc_can_be_freed(
    s: Region,
    size1: int,
    align1: int,
    size2: int,
    align2: int,
)
    requires
        s.wf(),
        0 < size1,
        0 < align1,
        0 <= size2,
        0 < align2,
        s.bytes_fit(size1, align1),
        s.after_alloc(size1, align1).bytes_fit(size2, align2),
    ensures
        ({
            let first = s.byte_candidate(align1);
            let both = s.after_alloc(size1, align1).after_alloc(size2, align2);
            both.after_dealloc(first) == both
        }),
{
    lemma_align_up(s.b_pos, align1);
    lemma_align_up(s.after_alloc(size1, align1).b_pos, align2);
}

} // verus!
