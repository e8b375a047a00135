//! Memory for code: pages that are writable or executable, never both.
//!
//! Mapping and protecting pages, clearing caches and calling what is in a page
//! is up to the caller. What stands here decides how much to map, what a page
//! may be used for, which pages are used again, and which cache lines have to
//! be cleared.
use vstd::prelude::*;

verus! {

/// What the memory of a buffer may be used for.
#[derive(Clone, Copy, PartialEq, Eq, Debug, Structural)]
pub enum ProtState {
    Writable,
    Executable,
}

/// The protection of a page.
#[derive(Clone, Copy, PartialEq, Eq, Debug, Structural)]
pub struct Protection {
    pub read: bool,
    pub write: bool,
    pub execute: bool,
}

impl ProtState {
    pub open spec fn pages(self) -> Protection {
        Protection {
            read: true,
            write: self == ProtState::Writable,
            execute: self == ProtState::Executable,
        }
    }

    /// The protection that the pages of a buffer in this state have.
    pub fn protection(&self) -> (r: Protection)
        ensures
            r == self.pages(),
    {
        Protection {
            read: true,
            write: *self == ProtState::Writable,
            execute: *self == ProtState::Executable,
        }
    }
}

/// No page is writable and executable at once.
pub proof fn lemma_write_xor_execute(state: ProtState)
    ensures
        !(state.pages().write && state.pages().execute),
        state.pages().write || state.pages().execute,
{
}

/// At least one byte.
pub open spec fn wanted(size: usize) -> int {
    if size == 0 {
        1
    } else {
        size as int
    }
}

/// `r` is the least multiple of the page size that holds `size` bytes, and at
/// least one page.
pub open spec fn is_rounded(size: usize, page: usize, r: int) -> bool {
    &&& r % (page as int) == 0
    &&& wanted(size) <= r < wanted(size) + page
}

/// Rounds a size up to whole pages. There is none if that many bytes cannot be
/// counted.
pub fn round_up_to_page(size: usize, page: usize) -> (r: Option<usize>)
    requires
        page > 0,
    ensures
        match r {
            Some(n) => is_rounded(size, page, n as int),
            None => wanted(size) + page - 1 > usize::MAX,
        },
{
    let size: usize = if size == 0 {
        1
    } else {
        size
    };
    if size > usize::MAX - (page - 1) {
        return None;
    }
    let top: usize = size + (page - 1);
    let count: usize = top / page;
    proof {
        let p = page as int;
        let t = top as int;
        vstd::arithmetic::div_mod::lemma_fundamental_div_mod(t, p);
        assert(p * (t / p) == (t / p) * p) by (nonlinear_arith);
        vstd::arithmetic::div_mod::lemma_mod_bound(t, p);
        vstd::arithmetic::div_mod::lemma_mod_multiples_basic(t / p, p);
    }
    Some(count * page)
}

/// Rounding is exact: two sizes that round to the same pages need no other.
pub proof fn lemma_rounded_unique(size: usize, page: usize, a: int, b: int)
    requires
        page > 0,
        is_rounded(size, page, a),
        is_rounded(size, page, b),
    ensures
        a == b,
{
    let p = page as int;
    vstd::arithmetic::div_mod::lemma_fundamental_div_mod(a, p);
    vstd::arithmetic::div_mod::lemma_fundamental_div_mod(b, p);
    assert(a - b == p * (a / p - b / p)) by (nonlinear_arith)
        requires
            a == p * (a / p),
            b == p * (b / p),
    ;
    let q = a / p - b / p;
    assert(q == 0) by (nonlinear_arith)
        requires
            a - b == p * q,
            -p < a - b < p,
            p > 0,
    ;
}

// ---------------------------------------------------------------------------
// Buffers

/// Pages that start writable, take machine code, and become executable.
#[derive(Clone, Copy, PartialEq, Eq, Debug, Structural)]
pub struct ExecutableBuffer {
    address: usize,
    len: usize,
    state: ProtState,
}

/// Where the pages of a buffer are, how many bytes they have, and what they
/// allow.
pub struct Pages {
    pub address: usize,
    pub len: usize,
    pub state: ProtState,
}

impl View for ExecutableBuffer {
    type V = Pages;

    closed spec fn view(&self) -> Pages {
        Pages { address: self.address, len: self.len, state: self.state }
    }
}

impl ExecutableBuffer {
    /// The pages for `size` bytes, which are still to be mapped. There are none
    /// if that many bytes cannot be counted.
    pub fn new(size: usize, page: usize) -> (r: Option<ExecutableBuffer>)
        requires
            page > 0,
        ensures
            match r {
                Some(b) => is_rounded(size, page, b@.len as int) && b@.len > 0 && b@.state
                    == ProtState::Writable && b@.address == 0,
                None => wanted(size) + page - 1 > usize::MAX,
            },
    {
        match round_up_to_page(size, page) {
            Some(len) => Some(ExecutableBuffer { address: 0, len, state: ProtState::Writable }),
            None => None,
        }
    }

    /// The same pages, mapped.
    pub fn placed(&self, address: usize) -> (r: ExecutableBuffer)
        ensures
            r@ == (Pages { address, ..self@ }),
    {
        ExecutableBuffer { address, len: self.len, state: self.state }
    }

    /// Where the pages are.
    pub fn as_ptr(&self) -> (r: usize)
        ensures
            r == self@.address,
    {
        self.address
    }

    pub fn state(&self) -> (r: ProtState)
        ensures
            r == self@.state,
    {
        self.state
    }

    pub fn len(&self) -> (r: usize)
        ensures
            r == self@.len,
    {
        self.len
    }

    pub fn is_empty(&self) -> (r: bool)
        ensures
            r == (self@.len == 0),
    {
        self.len == 0
    }

    /// Whether `count` bytes may be written.
    pub fn may_write(&self, count: usize) -> (r: bool)
        ensures
            r == (self@.state == ProtState::Writable && count <= self@.len),
    {
        self.state == ProtState::Writable && count <= self.len
    }

    /// Makes the buffer executable, if its pages could be protected so.
    pub fn make_executable(&mut self, protected: bool) -> (ok: bool)
        ensures
            ok == protected,
            final(self)@ == if protected {
                Pages { state: ProtState::Executable, ..old(self)@ }
            } else {
                old(self)@
            },
    {
        if protected {
            self.state = ProtState::Executable;
        }
        protected
    }

    /// Makes the buffer writable again, if its pages could be protected so.
    pub fn reset_to_writable(&mut self, protected: bool) -> (ok: bool)
        ensures
            ok == protected,
            final(self)@ == if protected {
                Pages { state: ProtState::Writable, ..old(self)@ }
            } else {
                old(self)@
            },
    {
        if protected {
            self.state = ProtState::Writable;
        }
        protected
    }
}

// ---------------------------------------------------------------------------
// Calls

/// How a compiled expression is called.
#[derive(Clone, Copy, PartialEq, Eq, Debug, Structural)]
pub enum Entry {
    /// With its arguments in registers.
    Scalar,
    /// With a pointer to its arguments.
    Slice,
}

/// Why a call is refused.
#[derive(Clone, Copy, PartialEq, Eq, Debug, Structural)]
pub enum CallError {
    Arity,
    TooManyArguments,
    NotExecutable,
}

/// Executable pages that hold a function of `arity` doubles.
#[derive(Clone, Copy, PartialEq, Eq, Debug, Structural)]
pub struct CompiledExpr {
    buf: ExecutableBuffer,
    arity: usize,
}

impl CompiledExpr {
    pub closed spec fn buffer(self) -> Pages {
        self.buf@
    }

    pub closed spec fn parameters(self) -> usize {
        self.arity
    }

    /// The pages have been made executable.
    pub fn from_buffer(buf: ExecutableBuffer, arity: usize) -> (r: CompiledExpr)
        requires
            buf@.state == ProtState::Executable,
        ensures
            r.buffer() == buf@,
            r.parameters() == arity,
    {
        CompiledExpr { buf, arity }
    }

    /// Whether a call with `count` arguments is refused. A function that reads
    /// its arguments through a pointer reads no more than its arity, so longer
    /// slices are fine. Registers hold eight doubles.
    pub open spec fn refuses(self, entry: Entry, count: usize) -> Option<CallError> {
        if entry == Entry::Scalar && count != self.parameters() {
            Some(CallError::Arity)
        } else if entry == Entry::Slice && count < self.parameters() {
            Some(CallError::Arity)
        } else if entry == Entry::Scalar && count > 8 {
            Some(CallError::TooManyArguments)
        } else if self.buffer().state != ProtState::Executable {
            Some(CallError::NotExecutable)
        } else {
            None
        }
    }

    /// The address to call, if the call is allowed.
    pub fn entry(&self, entry: Entry, count: usize) -> (r: Result<usize, CallError>)
        ensures
            match r {
                Ok(address) => self.refuses(entry, count) is None && address
                    == self.buffer().address,
                Err(e) => self.refuses(entry, count) == Some(e),
            },
    {
        if entry == Entry::Scalar && count != self.arity {
            return Err(CallError::Arity);
        }
        if entry == Entry::Slice && count < self.arity {
            return Err(CallError::Arity);
        }
        if entry == Entry::Scalar && count > 8 {
            return Err(CallError::TooManyArguments);
        }
        if self.buf.state != ProtState::Executable {
            return Err(CallError::NotExecutable);
        }
        Ok(self.buf.address)
    }
}

// ---------------------------------------------------------------------------
// Using pages again

/// A list of free buffers, all of them writable.
pub struct CodeCache {
    free: Vec<ExecutableBuffer>,
}

/// A buffer from the list, or one whose pages are still to be mapped.
#[derive(Clone, Copy, PartialEq, Eq, Debug, Structural)]
pub enum Acquired {
    Reused(ExecutableBuffer),
    Fresh(ExecutableBuffer),
}

/// The first free buffer from `i` on that holds `size` bytes.
pub open spec fn first_fit(free: Seq<Pages>, size: usize, i: int) -> Option<int>
    decreases free.len() - i,
{
    if i < 0 || i >= free.len() {
        None
    } else if free[i].len >= size {
        Some(i)
    } else {
        first_fit(free, size, i + 1)
    }
}

/// What the buffers of a list are.
pub open spec fn pages_of(list: Seq<ExecutableBuffer>) -> Seq<Pages> {
    Seq::new(list.len(), |i: int| list[i]@)
}

impl View for CodeCache {
    type V = Seq<Pages>;

    closed spec fn view(&self) -> Seq<Pages> {
        pages_of(self.free@)
    }
}

impl CodeCache {
    #[verifier::type_invariant]
    spec fn all_writable(self) -> bool {
        forall|i: int|
            #![trigger self.free@[i]]
            0 <= i < self.free@.len() ==> self.free@[i]@.state == ProtState::Writable
    }

    pub fn new() -> (r: CodeCache)
        ensures
            r@ == Seq::<Pages>::empty(),
    {
        let r: CodeCache = CodeCache { free: Vec::new() };
        assert(r@ =~= Seq::empty());
        r
    }

    /// A writable buffer of at least `min_size` bytes: the first free one that
    /// is large enough, or a new one.
    pub fn acquire(&mut self, min_size: usize, page: usize) -> (r: Option<Acquired>)
        requires
            page > 0,
        ensures
            match first_fit(old(self)@, min_size, 0) {
                Some(i) => {
                    &&& 0 <= i < old(self)@.len()
                    &&& r matches Some(Acquired::Reused(b)) && b@ == old(self)@[i]
                    &&& final(self)@ == old(self)@.remove(i)
                },
                None => {
                    &&& final(self)@ == old(self)@
                    &&& match r {
                        Some(Acquired::Fresh(b)) => is_rounded(min_size, page, b@.len as int)
                            && b@.state == ProtState::Writable && b@.address == 0,
                        Some(Acquired::Reused(_)) => false,
                        None => wanted(min_size) + page - 1 > usize::MAX,
                    }
                },
            },
            match r {
                Some(Acquired::Reused(b)) => b@.state == ProtState::Writable,
                Some(Acquired::Fresh(b)) => b@.state == ProtState::Writable,
                None => true,
            },
    {
        proof {
            use_type_invariant(&*self);
        }
        let ghost start = self.free@;
        let mut i: usize = 0;
        while i < self.free.len()
            invariant
                i <= self.free@.len(),
                self.free@ == start,
                start == old(self).free@,
                first_fit(pages_of(start), min_size, 0) == first_fit(
                    pages_of(start),
                    min_size,
                    i as int,
                ),
            decreases self.free@.len() - i,
        {
            if self.free[i].len >= min_size {
                proof {
                    use_type_invariant(&*self);
                }
                let mut free: Vec<ExecutableBuffer> = Vec::new();
                std::mem::swap(&mut free, &mut self.free);
                let b: ExecutableBuffer = free.remove(i);
                proof {
                    let rest = start.remove(i as int);
                    assert forall|k: int|
                        #![trigger rest[k]]
                        0 <= k < rest.len() implies rest[k]@.state == ProtState::Writable by {
                        if k < i {
                            assert(rest[k] == start[k]);
                        } else {
                            assert(rest[k] == start[k + 1]);
                        }
                    }
                }
                self.free = free;
                assert(self@ =~= pages_of(start).remove(i as int));
                return Some(Acquired::Reused(b));
            }
            i += 1;
        }
        match ExecutableBuffer::new(min_size, page) {
            Some(b) => Some(Acquired::Fresh(b)),
            None => None,
        }
    }

    /// Gives a buffer back; its pages have been made writable again.
    pub fn release(&mut self, buf: ExecutableBuffer)
        ensures
            final(self)@ == old(self)@.push(Pages { state: ProtState::Writable, ..buf@ }),
    {
        proof {
            use_type_invariant(&*self);
        }
        let ghost start = self@;
        let mut buf: ExecutableBuffer = buf;
        buf.reset_to_writable(true);
        let mut free: Vec<ExecutableBuffer> = Vec::new();
        std::mem::swap(&mut free, &mut self.free);
        free.push(buf);
        self.free = free;
        assert(self@ =~= start.push(buf@));
    }

    /// Takes out all the free buffers.
    pub fn drain(&mut self) -> (r: Vec<ExecutableBuffer>)
        ensures
            pages_of(r@) == old(self)@,
            final(self)@ == Seq::<Pages>::empty(),
    {
        let mut free: Vec<ExecutableBuffer> = Vec::new();
        std::mem::swap(&mut free, &mut self.free);
        assert(self@ =~= Seq::empty());
        free
    }
}

impl Default for CodeCache {
    fn default() -> (r: CodeCache)
        ensures
            r@ == Seq::<Pages>::empty(),
    {
        CodeCache::new()
    }
}

/// What is released to an empty cache comes back, writable, for any request
/// that it is large enough for, and for no other.
pub proof fn lemma_released_is_reused(buf: Pages, size: usize)
    ensures
        ({
            let free = Seq::<Pages>::empty().push(Pages { state: ProtState::Writable, ..buf });
            &&& buf.len >= size ==> first_fit(free, size, 0) == Some(0int) && free[0].address
                == buf.address && free[0].state == ProtState::Writable
            &&& buf.len < size ==> first_fit(free, size, 0) is None
        }),
{
    let free = Seq::<Pages>::empty().push(Pages { state: ProtState::Writable, ..buf });
    reveal_with_fuel(first_fit, 2);
    assert(free.len() == 1);
}

// ---------------------------------------------------------------------------
// Caches

/// The size of a cache line, from a field that holds the logarithm of its
/// number of words.
pub open spec fn line_size(field: u64) -> int {
    4 * vstd::arithmetic::power2::pow2(field as nat) as int
}

fn shifted(field: u64) -> (r: usize)
    requires
        field < 16,
    ensures
        r == line_size(field),
{
    let mut size: usize = 4;
    let mut i: u64 = 0;
    proof {
        vstd::arithmetic::power2::lemma2_to64();
    }
    while i < field
        invariant
            i <= field < 16,
            size == line_size(i),
            size <= 0x2_0000,
            size == 4 * vstd::arithmetic::power2::pow2(i as nat),
            vstd::arithmetic::power2::pow2(i as nat) <= 0x8000,
        decreases field - i,
    {
        proof {
            vstd::arithmetic::power2::lemma_pow2_unfold((i + 1) as nat);
            vstd::arithmetic::power2::lemma2_to64();
            if i + 1 < 16 {
                lemma_small_power((i + 1) as nat);
            }
        }
        size = size * 2;
        i += 1;
    }
    size
}

proof fn lemma_small_power(n: nat)
    requires
        n < 16,
    ensures
        vstd::arithmetic::power2::pow2(n) <= 0x8000,
{
    vstd::arithmetic::power2::lemma2_to64();
    if n < 15 {
        vstd::arithmetic::power2::lemma_pow2_strictly_increases(n, 15);
    }
}

/// The size of an instruction-cache line: `IminLine`, the lowest four bits of
/// the cache type register.
pub fn icache_line_size(ctr: u64) -> (r: usize)
    ensures
        r == line_size(ctr % 16),
{
    shifted(ctr % 16)
}

/// The size of a data-cache line: `DminLine`, bits 16 to 19 of the cache type
/// register.
pub fn dcache_line_size(ctr: u64) -> (r: usize)
    ensures
        r == line_size((ctr / 0x1_0000) % 16),
{
    shifted((ctr / 0x1_0000) % 16)
}

/// The byte is in one of the lines.
pub open spec fn in_line(lines: Seq<usize>, line: usize, a: int) -> bool {
    exists|i: int|
        #![trigger lines[i]]
        0 <= i < lines.len() && lines[i] <= a < lines[i] + line
}

/// The addresses of the lines that hold the `len` bytes from `start` on.
pub open spec fn covers(lines: Seq<usize>, start: usize, len: usize, line: usize) -> bool {
    &&& forall|i: int|
        #![trigger lines[i]]
        0 <= i < lines.len() ==> lines[i] == start - start % line + i * line && lines[i] < start
            + len
    &&& forall|a: int| start <= a < start + len ==> #[trigger] in_line(lines, line, a)
}

/// The addresses of the cache lines to clear: every byte of the region is in
/// one of them.
pub fn cache_lines(start: usize, len: usize, line: usize) -> (r: Vec<usize>)
    requires
        line > 0,
        start + len + line <= usize::MAX,
    ensures
        covers(r@, start, len, line),
{
    let mut r: Vec<usize> = Vec::new();
    let end: usize = start + len;
    proof {
        vstd::arithmetic::div_mod::lemma_mod_bound(start as int, line as int);
        vstd::arithmetic::div_mod::lemma_mod_decreases(start as nat, line as nat);
        assert(0 * line == 0) by (nonlinear_arith);
    }
    let first: usize = start - start % line;
    let mut address: usize = first;
    while address < end
        invariant
            line > 0,
            end == start + len,
            start + len + line <= usize::MAX,
            first == start - start % line,
            first <= start,
            address == first + r@.len() * line,
            address < end + line,
            forall|i: int|
                #![trigger r@[i]]
                0 <= i < r@.len() ==> r@[i] == start - start % line + i * line && r@[i] < end,
            forall|a: int| first <= a < address ==> #[trigger] in_line(r@, line, a),
        decreases end + line - address,
    {
        let ghost before = r@;
        r.push(address);
        proof {
            let n = before.len() as int;
            assert((n + 1) * line == n * line + line) by (nonlinear_arith);
            assert forall|a: int| first <= a < address + line implies #[trigger] in_line(
                r@,
                line,
                a,
            ) by {
                if a < address {
                    assert(in_line(before, line, a));
                    let i = choose|i: int|
                        #![trigger before[i]]
                        0 <= i < before.len() && before[i] <= a < before[i] + line;
                    assert(r@[i] == before[i]);
                } else {
                    assert(r@[n] == address);
                }
            }
        }
        address = address + line;
    }
    r
}

} // verus!
