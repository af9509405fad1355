//! A fixed-capacity circular history of characters, and a cursor that walks
//! it from the newest slot back towards the oldest.

use vstd::prelude::*;

verus! {

/// The character that fills every slot of a fresh buffer.
pub const BLANK: char = ' ';

/// Capacity used by `RingBuffer::default` and `BackwardCursor::default`.
pub const DEFAULT_CAPACITY: usize = 1024;

/// `n` is a power of two.
pub open spec fn is_pow2(n: nat) -> bool
    decreases n,
{
    if n <= 1 {
        n == 1
    } else {
        n % 2 == 0 && is_pow2(n / 2)
    }
}

/// The slot one step before `idx`, wrapping from 0 to `cap - 1`.
pub open spec fn step_back(idx: int, cap: int) -> int {
    if idx == 0 {
        cap - 1
    } else {
        idx - 1
    }
}

/// The slot one step after `idx`, wrapping from `cap - 1` to 0.
pub open spec fn step_forward(idx: int, cap: int) -> int {
    if idx + 1 == cap {
        0
    } else {
        idx + 1
    }
}

/// The smallest power of two that is at least `n` and at least 2.
pub open spec fn rounded_capacity(n: nat, cap: nat) -> bool {
    &&& is_pow2(cap)
    &&& cap >= 2
    &&& cap >= n
    &&& (cap == 2 || cap / 2 < n)
}

proof fn lemma_pow2_below(a: nat, b: nat)
    requires
        is_pow2(a),
        is_pow2(b),
        a < b,
    ensures
        a <= b / 2,
    decreases b,
{
    if a > b / 2 {
        assert(a > 1);
        lemma_pow2_below(a / 2, b / 2);
    }
}

/// At most one capacity is the rounded one for `n`.
pub proof fn lemma_rounded_capacity_unique(n: nat, c1: nat, c2: nat)
    requires
        rounded_capacity(n, c1),
        rounded_capacity(n, c2),
    ensures
        c1 == c2,
{
    if c1 < c2 {
        lemma_pow2_below(c1, c2);
    } else if c2 < c1 {
        lemma_pow2_below(c2, c1);
    }
}

proof fn lemma_pow2_mask(n: usize)
    requires
        is_pow2(n as nat),
    ensures
        n > 0,
        n & ((n - 1) as usize) == 0,
    decreases n,
{
    if n > 1 {
        let m: usize = n / 2;
        lemma_pow2_mask(m);
        assert(m > 0 && m & ((m - 1) as usize) == 0 && n == (m + m) as usize ==> n & ((n
            - 1) as usize) == 0) by (bit_vector);
    } else {
        assert(1usize & ((1usize - 1) as usize) == 0) by (bit_vector);
    }
}

proof fn lemma_mask_back(idx: usize, n: usize)
    requires
        n > 0,
        n & ((n - 1) as usize) == 0,
        idx < n,
    ensures
        ((idx + (n - 1)) as usize) & ((n - 1) as usize) == step_back(idx as int, n as int),
{
    if idx == 0 {
        assert(n > 0 && n & ((n - 1) as usize) == 0 ==> ((0usize + (n - 1)) as usize) & ((n
            - 1) as usize) == (n - 1) as usize) by (bit_vector);
    } else {
        assert(n > 0 && n & ((n - 1) as usize) == 0 && 0 < idx && idx < n ==> ((idx + (n
            - 1)) as usize) & ((n - 1) as usize) == (idx - 1) as usize) by (bit_vector);
    }
}

proof fn lemma_mask_forward(idx: usize, n: usize)
    requires
        n > 0,
        n & ((n - 1) as usize) == 0,
        idx < n,
    ensures
        ((idx + 1) as usize) & ((n - 1) as usize) == step_forward(idx as int, n as int),
{
    if idx + 1 == n {
        assert(n > 0 && n & ((n - 1) as usize) == 0 && idx < n && (idx + 1) as usize == n
            ==> ((idx + 1) as usize) & ((n - 1) as usize) == 0) by (bit_vector);
    } else {
        assert(n > 0 && n & ((n - 1) as usize) == 0 && idx < n && (idx + 1) as usize != n
            ==> ((idx + 1) as usize) & ((n - 1) as usize) == (idx + 1) as usize) by (bit_vector);
    }
}

/// A walker over slot indices of a buffer, from the newest slot backwards,
/// wrapping around without end.
pub struct BackwardCursor {
    idx: usize,
    len: usize,
}

impl BackwardCursor {
    /// The index most recently handed out (or the start position).
    pub closed spec fn position(&self) -> nat {
        self.idx as nat
    }

    /// The number of slots of the buffer walked over.
    pub closed spec fn capacity(&self) -> nat {
        self.len as nat
    }

    /// The slot count is a power of two and the position is one of the slots.
    pub open spec fn wf(&self) -> bool {
        &&& is_pow2(self.capacity())
        &&& self.capacity() <= usize::MAX / 2 + 1
        &&& self.position() < self.capacity()
    }

    /// Steps one slot back, wrapping from 0 to the last slot, and returns the
    /// new position.
    pub fn next(&mut self) -> (r: usize)
        requires
            old(self).wf(),
        ensures
            final(self).wf(),
            final(self).capacity() == old(self).capacity(),
            final(self).position() == step_back(
                old(self).position() as int,
                old(self).capacity() as int,
            ),
            r as nat == final(self).position(),
    {
        proof {
            lemma_pow2_mask(self.len);
            lemma_mask_back(self.idx, self.len);
        }
        self.idx = self.idx + (self.len - 1);
        self.idx = self.idx & (self.len - 1);
        self.idx
    }
}

impl Default for BackwardCursor {
    /// A cursor at slot 0 over `DEFAULT_CAPACITY` slots.
    fn default() -> (r: Self)
        ensures
            r.wf(),
            r.position() == 0,
            r.capacity() == DEFAULT_CAPACITY,
    {
        proof {
            reveal_with_fuel(is_pow2, 11);
        }
        BackwardCursor { idx: 0, len: DEFAULT_CAPACITY }
    }
}

/// The most recent characters of a stream, in a power-of-two number of
/// slots that are overwritten oldest first.
pub struct RingBuffer {
    buffer: Vec<char>,
    len: usize,
    pos: usize,
}

impl RingBuffer {
    /// The slots, by index.
    pub closed spec fn slots(&self) -> Seq<char> {
        self.buffer@
    }

    /// The number of slots.
    pub closed spec fn capacity(&self) -> nat {
        self.len as nat
    }

    /// The slot that the next insertion overwrites.
    pub closed spec fn write_pos(&self) -> nat {
        self.pos as nat
    }

    /// The slot count is a power of two, at least 2, and the write position
    /// is one of the slots.
    pub open spec fn wf(&self) -> bool {
        &&& is_pow2(self.capacity())
        &&& self.capacity() >= 2
        &&& self.capacity() <= usize::MAX / 2 + 1
        &&& self.slots().len() == self.capacity()
        &&& self.write_pos() < self.capacity()
    }

    /// A buffer of the smallest power of two of slots that is at least `n`
    /// and at least 2, all blank, writing first at slot 0. The bound on `n`
    /// keeps the slots within the address space.
    pub fn new(n: usize) -> (r: Self)
        requires
            n <= usize::MAX / 4,
        ensures
            r.wf(),
            rounded_capacity(n as nat, r.capacity()),
            r.write_pos() == 0,
            r.slots() == Seq::new(r.capacity(), |_i: int| BLANK),
    {
        let mut len: usize = 2;
        proof {
            reveal_with_fuel(is_pow2, 2);
        }
        while len < n
            invariant
                is_pow2(len as nat),
                len >= 2,
                n <= usize::MAX / 4,
                len == 2 || len / 2 < n,
            decreases usize::MAX - len,
        {
            assert((len + len) / 2 == len);
            assert((len + len) % 2 == 0);
            len += len;
        }
        let pos: usize = 0;
        let buffer = vec![BLANK; len];
        let r = RingBuffer { buffer, len, pos };
        assert(r.slots() =~= Seq::new(r.capacity(), |_i: int| BLANK));
        r
    }

    /// The number of slots.
    pub fn capacity_of(&self) -> (r: usize)
        ensures
            r as nat == self.capacity(),
    {
        self.len
    }

    /// Writes `ch` at the write position and moves the write position one
    /// slot forward, wrapping to 0 after the last slot.
    pub fn insert(&mut self, ch: char)
        requires
            old(self).wf(),
        ensures
            final(self).wf(),
            final(self).capacity() == old(self).capacity(),
            final(self).slots() == old(self).slots().update(old(self).write_pos() as int, ch),
            final(self).write_pos() == step_forward(
                old(self).write_pos() as int,
                old(self).capacity() as int,
            ),
    {
        proof {
            lemma_pow2_mask(self.len);
            lemma_mask_forward(self.pos, self.len);
        }
        self.buffer.set(self.pos, ch);
        self.pos = self.pos + 1;
        self.pos = self.pos & (self.len - 1);
    }

    /// A cursor over this buffer that starts at the write position, so that
    /// its first step yields the slot written last.
    pub fn cursor(&self) -> (r: BackwardCursor)
        requires
            self.wf(),
        ensures
            r.wf(),
            r.position() == self.write_pos(),
            r.capacity() == self.capacity(),
    {
        BackwardCursor { idx: self.pos, len: self.len }
    }

    /// The character in slot `index`.
    pub fn get(&self, index: usize) -> (r: char)
        requires
            self.wf(),
            index < self.capacity(),
        ensures
            r == self.slots()[index as int],
    {
        self.buffer[index]
    }
}

impl Default for RingBuffer {
    /// A blank buffer of `DEFAULT_CAPACITY` slots.
    fn default() -> (r: Self)
        ensures
            r.wf(),
            r.capacity() == DEFAULT_CAPACITY,
            r.write_pos() == 0,
            r.slots() == Seq::new(r.capacity(), |_i: int| BLANK),
    {
        proof {
            reveal_with_fuel(is_pow2, 11);
        }
        let buffer = vec![BLANK; DEFAULT_CAPACITY];
        let r = RingBuffer { buffer, len: DEFAULT_CAPACITY, pos: 0 };
        assert(r.slots() =~= Seq::new(r.capacity(), |_i: int| BLANK));
        r
    }
}

} // verus!
