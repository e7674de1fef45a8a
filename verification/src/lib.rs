//! A fixed-capacity circular byte buffer with overwrite-oldest semantics.
//!
//! The buffer holds the most recent `capacity` bytes that were pushed into
//! it.  The valid window can be linearized into contiguous, oldest-to-newest
//! order, searched for a byte pattern, and shortened from the oldest end.

use vstd::prelude::*;

verus! {

/// The position `start + i` taken around a ring of size `cap`.
/// Meaningful for `0 <= start < cap` and `0 <= i <= cap`.
pub open spec fn wrap_index(start: int, i: int, cap: int) -> int {
    if start + i < cap {
        start + i
    } else {
        start + i - cap
    }
}

/// The logical window that results from pushing `input` into a ring of
/// capacity `cap` whose window is currently `window`: the last
/// `min(window.len() + input.len(), cap)` bytes of `window + input`.
pub open spec fn pushed(window: Seq<u8>, input: Seq<u8>, cap: int) -> Seq<u8> {
    let all = window + input;
    if all.len() <= cap {
        all
    } else {
        all.subrange(all.len() - cap, all.len() as int)
    }
}

/// Forward distance around the ring from `start` to `t`, for indices in
/// `[0, cap)`: how many single steps it takes to walk from `start` to `t`.
spec fn arc_dist(start: int, t: int, cap: int) -> int {
    if t >= start {
        t - start
    } else {
        t + cap - start
    }
}

/// Whether `pattern` occurs in `window` starting at offset `o`.
pub open spec fn is_match_at(window: Seq<u8>, pattern: Seq<u8>, o: int) -> bool {
    &&& 0 <= o
    &&& o + pattern.len() <= window.len()
    &&& window.subrange(o, o + pattern.len() as int) == pattern
}

/// A circular buffer of bytes.  `ring` is the circular store, `buffer` a
/// scratch region of the same size used only to materialize the linear view,
/// `len` the number of valid bytes and `pos` the next write position.
pub struct U8RingBuffer {
    ring: Vec<u8>,
    buffer: Vec<u8>,
    len: usize,
    pos: usize,
}

impl U8RingBuffer {
    /// The fixed capacity of the ring.
    pub closed spec fn spec_capacity(&self) -> int {
        self.ring@.len() as int
    }

    /// Structural invariant: both storage regions have the (positive)
    /// capacity, the window fits, and the cursor is a valid ring index.
    pub closed spec fn wf(&self) -> bool {
        &&& self.ring@.len() > 0
        &&& self.buffer@.len() == self.ring@.len()
        &&& self.len <= self.ring@.len()
        &&& self.pos < self.ring@.len()
    }

    /// Ring index of the oldest valid byte: `len` positions behind the
    /// cursor, wrapping backward.
    pub closed spec fn oldest(&self) -> int {
        if self.pos >= self.len {
            self.pos - self.len
        } else {
            self.pos + self.spec_capacity() - self.len
        }
    }

    fn zeroed(capacity: usize) -> (v: Vec<u8>)
        ensures
            v@.len() == capacity,
    {
        let mut v: Vec<u8> = Vec::new();
        let mut i: usize = 0;
        while i < capacity
            invariant
                v@.len() == i,
                i <= capacity,
            decreases capacity - i,
        {
            v.push(0);
            i = i + 1;
        }
        v
    }

    /// Creates an empty buffer of the given positive capacity.
    pub fn new(capacity: usize) -> (r: Self)
        requires
            capacity > 0,
        ensures
            r.wf(),
            r.spec_capacity() == capacity,
            r@ == Seq::<u8>::empty(),
    {
        let r = Self { ring: Self::zeroed(capacity), buffer: Self::zeroed(capacity), len: 0, pos: 0 };
        proof {
            assert(r@ =~= Seq::<u8>::empty());
        }
        r
    }

    /// Returns the fixed capacity.
    pub fn capacity(&self) -> (r: usize)
        ensures
            r == self.spec_capacity(),
    {
        self.ring.len()
    }

    /// Returns the number of valid bytes in the window.
    pub fn len(&self) -> (r: usize)
        ensures
            r == self@.len(),
    {
        self.len
    }

    /// Returns whether the window is empty.
    pub fn is_empty(&self) -> (r: bool)
        ensures
            r <==> self@.len() == 0,
    {
        self.len == 0
    }

    /// Empties the window.  Stale bytes stay in storage but are inert,
    /// because the window has length zero.
    pub fn clear(&mut self)
        requires
            old(self).wf(),
        ensures
            final(self).wf(),
            final(self).spec_capacity() == old(self).spec_capacity(),
            final(self)@ == Seq::<u8>::empty(),
    {
        self.len = 0;
        self.pos = 0;
        proof {
            assert(self@ =~= Seq::<u8>::empty());
        }
    }

    /// Ring index of the oldest valid byte.
    fn last(&self) -> (r: usize)
        requires
            self.wf(),
        ensures
            r == self.oldest(),
    {
        let capacity = self.ring.len();
        if self.pos >= self.len {
            self.pos - self.len
        } else {
            capacity - self.len + self.pos
        }
    }

    /// Linearizes the window into the scratch region and returns it as a
    /// contiguous view, oldest byte first.  The window itself is unchanged.
    pub fn slice(&mut self) -> (r: &[u8])
        requires
            old(self).wf(),
        ensures
            final(self).wf(),
            final(self).spec_capacity() == old(self).spec_capacity(),
            final(self)@ == old(self)@,
            r@ == old(self)@,
    {
        let capacity = self.ring.len();
        let start = self.last();
        let len = self.len;
        let pos = self.pos;
        let ghost cap = capacity as int;
        let ghost ring0 = self.ring@;
        let ghost w0 = self@;
        if len == 0 {
        } else if start < pos {
            // The window lies in one contiguous run of the ring.
            let mut i: usize = 0;
            while i < len
                invariant
                    i <= len,
                    capacity == cap,
                    self.ring@ == ring0,
                    self.ring@.len() == cap,
                    self.buffer@.len() == cap,
                    len == self.len,
                    pos == self.pos,
                    start == self.oldest(),
                    0 <= start,
                    start + len <= cap,
                    w0.len() == len,
                    forall|j: int| 0 <= j < w0.len() ==> w0[j] == ring0[wrap_index(start as int, j, cap)],
                    forall|j: int| 0 <= j < i ==> self.buffer@[j] == w0[j],
                decreases len - i,
            {
                let b = self.ring[start + i];
                self.buffer.set(i, b);
                i = i + 1;
            }
        } else {
            // The window wraps: a head run at the end of the ring, then a
            // tail run from the start of the ring up to the cursor.
            let head = capacity - start;
            let mut i: usize = 0;
            while i < head
                invariant
                    i <= head,
                    capacity == cap,
                    head == cap - start,
                    self.ring@ == ring0,
                    self.ring@.len() == cap,
                    self.buffer@.len() == cap,
                    len == self.len,
                    pos == self.pos,
                    start == self.oldest(),
                    len == head + pos,
                    len <= cap,
                    pos < cap,
                    0 <= start < cap,
                    w0.len() == len,
                    forall|j: int| 0 <= j < w0.len() ==> w0[j] == ring0[wrap_index(start as int, j, cap)],
                    forall|j: int| 0 <= j < i ==> self.buffer@[j] == w0[j],
                decreases head - i,
            {
                let b = self.ring[start + i];
                self.buffer.set(i, b);
                i = i + 1;
            }
            let mut j: usize = 0;
            while j < pos
                invariant
                    j <= pos,
                    capacity == cap,
                    head == cap - start,
                    self.ring@ == ring0,
                    self.ring@.len() == cap,
                    self.buffer@.len() == cap,
                    len == self.len,
                    pos == self.pos,
                    start == self.oldest(),
                    len == head + pos,
                    len <= cap,
                    pos < cap,
                    0 <= start < cap,
                    w0.len() == len,
                    forall|t: int| 0 <= t < w0.len() ==> w0[t] == ring0[wrap_index(start as int, t, cap)],
                    forall|t: int| 0 <= t < head + j ==> self.buffer@[t] == w0[t],
                decreases pos - j,
            {
                let b = self.ring[j];
                self.buffer.set(head + j, b);
                j = j + 1;
            }
        }
        proof {
            assert(self@ =~= w0);
            assert(self.buffer@.subrange(0, len as int) =~= w0);
        }
        vstd::slice::slice_subrange(self.buffer.as_slice(), 0, len)
    }

    /// Advances the cursor by `inc` positions around the ring and grows the
    /// window by `inc` bytes, clamped at the capacity.
    fn inc_pos_by(&mut self, inc: usize)
        requires
            old(self).wf(),
            inc <= old(self).ring@.len(),
        ensures
            final(self).wf(),
            final(self).ring@ == old(self).ring@,
            final(self).buffer@ == old(self).buffer@,
            final(self).pos as int == wrap_index(
                old(self).pos as int,
                inc as int,
                old(self).ring@.len() as int,
            ),
            final(self).len as int == if old(self).len + inc <= old(self).ring@.len() {
                old(self).len + inc
            } else {
                old(self).ring@.len() as int
            },
    {
        let capacity = self.ring.len();
        if self.pos >= capacity - inc {
            self.pos = self.pos - (capacity - inc);
        } else {
            self.pos = self.pos + inc;
        }
        if self.len < capacity {
            if self.len >= capacity - inc {
                self.len = capacity;
            } else {
                self.len = self.len + inc;
            }
        }
    }

    /// Appends `input` to the window, overwriting the oldest bytes once the
    /// ring is full.  If `input` is longer than the capacity, only its last
    /// `capacity` bytes are retained.  The resulting window is the last
    /// `min(old length + input length, capacity)` bytes of the old window
    /// followed by `input`.
    pub fn push(&mut self, input: &[u8])
        requires
            old(self).wf(),
        ensures
            final(self).wf(),
            final(self).spec_capacity() == old(self).spec_capacity(),
            final(self)@ == pushed(old(self)@, input@, old(self).spec_capacity()),
    {
        let capacity = self.ring.len();
        let in_len = input.len();
        let skip = if in_len > capacity {
            in_len - capacity
        } else {
            0
        };
        let count = in_len - skip;
        let ghost cap = capacity as int;
        let ghost pos0 = self.pos as int;
        let ghost len0 = self.len as int;
        let ghost oldest0 = self.oldest();
        let ghost ring0 = self.ring@;
        let ghost w0 = old(self)@;
        let mut idx = self.pos;
        let mut i: usize = 0;
        while i < count
            invariant
                i <= count,
                count <= capacity,
                skip + count == in_len,
                in_len == input@.len(),
                capacity == cap,
                self.ring@.len() == cap,
                self.buffer@.len() == cap,
                self.pos == pos0,
                self.len == len0,
                0 <= pos0 < cap,
                idx as int == wrap_index(pos0, i as int, cap),
                forall|j: int|
                    0 <= j < i ==> self.ring@[wrap_index(pos0, j, cap)] == input@[skip + j],
                forall|t: int|
                    0 <= t < cap && arc_dist(pos0, t, cap) >= i ==> self.ring@[t] == ring0[t],
            decreases count - i,
        {
            let b = input[skip + i];
            self.ring.set(idx, b);
            proof {
                assert(arc_dist(pos0, idx as int, cap) == i);
            }
            idx = if idx + 1 == capacity {
                0
            } else {
                idx + 1
            };
            i = i + 1;
        }
        let ghost ring_f = self.ring@;
        self.inc_pos_by(count);
        proof {
            let ilen = input@.len() as int;
            let len1 = self.len as int;
            let pos1 = self.pos as int;
            let d = len1 - count;
            let all = w0 + input@;
            let target = pushed(w0, input@, cap);
            let off = len0 + ilen - len1;
            assert(len1 == if len0 + count <= cap {
                len0 + count
            } else {
                cap
            });
            assert(skip > 0 ==> count == cap && len1 == cap && d == 0);
            assert(target.len() == len1);
            assert(target =~= all.subrange(off, all.len() as int));
            assert forall|k: int| 0 <= k < len1 implies self@[k] == target[k] by {
                let oldest1 = self.oldest();
                let p = wrap_index(oldest1, k, cap);
                assert(self@[k] == ring_f[p]);
                if k >= d {
                    let j = k - d;
                    assert(p == wrap_index(pos0, j, cap));
                    assert(ring_f[p] == input@[skip + j]);
                    assert(off + k == len0 + skip + j);
                    assert(target[k] == all[off + k]);
                    assert(all[off + k] == input@[skip + j]);
                } else {
                    let q = len0 - d + k;
                    assert(p == wrap_index(oldest0, q, cap));
                    assert(arc_dist(pos0, p, cap) >= count);
                    assert(ring_f[p] == ring0[p]);
                    assert(w0[q] == ring0[p]);
                    assert(off + k == q);
                    assert(target[k] == all[off + k]);
                    assert(all[off + k] == w0[q]);
                }
            }
            assert(self@ =~= target);
        }
    }

    /// Logically discards the `amount` oldest bytes of the window without
    /// touching storage.  Fails, changing nothing, when `amount` exceeds the
    /// window length; discarding the whole window resets the cursor as
    /// `clear` does.
    pub fn purge(&mut self, amount: usize) -> (r: bool)
        requires
            old(self).wf(),
        ensures
            final(self).wf(),
            final(self).spec_capacity() == old(self).spec_capacity(),
            r == (amount <= old(self)@.len()),
            r ==> final(self)@ == old(self)@.subrange(amount as int, old(self)@.len() as int),
            !r ==> final(self)@ == old(self)@,
    {
        if amount > self.len {
            return false;
        }
        if amount == self.len {
            self.len = 0;
            self.pos = 0;
        } else {
            self.len = self.len - amount;
        }
        proof {
            assert(self@ =~= old(self)@.subrange(amount as int, old(self)@.len() as int));
        }
        true
    }

    /// Scans the window for `pattern`, starting at `offset`, and returns the
    /// lowest offset at or past `offset` where the pattern occurs.  An empty
    /// pattern is reported as not found.
    fn occurence(&mut self, pattern: &[u8], offset: usize) -> (r: Option<usize>)
        requires
            old(self).wf(),
        ensures
            final(self).wf(),
            final(self).spec_capacity() == old(self).spec_capacity(),
            final(self)@ == old(self)@,
            match r {
                Some(o) => {
                    &&& pattern@.len() > 0
                    &&& offset <= o
                    &&& is_match_at(old(self)@, pattern@, o as int)
                    &&& forall|j: int|
                        offset <= j < o ==> !is_match_at(old(self)@, pattern@, j)
                },
                None => pattern@.len() == 0 || forall|j: int|
                    j >= offset ==> !is_match_at(old(self)@, pattern@, j),
            },
    {
        let pat_len = pattern.len();
        let window = self.slice();
        let win_len = window.len();
        if pat_len == 0 || pat_len > win_len || offset > win_len - pat_len {
            return None;
        }
        let last_start = win_len - pat_len;
        let mut idx = offset;
        #[verifier::loop_isolation(false)]
        while idx <= last_start
            invariant
                offset <= idx,
                idx <= last_start + 1,
                pat_len == pattern@.len(),
                win_len == window@.len(),
                0 < pat_len <= win_len,
                last_start == win_len - pat_len,
                forall|j: int| offset <= j < idx ==> !is_match_at(window@, pattern@, j),
            decreases last_start + 1 - idx,
        {
            if matches_at(window, pattern, idx) {
                return Some(idx);
            }
            idx = idx + 1;
        }
        None
    }

    /// Returns the lowest offset within the linearized window at which
    /// `pattern` occurs, including a match ending exactly at the window's
    /// final byte, or `None` when the pattern is empty, longer than the
    /// window, or absent.
    pub fn first_occurence(&mut self, pattern: &[u8]) -> (r: Option<usize>)
        requires
            old(self).wf(),
        ensures
            final(self).wf(),
            final(self).spec_capacity() == old(self).spec_capacity(),
            final(self)@ == old(self)@,
            match r {
                Some(o) => {
                    &&& pattern@.len() > 0
                    &&& is_match_at(old(self)@, pattern@, o as int)
                    &&& forall|j: int| 0 <= j < o ==> !is_match_at(old(self)@, pattern@, j)
                },
                None => pattern@.len() == 0 || forall|j: int|
                    !is_match_at(old(self)@, pattern@, j),
            },
    {
        self.occurence(pattern, 0)
    }

    /// Returns the lowest offset strictly greater than the first
    /// occurrence's offset at which `pattern` occurs again, or `None` when
    /// fewer than two occurrences exist.
    pub fn second_occurence(&mut self, pattern: &[u8]) -> (r: Option<usize>)
        requires
            old(self).wf(),
        ensures
            final(self).wf(),
            final(self).spec_capacity() == old(self).spec_capacity(),
            final(self)@ == old(self)@,
            match r {
                Some(o2) => {
                    &&& pattern@.len() > 0
                    &&& is_match_at(old(self)@, pattern@, o2 as int)
                    &&& exists|o1: int|
                        {
                            &&& 0 <= o1 < o2
                            &&& is_match_at(old(self)@, pattern@, o1)
                            &&& (forall|j: int|
                                0 <= j < o1 ==> !is_match_at(old(self)@, pattern@, j))
                            &&& (forall|j: int|
                                o1 < j < o2 ==> !is_match_at(old(self)@, pattern@, j))
                        }
                },
                None => {
                    ||| pattern@.len() == 0
                    ||| forall|j: int| !is_match_at(old(self)@, pattern@, j)
                    ||| exists|o1: int|
                        {
                            &&& is_match_at(old(self)@, pattern@, o1)
                            &&& (forall|j: int|
                                0 <= j < o1 ==> !is_match_at(old(self)@, pattern@, j))
                            &&& (forall|j: int|
                                j > o1 ==> !is_match_at(old(self)@, pattern@, j))
                        }
                },
            },
    {
        match self.occurence(pattern, 0) {
            Some(o) => self.occurence(pattern, o + 1),
            None => None,
        }
    }
}

/// Compares `pattern` against the bytes of `hay` starting at `at`.
fn matches_at(hay: &[u8], pattern: &[u8], at: usize) -> (r: bool)
    requires
        at + pattern@.len() <= hay@.len(),
    ensures
        r == is_match_at(hay@, pattern@, at as int),
{
    let pat_len = pattern.len();
    let hay_len = hay.len();
    let mut k: usize = 0;
    while k < pat_len
        invariant
            k <= pat_len,
            pat_len == pattern@.len(),
            hay_len == hay@.len(),
            at + pat_len <= hay_len,
            forall|t: int| 0 <= t < k ==> hay@[at + t] == pattern@[t],
        decreases pat_len - k,
    {
        if hay[at + k] != pattern[k] {
            proof {
                assert(hay@.subrange(at as int, at + pattern@.len())[k as int] == hay@[at + k]);
            }
            return false;
        }
        k = k + 1;
    }
    proof {
        assert(hay@.subrange(at as int, at + pattern@.len()) =~= pattern@);
    }
    true
}

impl View for U8RingBuffer {
    type V = Seq<u8>;

    /// The valid window, oldest byte first.
    closed spec fn view(&self) -> Seq<u8> {
        Seq::new(
            self.len as nat,
            |i: int| self.ring@[wrap_index(self.oldest(), i, self.spec_capacity())],
        )
    }
}

/// The concatenation of a sequence of byte sequences, in order.
pub open spec fn concat_all(pieces: Seq<Seq<u8>>) -> Seq<u8>
    decreases pieces.len(),
{
    if pieces.len() == 0 {
        Seq::empty()
    } else {
        concat_all(pieces.drop_last()) + pieces.last()
    }
}

/// The window after pushing each element of `pieces`, in order, into a ring
/// of capacity `cap` whose window is initially `window`.
pub open spec fn pushed_all(window: Seq<u8>, pieces: Seq<Seq<u8>>, cap: int) -> Seq<u8>
    decreases pieces.len(),
{
    if pieces.len() == 0 {
        window
    } else {
        pushed(pushed_all(window, pieces.drop_last(), cap), pieces.last(), cap)
    }
}

/// Law: a push whose result still fits within the capacity loses nothing;
/// the new window is the old window followed by the whole input.
pub proof fn lemma_push_fits(window: Seq<u8>, input: Seq<u8>, cap: int)
    requires
        window.len() + input.len() <= cap,
    ensures
        pushed(window, input, cap) == window + input,
{
}

/// Law: any sequence of pushes into an initially empty buffer whose total
/// length is at most the capacity yields exactly the concatenation of
/// everything pushed, in order.
pub proof fn lemma_pushes_fit(pieces: Seq<Seq<u8>>, cap: int)
    requires
        concat_all(pieces).len() <= cap,
    ensures
        pushed_all(Seq::empty(), pieces, cap) == concat_all(pieces),
    decreases pieces.len(),
{
    if pieces.len() > 0 {
        lemma_pushes_fit(pieces.drop_last(), cap);
    }
}

/// Law: a single push at least as long as the capacity leaves exactly the
/// last `cap` bytes of that input as the window.
pub proof fn lemma_push_long_input(window: Seq<u8>, input: Seq<u8>, cap: int)
    requires
        0 <= cap,
        input.len() >= cap,
    ensures
        pushed(window, input, cap) == input.subrange(input.len() - cap, input.len() as int),
{
    assert(pushed(window, input, cap) =~= input.subrange(
        input.len() - cap,
        input.len() as int,
    ));
}

/// Law: pushing `k` bytes (`k <= cap`) into a full window slides it: the
/// oldest `k` bytes drop off, the input is appended, and the length stays
/// at the capacity.
pub proof fn lemma_push_full_slides(window: Seq<u8>, input: Seq<u8>, cap: int)
    requires
        window.len() == cap,
        input.len() <= cap,
    ensures
        pushed(window, input, cap) == window.subrange(input.len() as int, cap as int) + input,
        pushed(window, input, cap).len() == cap,
{
    assert(pushed(window, input, cap) =~= window.subrange(input.len() as int, cap as int)
        + input);
}

/// Law: clearing leaves the same (empty) window that a fresh buffer starts
/// with, so the same push then yields the same window in both.
pub proof fn lemma_cleared_matches_fresh(cleared: Seq<u8>, fresh: Seq<u8>, input: Seq<u8>, cap: int)
    requires
        cleared == Seq::<u8>::empty(),
        fresh == Seq::<u8>::empty(),
    ensures
        pushed(cleared, input, cap) == pushed(fresh, input, cap),
{
}

} // verus!
