//! The incremental frame buffer: an owned, growable byte region with a read
//! cursor, filled by the transport in arbitrary fragments.

use vstd::prelude::*;

verus! {

/// The ASCII code of carriage return, the first delimiter byte.
pub const CR: u8 = 13;

/// The ASCII code of line feed, the second delimiter byte.
pub const LF: u8 = 10;

/// The position of the first CR LF pair at or after `i`, if any lies wholly
/// within `s`.
pub open spec fn find_crlf(s: Seq<u8>, i: int) -> Option<int>
    decreases s.len() - i,
{
    if i < 0 || i + 2 > s.len() {
        None
    } else if s[i] == CR && s[i + 1] == LF {
        Some(i)
    } else {
        find_crlf(s, i + 1)
    }
}

/// What `find_crlf` finds: the first whole delimiter at or after `i`.
pub proof fn lemma_find_crlf(s: Seq<u8>, i: int)
    requires
        0 <= i,
    ensures
        match find_crlf(s, i) {
            Some(p) => i <= p && p + 2 <= s.len() && s[p] == CR && s[p + 1] == LF && (forall|q: int|
                i <= q < p ==> !(#[trigger] s[q] == CR && s[q + 1] == LF)),
            None => forall|q: int|
                i <= q && q + 2 <= s.len() ==> !(#[trigger] s[q] == CR && s[q + 1] == LF),
        },
    decreases s.len() - i,
{
    if !(i + 2 > s.len()) && !(s[i] == CR && s[i + 1] == LF) {
        lemma_find_crlf(s, i + 1);
    }
}

/// The reply accumulator: every byte the transport has delivered for the
/// current request/response cycle, and a cursor below which everything has
/// been consumed.
pub struct Response {
    b: Vec<u8>,
    i: usize,
}

impl Response {
    /// The bytes delivered so far.
    pub closed spec fn data(&self) -> Seq<u8> {
        self.b@
    }

    /// The read cursor.
    pub closed spec fn pos(&self) -> int {
        self.i as int
    }

    /// The cursor never passes the filled region.
    pub open spec fn wf(&self) -> bool {
        0 <= self.pos() <= self.data().len()
    }

    /// The cursor, as a machine integer.
    pub fn cursor(&self) -> (r: usize)
        ensures
            r == self.pos(),
    {
        self.i
    }

    /// How many bytes have been delivered in this cycle.
    pub fn len(&self) -> (r: usize)
        ensures
            r == self.data().len(),
    {
        self.b.len()
    }

    /// An empty buffer.
    pub fn new() -> (r: Response)
        ensures
            r.wf(),
            r.data() == Seq::<u8>::empty(),
            r.pos() == 0,
    {
        Response { b: Vec::new(), i: 0 }
    }

    /// Discards all content and rewinds the cursor; used once per
    /// request/response cycle, never mid-decode.
    pub fn reset(&mut self)
        ensures
            final (self).wf(),
            final (self).data() == Seq::<u8>::empty(),
            final (self).pos() == 0,
    {
        self.b.clear();
        self.i = 0;
    }

    /// Appends newly received transport bytes; the cursor stays put.
    pub fn refill(&mut self, chunk: &[u8])
        requires
            old(self).wf(),
        ensures
            final (self).wf(),
            final (self).data() == old(self).data() + chunk@,
            final (self).pos() == old(self).pos(),
    {
        self.b.extend_from_slice(chunk);
    }

    /// Moves the cursor back to `p`, keeping the content; the decoder uses it
    /// to make a failed attempt retriable.
    pub fn rewind(&mut self, p: usize)
        requires
            p <= old(self).data().len(),
        ensures
            final (self).wf(),
            final (self).data() == old(self).data(),
            final (self).pos() == p,
    {
        self.i = p;
    }

    /// The bytes of `[from, to)` as an owned vector.
    fn copy_range(&self, from: usize, to: usize) -> (r: Vec<u8>)
        requires
            from <= to <= self.data().len(),
        ensures
            r@ == self.data().subrange(from as int, to as int),
    {
        let mut out: Vec<u8> = Vec::new();
        let mut k: usize = from;
        while k < to
            invariant
                from <= k <= to <= self.data().len(),
                out@ =~= self.data().subrange(from as int, k as int),
            decreases to - k,
        {
            out.push(self.b[k]);
            k += 1;
            proof {
                assert(out@ =~= self.data().subrange(from as int, k as int));
            }
        }
        out
    }

    /// Reads the next delimited token: the bytes strictly between the cursor
    /// and the first CR LF pair, advancing the cursor past the delimiter.
    /// Returns `None`, with the cursor kept, while no whole delimiter has
    /// arrived yet.
    pub fn read_next(&mut self) -> (r: Option<Vec<u8>>)
        requires
            old(self).wf(),
        ensures
            final (self).wf(),
            final (self).data() == old(self).data(),
            match find_crlf(old(self).data(), old(self).pos()) {
                Some(p) => r matches Some(line) && line@ == old(self).data().subrange(
                    old(self).pos(),
                    p,
                ) && final (self).pos() == p + 2,
                None => r is None && final (self).pos() == old(self).pos(),
            },
    {
        let n = self.b.len();
        let mut j: usize = self.i;
        while j < n && j + 1 < n
            invariant
                self == old(self),
                self.wf(),
                self.pos() <= j,
                n == self.data().len(),
                find_crlf(self.data(), self.pos()) == find_crlf(self.data(), j as int),
            decreases n - j,
        {
            if self.b[j] == CR && self.b[j + 1] == LF {
                proof {
                    assert(find_crlf(self.data(), j as int) == Some(j as int));
                }
                let line = self.copy_range(self.i, j);
                self.i = j + 2;
                return Some(line);
            }
            j += 1;
        }
        proof {
            assert(find_crlf(self.data(), j as int) is None);
        }
        None
    }

    /// The next `n` bytes after the cursor, if that many have arrived; the
    /// cursor stays put.
    pub fn peek(&self, n: usize) -> (r: Option<Vec<u8>>)
        requires
            self.wf(),
        ensures
            if self.pos() + n <= self.data().len() {
                r matches Some(bytes) && bytes@ == self.data().subrange(
                    self.pos(),
                    self.pos() + n,
                )
            } else {
                r is None
            },
    {
        if n <= self.b.len() - self.i {
            Some(self.copy_range(self.i, self.i + n))
        } else {
            None
        }
    }

    /// The next `n` bytes after the cursor, advancing the cursor by `n`;
    /// `None`, with the cursor kept, while fewer than `n` have arrived.
    pub fn read(&mut self, n: usize) -> (r: Option<Vec<u8>>)
        requires
            old(self).wf(),
        ensures
            final (self).wf(),
            final (self).data() == old(self).data(),
            if old(self).pos() + n <= old(self).data().len() {
                r matches Some(bytes) && bytes@ == old(self).data().subrange(
                    old(self).pos(),
                    old(self).pos() + n,
                ) && final (self).pos() == old(self).pos() + n
            } else {
                r is None && final (self).pos() == old(self).pos()
            },
    {
        let r = self.peek(n);
        if r.is_some() {
            let len = self.b.len();
            proof {
                assert(self.pos() + n <= len);
            }
            self.i = self.i + n;
        }
        r
    }
}

} // verus!
