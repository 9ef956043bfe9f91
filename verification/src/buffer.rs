//! A fixed-capacity circular byte buffer with independent read and write
//! cursors and a live count of buffered-but-unread bytes. Incoming bytes are
//! appended at the write cursor; the read cursor consumes them in arrival
//! order and can scan forward for one delimiter-terminated frame.

use vstd::prelude::*;

use crate::index_counter::IndexCounter;

verus! {

/// The slot `k` steps past slot `i` in a ring of `cap` slots, for
/// `0 <= i < cap` and `0 <= k <= cap`.
pub open spec fn wrap_add(i: int, k: int, cap: int) -> int {
    if i + k < cap {
        i + k
    } else {
        i + k - cap
    }
}

/// Holds when the first `n` buffered bytes form exactly one frame: the
/// `n`-th byte is the zero delimiter and no earlier byte is zero.
pub open spec fn frame_ready(c: Seq<u8>, n: int) -> bool {
    &&& 1 <= n <= c.len()
    &&& c[n - 1] == 0
    &&& forall|k: int| 0 <= k < n - 1 ==> c[k] != 0
}

/// How many bytes a scan bounded by `budget` consumes from the front of
/// `c`: it stops just after the first zero byte, or after `budget` bytes
/// when no zero appears among them.
pub open spec fn scan_len(c: Seq<u8>, budget: int) -> int
    decreases budget,
{
    if budget <= 0 {
        0
    } else if c[0] == 0 {
        1
    } else {
        1 + scan_len(c.skip(1), budget - 1)
    }
}

/// The bytes that `k` successive reads return from a buffer whose unread
/// contents are `c`: each read hands back the head of what is left, so the
/// `k`-th byte collected is the head of `c` with `k - 1` bytes dropped.
pub open spec fn drained(c: Seq<u8>, k: int) -> Seq<u8>
    decreases k,
{
    if k <= 0 {
        Seq::empty()
    } else {
        drained(c, k - 1).push(c.skip(k - 1).first())
    }
}

proof fn lemma_drained_is_prefix(c: Seq<u8>, k: int)
    requires
        0 <= k <= c.len(),
    ensures
        drained(c, k) == c.take(k),
    decreases k,
{
    if k == 0 {
        assert(drained(c, 0) =~= c.take(0));
    } else {
        lemma_drained_is_prefix(c, k - 1);
        assert(c.skip(k - 1).first() == c[k - 1]);
        assert(drained(c, k) =~= c.take(k));
    }
}

/// Round-trip law: a buffer that holds exactly the bytes written into it
/// counts them all as buffered, and successive reads hand the whole
/// sequence back in its original order.
pub proof fn lemma_write_read_round_trip(b: CircleBuffer, data: Seq<u8>)
    requires
        b.wf(),
        b.contents() == data,
    ensures
        b.buffered_values == data.len(),
        drained(b.contents(), data.len() as int) == data,
{
    lemma_drained_is_prefix(data, data.len() as int);
    assert(data.take(data.len() as int) =~= data);
}

/// A ring buffer of bytes. The write cursor always sits `buffered_values`
/// slots past the read cursor, so writes land just after the unread bytes
/// and reads consume them in arrival order.
pub struct CircleBuffer {
    pub read_index: IndexCounter,
    pub write_index: IndexCounter,
    pub buffered_values: usize,
    pub buffer: Vec<u8>,
}

impl CircleBuffer {
    /// The number of slots in the backing storage.
    pub open spec fn capacity(self) -> int {
        self.buffer@.len() as int
    }

    /// Structural invariant: both cursors index the storage, the unread
    /// count never exceeds the capacity, and the write cursor sits exactly
    /// `buffered_values` slots past the read cursor.
    pub open spec fn wf(self) -> bool {
        &&& self.capacity() > 0
        &&& self.read_index.max_size == self.capacity()
        &&& self.write_index.max_size == self.capacity()
        &&& self.read_index.wf()
        &&& self.write_index.wf()
        &&& self.buffered_values <= self.capacity()
        &&& self.write_index.index == wrap_add(
            self.read_index.index as int,
            self.buffered_values as int,
            self.capacity(),
        )
    }

    /// The buffered-but-unread bytes, oldest first.
    pub open spec fn contents(self) -> Seq<u8> {
        Seq::new(
            self.buffered_values as nat,
            |k: int| self.buffer@[wrap_add(self.read_index.index as int, k, self.capacity())],
        )
    }

    /// Creates an empty buffer with `capacity` zeroed slots and both
    /// cursors at zero.
    pub fn new(capacity: usize) -> (cb: CircleBuffer)
        requires
            capacity > 0,
        ensures
            cb.wf(),
            cb.capacity() == capacity,
            cb.contents() == Seq::<u8>::empty(),
            cb.read_index.index == 0,
            cb.write_index.index == 0,
            cb.buffered_values == 0,
    {
        let cb = CircleBuffer {
            read_index: IndexCounter { index: 0, max_size: capacity },
            write_index: IndexCounter { index: 0, max_size: capacity },
            buffered_values: 0,
            buffer: vec![0u8; capacity],
        };
        proof {
            assert(cb.contents() =~= Seq::<u8>::empty());
        }
        cb
    }

    /// Appends `data` after the bytes already buffered and returns the
    /// resulting write-cursor position. The caller must leave enough free
    /// capacity: a larger write would clobber unread bytes, so it is
    /// excluded by contract rather than performed silently.
    pub fn write(&mut self, data: &[u8]) -> (r: usize)
        requires
            old(self).wf(),
            old(self).buffered_values + data@.len() <= old(self).capacity(),
        ensures
            final(self).wf(),
            final(self).capacity() == old(self).capacity(),
            final(self).read_index == old(self).read_index,
            final(self).buffered_values == old(self).buffered_values + data@.len(),
            final(self).contents() == old(self).contents() + data@,
            r == final(self).write_index.index,
    {
        let ghost orig = *old(self);
        let mut k: usize = 0;
        while k < data.len()
            invariant
                orig.wf(),
                orig.buffered_values + data@.len() <= orig.capacity(),
                k <= data@.len(),
                self.capacity() == orig.capacity(),
                self.read_index == orig.read_index,
                self.write_index.max_size == orig.write_index.max_size,
                self.buffered_values == orig.buffered_values + k,
                self.wf(),
                self.contents() == orig.contents() + data@.take(k as int),
            decreases data@.len() - k,
        {
            let ghost pre = *self;
            let idx = self.write_index.index;
            self.buffer[idx] = data[k];
            self.write_index.increment();
            self.buffered_values = self.buffered_values + 1;
            proof {
                let cap = pre.capacity();
                let ri = pre.read_index.index as int;
                let cnt = pre.buffered_values as int;
                assert forall|j: int| 0 <= j < cnt implies self.contents()[j]
                    == pre.contents()[j] by {
                    assert(wrap_add(ri, j, cap) != pre.write_index.index);
                }
                assert(wrap_add(ri, cnt, cap) == pre.write_index.index);
                assert(self.contents()[cnt] == data@[k as int]);
                let rhs = orig.contents() + data@.take(k + 1);
                assert forall|j: int| 0 <= j < cnt + 1 implies self.contents()[j] == rhs[j] by {
                    if j < cnt {
                        assert(pre.contents()[j] == (orig.contents() + data@.take(k as int))[j]);
                        if j >= orig.buffered_values {
                            assert(data@.take(k as int)[j - orig.buffered_values] == data@[j
                                - orig.buffered_values]);
                            assert(data@.take(k + 1)[j - orig.buffered_values] == data@[j
                                - orig.buffered_values]);
                        }
                    } else {
                        assert(data@.take(k + 1)[k as int] == data@[k as int]);
                    }
                }
                assert(self.contents() =~= rhs);
            }
            k = k + 1;
        }
        proof {
            assert(data@.take(data@.len() as int) =~= data@);
        }
        self.write_index.index
    }

    /// Consumes and returns the oldest buffered byte, zeroing its slot.
    /// The caller must guard against an empty buffer.
    pub fn read(&mut self) -> (r: u8)
        requires
            old(self).wf(),
            old(self).buffered_values > 0,
        ensures
            final(self).wf(),
            final(self).capacity() == old(self).capacity(),
            final(self).write_index == old(self).write_index,
            final(self).buffered_values == old(self).buffered_values - 1,
            r == old(self).contents()[0],
            final(self).contents() == old(self).contents().skip(1),
    {
        let ghost pre = *old(self);
        let idx = self.read_index.index;
        let val = self.buffer[idx];
        self.buffer[idx] = 0;
        self.read_index.increment();
        self.buffered_values = self.buffered_values - 1;
        proof {
            assert(self.contents() =~= pre.contents().skip(1)) by {
                assert forall|j: int| 0 <= j < self.buffered_values implies self.contents()[j]
                    == pre.contents()[j + 1] by {
                    assert(wrap_add(self.read_index.index as int, j, pre.capacity()) == wrap_add(
                        pre.read_index.index as int,
                        j + 1,
                        pre.capacity(),
                    ));
                    assert(wrap_add(pre.read_index.index as int, j + 1, pre.capacity())
                        != pre.read_index.index);
                }
            }
        }
        val
    }

    /// Scans forward for one delimiter-terminated frame of exactly
    /// `frame_length` bytes. Returns `None` without consuming anything when
    /// fewer than `frame_length` bytes are buffered; otherwise consumes
    /// bytes up to and including the first zero, or `frame_length` bytes
    /// when no zero appears among them, and returns the frame only when the
    /// zero fell exactly on the `frame_length`-th byte. Bytes consumed by a
    /// failed scan are discarded, not restored.
    pub fn read_cobs_frame(&mut self, frame_length: usize) -> (r: Option<Vec<u8>>)
        requires
            old(self).wf(),
        ensures
            final(self).wf(),
            final(self).capacity() == old(self).capacity(),
            old(self).buffered_values < frame_length ==> {
                &&& r is None
                &&& *final(self) == *old(self)
            },
            old(self).buffered_values >= frame_length ==> {
                let c = old(self).contents();
                let m = scan_len(c, frame_length as int);
                &&& final(self).contents() == c.skip(m)
                &&& final(self).buffered_values == old(self).buffered_values - m
                &&& (frame_ready(c, frame_length as int) ==> (r matches Some(f) && f@ == c.take(
                    frame_length as int,
                )))
                &&& (!frame_ready(c, frame_length as int) ==> r is None)
            },
    {
        if self.buffered_values < frame_length {
            return None;
        }
        let ghost c = self.contents();
        let ghost orig = *old(self);
        if frame_length == 0 {
            return None;
        }
        let mut frame: Vec<u8> = Vec::new();
        let mut done = false;
        let mut i: usize = 0;
        proof {
            assert(c.skip(0) =~= c);
            assert(c.take(0) =~= Seq::<u8>::empty());
        }
        while !done && i < frame_length
            invariant
                orig.wf(),
                self.wf(),
                self.capacity() == orig.capacity(),
                c == orig.contents(),
                0 < frame_length <= orig.buffered_values,
                i <= frame_length,
                frame@.len() == i,
                frame@ == c.take(i as int),
                self.contents() == c.skip(i as int),
                self.buffered_values == orig.buffered_values - i,
                done ==> i >= 1 && c[i - 1] == 0,
                forall|k: int| 0 <= k < i - 1 ==> c[k] != 0,
                !done && i >= 1 ==> c[i - 1] != 0,
                scan_len(c, frame_length as int) == if done {
                    i as int
                } else {
                    i + scan_len(c.skip(i as int), frame_length - i)
                },
            decreases frame_length - i, (if done { 0int } else { 1int }),
        {
            let ghost pre_contents = self.contents();
            let byte = self.read();
            frame.push(byte);
            proof {
                assert(byte == c[i as int]);
                assert(frame@ =~= c.take(i + 1));
                assert(self.contents() =~= c.skip(i + 1)) by {
                    assert(pre_contents.skip(1) =~= c.skip(i + 1));
                }
                assert(c.skip(i as int)[0] == c[i as int]);
                if byte == 0 {
                    assert(scan_len(c.skip(i as int), frame_length - i) == 1);
                }
                if byte != 0 {
                    assert(c.skip(i as int).skip(1) =~= c.skip(i + 1));
                    assert(scan_len(c.skip(i as int), frame_length - i) == 1 + scan_len(
                        c.skip(i + 1),
                        frame_length - (i + 1),
                    ));
                }
            }
            i = i + 1;
            if byte == 0 {
                done = true;
            }
        }
        if done && i == frame_length {
            proof {
                assert(frame_ready(c, frame_length as int));
                assert(frame@ == c.take(frame_length as int));
            }
            Some(frame)
        } else {
            proof {
                if done {
                    assert(c[i - 1] == 0 && i < frame_length);
                    assert(!frame_ready(c, frame_length as int));
                } else {
                    assert(i == frame_length);
                    assert(c[frame_length - 1] != 0);
                    assert(!frame_ready(c, frame_length as int));
                    assert(scan_len(c.skip(frame_length as int), 0) == 0);
                }
            }
            None
        }
    }
}

} // verus!
