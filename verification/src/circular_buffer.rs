use vstd::prelude::*;

verus! {

/// Where an access of `n` bytes at `offset` lands in a ring of `cap` bytes:
/// the start position, the length of the part up to the end of the ring, and
/// the length of the part that wraps around to the start.
pub open spec fn ring_start(cap: int, offset: int) -> int {
    offset % cap
}

pub open spec fn ring_tail_len(cap: int, offset: int, n: int) -> int {
    let o = ring_start(cap, offset);
    if n < cap - o {
        n
    } else {
        cap - o
    }
}

pub open spec fn ring_head_len(cap: int, offset: int, n: int) -> int {
    n - ring_tail_len(cap, offset, n)
}

/// An access of `n` bytes at `offset` is well defined on a ring of `cap` bytes
/// when the ring is not empty and the wrapped part fits in the ring.
pub open spec fn ring_access_ok(cap: int, offset: int, n: int) -> bool {
    &&& cap > 0
    &&& 0 <= n
    &&& ring_head_len(cap, offset, n) <= cap
}

/// The conditions under which an object of `size` bytes at `offset` can be
/// reached directly: at most 8 bytes, at an 8-byte aligned offset, and lying
/// inside the ring without wrapping around.
pub open spec fn raw_access_ok(cap: int, offset: int, size: int) -> bool {
    &&& cap > 0
    &&& 0 <= size <= 8
    &&& offset % 8 == 0
    &&& ring_start(cap, offset) + size <= cap
}

/// The `n` bytes read from `buf` at `offset`: the bytes from the start position
/// to the end of the ring, then the bytes from the start of the ring.
pub open spec fn ring_read(buf: Seq<u8>, offset: int, n: int) -> Seq<u8> {
    let cap = buf.len() as int;
    let o = ring_start(cap, offset);
    let e = ring_tail_len(cap, offset, n);
    buf.subrange(o, o + e) + buf.subrange(0, n - e)
}

/// `buf` after writing `src` at `offset`: first the part up to the end of the
/// ring, then the rest at the start of the ring.
pub open spec fn ring_write(buf: Seq<u8>, offset: int, src: Seq<u8>) -> Seq<u8> {
    let cap = buf.len() as int;
    let n = src.len() as int;
    let o = ring_start(cap, offset);
    let e = ring_tail_len(cap, offset, n);
    let s = n - e;
    let first = buf.subrange(0, o) + src.subrange(0, e) + buf.subrange(o + e, cap);
    src.subrange(e, n) + first.subrange(s, cap)
}

/// `n` zero bytes.
pub open spec fn zeros(n: nat) -> Seq<u8> {
    Seq::new(n, |i: int| 0u8)
}

/// `buf` after zeroing `size` bytes at `offset`.
pub open spec fn ring_clear(buf: Seq<u8>, offset: int, size: int) -> Seq<u8> {
    ring_write(buf, offset, zeros(size as nat))
}

/// How far position `k` of a ring of `cap` bytes lies past the start position
/// of `offset`, counting around the ring.
pub open spec fn ring_distance(cap: int, offset: int, k: int) -> int {
    let o = ring_start(cap, offset);
    if k >= o {
        k - o
    } else {
        k - o + cap
    }
}

/// A read of at most a full ring gives as many bytes as were asked for.
pub proof fn lemma_ring_read_len(buf: Seq<u8>, offset: int, n: int)
    requires
        ring_access_ok(buf.len() as int, offset, n),
        n <= buf.len(),
    ensures
        ring_read(buf, offset, n).len() == n,
{
}

/// A write keeps the length of the ring.
pub proof fn lemma_ring_write_len(buf: Seq<u8>, offset: int, src: Seq<u8>)
    requires
        ring_access_ok(buf.len() as int, offset, src.len() as int),
    ensures
        ring_write(buf, offset, src).len() == buf.len(),
{
}

/// Each byte read is the byte at the matching position around the ring.
pub proof fn lemma_ring_read_index(buf: Seq<u8>, offset: int, n: int, i: int)
    requires
        ring_access_ok(buf.len() as int, offset, n),
        n <= buf.len(),
        0 <= i < n,
    ensures
        ring_read(buf, offset, n).len() == n,
        ring_distance(buf.len() as int, offset, ring_position(buf.len() as int, offset, i)) == i,
        0 <= ring_position(buf.len() as int, offset, i) < buf.len(),
        ring_read(buf, offset, n)[i] == buf[ring_position(buf.len() as int, offset, i)],
{
}

/// The position of the `i`-th byte of an access at `offset`.
pub open spec fn ring_position(cap: int, offset: int, i: int) -> int {
    let o = ring_start(cap, offset);
    if o + i < cap {
        o + i
    } else {
        o + i - cap
    }
}

/// A write of at most a full ring puts the `i`-th written byte at distance `i`
/// from the start position and leaves every other byte as it was.
pub proof fn lemma_ring_write_index(buf: Seq<u8>, offset: int, src: Seq<u8>, k: int)
    requires
        ring_access_ok(buf.len() as int, offset, src.len() as int),
        src.len() <= buf.len(),
        0 <= k < buf.len(),
    ensures
        ring_write(buf, offset, src).len() == buf.len(),
        ring_distance(buf.len() as int, offset, k) < src.len() ==> ring_write(buf, offset, src)[k]
            == src[ring_distance(buf.len() as int, offset, k)],
        ring_distance(buf.len() as int, offset, k) >= src.len() ==> ring_write(buf, offset, src)[k]
            == buf[k],
{
}

/// Moving `d` bytes on from the start position of `offset`, without passing
/// the end of the ring, gives the start position of `offset + d` (0 at the end).
pub proof fn lemma_ring_start_advance(cap: int, offset: int, d: int)
    requires
        cap > 0,
        0 <= d,
        ring_start(cap, offset) + d <= cap,
    ensures
        ring_start(cap, offset + d) == if ring_start(cap, offset) + d < cap {
            ring_start(cap, offset) + d
        } else {
            0
        },
{
    let o = ring_start(cap, offset);
    let q = offset / cap;
    vstd::arithmetic::div_mod::lemma_fundamental_div_mod(offset, cap);
    vstd::arithmetic::mul::lemma_mul_is_commutative(cap, q);
    if o + d < cap {
        vstd::arithmetic::div_mod::lemma_fundamental_div_mod_converse(offset + d, cap, q, o + d);
    } else {
        vstd::arithmetic::mul::lemma_mul_is_distributive_add_other_way(cap, q, 1);
        vstd::arithmetic::div_mod::lemma_fundamental_div_mod_converse(offset + d, cap, q + 1, 0);
    }
}

/// Offsets that differ by the capacity address the same bytes: reads, writes
/// and clears at `offset + cap` are those at `offset`.
pub proof fn lemma_offset_wraps_at_capacity(buf: Seq<u8>, offset: int, src: Seq<u8>, n: int)
    requires
        buf.len() > 0,
    ensures
        ring_read(buf, offset + buf.len(), n) == ring_read(buf, offset, n),
        ring_write(buf, offset + buf.len(), src) == ring_write(buf, offset, src),
        ring_clear(buf, offset + buf.len(), n) == ring_clear(buf, offset, n),
{
    vstd::arithmetic::div_mod::lemma_mod_add_multiples_vanish(offset, buf.len() as int);
    assert(offset + buf.len() == buf.len() + offset);
}

/// Reading back what was just written at the same offset gives the written
/// bytes, for any write of at most the ring's capacity.
pub proof fn lemma_read_after_write(buf: Seq<u8>, offset: int, src: Seq<u8>)
    requires
        buf.len() > 0,
        src.len() <= buf.len(),
    ensures
        ring_access_ok(buf.len() as int, offset, src.len() as int),
        ring_write(buf, offset, src).len() == buf.len(),
        ring_read(ring_write(buf, offset, src), offset, src.len() as int) == src,
{
    let w = ring_write(buf, offset, src);
    let n = src.len() as int;
    assert forall|i: int| 0 <= i < n implies #[trigger] ring_read(w, offset, n)[i] == src[i] by {
        lemma_ring_read_index(w, offset, n, i);
        lemma_ring_write_index(buf, offset, src, ring_position(buf.len() as int, offset, i));
    }
    assert(ring_read(w, offset, n) =~= src);
}

/// Reading back a region that was just cleared gives zero bytes.
pub proof fn lemma_read_after_clear(buf: Seq<u8>, offset: int, size: int)
    requires
        buf.len() > 0,
        0 <= size <= buf.len(),
    ensures
        ring_access_ok(buf.len() as int, offset, size),
        ring_read(ring_clear(buf, offset, size), offset, size) == zeros(size as nat),
{
    lemma_read_after_write(buf, offset, zeros(size as nat));
}

/// A view of a byte slice as a ring: positions past the end continue at the start.
pub struct CircularBuffer<'a> {
    buffer: &'a mut [u8],
}

impl<'a> CircularBuffer<'a> {
    /// The bytes of the ring, from position 0.
    pub closed spec fn view(&self) -> Seq<u8> {
        self.buffer@
    }

    pub open spec fn spec_capacity(&self) -> nat {
        self.view().len()
    }

    pub fn new(buffer: &'a mut [u8]) -> (r: Self)
        ensures
            r.view() == old(buffer)@,
    {
        Self { buffer }
    }

    pub fn capacity(&self) -> (r: usize)
        ensures
            r == self.view().len(),
    {
        self.buffer.len()
    }

    /// Fills `result_buffer` with the bytes of the ring from `offset` on,
    /// wrapping around at the end.
    pub fn read_raw(&self, offset: usize, result_buffer: &mut [u8])
        requires
            ring_access_ok(self.view().len() as int, offset as int, old(result_buffer)@.len() as int),
        ensures
            final(result_buffer)@ == ring_read(self.view(), offset as int, old(result_buffer)@.len() as int),
    {
        let cap = self.buffer.len();
        let n = result_buffer.len();
        let o = offset % cap;
        let end_read_length = if n < cap - o {
            n
        } else {
            cap - o
        };
        let start_read_length = n - end_read_length;
        let ghost buf = self.view();
        let ghost old_result = result_buffer@;

        let mut i: usize = 0;
        while i < end_read_length
            invariant
                buf == self.view(),
                cap == buf.len(),
                n == result_buffer@.len(),
                o + end_read_length <= cap,
                end_read_length <= n,
                0 <= i <= end_read_length,
                forall|k: int| 0 <= k < i ==> result_buffer@[k] == buf[o + k],
                old_result.len() == n,
                forall|k: int| i <= k < n ==> result_buffer@[k] == old_result[k],
            decreases end_read_length - i,
        {
            result_buffer[i] = self.buffer[o + i];
            i = i + 1;
        }
        if start_read_length > 0 {
            let mut j: usize = 0;
            while j < start_read_length
                invariant
                    buf == self.view(),
                    cap == buf.len(),
                    n == result_buffer@.len(),
                    o + end_read_length <= cap,
                    end_read_length + start_read_length == n,
                    start_read_length <= cap,
                    0 <= j <= start_read_length,
                    forall|k: int| 0 <= k < end_read_length ==> result_buffer@[k] == buf[o + k],
                    forall|k: int| 0 <= k < j ==> result_buffer@[end_read_length + k] == buf[k],
                decreases start_read_length - j,
            {
                result_buffer[end_read_length + j] = self.buffer[j];
                j = j + 1;
            }
        }
        assert(result_buffer@ =~= ring_read(buf, offset as int, n as int));
    }

    /// Writes `src_buffer` into the ring from `o` on, wrapping around at
    /// the end.
    pub fn write_raw(&mut self, offset: usize, src_buffer: &[u8])
        requires
            ring_access_ok(old(self).view().len() as int, offset as int, src_buffer@.len() as int),
        ensures
            final(self).view() == ring_write(old(self).view(), offset as int, src_buffer@),
            final(self).view().len() == old(self).view().len(),
    {
        let ghost buf = self.view();
        let ghost src = src_buffer@;
        let cap = self.buffer.len();
        let n = src_buffer.len();
        let o = offset % cap;
        let end_write_length = if n < cap - o {
            n
        } else {
            cap - o
        };
        let start_write_length = n - end_write_length;

        let mut i: usize = 0;
        while i < end_write_length
            invariant
                cap == self.view().len(),
                cap == buf.len(),
                n == src.len(),
                src == src_buffer@,
                o + end_write_length <= cap,
                end_write_length <= n,
                0 <= i <= end_write_length,
                forall|k: int| 0 <= k < o ==> self.view()[k] == buf[k],
                forall|k: int| 0 <= k < i ==> self.view()[o + k] == src[k],
                forall|k: int| o + i <= k < cap ==> self.view()[k] == buf[k],
            decreases end_write_length - i,
        {
            self.buffer[o + i] = src_buffer[i];
            i = i + 1;
        }
        let ghost first = self.view();
        assert(first =~= buf.subrange(0, o as int) + src.subrange(0, end_write_length as int)
            + buf.subrange(o + end_write_length, cap as int));
        if start_write_length > 0 {
            let mut j: usize = 0;
            while j < start_write_length
                invariant
                    cap == self.view().len(),
                    cap == first.len(),
                    n == src.len(),
                    src == src_buffer@,
                    end_write_length + start_write_length == n,
                    start_write_length <= cap,
                    0 <= j <= start_write_length,
                    forall|k: int| 0 <= k < j ==> self.view()[k] == src[end_write_length + k],
                    forall|k: int| j <= k < cap ==> self.view()[k] == first[k],
                decreases start_write_length - j,
            {
                self.buffer[j] = src_buffer[end_write_length + j];
                j = j + 1;
            }
        }
        assert(self.view() =~= ring_write(buf, offset as int, src));
    }

    /// Sets `size` bytes of the ring to zero from `o` on, wrapping around
    /// at the end.
    pub fn clear(&mut self, offset: usize, size: usize)
        requires
            ring_access_ok(old(self).view().len() as int, offset as int, size as int),
        ensures
            final(self).view() == ring_clear(old(self).view(), offset as int, size as int),
            final(self).view().len() == old(self).view().len(),
    {
        let ghost buf = self.view();
        let ghost src = zeros(size as nat);
        let cap = self.buffer.len();
        let o = offset % cap;
        let end_write_length = if size < cap - o {
            size
        } else {
            cap - o
        };
        let start_write_length = size - end_write_length;

        let mut i: usize = 0;
        while i < end_write_length
            invariant
                cap == self.view().len(),
                cap == buf.len(),
                o + end_write_length <= cap,
                end_write_length <= size,
                0 <= i <= end_write_length,
                forall|k: int| 0 <= k < o ==> self.view()[k] == buf[k],
                forall|k: int| o <= k < o + i ==> self.view()[k] == 0u8,
                forall|k: int| o + i <= k < cap ==> self.view()[k] == buf[k],
            decreases end_write_length - i,
        {
            self.buffer[o + i] = 0;
            i = i + 1;
        }
        let ghost first = self.view();
        assert(first =~= buf.subrange(0, o as int) + src.subrange(0, end_write_length as int)
            + buf.subrange(o + end_write_length, cap as int));
        if start_write_length > 0 {
            let mut j: usize = 0;
            while j < start_write_length
                invariant
                    cap == self.view().len(),
                    cap == first.len(),
                    end_write_length + start_write_length == size,
                    start_write_length <= cap,
                    0 <= j <= start_write_length,
                    forall|k: int| 0 <= k < j ==> self.view()[k] == 0u8,
                    forall|k: int| j <= k < cap ==> self.view()[k] == first[k],
                decreases start_write_length - j,
            {
                self.buffer[j] = 0;
                j = j + 1;
            }
        }
        assert(self.view() =~= ring_write(buf, offset as int, src));
    }

    /// The `size` bytes of an object stored at `offset`. Objects of at most
    /// 8 bytes at 8-byte aligned offsets that do not wrap around the end of
    /// the ring can be reached this way.
    pub fn raw_bytes(&self, offset: usize, size: usize) -> (r: &[u8])
        requires
            raw_access_ok(self.view().len() as int, offset as int, size as int),
        ensures
            r@ == self.view().subrange(
                ring_start(self.view().len() as int, offset as int),
                ring_start(self.view().len() as int, offset as int) + size,
            ),
    {
        let o = offset % self.buffer.len();
        vstd::slice::slice_subrange(self.buffer, o, o + size)
    }

    /// Mutable access to the `size` bytes of an object stored at `offset`,
    /// under the same conditions as `raw_bytes`.
    pub fn raw_bytes_mut(&mut self, offset: usize, size: usize) -> (r: &mut [u8])
        requires
            raw_access_ok(old(self).view().len() as int, offset as int, size as int),
        ensures
            ({
                let cap = old(self).view().len() as int;
                let o = ring_start(cap, offset as int);
                &&& r@ == old(self).view().subrange(o, o + size)
                &&& final(self).view() == old(self).view().subrange(0, o) + final(r)@
                    + old(self).view().subrange(o + size, cap)
            }),
    {
        let o = offset % self.buffer.len();
        let (_, rest) = self.buffer.split_at_mut(o);
        let (object, _) = rest.split_at_mut(size);
        object
    }
}

} // verus!
