use vstd::prelude::*;
use vstd::bytes::{
    spec_u32_from_le_bytes, spec_u32_to_le_bytes, spec_u64_from_le_bytes, spec_u64_to_le_bytes,
    u32_from_le_bytes, u32_to_le_bytes, u64_from_le_bytes, u64_to_le_bytes,
    lemma_auto_spec_u32_to_from_le_bytes, lemma_auto_spec_u64_to_from_le_bytes,
};

verus! {

/// The little-endian `u64` stored at byte `at` of `s`.
pub open spec fn u64_field(s: Seq<u8>, at: int) -> u64 {
    spec_u64_from_le_bytes(s.subrange(at, at + 8))
}

/// `s` with the little-endian encoding of `v` stored at byte `at`.
pub open spec fn with_u64_field(s: Seq<u8>, at: int, v: u64) -> Seq<u8> {
    s.subrange(0, at) + spec_u64_to_le_bytes(v) + s.subrange(at + 8, s.len() as int)
}

/// The little-endian `u32` stored at byte `at` of `s`.
pub open spec fn u32_field(s: Seq<u8>, at: int) -> u32 {
    spec_u32_from_le_bytes(s.subrange(at, at + 4))
}

/// `s` with the little-endian encoding of `v` stored at byte `at`.
pub open spec fn with_u32_field(s: Seq<u8>, at: int, v: u32) -> Seq<u8> {
    s.subrange(0, at) + spec_u32_to_le_bytes(v) + s.subrange(at + 4, s.len() as int)
}

/// Storing a `u64` keeps the length, is read back at the same place, and
/// leaves every byte outside its 8 bytes as it was.
pub proof fn lemma_u64_field_store(s: Seq<u8>, at: int, v: u64)
    requires
        0 <= at,
        at + 8 <= s.len(),
    ensures
        with_u64_field(s, at, v).len() == s.len(),
        u64_field(with_u64_field(s, at, v), at) == v,
        forall|k: int| 0 <= k < s.len() && !(at <= k < at + 8)
            ==> #[trigger] with_u64_field(s, at, v)[k] == s[k],
{
    lemma_auto_spec_u64_to_from_le_bytes();
    assert(with_u64_field(s, at, v).subrange(at, at + 8) =~= spec_u64_to_le_bytes(v));
}

/// Storing a `u32` keeps the length, is read back at the same place, and
/// leaves every byte outside its 4 bytes as it was.
pub proof fn lemma_u32_field_store(s: Seq<u8>, at: int, v: u32)
    requires
        0 <= at,
        at + 4 <= s.len(),
    ensures
        with_u32_field(s, at, v).len() == s.len(),
        u32_field(with_u32_field(s, at, v), at) == v,
        forall|k: int| 0 <= k < s.len() && !(at <= k < at + 4)
            ==> #[trigger] with_u32_field(s, at, v)[k] == s[k],
{
    lemma_auto_spec_u32_to_from_le_bytes();
    assert(with_u32_field(s, at, v).subrange(at, at + 4) =~= spec_u32_to_le_bytes(v));
}

/// Storing the value that is already there changes nothing.
pub proof fn lemma_u64_field_store_same(s: Seq<u8>, at: int)
    requires
        0 <= at,
        at + 8 <= s.len(),
    ensures
        with_u64_field(s, at, u64_field(s, at)) == s,
{
    lemma_auto_spec_u64_to_from_le_bytes();
    assert(spec_u64_to_le_bytes(spec_u64_from_le_bytes(s.subrange(at, at + 8))) == s.subrange(at, at + 8));
    assert(with_u64_field(s, at, u64_field(s, at)) =~= s);
}

/// Two sequences that agree on the 8 bytes at `at` hold the same `u64` there.
pub proof fn lemma_u64_field_frame(s: Seq<u8>, t: Seq<u8>, at: int)
    requires
        0 <= at,
        at + 8 <= s.len(),
        at + 8 <= t.len(),
        forall|k: int| at <= k < at + 8 ==> s[k] == t[k],
    ensures
        u64_field(s, at) == u64_field(t, at),
{
    assert(s.subrange(at, at + 8) =~= t.subrange(at, at + 8));
}

/// Two sequences that agree on the 4 bytes at `at` hold the same `u32` there.
pub proof fn lemma_u32_field_frame(s: Seq<u8>, t: Seq<u8>, at: int)
    requires
        0 <= at,
        at + 4 <= s.len(),
        at + 4 <= t.len(),
        forall|k: int| at <= k < at + 4 ==> s[k] == t[k],
    ensures
        u32_field(s, at) == u32_field(t, at),
{
    assert(s.subrange(at, at + 4) =~= t.subrange(at, at + 4));
}

/// Storing a `u64` twice at the same place keeps the second value only.
pub proof fn lemma_u64_field_overwrite(s: Seq<u8>, at: int, a: u64, b: u64)
    requires
        0 <= at,
        at + 8 <= s.len(),
    ensures
        with_u64_field(with_u64_field(s, at, a), at, b) == with_u64_field(s, at, b),
{
    lemma_auto_spec_u64_to_from_le_bytes();
    assert(with_u64_field(with_u64_field(s, at, a), at, b) =~= with_u64_field(s, at, b));
}

/// Storing a `u64` leaves a `u64` stored elsewhere as it was.
pub proof fn lemma_u64_field_other(s: Seq<u8>, at: int, v: u64, other: int)
    requires
        0 <= at,
        at + 8 <= s.len(),
        0 <= other,
        other + 8 <= s.len(),
        at + 8 <= other || other + 8 <= at,
    ensures
        u64_field(with_u64_field(s, at, v), other) == u64_field(s, other),
{
    lemma_u64_field_store(s, at, v);
    lemma_u64_field_frame(with_u64_field(s, at, v), s, other);
}

/// A `u32` read from a window of `s` is the `u32` at the same place in `s`.
pub proof fn lemma_u32_field_window(s: Seq<u8>, start: int, len: int, at: int)
    requires
        0 <= start,
        start + len <= s.len(),
        0 <= at,
        at + 4 <= len,
    ensures
        u32_field(s.subrange(start, start + len), at) == u32_field(s, start + at),
{
    assert(s.subrange(start, start + len).subrange(at, at + 4) =~= s.subrange(start + at, start + at + 4));
}

/// Storing a `u32` into a window of `s` and putting the window back is
/// storing it at the same place in `s`.
pub proof fn lemma_u32_field_store_window(s: Seq<u8>, start: int, len: int, at: int, v: u32)
    requires
        0 <= start,
        start + len <= s.len(),
        0 <= at,
        at + 4 <= len,
    ensures
        s.subrange(0, start) + with_u32_field(s.subrange(start, start + len), at, v) + s.subrange(
            start + len,
            s.len() as int,
        ) == with_u32_field(s, start + at, v),
{
    lemma_auto_spec_u32_to_from_le_bytes();
    let lhs = s.subrange(0, start) + with_u32_field(s.subrange(start, start + len), at, v) + s.subrange(
        start + len,
        s.len() as int,
    );
    let rhs = with_u32_field(s, start + at, v);
    assert(spec_u32_to_le_bytes(v).len() == 4);
    assert forall|k: int| 0 <= k < s.len() implies lhs[k] == rhs[k] by {
        if k < start {
        } else if k < start + at {
        } else if k < start + at + 4 {
        } else if k < start + len {
        } else {
        }
    }
    assert(lhs =~= rhs);
}

/// Stores into disjoint fields can be done in either order.
pub proof fn lemma_u64_fields_commute(s: Seq<u8>, a: int, x: u64, b: int, y: u64)
    requires
        0 <= a,
        a + 8 <= s.len(),
        0 <= b,
        b + 8 <= s.len(),
        a + 8 <= b || b + 8 <= a,
    ensures
        with_u64_field(with_u64_field(s, a, x), b, y) == with_u64_field(with_u64_field(s, b, y), a, x),
{
    lemma_u64_field_store(s, a, x);
    lemma_u64_field_store(s, b, y);
    lemma_u64_field_store(with_u64_field(s, a, x), b, y);
    lemma_u64_field_store(with_u64_field(s, b, y), a, x);
    let l = with_u64_field(with_u64_field(s, a, x), b, y);
    let r = with_u64_field(with_u64_field(s, b, y), a, x);
    assert forall|k: int| 0 <= k < s.len() implies l[k] == r[k] by {
        if a <= k < a + 8 {
            assert(l[k] == with_u64_field(s, a, x)[k]);
            assert(spec_u64_to_le_bytes(x).len() == 8) by { lemma_auto_spec_u64_to_from_le_bytes(); }
        } else if b <= k < b + 8 {
            assert(r[k] == with_u64_field(s, b, y)[k]);
            assert(spec_u64_to_le_bytes(y).len() == 8) by { lemma_auto_spec_u64_to_from_le_bytes(); }
        }
    }
    assert(l =~= r);
}

/// Reads the little-endian `u64` at byte `at`.
pub fn load_u64(s: &[u8], at: usize) -> (v: u64)
    requires
        at + 8 <= s@.len(),
    ensures
        v == u64_field(s@, at as int),
{
    let len = s.len();
    assert(at + 8 <= len);
    u64_from_le_bytes(vstd::slice::slice_subrange(s, at, at + 8))
}

/// Stores `v` little-endian at byte `at`.
pub fn store_u64(s: &mut [u8], at: usize, v: u64)
    requires
        at + 8 <= old(s)@.len(),
    ensures
        final(s)@ == with_u64_field(old(s)@, at as int, v),
{
    let ghost before = s@;
    let len = s.len();
    let bytes = u64_to_le_bytes(v);
    let mut i: usize = 0;
    while i < 8
        invariant
            bytes@ == spec_u64_to_le_bytes(v),
            bytes@.len() == 8,
            s@.len() == before.len(),
            len == before.len(),
            at + 8 <= before.len(),
            0 <= i <= 8,
            forall|k: int| 0 <= k < at ==> s@[k] == before[k],
            forall|k: int| 0 <= k < i ==> s@[at + k] == bytes@[k],
            forall|k: int| at + i <= k < before.len() ==> s@[k] == before[k],
        decreases 8 - i,
    {
        s[at + i] = bytes[i];
        i = i + 1;
    }
    assert(s@ =~= with_u64_field(before, at as int, v));
}

/// Reads the little-endian `u32` at byte `at`.
pub fn load_u32(s: &[u8], at: usize) -> (v: u32)
    requires
        at + 4 <= s@.len(),
    ensures
        v == u32_field(s@, at as int),
{
    let len = s.len();
    assert(at + 4 <= len);
    u32_from_le_bytes(vstd::slice::slice_subrange(s, at, at + 4))
}

/// Stores `v` little-endian at byte `at`.
pub fn store_u32(s: &mut [u8], at: usize, v: u32)
    requires
        at + 4 <= old(s)@.len(),
    ensures
        final(s)@ == with_u32_field(old(s)@, at as int, v),
{
    let ghost before = s@;
    let len = s.len();
    let bytes = u32_to_le_bytes(v);
    let mut i: usize = 0;
    while i < 4
        invariant
            bytes@ == spec_u32_to_le_bytes(v),
            bytes@.len() == 4,
            s@.len() == before.len(),
            len == before.len(),
            at + 4 <= before.len(),
            0 <= i <= 4,
            forall|k: int| 0 <= k < at ==> s@[k] == before[k],
            forall|k: int| 0 <= k < i ==> s@[at + k] == bytes@[k],
            forall|k: int| at + i <= k < before.len() ==> s@[k] == before[k],
        decreases 4 - i,
    {
        s[at + i] = bytes[i];
        i = i + 1;
    }
    assert(s@ =~= with_u32_field(before, at as int, v));
}

} // verus!
