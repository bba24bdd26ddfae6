use vstd::prelude::*;

use crate::circular_buffer::{
    lemma_ring_read_index, lemma_ring_read_len, lemma_ring_start_advance, lemma_ring_write_index,
    lemma_ring_write_len, raw_access_ok, ring_access_ok, ring_clear, ring_distance, ring_position,
    ring_read, ring_start, ring_write, zeros, CircularBuffer,
};
use crate::clock::current_ticks;
use crate::layout::{
    lemma_u32_field_frame, lemma_u32_field_store, lemma_u32_field_store_window,
    lemma_u32_field_window, lemma_u64_field_other, lemma_u64_field_overwrite,
    lemma_u64_field_store, lemma_u64_field_store_same, lemma_u64_fields_commute, load_u32,
    load_u64, store_u32, store_u64, u32_field, u64_field, with_u32_field, with_u64_field,
};
use crate::memory::{MemoryViewOptions, ViewOptions};
use crate::sem::{
    create_sem, post_semaphore, sem_name_prefix_spec, wait_semaphore, Platform, QueueSignal, SignalCall,
};

verus! {

/// Bytes taken by the queue header at the start of the shared memory: the
/// read offset, the write offset, the reader's lock timestamp and 8 reserved
/// bytes, each a little-endian `u64`.
pub const QUEUE_HEADER_SIZE: usize = 32;

pub const READ_OFFSET_AT: usize = 0;

pub const WRITE_OFFSET_AT: usize = 8;

pub const READ_LOCK_AT: usize = 16;

/// Bytes taken by the header of each message in the ring: its state and the
/// length of its body, each a little-endian `u32`.
pub const MESSAGE_HEADER_SIZE: usize = 8;

pub const MESSAGE_STATE_AT: usize = 0;

pub const MESSAGE_BODY_LENGTH_AT: usize = 4;

/// How long a reader may hold the read lock, and how long it waits for a
/// message that is still being written, in ticks.
pub const TEN_SECONDS_TICKS: u64 = 100_000_000;

/// The options of a queue's memory view: the header comes on top of the
/// capacity of the ring.
pub struct QueueOptions(MemoryViewOptions);

impl QueueOptions {
    pub closed spec fn options(&self) -> MemoryViewOptions {
        self.0
    }
}

impl From<MemoryViewOptions> for QueueOptions {
    fn from(value: MemoryViewOptions) -> (r: Self)
        ensures
            r.options() == value,
    {
        Self(value)
    }
}

impl vstd::std_specs::convert::FromSpecImpl<MemoryViewOptions> for QueueOptions {
    open spec fn obeys_from_spec() -> bool {
        true
    }

    closed spec fn from_spec(v: MemoryViewOptions) -> QueueOptions {
        QueueOptions(v)
    }
}

/// Wrapping options as queue options and unwrapping them again gives the
/// same options.
pub proof fn lemma_queue_options_round_trip(value: MemoryViewOptions)
    ensures
        <MemoryViewOptions as vstd::std_specs::convert::FromSpec<QueueOptions>>::from_spec(
            <QueueOptions as vstd::std_specs::convert::FromSpec<MemoryViewOptions>>::from_spec(value),
        ) == value,
        <QueueOptions as vstd::std_specs::convert::FromSpec<MemoryViewOptions>>::from_spec(value).options()
            == value,
{
}

impl From<QueueOptions> for MemoryViewOptions {
    fn from(value: QueueOptions) -> (r: Self)
        ensures
            r == value.options(),
    {
        value.0
    }
}

impl vstd::std_specs::convert::FromSpecImpl<QueueOptions> for MemoryViewOptions {
    open spec fn obeys_from_spec() -> bool {
        true
    }

    closed spec fn from_spec(v: QueueOptions) -> MemoryViewOptions {
        v.0
    }
}

impl ViewOptions for QueueOptions {
    open spec fn actual_storage_size(&self) -> int {
        QUEUE_HEADER_SIZE + self.options().capacity
    }

    fn get_actual_storage_size(&self) -> (r: usize) {
        QUEUE_HEADER_SIZE + self.0.get_actual_storage_size()
    }

    fn storage_size_fits(&self) -> (r: bool) {
        self.0.capacity <= (usize::MAX - QUEUE_HEADER_SIZE) as u64
    }
}

#[derive(Debug, PartialEq, Eq, Structural)]
pub enum PublisherError {
    /// The buffer is too small to ever fit the queued message.
    BufferCapacityTooLow,
    /// The message fits the buffer, but not the room that the pending
    /// messages leave; it fits once readers have consumed enough of them.
    QueueFull,
}

#[derive(Debug, PartialEq, Eq, Structural)]
pub enum SubscriberError {
    /// There are no pending messages.
    NoMessages,
    /// A different reader took longer than 10 seconds; the buffer is likely corrupted.
    OtherReaderTimedOut,
    /// The writer took longer than 10 seconds to write a message; it likely crashed.
    WriterTimedOut,
    /// The system clock reads a time that cannot be counted in ticks (before
    /// the year 1, or tens of thousands of years ahead), so the read lock
    /// cannot be stamped.
    ClockUnavailable,
}

/// The life cycle of a message in the ring.
#[derive(Clone, Copy, Debug, PartialEq, Eq, Structural)]
pub enum MessageState {
    Writing,
    LockedToBeConsumed,
    ReadyToBeConsumed,
}

impl MessageState {
    pub open spec fn code(self) -> u32 {
        match self {
            MessageState::Writing => 0,
            MessageState::LockedToBeConsumed => 1,
            MessageState::ReadyToBeConsumed => 2,
        }
    }

    /// The state stored as `value`; only 0, 1 and 2 are states.
    pub fn from_u32(value: u32) -> (r: Self)
        requires
            value <= 2,
        ensures
            r.code() == value,
    {
        match value {
            0 => MessageState::Writing,
            1 => MessageState::LockedToBeConsumed,
            _ => MessageState::ReadyToBeConsumed,
        }
    }
}

impl From<MessageState> for u32 {
    fn from(value: MessageState) -> (r: u32) {
        match value {
            MessageState::Writing => 0,
            MessageState::LockedToBeConsumed => 1,
            MessageState::ReadyToBeConsumed => 2,
        }
    }
}

impl vstd::std_specs::convert::FromSpecImpl<MessageState> for u32 {
    open spec fn obeys_from_spec() -> bool {
        true
    }

    open spec fn from_spec(v: MessageState) -> u32 {
        v.code()
    }
}

pub open spec fn state_ready() -> u32 {
    MessageState::ReadyToBeConsumed.code()
}

pub open spec fn state_locked() -> u32 {
    MessageState::LockedToBeConsumed.code()
}

/// A writer of messages.
pub trait Publisher {
    /// The messages that `enqueue` accepts in the current state.
    spec fn can_enqueue(&self, message: Seq<u8>) -> bool;

    fn enqueue(&mut self, message: &[u8]) -> (r: Result<(), PublisherError>)
        requires
            old(self).can_enqueue(message@),
    ;
}

/// A reader of messages.
pub trait Subscriber {
    /// The sizes of result buffers that `try_dequeue` and `dequeue` accept in
    /// the current state.
    spec fn can_dequeue_into(&self, result_len: nat) -> bool;

    fn try_dequeue(&mut self, result_buffer: &mut [u8]) -> (r: Result<usize, SubscriberError>)
        requires
            old(self).can_dequeue_into(old(result_buffer)@.len()),
    ;

    fn dequeue(&mut self, result_buffer: &mut [u8]) -> (r: Result<usize, SubscriberError>)
        requires
            old(self).can_dequeue_into(old(result_buffer)@.len()),
    ;
}

/// The bytes a message of `body_length` bytes takes in the ring: its header
/// and body, rounded up to a multiple of 8, so that every message header
/// stays 8-byte aligned.
pub open spec fn padded_length(body_length: int) -> int {
    ((body_length + MESSAGE_HEADER_SIZE + 7) / 8) * 8
}

/// A padded length is a multiple of 8 that holds the header and the body
/// and wastes less than 8 bytes.
pub proof fn lemma_padded_length(body_length: int)
    requires
        0 <= body_length,
    ensures
        padded_length(body_length) % 8 == 0,
        body_length + MESSAGE_HEADER_SIZE <= padded_length(body_length),
        padded_length(body_length) < body_length + MESSAGE_HEADER_SIZE + 8,
{
    let l = body_length + MESSAGE_HEADER_SIZE + 7;
    vstd::arithmetic::div_mod::lemma_fundamental_div_mod(l, 8);
    vstd::arithmetic::div_mod::lemma_mod_multiples_basic(l / 8, 8);
}

/// Offsets run over twice the capacity, so that a full ring and an empty one
/// can be told apart.
pub open spec fn next_offset(offset: int, increment: int, capacity: int) -> int {
    (offset + increment) % (capacity * 2)
}

/// The capacity check on a message that takes `message_length` bytes, in a
/// ring of `capacity` bytes with the given read and write offsets. On
/// consistent offsets it admits exactly the messages that fit in
/// `free_bytes` (`lemma_capacity_check_is_free_space`).
pub open spec fn capacity_admits(read: u64, write: u64, capacity: u64, message_length: u64) -> bool {
    if message_length > capacity {
        false
    } else if read == write {
        true
    } else {
        let r = read % capacity;
        let w = write % capacity;
        if r == w {
            false
        } else if r < w {
            message_length <= capacity + r - w
        } else {
            message_length <= r - w
        }
    }
}

/// The bytes of a ring of `capacity` bytes that pending messages leave free.
pub open spec fn free_bytes(read: int, write: int, capacity: int) -> int {
    capacity - used_bytes(read, write, capacity)
}

/// The shared memory of a queue: the header bytes and the ring's bytes.
#[verifier::ext_equal]
pub struct QueueMemory {
    pub header: Seq<u8>,
    pub buffer: Seq<u8>,
}

impl QueueMemory {
    pub open spec fn read_offset(self) -> u64 {
        u64_field(self.header, READ_OFFSET_AT as int)
    }

    pub open spec fn write_offset(self) -> u64 {
        u64_field(self.header, WRITE_OFFSET_AT as int)
    }

    pub open spec fn read_lock(self) -> u64 {
        u64_field(self.header, READ_LOCK_AT as int)
    }

    pub open spec fn capacity(self) -> int {
        self.buffer.len() as int
    }

    /// A header of 32 bytes and a ring that a slice can hold.
    pub open spec fn well_formed(self) -> bool {
        &&& self.header.len() == QUEUE_HEADER_SIZE
        &&& self.buffer.len() <= isize::MAX
    }

    pub open spec fn is_empty(self) -> bool {
        self.read_offset() == self.write_offset()
    }

    /// The position in the ring of the message header at `offset`.
    pub open spec fn message_at(self, offset: u64) -> int {
        ring_start(self.capacity(), offset as int)
    }

    pub open spec fn message_state(self, offset: u64) -> u32 {
        u32_field(self.buffer, self.message_at(offset) + MESSAGE_STATE_AT)
    }

    pub open spec fn message_body_length(self, offset: u64) -> u32 {
        u32_field(self.buffer, self.message_at(offset) + MESSAGE_BODY_LENGTH_AT)
    }

    /// Whether the capacity check lets a message of `body_length` bytes in.
    pub open spec fn admits(self, body_length: int) -> bool {
        capacity_admits(
            self.read_offset(),
            self.write_offset(),
            self.capacity() as u64,
            padded_length(body_length) as u64,
        )
    }

    /// The inputs on which an enqueue of `body_length` bytes runs to its end:
    /// the lengths and offsets it computes fit in a `usize`, and the message
    /// header and body can be reached in the ring.
    pub open spec fn enqueue_defined(self, body_length: int) -> bool {
        &&& self.well_formed()
        &&& 0 <= body_length
        &&& padded_length(body_length) <= usize::MAX
        &&& self.admits(body_length) ==> {
            &&& self.write_offset() + padded_length(body_length) <= usize::MAX
            &&& self.write_offset() + MESSAGE_HEADER_SIZE <= usize::MAX
            &&& raw_access_ok(self.capacity(), self.write_offset() as int, MESSAGE_HEADER_SIZE as int)
            &&& ring_access_ok(
                self.capacity(),
                self.write_offset() + MESSAGE_HEADER_SIZE,
                body_length,
            )
        }
    }

    /// The memory after `message` was enqueued: the write offset moves past
    /// the padded message, the body length is stored, then the body, then the
    /// state that marks the message ready.
    pub open spec fn after_enqueue(self, message: Seq<u8>) -> QueueMemory {
        let w = self.write_offset();
        let at = self.message_at(w);
        let with_length = with_u32_field(self.buffer, at + MESSAGE_BODY_LENGTH_AT, #[verifier::truncate] (message.len() as u32));
        let with_body = ring_write(with_length, w + MESSAGE_HEADER_SIZE, message);
        QueueMemory {
            header: with_u64_field(
                self.header,
                WRITE_OFFSET_AT as int,
                next_offset(w as int, padded_length(message.len() as int), self.capacity()) as u64,
            ),
            buffer: with_u32_field(with_body, at + MESSAGE_STATE_AT, state_ready()),
        }
    }

    /// Whether the reader finds a message ready to be consumed.
    pub open spec fn message_ready(self) -> bool {
        self.message_state(self.read_offset()) == state_ready()
    }

    /// The ring once the reader has locked the message at the read offset.
    pub open spec fn locked_buffer(self) -> Seq<u8> {
        with_u32_field(self.buffer, self.message_at(self.read_offset()) + MESSAGE_STATE_AT, state_locked())
    }

    /// The body length of the message at the read offset.
    pub open spec fn pending_body_length(self) -> u32 {
        self.message_body_length(self.read_offset())
    }

    /// The inputs on which a dequeue into a buffer of `result_len` bytes runs
    /// to its end: when it gets the lock and finds a message, the message
    /// header can be reached, and when the message is ready, its body fits in
    /// the result buffer and the offsets it computes fit in a `usize`.
    pub open spec fn dequeue_defined(self, result_len: int) -> bool {
        &&& self.well_formed()
        &&& self.read_lock() == 0 && !self.is_empty() ==> {
            &&& self.read_offset() <= usize::MAX
            &&& raw_access_ok(self.capacity(), self.read_offset() as int, MESSAGE_HEADER_SIZE as int)
            &&& self.message_ready() ==> {
                let body_length = self.pending_body_length() as int;
                &&& body_length <= result_len
                &&& self.read_offset() + padded_length(body_length) <= usize::MAX
                &&& self.read_offset() + MESSAGE_HEADER_SIZE <= usize::MAX
                &&& ring_access_ok(self.capacity(), self.read_offset() + MESSAGE_HEADER_SIZE, body_length)
                &&& ring_access_ok(self.capacity(), self.read_offset() as int, padded_length(body_length))
            }
        }
    }

    /// The body handed to the reader.
    pub open spec fn dequeued_body(self) -> Seq<u8> {
        ring_read(
            self.locked_buffer(),
            self.read_offset() + MESSAGE_HEADER_SIZE,
            self.pending_body_length() as int,
        )
    }

    /// The memory after the reader consumed the message at the read offset:
    /// its bytes are zeroed and the read offset moves past it.
    pub open spec fn after_dequeue(self) -> QueueMemory {
        let r = self.read_offset();
        let padded = padded_length(self.pending_body_length() as int);
        QueueMemory {
            header: with_u64_field(
                self.header,
                READ_OFFSET_AT as int,
                next_offset(r as int, padded, self.capacity()) as u64,
            ),
            buffer: ring_clear(self.locked_buffer(), r as int, padded),
        }
    }

    /// The memory after the reader gave up on a message that was not ready:
    /// every pending message is skipped.
    pub open spec fn after_writer_timeout(self) -> QueueMemory {
        QueueMemory {
            header: with_u64_field(self.header, READ_OFFSET_AT as int, self.write_offset()),
            buffer: self.buffer,
        }
    }
}

/// The queue header in shared memory.
struct QueueHeader<'a> {
    bytes: &'a mut [u8],
}

impl<'a> QueueHeader<'a> {
    closed spec fn view(&self) -> Seq<u8> {
        self.bytes@
    }

    fn read_offset(&self) -> (r: u64)
        requires
            self.view().len() == QUEUE_HEADER_SIZE,
        ensures
            r == u64_field(self.view(), READ_OFFSET_AT as int),
    {
        load_u64(self.bytes, READ_OFFSET_AT)
    }

    fn write_offset(&self) -> (r: u64)
        requires
            self.view().len() == QUEUE_HEADER_SIZE,
        ensures
            r == u64_field(self.view(), WRITE_OFFSET_AT as int),
    {
        load_u64(self.bytes, WRITE_OFFSET_AT)
    }

    fn is_empty(&self) -> (r: bool)
        requires
            self.view().len() == QUEUE_HEADER_SIZE,
        ensures
            r == (u64_field(self.view(), READ_OFFSET_AT as int) == u64_field(self.view(), WRITE_OFFSET_AT as int)),
    {
        let read = self.read_offset();
        let write = self.write_offset();
        read == write
    }

    fn store(&mut self, at: usize, value: u64)
        requires
            old(self).view().len() == QUEUE_HEADER_SIZE,
            at + 8 <= QUEUE_HEADER_SIZE,
        ensures
            final(self).view() == with_u64_field(old(self).view(), at as int, value),
            final(self).view().len() == QUEUE_HEADER_SIZE,
    {
        proof {
            lemma_u64_field_store(self.view(), at as int, value);
        }
        store_u64(self.bytes, at, value);
    }
}

/// The claim of the read lock: the lock holds the time at which it was taken,
/// or 0 while nobody holds it.
struct QueueReadLock;

/// The header once a reader claimed the lock at tick `start`.
pub open spec fn lock_claimed(header: Seq<u8>, start: u64) -> Seq<u8> {
    with_u64_field(header, READ_LOCK_AT as int, start)
}

/// The header once the reader released the lock.
pub open spec fn lock_released(header: Seq<u8>) -> Seq<u8> {
    with_u64_field(header, READ_LOCK_AT as int, 0)
}

/// What a claim of the lock in `header` answers: granted while the lock is
/// free (0), and otherwise the time at which its holder took it.
pub open spec fn claim_answer(header: Seq<u8>) -> Result<(), u64> {
    if u64_field(header, READ_LOCK_AT as int) == 0 {
        Ok(())
    } else {
        Err(u64_field(header, READ_LOCK_AT as int))
    }
}

impl QueueReadLock {
    fn try_claim(header: &mut QueueHeader, start: u64) -> (r: Result<Self, u64>)
        requires
            old(header).view().len() == QUEUE_HEADER_SIZE,
        ensures
            final(header).view().len() == QUEUE_HEADER_SIZE,
            r is Ok <==> claim_answer(old(header).view()) is Ok,
            r is Ok ==> final(header).view() == lock_claimed(old(header).view(), start),
            r matches Err(holder) ==> {
                &&& claim_answer(old(header).view()) == Err::<(), u64>(holder)
                &&& final(header).view() == old(header).view()
            },
    {
        let current = load_u64(header.bytes, READ_LOCK_AT);
        if current == 0 {
            header.store(READ_LOCK_AT, start);
            Ok(QueueReadLock)
        } else {
            Err(current)
        }
    }

    fn release(self, header: &mut QueueHeader)
        requires
            old(header).view().len() == QUEUE_HEADER_SIZE,
        ensures
            final(header).view() == lock_released(old(header).view()),
            final(header).view().len() == QUEUE_HEADER_SIZE,
    {
        header.store(READ_LOCK_AT, 0);
    }
}

/// At most one reader holds the lock: once a claim at a nonzero tick `start`
/// is granted, every later claim is answered with `start`, and the offsets
/// are as they were.
pub proof fn lemma_claimed_lock_refuses_others(header: Seq<u8>, start: u64)
    requires
        header.len() == QUEUE_HEADER_SIZE,
        claim_answer(header) is Ok,
        start != 0,
    ensures
        claim_answer(lock_claimed(header, start)) == Err::<(), u64>(start),
        u64_field(lock_claimed(header, start), READ_OFFSET_AT as int) == u64_field(header, READ_OFFSET_AT as int),
        u64_field(lock_claimed(header, start), WRITE_OFFSET_AT as int) == u64_field(header, WRITE_OFFSET_AT as int),
{
    lemma_u64_field_store(header, READ_LOCK_AT as int, start);
    lemma_u64_field_other(header, READ_LOCK_AT as int, start, READ_OFFSET_AT as int);
    lemma_u64_field_other(header, READ_LOCK_AT as int, start, WRITE_OFFSET_AT as int);
}

/// Releasing a granted claim frees the lock again: the next claim is granted,
/// and the header is as before the claim.
pub proof fn lemma_released_lock_can_be_claimed(header: Seq<u8>, start: u64)
    requires
        header.len() == QUEUE_HEADER_SIZE,
        claim_answer(header) is Ok,
    ensures
        lock_released(lock_claimed(header, start)) == header,
        claim_answer(lock_released(lock_claimed(header, start))) is Ok,
{
    lemma_u64_field_overwrite(header, READ_LOCK_AT as int, start, 0);
    lemma_u64_field_store_same(header, READ_LOCK_AT as int);
}

/// The error of a read attempt that starts at tick `start` and finds the read
/// lock taken at `lock_timestamp`: no message for now while that lock is
/// younger than 10 seconds, and a reader that timed out after that.
pub open spec fn lock_held_error(start: u64, lock_timestamp: u64) -> SubscriberError {
    if start.wrapping_sub(lock_timestamp) < TEN_SECONDS_TICKS {
        SubscriberError::NoMessages
    } else {
        SubscriberError::OtherReaderTimedOut
    }
}

/// The error of a read attempt that starts at tick `start` and finds the read
/// lock taken at `lock_timestamp`.
pub fn read_lock_held_error(start: u64, lock_timestamp: u64) -> (r: SubscriberError)
    ensures
        r == lock_held_error(start, lock_timestamp),
{
    if start.wrapping_sub(lock_timestamp) < TEN_SECONDS_TICKS {
        SubscriberError::NoMessages
    } else {
        SubscriberError::OtherReaderTimedOut
    }
}

/// What a read attempt that starts at tick `start` does: it claims the read
/// lock, gives up if another reader holds it or no message is pending, and
/// otherwise either consumes the ready message at the read offset or, when
/// the message is not ready in time, skips every pending message.
pub open spec fn dequeue_outcome(
    before: QueueMemory,
    after: QueueMemory,
    out_before: Seq<u8>,
    out_after: Seq<u8>,
    r: Result<usize, SubscriberError>,
    start: u64,
) -> bool {
    if before.read_lock() != 0 {
        &&& r == Err::<usize, SubscriberError>(lock_held_error(start, before.read_lock()))
        &&& after == before
        &&& out_after == out_before
    } else if before.is_empty() {
        &&& r == Err::<usize, SubscriberError>(SubscriberError::NoMessages)
        &&& after == before
        &&& out_after == out_before
    } else if before.message_ready() {
        let n = before.pending_body_length() as int;
        &&& r == Ok::<usize, SubscriberError>(n as usize)
        &&& after == before.after_dequeue()
        &&& out_after == before.dequeued_body() + out_before.subrange(n, out_before.len() as int)
    } else {
        &&& r == Err::<usize, SubscriberError>(SubscriberError::WriterTimedOut)
        &&& after == before.after_writer_timeout()
        &&& out_after == out_before
    }
}

/// What a read attempt that reads the clock itself does: it reports the
/// clock unavailable and changes nothing, or it does what an attempt that
/// starts at the tick the clock gave does.
pub open spec fn read_attempt_outcome(
    before: QueueMemory,
    after: QueueMemory,
    out_before: Seq<u8>,
    out_after: Seq<u8>,
    r: Result<usize, SubscriberError>,
) -> bool {
    ||| {
        &&& r == Err::<usize, SubscriberError>(SubscriberError::ClockUnavailable)
        &&& after == before
        &&& out_after == out_before
    }
    ||| exists|start: u64|
        #[trigger] dequeue_outcome(
            before,
            after,
            out_before,
            out_after,
            r,
            start,
        )
}

/// While the reader holds the lock taken at `start`, storing a read offset
/// and then releasing the lock leaves the header as storing that read offset
/// alone would, when the lock was free before.
proof fn lemma_header_store_while_locked(header: Seq<u8>, start: u64, read_offset: u64)
    requires
        header.len() == QUEUE_HEADER_SIZE,
        u64_field(header, READ_LOCK_AT as int) == 0,
    ensures
        with_u64_field(
            with_u64_field(with_u64_field(header, READ_LOCK_AT as int, start), READ_OFFSET_AT as int, read_offset),
            READ_LOCK_AT as int,
            0,
        ) == with_u64_field(header, READ_OFFSET_AT as int, read_offset),
{
    let locked = with_u64_field(header, READ_LOCK_AT as int, start);
    lemma_u64_field_store(header, READ_LOCK_AT as int, start);
    lemma_u64_fields_commute(locked, READ_OFFSET_AT as int, read_offset, READ_LOCK_AT as int, 0);
    lemma_u64_field_overwrite(header, READ_LOCK_AT as int, start, 0);
    lemma_u64_field_store_same(header, READ_LOCK_AT as int);
    lemma_u64_field_store(header, READ_LOCK_AT as int, 0);
}

/// A message queue in memory shared between processes: a header followed by
/// a ring of messages, each a header and a body. A named semaphore wakes
/// readers that wait for messages.
pub struct Queue<'a> {
    header: QueueHeader<'a>,
    buffer: CircularBuffer<'a>,
    signal: QueueSignal,
}

impl<'a> Queue<'a> {
    /// The queue's shared memory.
    pub closed spec fn memory(&self) -> QueueMemory {
        QueueMemory { header: self.header.view(), buffer: self.buffer.view() }
    }

    /// The semaphore the queue wakes its readers with, and the calls made on
    /// it.
    pub closed spec fn signal(&self) -> QueueSignal {
        self.signal
    }

    /// The queue whose header is the first 32 bytes of `memory` and whose
    /// ring is the rest; its semaphore is the one of `memory_name` on the
    /// host platform (`create_sem`), with no calls made on it yet. Whether it
    /// succeeds is up to the system, which may refuse the semaphore;
    /// `from_signal` says what comes of each answer.
    pub fn new(memory: &'a mut [u8], memory_name: &str) -> (r: Result<Self, ()>)
        requires
            old(memory)@.len() >= QUEUE_HEADER_SIZE,
            old(memory)@.len() <= isize::MAX,
        ensures
            r matches Ok(queue) ==> queue.memory().well_formed() && queue.memory() == (QueueMemory {
                header: old(memory)@.subrange(0, QUEUE_HEADER_SIZE as int),
                buffer: old(memory)@.subrange(QUEUE_HEADER_SIZE as int, old(memory)@.len() as int),
            }),
            r matches Ok(queue) ==> {
                &&& exists|platform: Platform|
                    queue.signal().name() == sem_name_prefix_spec(platform) + memory_name@
                &&& queue.signal().initial_value() == 0
                &&& queue.signal().max_value() == i32::MAX
                &&& queue.signal().calls() == Seq::<SignalCall>::empty()
            },
    {
        let signal = create_sem(memory_name);
        Self::from_signal(memory, signal)
    }

    /// The queue over `memory` that the semaphore `signal` wakes: it exists
    /// exactly when the semaphore was granted. Its header is the first 32
    /// bytes of `memory` and its ring is the rest.
    pub fn from_signal(memory: &'a mut [u8], signal: Result<QueueSignal, named_sem::Error>) -> (r:
        Result<Self, ()>)
        requires
            old(memory)@.len() >= QUEUE_HEADER_SIZE,
            old(memory)@.len() <= isize::MAX,
        ensures
            r is Ok <==> signal is Ok,
            r matches Ok(queue) ==> queue.signal() == signal->Ok_0,
            r matches Ok(queue) ==> queue.memory().well_formed() && queue.memory() == (QueueMemory {
                header: old(memory)@.subrange(0, QUEUE_HEADER_SIZE as int),
                buffer: old(memory)@.subrange(QUEUE_HEADER_SIZE as int, old(memory)@.len() as int),
            }),
    {
        let (header, buffer) = memory.split_at_mut(QUEUE_HEADER_SIZE);
        let header = QueueHeader { bytes: header };
        let buffer = CircularBuffer::new(buffer);
        let signal = match signal {
            Ok(signal) => signal,
            Err(_) => return Err(()),
        };
        Ok(Self { header, buffer, signal })
    }

    fn capacity(&self) -> (r: u64)
        ensures
            r == self.memory().capacity(),
    {
        self.buffer.capacity() as u64
    }

    fn get_message_body_offset(start_offset: usize) -> (r: usize)
        requires
            start_offset + MESSAGE_HEADER_SIZE <= usize::MAX,
        ensures
            r == start_offset + MESSAGE_HEADER_SIZE,
    {
        start_offset + MESSAGE_HEADER_SIZE
    }

    fn padded_message_length(body_length: usize) -> (r: usize)
        requires
            padded_length(body_length as int) <= usize::MAX,
        ensures
            r == padded_length(body_length as int),
    {
        proof {
            lemma_padded_length(body_length as int);
        }
        let length = body_length + MESSAGE_HEADER_SIZE;
        if length % 8 != 0 {
            (length / 8 + 1) * 8
        } else {
            length
        }
    }

    fn safe_increment_message_offset(&self, offset: usize, increment: usize) -> (r: usize)
        requires
            self.memory().well_formed(),
            self.memory().capacity() > 0,
            offset + increment <= usize::MAX,
        ensures
            r == next_offset(offset as int, increment as int, self.memory().capacity()),
    {
        (offset + increment) % (self.buffer.capacity() * 2)
    }

    fn check_capacity(&self, message_length: u64) -> (r: bool)
        requires
            self.memory().well_formed(),
            self.memory().capacity() > 0 || message_length > self.memory().capacity()
                || self.memory().is_empty(),
        ensures
            r == capacity_admits(
                self.memory().read_offset(),
                self.memory().write_offset(),
                self.memory().capacity() as u64,
                message_length,
            ),
    {
        if message_length > self.capacity() {
            false
        } else if self.header.is_empty() {
            true
        } else {
            let read_offset = self.header.read_offset() % self.capacity();
            let write_offset = self.header.write_offset() % self.capacity();
            if read_offset == write_offset {
                false
            } else if read_offset < write_offset {
                if message_length > self.capacity() + read_offset - write_offset {
                    false
                } else {
                    true
                }
            } else if message_length > read_offset - write_offset {
                false
            } else {
                true
            }
        }
    }

    /// Stores `value` in the field at `at` of the message header at `offset`.
    fn store_message_field(&mut self, offset: u64, at: usize, value: u32)
        requires
            raw_access_ok(old(self).memory().capacity(), offset as int, MESSAGE_HEADER_SIZE as int),
            offset <= usize::MAX,
            at + 4 <= MESSAGE_HEADER_SIZE,
        ensures
            final(self).memory() == (QueueMemory {
                buffer: with_u32_field(old(self).memory().buffer, old(self).memory().message_at(offset) + at, value),
                ..old(self).memory()
            }),
            final(self).memory().capacity() == old(self).memory().capacity(),
            final(self).signal() == old(self).signal(),
    {
        let ghost b = self.buffer.view();
        let ghost o = ring_start(b.len() as int, offset as int);
        let object = self.buffer.raw_bytes_mut(offset as usize, MESSAGE_HEADER_SIZE);
        store_u32(object, at, value);
        proof {
            lemma_u32_field_store_window(b, o, MESSAGE_HEADER_SIZE as int, at as int, value);
            lemma_u32_field_store(b, o + at, value);
        }
    }

    /// Reads the field at `at` of the message header at `offset`.
    fn load_message_field(&self, offset: u64, at: usize) -> (r: u32)
        requires
            raw_access_ok(self.memory().capacity(), offset as int, MESSAGE_HEADER_SIZE as int),
            offset <= usize::MAX,
            at + 4 <= MESSAGE_HEADER_SIZE,
        ensures
            r == u32_field(self.memory().buffer, self.memory().message_at(offset) + at),
    {
        let object = self.buffer.raw_bytes(offset as usize, MESSAGE_HEADER_SIZE);
        proof {
            let b = self.buffer.view();
            lemma_u32_field_window(b, ring_start(b.len() as int, offset as int), MESSAGE_HEADER_SIZE as int, at as int);
        }
        load_u32(object, at)
    }

    /// Locks the message at `offset` for the reader if it is ready.
    fn try_lock_message(&mut self, offset: u64) -> (r: bool)
        requires
            raw_access_ok(old(self).memory().capacity(), offset as int, MESSAGE_HEADER_SIZE as int),
            offset <= usize::MAX,
        ensures
            r == (old(self).memory().message_state(offset) == state_ready()),
            r ==> final(self).memory() == (QueueMemory {
                buffer: with_u32_field(
                    old(self).memory().buffer,
                    old(self).memory().message_at(offset) + MESSAGE_STATE_AT,
                    state_locked(),
                ),
                ..old(self).memory()
            }),
            !r ==> final(self).memory() == old(self).memory(),
            final(self).memory().capacity() == old(self).memory().capacity(),
            final(self).signal() == old(self).signal(),
    {
        let state = self.load_message_field(offset, MESSAGE_STATE_AT);
        if state == u32::from(MessageState::ReadyToBeConsumed) {
            self.store_message_field(
                offset,
                MESSAGE_STATE_AT,
                u32::from(MessageState::LockedToBeConsumed),
            );
            true
        } else {
            false
        }
    }

    /// One read attempt, reading the clock for its start, as
    /// `read_attempt_outcome` describes it.
    fn try_dequeue_internal(&mut self, result_buffer: &mut [u8]) -> (r: Result<usize, SubscriberError>)
        requires
            old(self).memory().dequeue_defined(old(result_buffer)@.len() as int),
        ensures
            read_attempt_outcome(old(self).memory(), final(self).memory(), old(result_buffer)@, final(result_buffer)@, r),
            final(self).memory().well_formed(),
            final(self).signal() == old(self).signal(),
    {
        match current_ticks() {
            Some(start) => self.try_dequeue_at(result_buffer, start),
            None => Err(SubscriberError::ClockUnavailable),
        }
    }

    /// One read attempt that starts at tick `start`, as `dequeue_outcome`
    /// describes it. While the message at the read offset is not ready, the
    /// reader polls the clock until it reads more than 10 seconds past
    /// `start` (or its count of polls is exhausted).
    pub fn try_dequeue_at(&mut self, result_buffer: &mut [u8], start: u64) -> (r: Result<usize, SubscriberError>)
        requires
            old(self).memory().dequeue_defined(old(result_buffer)@.len() as int),
        ensures
            dequeue_outcome(old(self).memory(), final(self).memory(), old(result_buffer)@, final(result_buffer)@, r, start),
            final(self).memory().well_formed(),
            final(self).signal() == old(self).signal(),
    {
        let ghost m = self.memory();
        let lock = match QueueReadLock::try_claim(&mut self.header, start) {
            Ok(lock) => lock,
            Err(read_lock_timestamp) => {
                return Err(read_lock_held_error(start, read_lock_timestamp));
            },
        };
        let ghost locked_header = self.header.view();
        proof {
            lemma_u64_field_other(m.header, READ_LOCK_AT as int, start, READ_OFFSET_AT as int);
            lemma_u64_field_other(m.header, READ_LOCK_AT as int, start, WRITE_OFFSET_AT as int);
            lemma_u64_field_store(m.header, READ_LOCK_AT as int, start);
            lemma_u64_field_overwrite(m.header, READ_LOCK_AT as int, start, 0);
            lemma_u64_field_store_same(m.header, READ_LOCK_AT as int);
        }
        if self.header.is_empty() {
            lock.release(&mut self.header);
            assert(self.memory() =~= m);
            return Err(SubscriberError::NoMessages);
        }
        let read_offset = self.header.read_offset();
        let write_offset = self.header.write_offset();
        proof {
            lemma_u32_field_store(m.buffer, m.message_at(m.read_offset()) + MESSAGE_STATE_AT, state_locked());
        }
        let mut polls: u64 = 0;
        let mut locked = false;
        loop
            invariant_except_break
                self.memory() == (QueueMemory { header: locked_header, ..m }),
                !locked,
            invariant
                m.dequeue_defined(result_buffer@.len() as int),
                self.signal() == old(self).signal(),
                result_buffer@ == old(result_buffer)@,
                read_offset == m.read_offset(),
                write_offset == m.write_offset(),
                read_offset != write_offset,
                m.read_lock() == 0,
                locked_header == with_u64_field(m.header, READ_LOCK_AT as int, start),
                self.header.view() == locked_header,
                locked_header.len() == QUEUE_HEADER_SIZE,
                m.locked_buffer().len() == m.buffer.len(),
            ensures
                locked ==> m.message_ready() && self.memory() == (QueueMemory {
                    header: locked_header,
                    buffer: m.locked_buffer(),
                }),
                !locked ==> !m.message_ready() && self.memory() == (QueueMemory {
                    header: locked_header,
                    ..m
                }),
            decreases u64::MAX - polls,
        {
            if self.try_lock_message(read_offset) {
                locked = true;
                break;
            }
            let timed_out = match current_ticks() {
                Some(now) => now.wrapping_sub(start) > TEN_SECONDS_TICKS,
                None => false,
            };
            if timed_out || polls == u64::MAX {
                break;
            }
            polls = polls + 1;
        }
        if !locked {
            self.header.store(READ_OFFSET_AT, write_offset);
            lock.release(&mut self.header);
            proof {
                lemma_header_store_while_locked(m.header, start, write_offset);
            }
            assert(self.memory() == m.after_writer_timeout());
            return Err(SubscriberError::WriterTimedOut);
        }
        proof {
            lemma_u32_field_store(m.buffer, m.message_at(read_offset) + MESSAGE_STATE_AT, state_locked());
            lemma_u32_field_frame(
                m.locked_buffer(),
                m.buffer,
                m.message_at(read_offset) + MESSAGE_BODY_LENGTH_AT,
            );
        }
        let body_length = self.load_message_field(read_offset, MESSAGE_BODY_LENGTH_AT) as usize;
        let (body, _) = result_buffer.split_at_mut(body_length);
        self.buffer.read_raw(Self::get_message_body_offset(read_offset as usize), body);
        let padded_length = Self::padded_message_length(body_length);
        self.buffer.clear(read_offset as usize, padded_length);
        let new_read_offset = self.safe_increment_message_offset(read_offset as usize, padded_length);
        self.header.store(READ_OFFSET_AT, new_read_offset as u64);
        lock.release(&mut self.header);
        proof {
            lemma_header_store_while_locked(m.header, start, new_read_offset as u64);
        }
        Ok(body_length)
    }
}

impl<'a> Publisher for Queue<'a> {
    open spec fn can_enqueue(&self, message: Seq<u8>) -> bool {
        self.memory().enqueue_defined(message.len() as int)
    }

    /// Enqueues `message`: the write offset moves past the padded message,
    /// then the body length goes into the message header, then the body,
    /// then the state that marks the message ready. A message that can never
    /// fit the ring is refused as too large; one that fits the ring but not
    /// the room the pending messages leave is refused as the queue being
    /// full. Either way the memory is left as it was.
    fn enqueue(&mut self, message: &[u8]) -> (r: Result<(), PublisherError>)
        ensures
            padded_length(message@.len() as int) > old(self).memory().capacity() ==> {
                &&& r == Err::<(), PublisherError>(PublisherError::BufferCapacityTooLow)
                &&& final(self).memory() == old(self).memory()
            },
            padded_length(message@.len() as int) <= old(self).memory().capacity() && !old(
                self,
            ).memory().admits(message@.len() as int) ==> {
                &&& r == Err::<(), PublisherError>(PublisherError::QueueFull)
                &&& final(self).memory() == old(self).memory()
            },
            old(self).memory().admits(message@.len() as int) ==> {
                &&& r is Ok
                &&& final(self).memory() == old(self).memory().after_enqueue(message@)
            },
            offsets_consistent(
                old(self).memory().read_offset() as int,
                old(self).memory().write_offset() as int,
                old(self).memory().capacity(),
            ) ==> (r is Ok <==> padded_length(message@.len() as int) <= free_bytes(
                old(self).memory().read_offset() as int,
                old(self).memory().write_offset() as int,
                old(self).memory().capacity(),
            )),
            final(self).signal() == old(self).signal(),
    {
        let ghost m = self.memory();
        proof {
            lemma_padded_length(message@.len() as int);
            if offsets_consistent(m.read_offset() as int, m.write_offset() as int, m.capacity()) {
                lemma_capacity_check_is_free_space(
                    m.read_offset(),
                    m.write_offset(),
                    m.capacity() as u64,
                    padded_length(message@.len() as int) as u64,
                );
            }
        }
        let message_length = Self::padded_message_length(message.len()) as u64;
        if message_length > self.capacity() {
            return Err(PublisherError::BufferCapacityTooLow);
        }
        if !self.check_capacity(message_length) {
            return Err(PublisherError::QueueFull);
        }
        let write_offset = self.header.write_offset();
        let new_write_offset = self.safe_increment_message_offset(
            write_offset as usize,
            message_length as usize,
        );
        self.header.store(WRITE_OFFSET_AT, new_write_offset as u64);
        self.store_message_field(write_offset, MESSAGE_BODY_LENGTH_AT, #[verifier::truncate] (message.len() as u32));
        self.buffer.write_raw(Self::get_message_body_offset(write_offset as usize), message);
        self.store_message_field(write_offset, MESSAGE_STATE_AT, u32::from(MessageState::ReadyToBeConsumed));
        assert(self.memory() =~= m.after_enqueue(message@));
        Ok(())
    }
}

/// What `dequeue` gives: the outcome of a read attempt that found something
/// other than no message, or, once its attempts are exhausted without one
/// finding a message, a timed-out reader with nothing changed.
pub open spec fn dequeue_result(
    before: QueueMemory,
    after: QueueMemory,
    out_before: Seq<u8>,
    out_after: Seq<u8>,
    r: Result<usize, SubscriberError>,
) -> bool {
    ||| {
        &&& r != Err::<usize, SubscriberError>(SubscriberError::NoMessages)
        &&& read_attempt_outcome(before, after, out_before, out_after, r)
    }
    ||| {
        &&& r == Err::<usize, SubscriberError>(SubscriberError::OtherReaderTimedOut)
        &&& after == before
        &&& out_after == out_before
        &&& read_attempt_outcome(
            before,
            before,
            out_before,
            out_before,
            Err::<usize, SubscriberError>(SubscriberError::NoMessages),
        )
    }
}

/// The wait on the semaphore after the read attempt numbered `attempt`
/// (counting from 0) found no message: none after the first, then 1 ms more
/// after each attempt, up to 10 ms.
pub open spec fn wait_after_attempt(attempt: nat) -> Seq<SignalCall> {
    if attempt == 0 {
        Seq::empty()
    } else if attempt > 10 {
        seq![SignalCall::Wait(10)]
    } else {
        seq![SignalCall::Wait(attempt as u64)]
    }
}

/// The calls on the semaphore of `attempts` read attempts that found no
/// message: each posts once, then waits as `wait_after_attempt` says.
pub open spec fn failed_attempt_calls(attempts: nat) -> Seq<SignalCall>
    decreases attempts,
{
    if attempts == 0 {
        Seq::empty()
    } else {
        failed_attempt_calls((attempts - 1) as nat) + seq![SignalCall::Post] + wait_after_attempt(
            (attempts - 1) as nat,
        )
    }
}

/// A run of `dequeue` that made `failed` read attempts finding no message
/// before its last one: the calls on the semaphore are those attempts' posts
/// and waits and the last attempt's post, and unless every one of its
/// `u64::MAX` attempts was used, the result is what its last read attempt
/// gave, which found something other than no message.
pub open spec fn dequeue_run_with(
    before: QueueMemory,
    after: QueueMemory,
    out_before: Seq<u8>,
    out_after: Seq<u8>,
    r: Result<usize, SubscriberError>,
    calls_before: Seq<SignalCall>,
    calls_after: Seq<SignalCall>,
    failed: nat,
) -> bool {
    &&& failed <= u64::MAX
    &&& calls_after == calls_before + failed_attempt_calls(failed) + seq![SignalCall::Post]
    &&& failed < u64::MAX ==> {
        &&& r != Err::<usize, SubscriberError>(SubscriberError::NoMessages)
        &&& read_attempt_outcome(before, after, out_before, out_after, r)
    }
}

/// A run of `dequeue` with some number of attempts that found no message.
pub open spec fn dequeue_run(
    before: QueueMemory,
    after: QueueMemory,
    out_before: Seq<u8>,
    out_after: Seq<u8>,
    r: Result<usize, SubscriberError>,
    calls_before: Seq<SignalCall>,
    calls_after: Seq<SignalCall>,
) -> bool {
    exists|failed: nat|
        #[trigger] dequeue_run_with(before, after, out_before, out_after, r, calls_before, calls_after, failed)
}

impl<'a> Subscriber for Queue<'a> {
    open spec fn can_dequeue_into(&self, result_len: nat) -> bool {
        self.memory().dequeue_defined(result_len as int)
    }

    /// One read attempt, as `read_attempt_outcome` describes it; afterwards
    /// the queue's semaphore is posted once.
    fn try_dequeue(&mut self, result_buffer: &mut [u8]) -> (r: Result<usize, SubscriberError>)
        ensures
            read_attempt_outcome(old(self).memory(), final(self).memory(), old(result_buffer)@, final(result_buffer)@, r),
            final(self).memory().well_formed(),
            final(self).signal().calls() == old(self).signal().calls().push(SignalCall::Post),
            old(self).signal().same_semaphore(&final(self).signal()),
    {
        let result = self.try_dequeue_internal(result_buffer);
        let _ = post_semaphore(&mut self.signal);
        result
    }

    /// Read attempts until one finds something other than no message, whose
    /// outcome is the result; an attempt that finds no message changes
    /// nothing. Between attempts the reader waits on the semaphore as
    /// `failed_attempt_calls` says. Once `u64::MAX` attempts have found no
    /// message, it gives up and reports a timed-out reader.
    fn dequeue(&mut self, result_buffer: &mut [u8]) -> (r: Result<usize, SubscriberError>)
        ensures
            dequeue_result(old(self).memory(), final(self).memory(), old(result_buffer)@, final(result_buffer)@, r),
            final(self).memory().well_formed(),
            exists|failed: nat|
                failed <= u64::MAX && final(self).signal().calls() == old(self).signal().calls()
                    + #[trigger] failed_attempt_calls(failed) + seq![SignalCall::Post],
            dequeue_run(
                old(self).memory(),
                final(self).memory(),
                old(result_buffer)@,
                final(result_buffer)@,
                r,
                old(self).signal().calls(),
                final(self).signal().calls(),
            ),
            old(self).signal().same_semaphore(&final(self).signal()),
    {
        let ghost m = self.memory();
        let ghost s0 = self.signal();
        let mut loop_count: u64 = 0;
        loop
            invariant
                self.memory() == m,
                m.dequeue_defined(old(result_buffer)@.len() as int),
                result_buffer@ == old(result_buffer)@,
                self.signal().calls() == s0.calls() + failed_attempt_calls(loop_count as nat),
                s0.same_semaphore(&self.signal()),
                s0 == old(self).signal(),
                m == old(self).memory(),
            decreases u64::MAX - loop_count,
        {
            let attempt = self.try_dequeue(result_buffer);
            proof {
                assert(self.signal().calls() == s0.calls() + failed_attempt_calls(loop_count as nat)
                    + seq![SignalCall::Post]);
            }
            if !matches!(attempt, Err(SubscriberError::NoMessages)) {
                proof {
                    assert(dequeue_run_with(
                        m,
                        self.memory(),
                        old(result_buffer)@,
                        result_buffer@,
                        attempt,
                        s0.calls(),
                        self.signal().calls(),
                        loop_count as nat,
                    ));
                }
                return attempt;
            }
            if loop_count == u64::MAX {
                proof {
                    assert(dequeue_run_with(
                        m,
                        self.memory(),
                        old(result_buffer)@,
                        result_buffer@,
                        Err(SubscriberError::OtherReaderTimedOut),
                        s0.calls(),
                        self.signal().calls(),
                        loop_count as nat,
                    ));
                }
                return Err(SubscriberError::OtherReaderTimedOut);
            }
            if loop_count > 10 {
                let _ = wait_semaphore(&mut self.signal, 10);
            } else if loop_count > 0 {
                let _ = wait_semaphore(&mut self.signal, loop_count);
            }
            proof {
                let prev = s0.calls() + failed_attempt_calls(loop_count as nat);
                assert(failed_attempt_calls((loop_count + 1) as nat) == failed_attempt_calls(
                    loop_count as nat,
                ) + seq![SignalCall::Post] + wait_after_attempt(loop_count as nat));
                assert(self.signal().calls() =~= s0.calls() + failed_attempt_calls((loop_count + 1) as nat));
            }
            loop_count = loop_count + 1;
        }
    }
}

/// The message an enqueue lays out at the write offset reads back as
/// written: its state says ready, its body length is the message's length,
/// and its body, read while the message is locked, is the message.
pub proof fn lemma_enqueued_message_reads_back(x: QueueMemory, message: Seq<u8>)
    requires
        x.enqueue_defined(message.len() as int),
        x.admits(message.len() as int),
        message.len() <= u32::MAX,
    ensures
        ({
            let n = x.after_enqueue(message);
            let o = x.message_at(x.write_offset());
            &&& n.capacity() == x.capacity()
            &&& u32_field(n.buffer, o + MESSAGE_STATE_AT) == state_ready()
            &&& u32_field(n.buffer, o + MESSAGE_BODY_LENGTH_AT) == message.len()
            &&& ring_read(
                with_u32_field(n.buffer, o + MESSAGE_STATE_AT, state_locked()),
                x.write_offset() + MESSAGE_HEADER_SIZE,
                message.len() as int,
            ) == message
        }),
{
    let cap = x.capacity();
    let len = message.len() as int;
    let w = x.write_offset();
    let o = x.message_at(w);
    lemma_padded_length(len);
    let b1 = with_u32_field(x.buffer, o + MESSAGE_BODY_LENGTH_AT, len as u32);
    let b2 = ring_write(b1, w + MESSAGE_HEADER_SIZE, message);
    let b3 = with_u32_field(b2, o + MESSAGE_STATE_AT, state_ready());
    lemma_u32_field_store(x.buffer, o + MESSAGE_BODY_LENGTH_AT, len as u32);
    lemma_ring_start_advance(cap, w as int, MESSAGE_HEADER_SIZE as int);
    // The body does not reach the message header.
    assert forall|k: int| o <= k < o + MESSAGE_HEADER_SIZE implies #[trigger] ring_distance(cap, w + MESSAGE_HEADER_SIZE, k)
        >= cap - MESSAGE_HEADER_SIZE by {}
    assert forall|k: int| 0 <= k < cap implies #[trigger] b2[k] == (if ring_distance(
        cap,
        w + MESSAGE_HEADER_SIZE,
        k,
    ) < len {
        message[ring_distance(cap, w + MESSAGE_HEADER_SIZE, k)]
    } else {
        b1[k]
    }) by {
        lemma_ring_write_index(b1, w + MESSAGE_HEADER_SIZE, message, k);
    }
    lemma_ring_write_index(b1, w + MESSAGE_HEADER_SIZE, message, 0);
    lemma_u32_field_store(b2, o + MESSAGE_STATE_AT, state_ready());
    assert(x.after_enqueue(message).buffer == b3);
    // The body length is still in place.
    lemma_u32_field_frame(b3, b2, o + MESSAGE_BODY_LENGTH_AT);
    lemma_u32_field_frame(b2, b1, o + MESSAGE_BODY_LENGTH_AT);
    // The body reads back as written.
    let locked = with_u32_field(b3, o + MESSAGE_STATE_AT, state_locked());
    lemma_u32_field_store(b3, o + MESSAGE_STATE_AT, state_locked());
    assert forall|i: int| 0 <= i < len implies #[trigger] ring_read(locked, w + MESSAGE_HEADER_SIZE, len)[i]
        == message[i] by {
        lemma_ring_read_index(locked, w + MESSAGE_HEADER_SIZE, len, i);
        let pos = ring_position(cap, w + MESSAGE_HEADER_SIZE, i);
        assert(b2[pos] == message[i]);
    }
    lemma_ring_read_len(locked, w + MESSAGE_HEADER_SIZE, len);
    assert(ring_read(locked, w + MESSAGE_HEADER_SIZE, len) =~= message);
}

/// A message enqueued on an empty queue that no reader holds is what the next
/// read attempt hands out: the attempt finds it ready, with its length, and
/// reads back its bytes; afterwards the queue is empty again and unlocked.
pub proof fn lemma_dequeue_returns_enqueued(m: QueueMemory, message: Seq<u8>, result_len: int)
    requires
        m.enqueue_defined(message.len() as int),
        m.read_lock() == 0,
        m.is_empty(),
        padded_length(message.len() as int) <= m.capacity(),
        message.len() <= u32::MAX,
        message.len() <= result_len,
    ensures
        m.admits(message.len() as int),
        ({
            let n = m.after_enqueue(message);
            &&& n.dequeue_defined(result_len)
            &&& n.read_lock() == 0
            &&& !n.is_empty()
            &&& n.message_ready()
            &&& n.pending_body_length() == message.len()
            &&& n.dequeued_body() == message
            &&& n.after_dequeue().is_empty()
            &&& n.after_dequeue().read_lock() == 0
        }),
{
    let cap = m.capacity();
    let len = message.len() as int;
    let w = m.write_offset();
    let padded = padded_length(len);
    lemma_padded_length(len);
    assert(m.admits(len));
    let x = next_offset(w as int, padded, cap) as u64;
    let n = m.after_enqueue(message);

    // The header: only the write offset moves.
    lemma_u64_field_store(m.header, WRITE_OFFSET_AT as int, x);
    lemma_u64_field_other(m.header, WRITE_OFFSET_AT as int, x, READ_OFFSET_AT as int);
    lemma_u64_field_other(m.header, WRITE_OFFSET_AT as int, x, READ_LOCK_AT as int);
    assert(n.read_offset() == w);
    assert(n.write_offset() == x);
    assert(n.read_lock() == 0);

    // The ring: the message reads back as written.
    lemma_enqueued_message_reads_back(m, message);
    assert(n.message_at(w) == m.message_at(w));

    // Afterwards the read offset meets the write offset.
    let d = n.after_dequeue();
    lemma_u64_field_store(n.header, READ_OFFSET_AT as int, x);
    lemma_u64_field_other(n.header, READ_OFFSET_AT as int, x, WRITE_OFFSET_AT as int);
    lemma_u64_field_other(n.header, READ_OFFSET_AT as int, x, READ_LOCK_AT as int);
    assert(d.is_empty());

    // The write offset moved.
    lemma_next_offset_moves(w as int, padded, cap);
}

/// Moving an offset on by a positive amount of at most the capacity changes
/// it, and the result stays below twice the capacity.
pub proof fn lemma_next_offset_moves(offset: int, increment: int, capacity: int)
    requires
        0 <= offset,
        0 < increment <= capacity,
    ensures
        0 <= next_offset(offset, increment, capacity) < capacity * 2,
        next_offset(offset, increment, capacity) != offset,
{
    vstd::arithmetic::div_mod::lemma_mod_bound(offset + increment, capacity * 2);
    if offset < capacity * 2 {
        if offset + increment < capacity * 2 {
            vstd::arithmetic::div_mod::lemma_fundamental_div_mod_converse(
                offset + increment,
                capacity * 2,
                0,
                offset + increment,
            );
        } else {
            vstd::arithmetic::div_mod::lemma_fundamental_div_mod_converse(
                offset + increment,
                capacity * 2,
                1,
                offset + increment - capacity * 2,
            );
        }
    }
}

/// The bytes that pending messages take: offsets run over twice the capacity.
pub open spec fn used_bytes(read: int, write: int, capacity: int) -> int {
    (write - read) % (capacity * 2)
}

/// Offsets that lie below twice the capacity and leave at most the capacity
/// in use, as enqueues and dequeues on a zeroed queue keep them.
pub open spec fn offsets_consistent(read: int, write: int, capacity: int) -> bool {
    &&& capacity > 0
    &&& 0 <= read < capacity * 2
    &&& 0 <= write < capacity * 2
    &&& used_bytes(read, write, capacity) <= capacity
}

/// The position of an offset below twice the capacity within the ring.
proof fn lemma_offset_in_ring(offset: int, capacity: int)
    requires
        capacity > 0,
        0 <= offset < capacity * 2,
    ensures
        offset % capacity == if offset < capacity {
            offset
        } else {
            offset - capacity
        },
{
    if offset < capacity {
        vstd::arithmetic::div_mod::lemma_fundamental_div_mod_converse(offset, capacity, 0, offset);
    } else {
        vstd::arithmetic::div_mod::lemma_fundamental_div_mod_converse(offset, capacity, 1, offset - capacity);
    }
}

/// The bytes in use between two offsets below twice the capacity.
proof fn lemma_used_bytes_value(read: int, write: int, capacity: int)
    requires
        capacity > 0,
        0 <= read < capacity * 2,
        0 <= write < capacity * 2,
    ensures
        used_bytes(read, write, capacity) == if write >= read {
            write - read
        } else {
            write - read + capacity * 2
        },
{
    if write >= read {
        vstd::arithmetic::div_mod::lemma_fundamental_div_mod_converse(write - read, capacity * 2, 0, write - read);
    } else {
        vstd::arithmetic::div_mod::lemma_fundamental_div_mod_converse(
            write - read,
            capacity * 2,
            -1,
            write - read + capacity * 2,
        );
    }
}

/// On consistent offsets the capacity check lets a message in exactly when it
/// fits in the bytes that pending messages leave free.
pub proof fn lemma_capacity_check_is_free_space(read: u64, write: u64, capacity: u64, message_length: u64)
    requires
        offsets_consistent(read as int, write as int, capacity as int),
        message_length > 0,
    ensures
        capacity_admits(read, write, capacity, message_length) <==> message_length <= capacity
            - used_bytes(read as int, write as int, capacity as int),
{
    lemma_offset_in_ring(read as int, capacity as int);
    lemma_offset_in_ring(write as int, capacity as int);
    lemma_used_bytes_value(read as int, write as int, capacity as int);
}

/// An enqueue that the capacity check lets in keeps the offsets consistent
/// and takes the padded length of the message from the free bytes.
pub proof fn lemma_enqueue_keeps_offsets_consistent(m: QueueMemory, message: Seq<u8>)
    requires
        m.enqueue_defined(message.len() as int),
        m.admits(message.len() as int),
        offsets_consistent(m.read_offset() as int, m.write_offset() as int, m.capacity()),
    ensures
        ({
            let n = m.after_enqueue(message);
            &&& n.read_offset() == m.read_offset()
            &&& n.read_lock() == m.read_lock()
            &&& n.capacity() == m.capacity()
            &&& offsets_consistent(n.read_offset() as int, n.write_offset() as int, n.capacity())
            &&& used_bytes(n.read_offset() as int, n.write_offset() as int, n.capacity())
                == used_bytes(m.read_offset() as int, m.write_offset() as int, m.capacity())
                + padded_length(message.len() as int)
        }),
{
    let cap = m.capacity();
    let len = message.len() as int;
    let r = m.read_offset() as int;
    let w = m.write_offset() as int;
    let p = padded_length(len);
    let x = next_offset(w, p, cap);
    let n = m.after_enqueue(message);
    lemma_capacity_check_is_free_space(m.read_offset(), m.write_offset(), cap as u64, p as u64);
    lemma_u64_field_store(m.header, WRITE_OFFSET_AT as int, x as u64);
    lemma_u64_field_other(m.header, WRITE_OFFSET_AT as int, x as u64, READ_OFFSET_AT as int);
    lemma_u64_field_other(m.header, WRITE_OFFSET_AT as int, x as u64, READ_LOCK_AT as int);
    // The ring keeps its length.
    let o = m.message_at(m.write_offset());
    let b1 = with_u32_field(m.buffer, o + MESSAGE_BODY_LENGTH_AT, len as u32);
    lemma_u32_field_store(m.buffer, o + MESSAGE_BODY_LENGTH_AT, len as u32);
    lemma_ring_write_len(b1, w + MESSAGE_HEADER_SIZE, message);
    lemma_u32_field_store(
        ring_write(b1, w + MESSAGE_HEADER_SIZE, message),
        o + MESSAGE_STATE_AT,
        state_ready(),
    );
    assert(n.capacity() == cap);
    if w + p < cap * 2 {
        vstd::arithmetic::div_mod::lemma_fundamental_div_mod_converse(w + p, cap * 2, 0, w + p);
    } else {
        vstd::arithmetic::div_mod::lemma_fundamental_div_mod_converse(w + p, cap * 2, 1, w + p - cap * 2);
    }
    lemma_used_bytes_value(r, w, cap);
    lemma_used_bytes_value(r, x, cap);
}

/// Consuming a message whose padded length lies within the pending bytes
/// keeps the offsets consistent and frees exactly that many bytes.
pub proof fn lemma_dequeue_keeps_offsets_consistent(m: QueueMemory)
    requires
        m.dequeue_defined(m.pending_body_length() as int),
        m.read_lock() == 0,
        !m.is_empty(),
        m.message_ready(),
        offsets_consistent(m.read_offset() as int, m.write_offset() as int, m.capacity()),
        padded_length(m.pending_body_length() as int) <= used_bytes(
            m.read_offset() as int,
            m.write_offset() as int,
            m.capacity(),
        ),
    ensures
        ({
            let n = m.after_dequeue();
            &&& n.write_offset() == m.write_offset()
            &&& offsets_consistent(n.read_offset() as int, n.write_offset() as int, n.capacity())
            &&& used_bytes(n.read_offset() as int, n.write_offset() as int, n.capacity())
                == used_bytes(m.read_offset() as int, m.write_offset() as int, m.capacity())
                - padded_length(m.pending_body_length() as int)
        }),
{
    let cap = m.capacity();
    let r = m.read_offset() as int;
    let w = m.write_offset() as int;
    let p = padded_length(m.pending_body_length() as int);
    let x = next_offset(r, p, cap);
    let n = m.after_dequeue();
    lemma_u64_field_store(m.header, READ_OFFSET_AT as int, x as u64);
    lemma_u64_field_other(m.header, READ_OFFSET_AT as int, x as u64, WRITE_OFFSET_AT as int);
    let locked = m.locked_buffer();
    lemma_u32_field_store(m.buffer, m.message_at(m.read_offset()) + MESSAGE_STATE_AT, state_locked());
    lemma_ring_write_len(locked, r, zeros(p as nat));
    assert(n.capacity() == cap);
    if r + p < cap * 2 {
        vstd::arithmetic::div_mod::lemma_fundamental_div_mod_converse(r + p, cap * 2, 0, r + p);
    } else {
        vstd::arithmetic::div_mod::lemma_fundamental_div_mod_converse(r + p, cap * 2, 1, r + p - cap * 2);
    }
    lemma_used_bytes_value(r, w, cap);
    lemma_used_bytes_value(x, w, cap);
}

/// A read attempt leaves the read lock as it found it, never moves the write
/// offset and keeps the size of the ring.
pub proof fn lemma_read_attempt_keeps_lock_and_write_offset(
    before: QueueMemory,
    after: QueueMemory,
    out_before: Seq<u8>,
    out_after: Seq<u8>,
    r: Result<usize, SubscriberError>,
    start: u64,
)
    requires
        before.dequeue_defined(out_before.len() as int),
        dequeue_outcome(before, after, out_before, out_after, r, start),
    ensures
        after.read_lock() == before.read_lock(),
        after.write_offset() == before.write_offset(),
        after.capacity() == before.capacity(),
{
    if before.read_lock() == 0 && !before.is_empty() {
        if before.message_ready() {
            let x = next_offset(
                before.read_offset() as int,
                padded_length(before.pending_body_length() as int),
                before.capacity(),
            ) as u64;
            lemma_u64_field_other(before.header, READ_OFFSET_AT as int, x, READ_LOCK_AT as int);
            lemma_u64_field_other(before.header, READ_OFFSET_AT as int, x, WRITE_OFFSET_AT as int);
            lemma_u32_field_store(
                before.buffer,
                before.message_at(before.read_offset()) + MESSAGE_STATE_AT,
                state_locked(),
            );
            lemma_ring_write_len(
                before.locked_buffer(),
                before.read_offset() as int,
                zeros(padded_length(before.pending_body_length() as int) as nat),
            );
        } else {
            let w = before.write_offset();
            lemma_u64_field_other(before.header, READ_OFFSET_AT as int, w, READ_LOCK_AT as int);
            lemma_u64_field_other(before.header, READ_OFFSET_AT as int, w, WRITE_OFFSET_AT as int);
        }
    }
}

/// An enqueue that the capacity check lets in leaves every byte of the
/// pending messages as it was.
pub proof fn lemma_enqueue_keeps_pending_messages(m: QueueMemory, message: Seq<u8>, k: int)
    requires
        m.enqueue_defined(message.len() as int),
        m.admits(message.len() as int),
        offsets_consistent(m.read_offset() as int, m.write_offset() as int, m.capacity()),
        0 <= k < m.capacity(),
        ring_distance(m.capacity(), m.read_offset() as int, k) < used_bytes(
            m.read_offset() as int,
            m.write_offset() as int,
            m.capacity(),
        ),
    ensures
        m.after_enqueue(message).buffer[k] == m.buffer[k],
{
    let cap = m.capacity();
    let r = m.read_offset() as int;
    let w = m.write_offset() as int;
    let len = message.len() as int;
    lemma_padded_length(len);
    lemma_capacity_check_is_free_space(m.read_offset(), m.write_offset(), cap as u64, padded_length(len) as u64);
    lemma_offset_in_ring(r, cap);
    lemma_offset_in_ring(w, cap);
    lemma_used_bytes_value(r, w, cap);
    let ow = ring_start(cap, w);
    assert(ring_distance(cap, w, k) >= len + MESSAGE_HEADER_SIZE);
    let b1 = with_u32_field(m.buffer, ow + MESSAGE_BODY_LENGTH_AT, len as u32);
    lemma_u32_field_store(m.buffer, ow + MESSAGE_BODY_LENGTH_AT, len as u32);
    lemma_ring_start_advance(cap, w, MESSAGE_HEADER_SIZE as int);
    lemma_ring_write_index(b1, w + MESSAGE_HEADER_SIZE, message, k);
    assert(ring_distance(cap, w + MESSAGE_HEADER_SIZE, k) >= len);
    let b2 = ring_write(b1, w + MESSAGE_HEADER_SIZE, message);
    lemma_u32_field_store(b2, ow + MESSAGE_STATE_AT, state_ready());
}

/// An enqueue that the capacity check lets in does not change what the next
/// read attempt finds: the message at the read offset keeps its state, its
/// body length and its body, and the read offset and the lock stay put.
pub proof fn lemma_enqueue_keeps_next_read(m: QueueMemory, message: Seq<u8>)
    requires
        m.enqueue_defined(message.len() as int),
        m.admits(message.len() as int),
        offsets_consistent(m.read_offset() as int, m.write_offset() as int, m.capacity()),
        raw_access_ok(m.capacity(), m.read_offset() as int, MESSAGE_HEADER_SIZE as int),
        padded_length(m.pending_body_length() as int) <= used_bytes(
            m.read_offset() as int,
            m.write_offset() as int,
            m.capacity(),
        ),
    ensures
        ({
            let n = m.after_enqueue(message);
            &&& n.read_offset() == m.read_offset()
            &&& n.read_lock() == m.read_lock()
            &&& !n.is_empty()
            &&& n.message_state(n.read_offset()) == m.message_state(m.read_offset())
            &&& n.pending_body_length() == m.pending_body_length()
            &&& n.dequeued_body() == m.dequeued_body()
        }),
{
    let cap = m.capacity();
    let r = m.read_offset() as int;
    let n = m.after_enqueue(message);
    let used = used_bytes(r, m.write_offset() as int, cap);
    let o = m.message_at(m.read_offset());
    let len = m.pending_body_length() as int;
    lemma_padded_length(len);
    lemma_enqueue_keeps_offsets_consistent(m, message);
    assert(n.capacity() == cap);
    assert(n.message_at(n.read_offset()) == o);
    // The message header lies within the pending bytes.
    assert forall|k: int| o <= k < o + MESSAGE_HEADER_SIZE implies #[trigger] n.buffer[k] == m.buffer[k] by {
        assert(ring_distance(cap, r, k) == k - o);
        lemma_enqueue_keeps_pending_messages(m, message, k);
    }
    lemma_u32_field_frame(n.buffer, m.buffer, o + MESSAGE_STATE_AT);
    lemma_u32_field_frame(n.buffer, m.buffer, o + MESSAGE_BODY_LENGTH_AT);
    // So does the body, which the lock leaves alone.
    lemma_ring_start_advance(cap, r, MESSAGE_HEADER_SIZE as int);
    let nl = n.locked_buffer();
    let ml = m.locked_buffer();
    lemma_u32_field_store(n.buffer, o + MESSAGE_STATE_AT, state_locked());
    lemma_u32_field_store(m.buffer, o + MESSAGE_STATE_AT, state_locked());
    lemma_ring_read_len(nl, r + MESSAGE_HEADER_SIZE, len);
    lemma_ring_read_len(ml, r + MESSAGE_HEADER_SIZE, len);
    assert forall|i: int| 0 <= i < len implies #[trigger] n.dequeued_body()[i] == m.dequeued_body()[i] by {
        lemma_ring_read_index(nl, r + MESSAGE_HEADER_SIZE, len, i);
        lemma_ring_read_index(ml, r + MESSAGE_HEADER_SIZE, len, i);
        let p = ring_position(cap, r + MESSAGE_HEADER_SIZE, i);
        assert(ring_distance(cap, r, p) == MESSAGE_HEADER_SIZE + i);
        lemma_enqueue_keeps_pending_messages(m, message, p);
    }
    assert(n.dequeued_body() =~= m.dequeued_body());
    assert(!n.is_empty()) by {
        lemma_padded_length(message.len() as int);
        lemma_used_bytes_value(n.read_offset() as int, n.write_offset() as int, cap);
    }
}

/// Positions `d` bytes or more past the start position of `offset` lie `d`
/// bytes further from it than from the start position of `offset + d`.
proof fn lemma_ring_distance_shift(cap: int, offset: int, d: int, k: int)
    requires
        cap > 0,
        0 <= d <= cap,
        0 <= k < cap,
        ring_distance(cap, offset + d, k) < cap - d,
    ensures
        ring_distance(cap, offset, k) == d + ring_distance(cap, offset + d, k),
{
    let o = ring_start(cap, offset);
    let q = offset / cap;
    vstd::arithmetic::div_mod::lemma_fundamental_div_mod(offset, cap);
    vstd::arithmetic::mul::lemma_mul_is_commutative(cap, q);
    if o + d < cap {
        vstd::arithmetic::div_mod::lemma_fundamental_div_mod_converse(offset + d, cap, q, o + d);
    } else {
        vstd::arithmetic::mul::lemma_mul_is_distributive_add_other_way(cap, q, 1);
        vstd::arithmetic::div_mod::lemma_fundamental_div_mod_converse(offset + d, cap, q + 1, o + d - cap);
    }
}

/// Consuming the message at the read offset leaves every byte past its
/// padded length as it was.
pub proof fn lemma_dequeue_keeps_later_bytes(m: QueueMemory, k: int)
    requires
        m.dequeue_defined(m.pending_body_length() as int),
        m.read_lock() == 0,
        !m.is_empty(),
        m.message_ready(),
        padded_length(m.pending_body_length() as int) <= m.capacity(),
        0 <= k < m.capacity(),
        ring_distance(m.capacity(), m.read_offset() as int, k) >= padded_length(m.pending_body_length() as int),
    ensures
        m.after_dequeue().buffer[k] == m.buffer[k],
{
    let p = padded_length(m.pending_body_length() as int);
    let o = m.message_at(m.read_offset());
    lemma_padded_length(m.pending_body_length() as int);
    lemma_u32_field_store(m.buffer, o + MESSAGE_STATE_AT, state_locked());
    lemma_ring_write_index(m.locked_buffer(), m.read_offset() as int, zeros(p as nat), k);
}

/// Two messages enqueued in turn on an empty queue come out in the order
/// they went in: the next read attempt hands out the first, the one after it
/// the second, and then the queue is empty again.
pub proof fn lemma_messages_dequeue_in_enqueue_order(
    m: QueueMemory,
    first: Seq<u8>,
    second: Seq<u8>,
    result_len: int,
)
    requires
        m.enqueue_defined(first.len() as int),
        m.after_enqueue(first).enqueue_defined(second.len() as int),
        m.read_lock() == 0,
        m.is_empty(),
        offsets_consistent(m.read_offset() as int, m.write_offset() as int, m.capacity()),
        padded_length(first.len() as int) + padded_length(second.len() as int) <= m.capacity(),
        first.len() <= u32::MAX,
        second.len() <= u32::MAX,
        first.len() <= result_len,
        second.len() <= result_len,
    ensures
        m.admits(first.len() as int),
        m.after_enqueue(first).admits(second.len() as int),
        ({
            let n = m.after_enqueue(first).after_enqueue(second);
            let d = n.after_dequeue();
            &&& n.dequeue_defined(result_len)
            &&& n.read_lock() == 0
            &&& !n.is_empty()
            &&& n.message_ready()
            &&& n.pending_body_length() == first.len()
            &&& n.dequeued_body() == first
            &&& d.dequeue_defined(result_len)
            &&& d.read_lock() == 0
            &&& !d.is_empty()
            &&& d.message_ready()
            &&& d.pending_body_length() == second.len()
            &&& d.dequeued_body() == second
            &&& d.after_dequeue().is_empty()
        }),
{
    let cap = m.capacity();
    let a = first.len() as int;
    let b = second.len() as int;
    let pa = padded_length(a);
    let pb = padded_length(b);
    lemma_padded_length(a);
    lemma_padded_length(b);
    let r = m.read_offset() as int;

    // The first message alone.
    lemma_dequeue_returns_enqueued(m, first, result_len);
    let n1 = m.after_enqueue(first);
    let w1 = n1.write_offset();
    lemma_enqueue_keeps_offsets_consistent(m, first);
    lemma_used_bytes_value(r, r, cap);
    lemma_capacity_check_is_free_space(n1.read_offset(), n1.write_offset(), cap as u64, pb as u64);
    assert(n1.admits(b));

    // The second enqueue leaves the first message in front.
    lemma_enqueue_keeps_next_read(n1, second);
    let n = n1.after_enqueue(second);
    lemma_enqueue_keeps_offsets_consistent(n1, second);
    lemma_u64_field_store(n1.header, WRITE_OFFSET_AT as int, next_offset(w1 as int, pb, cap) as u64);
    assert(n.write_offset() == next_offset(w1 as int, pb, cap));

    // The second message, as laid out.
    lemma_enqueued_message_reads_back(n1, second);
    let o1 = n1.message_at(w1);

    // Consuming the first message moves the read offset onto the second.
    let d = n.after_dequeue();
    lemma_u64_field_store(n.header, READ_OFFSET_AT as int, next_offset(r, pa, cap) as u64);
    lemma_u64_field_other(n.header, READ_OFFSET_AT as int, next_offset(r, pa, cap) as u64, WRITE_OFFSET_AT as int);
    lemma_u64_field_other(n.header, READ_OFFSET_AT as int, next_offset(r, pa, cap) as u64, READ_LOCK_AT as int);
    lemma_u64_field_store(m.header, WRITE_OFFSET_AT as int, next_offset(r, pa, cap) as u64);
    assert(d.read_offset() == w1);
    assert(d.write_offset() == n.write_offset());
    assert(d.read_lock() == 0);
    lemma_u32_field_store(n.buffer, n.message_at(n.read_offset()) + MESSAGE_STATE_AT, state_locked());
    lemma_ring_write_len(n.locked_buffer(), r, zeros(pa as nat));
    assert(d.capacity() == cap);

    // The second message starts `pa` bytes past the first.
    vstd::arithmetic::div_mod::lemma_mod_mod(r + pa, cap, 2);
    assert(ring_start(cap, w1 as int) == ring_start(cap, r + pa));
    assert forall|k: int| 0 <= k < cap && ring_distance(cap, w1 as int, k) < MESSAGE_HEADER_SIZE + b implies #[trigger] d.buffer[k]
        == n.buffer[k] by {
        lemma_ring_distance_shift(cap, r, pa, k);
        lemma_dequeue_keeps_later_bytes(n, k);
    }
    lemma_ring_start_advance(cap, w1 as int, MESSAGE_HEADER_SIZE as int);
    assert forall|k: int| o1 <= k < o1 + MESSAGE_HEADER_SIZE implies #[trigger] d.buffer[k] == n.buffer[k] by {
        assert(ring_distance(cap, w1 as int, k) == k - o1);
    }
    lemma_u32_field_frame(d.buffer, n.buffer, o1 + MESSAGE_STATE_AT);
    lemma_u32_field_frame(d.buffer, n.buffer, o1 + MESSAGE_BODY_LENGTH_AT);
    assert(d.message_ready());
    assert(d.pending_body_length() == b);

    // Its body reads back from the memory after the first was consumed.
    let dl = d.locked_buffer();
    let nl = with_u32_field(n.buffer, o1 + MESSAGE_STATE_AT, state_locked());
    lemma_u32_field_store(d.buffer, o1 + MESSAGE_STATE_AT, state_locked());
    lemma_u32_field_store(n.buffer, o1 + MESSAGE_STATE_AT, state_locked());
    lemma_ring_read_len(dl, w1 + MESSAGE_HEADER_SIZE, b);
    lemma_ring_read_len(nl, w1 + MESSAGE_HEADER_SIZE, b);
    assert forall|i: int| 0 <= i < b implies #[trigger] d.dequeued_body()[i] == second[i] by {
        lemma_ring_read_index(dl, w1 + MESSAGE_HEADER_SIZE, b, i);
        lemma_ring_read_index(nl, w1 + MESSAGE_HEADER_SIZE, b, i);
        let p = ring_position(cap, w1 + MESSAGE_HEADER_SIZE, i);
        assert(ring_distance(cap, w1 as int, p) == MESSAGE_HEADER_SIZE + i);
        assert(d.buffer[p] == n.buffer[p]);
    }
    assert(d.dequeued_body() =~= second);

    // Consuming the second message empties the queue.
    let e = d.after_dequeue();
    lemma_u64_field_store(d.header, READ_OFFSET_AT as int, next_offset(w1 as int, pb, cap) as u64);
    lemma_u64_field_other(d.header, READ_OFFSET_AT as int, next_offset(w1 as int, pb, cap) as u64, WRITE_OFFSET_AT as int);
    assert(e.is_empty());
}

/// A read attempt that finds the lock free and the read offset apart from
/// the write offset never answers that there is no message: pending
/// messages, a full ring among them, are always found.
pub proof fn lemma_pending_message_is_never_missed(
    before: QueueMemory,
    after: QueueMemory,
    out_before: Seq<u8>,
    out_after: Seq<u8>,
    r: Result<usize, SubscriberError>,
    start: u64,
)
    requires
        before.read_lock() == 0,
        before.read_offset() != before.write_offset(),
        dequeue_outcome(before, after, out_before, out_after, r, start),
    ensures
        r != Err::<usize, SubscriberError>(SubscriberError::NoMessages),
{
}

/// The same for a read attempt that reads the clock itself: with the lock
/// free and a message pending, it never answers that there is no message.
pub proof fn lemma_pending_message_is_never_missed_by_an_attempt(
    before: QueueMemory,
    after: QueueMemory,
    out_before: Seq<u8>,
    out_after: Seq<u8>,
    r: Result<usize, SubscriberError>,
)
    requires
        before.read_lock() == 0,
        before.read_offset() != before.write_offset(),
        read_attempt_outcome(before, after, out_before, out_after, r),
    ensures
        r != Err::<usize, SubscriberError>(SubscriberError::NoMessages),
{
}

/// A read attempt right after a message was enqueued on an empty queue that
/// no reader holds hands out exactly that message, wherever it lies in the
/// ring and also when it fills the whole ring: it answers the message's
/// length, the result buffer starts with the message's bytes in order and
/// keeps the rest, and the queue is empty and unlocked again.
pub proof fn lemma_read_attempt_returns_enqueued_message(
    m: QueueMemory,
    message: Seq<u8>,
    after: QueueMemory,
    out_before: Seq<u8>,
    out_after: Seq<u8>,
    r: Result<usize, SubscriberError>,
    start: u64,
)
    requires
        m.enqueue_defined(message.len() as int),
        m.read_lock() == 0,
        m.is_empty(),
        padded_length(message.len() as int) <= m.capacity(),
        message.len() <= u32::MAX,
        message.len() <= out_before.len(),
        dequeue_outcome(m.after_enqueue(message), after, out_before, out_after, r, start),
    ensures
        r == Ok::<usize, SubscriberError>(message.len() as usize),
        out_after.len() == out_before.len(),
        out_after.subrange(0, message.len() as int) == message,
        out_after.subrange(message.len() as int, out_after.len() as int) == out_before.subrange(
            message.len() as int,
            out_before.len() as int,
        ),
        after.is_empty(),
        after.read_lock() == 0,
{
    let len = message.len() as int;
    lemma_dequeue_returns_enqueued(m, message, out_before.len() as int);
    let n = m.after_enqueue(message);
    assert(out_after == n.dequeued_body() + out_before.subrange(len, out_before.len() as int));
    assert(out_after.subrange(0, len) =~= message);
    assert(out_after.subrange(len, out_after.len() as int) =~= out_before.subrange(len, out_before.len() as int));
}

/// The same for a read attempt that reads the clock itself: right after a
/// message was enqueued on an empty queue that no reader holds, it either
/// reports the clock unavailable and changes nothing, or hands out exactly
/// that message.
pub proof fn lemma_attempt_returns_enqueued_message(
    m: QueueMemory,
    message: Seq<u8>,
    after: QueueMemory,
    out_before: Seq<u8>,
    out_after: Seq<u8>,
    r: Result<usize, SubscriberError>,
)
    requires
        m.enqueue_defined(message.len() as int),
        m.read_lock() == 0,
        m.is_empty(),
        padded_length(message.len() as int) <= m.capacity(),
        message.len() <= u32::MAX,
        message.len() <= out_before.len(),
        read_attempt_outcome(m.after_enqueue(message), after, out_before, out_after, r),
    ensures
        r == Err::<usize, SubscriberError>(SubscriberError::ClockUnavailable) ==> after == m.after_enqueue(
            message,
        ) && out_after == out_before,
        r != Err::<usize, SubscriberError>(SubscriberError::ClockUnavailable) ==> {
            &&& r == Ok::<usize, SubscriberError>(message.len() as usize)
            &&& out_after.subrange(0, message.len() as int) == message
            &&& after.is_empty()
        },
{
    if r != Err::<usize, SubscriberError>(SubscriberError::ClockUnavailable) {
        let start = choose|start: u64|
            #[trigger] dequeue_outcome(m.after_enqueue(message), after, out_before, out_after, r, start);
        lemma_read_attempt_returns_enqueued_message(m, message, after, out_before, out_after, r, start);
    }
}

/// Two messages enqueued in turn on an empty queue are handed out by the
/// next two read attempts in the order they went in, each exactly as it was
/// enqueued, and then the queue is empty.
pub proof fn lemma_read_attempts_return_messages_in_order(
    m: QueueMemory,
    first: Seq<u8>,
    second: Seq<u8>,
    middle: QueueMemory,
    after: QueueMemory,
    out0: Seq<u8>,
    out1: Seq<u8>,
    out2: Seq<u8>,
    out3: Seq<u8>,
    r1: Result<usize, SubscriberError>,
    r2: Result<usize, SubscriberError>,
    start1: u64,
    start2: u64,
)
    requires
        m.enqueue_defined(first.len() as int),
        m.after_enqueue(first).enqueue_defined(second.len() as int),
        m.read_lock() == 0,
        m.is_empty(),
        offsets_consistent(m.read_offset() as int, m.write_offset() as int, m.capacity()),
        padded_length(first.len() as int) + padded_length(second.len() as int) <= m.capacity(),
        first.len() <= u32::MAX,
        second.len() <= u32::MAX,
        first.len() <= out0.len(),
        second.len() <= out2.len(),
        dequeue_outcome(m.after_enqueue(first).after_enqueue(second), middle, out0, out1, r1, start1),
        dequeue_outcome(middle, after, out2, out3, r2, start2),
    ensures
        r1 == Ok::<usize, SubscriberError>(first.len() as usize),
        out1.subrange(0, first.len() as int) == first,
        r2 == Ok::<usize, SubscriberError>(second.len() as usize),
        out3.subrange(0, second.len() as int) == second,
        after.is_empty(),
        after.read_lock() == 0,
{
    let a = first.len() as int;
    let b = second.len() as int;
    let len = if a < b {
        b
    } else {
        a
    };
    lemma_messages_dequeue_in_enqueue_order(m, first, second, len);
    let n = m.after_enqueue(first).after_enqueue(second);
    assert(out1.subrange(0, a) =~= first);
    let d = n.after_dequeue();
    assert(middle == d);
    assert(out3.subrange(0, b) =~= second);
    // The queue is unlocked after the second attempt.
    let x = next_offset(d.read_offset() as int, padded_length(b), d.capacity()) as u64;
    lemma_u64_field_other(d.header, READ_OFFSET_AT as int, x, READ_LOCK_AT as int);
}

/// `dequeue` on an empty queue that no reader holds, where every attempt
/// finds no message, does not give up early: unless the clock fails, it
/// reports a timed-out reader only after all `u64::MAX` of its attempts
/// found no message, and it changes nothing.
pub proof fn lemma_dequeue_gives_up_only_after_every_attempt(
    before: QueueMemory,
    after: QueueMemory,
    out_before: Seq<u8>,
    out_after: Seq<u8>,
    r: Result<usize, SubscriberError>,
    calls_before: Seq<SignalCall>,
    calls_after: Seq<SignalCall>,
)
    requires
        before.read_lock() == 0,
        before.is_empty(),
        dequeue_result(before, after, out_before, out_after, r),
        dequeue_run(before, after, out_before, out_after, r, calls_before, calls_after),
    ensures
        after == before,
        out_after == out_before,
        r == Err::<usize, SubscriberError>(SubscriberError::ClockUnavailable) || (r == Err::<
            usize,
            SubscriberError,
        >(SubscriberError::OtherReaderTimedOut) && calls_after == calls_before
            + failed_attempt_calls(u64::MAX as nat) + seq![SignalCall::Post]),
{
    let failed = choose|failed: nat|
        #[trigger] dequeue_run_with(before, after, out_before, out_after, r, calls_before, calls_after, failed);
}

/// `dequeue` right after a message was enqueued on an empty queue that no
/// reader holds hands out exactly that message, unless the clock fails, in
/// which case it changes nothing.
pub proof fn lemma_dequeue_returns_enqueued_message(
    m: QueueMemory,
    message: Seq<u8>,
    after: QueueMemory,
    out_before: Seq<u8>,
    out_after: Seq<u8>,
    r: Result<usize, SubscriberError>,
)
    requires
        m.enqueue_defined(message.len() as int),
        m.read_lock() == 0,
        m.is_empty(),
        padded_length(message.len() as int) <= m.capacity(),
        message.len() <= u32::MAX,
        message.len() <= out_before.len(),
        dequeue_result(m.after_enqueue(message), after, out_before, out_after, r),
    ensures
        r == Err::<usize, SubscriberError>(SubscriberError::ClockUnavailable) ==> after == m.after_enqueue(
            message,
        ) && out_after == out_before,
        r != Err::<usize, SubscriberError>(SubscriberError::ClockUnavailable) ==> {
            &&& r == Ok::<usize, SubscriberError>(message.len() as usize)
            &&& out_after.subrange(0, message.len() as int) == message
            &&& after.is_empty()
        },
{
    let n = m.after_enqueue(message);
    lemma_dequeue_returns_enqueued(m, message, out_before.len() as int);
    if read_attempt_outcome(n, after, out_before, out_after, r) {
        lemma_attempt_returns_enqueued_message(m, message, after, out_before, out_after, r);
    } else {
        // Giving up would take an attempt that found no message pending.
        assert(read_attempt_outcome(
            n,
            n,
            out_before,
            out_before,
            Err::<usize, SubscriberError>(SubscriberError::NoMessages),
        ));
        lemma_pending_message_is_never_missed_by_an_attempt(
            n,
            n,
            out_before,
            out_before,
            Err::<usize, SubscriberError>(SubscriberError::NoMessages),
        );
    }
}

/// A read attempt that finds the read lock taken changes nothing: it answers
/// that there is no message while the lock is younger than 10 seconds at the
/// attempt's start, and that the other reader timed out once it is older.
pub proof fn lemma_held_lock_is_left_alone(
    before: QueueMemory,
    after: QueueMemory,
    out_before: Seq<u8>,
    out_after: Seq<u8>,
    r: Result<usize, SubscriberError>,
    start: u64,
)
    requires
        before.read_lock() != 0,
        dequeue_outcome(before, after, out_before, out_after, r, start),
    ensures
        after == before,
        out_after == out_before,
        start.wrapping_sub(before.read_lock()) < TEN_SECONDS_TICKS ==> r == Err::<usize, SubscriberError>(
            SubscriberError::NoMessages,
        ),
        start.wrapping_sub(before.read_lock()) >= TEN_SECONDS_TICKS ==> r == Err::<usize, SubscriberError>(
            SubscriberError::OtherReaderTimedOut,
        ),
{
}

/// A read attempt that finds a pending message that is not ready gives up on
/// the writer: it reads nothing, skips every pending message by moving the
/// read offset to the write offset, and leaves the lock free and the ring
/// as it was.
pub proof fn lemma_unready_message_times_the_writer_out(
    before: QueueMemory,
    after: QueueMemory,
    out_before: Seq<u8>,
    out_after: Seq<u8>,
    r: Result<usize, SubscriberError>,
    start: u64,
)
    requires
        before.well_formed(),
        before.read_lock() == 0,
        !before.is_empty(),
        before.message_state(before.read_offset()) != state_ready(),
        dequeue_outcome(before, after, out_before, out_after, r, start),
    ensures
        r == Err::<usize, SubscriberError>(SubscriberError::WriterTimedOut),
        out_after == out_before,
        after.read_offset() == before.write_offset(),
        after.write_offset() == before.write_offset(),
        after.read_lock() == 0,
        after.is_empty(),
        after.buffer == before.buffer,
{
    let w = before.write_offset();
    lemma_u64_field_store(before.header, READ_OFFSET_AT as int, w);
    lemma_u64_field_other(before.header, READ_OFFSET_AT as int, w, WRITE_OFFSET_AT as int);
    lemma_u64_field_other(before.header, READ_OFFSET_AT as int, w, READ_LOCK_AT as int);
}

} // verus!
