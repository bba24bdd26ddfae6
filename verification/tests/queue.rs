use shm_queue::clock::current_ticks;
use shm_queue::queue::{
    read_lock_held_error, Publisher, PublisherError, Queue, Subscriber, SubscriberError,
    TEN_SECONDS_TICKS,
};

fn u64_at(memory: &[u8], at: usize) -> u64 {
    u64::from_le_bytes(memory[at..at + 8].try_into().unwrap())
}

fn u32_at(memory: &[u8], at: usize) -> u32 {
    u32::from_le_bytes(memory[at..at + 4].try_into().unwrap())
}

#[test]
fn read_queued_message() {
    let mut memory = vec![0u8; 128];
    let memory = memory.as_mut_slice();
    let message = {
        let mut message = [0; 32];
        let mut index = 0;
        for target in message.as_mut_slice() {
            *target = index;
            index = index + 1;
        }
        message
    };

    let mut queue = Queue::new(memory, "TEST2").unwrap();

    let _ = queue.enqueue(&message);

    let mut output = [0; 64];
    let result = queue.dequeue(&mut output);

    assert_eq!(result.map(|size| &output[..size]), Ok(message.as_slice()));
}

#[test]
fn enqueue_lays_out_the_message() {
    let mut memory = vec![0u8; 128];
    {
        let mut queue = Queue::new(memory.as_mut_slice(), "TEST_LAYOUT").unwrap();
        assert_eq!(queue.enqueue(&[5, 6, 7]), Ok(()));
    }
    // 3 + 8 = 11 bytes, rounded up to a multiple of 8: 16
    assert_eq!(u64_at(&memory, 0), 0);
    assert_eq!(u64_at(&memory, 8), 16);
    assert_eq!(u64_at(&memory, 16), 0);
    // message header: ready, body length 3, then the body
    assert_eq!(u32_at(&memory, 32), 2);
    assert_eq!(u32_at(&memory, 36), 3);
    assert_eq!(&memory[40..43], &[5, 6, 7]);
}

#[test]
fn dequeue_clears_and_advances() {
    let mut memory = vec![0u8; 128];
    {
        let mut queue = Queue::new(memory.as_mut_slice(), "TEST_CLEAR").unwrap();
        assert_eq!(queue.enqueue(&[1; 8]), Ok(()));
        let mut output = [0u8; 8];
        assert_eq!(queue.try_dequeue(&mut output), Ok(8));
        assert_eq!(output, [1; 8]);
    }
    assert_eq!(u64_at(&memory, 0), 16);
    assert_eq!(u64_at(&memory, 8), 16);
    assert_eq!(u64_at(&memory, 16), 0);
    assert!(memory[32..].iter().all(|b| *b == 0));
}

#[test]
fn enqueue_of_an_oversized_message_fails() {
    let mut memory = vec![0u8; 64];
    let mut queue = Queue::new(memory.as_mut_slice(), "TEST_BIG").unwrap();
    // 32 + 8 bytes do not fit a ring of 32 bytes
    assert_eq!(queue.enqueue(&[0; 32]), Err(PublisherError::BufferCapacityTooLow));
}

#[test]
fn try_dequeue_of_an_empty_queue_finds_no_message() {
    let mut memory = vec![0u8; 128];
    {
        let mut queue = Queue::new(memory.as_mut_slice(), "TEST_EMPTY").unwrap();
        let mut output = [0u8; 16];
        assert_eq!(queue.try_dequeue(&mut output), Err(SubscriberError::NoMessages));
    }
    assert!(memory.iter().all(|b| *b == 0));
}

#[test]
fn try_dequeue_while_another_reader_holds_the_lock_finds_no_message() {
    let mut memory = vec![0u8; 128];
    memory[16..24].copy_from_slice(&current_ticks().unwrap().to_le_bytes());
    memory[8..16].copy_from_slice(&16u64.to_le_bytes());
    let before = memory.clone();
    {
        let mut queue = Queue::new(memory.as_mut_slice(), "TEST_LOCKED").unwrap();
        let mut output = [0u8; 16];
        assert_eq!(queue.try_dequeue(&mut output), Err(SubscriberError::NoMessages));
    }
    assert_eq!(memory, before);
}

#[test]
fn try_dequeue_with_a_stale_lock_reports_the_other_reader() {
    let mut memory = vec![0u8; 128];
    // a lock taken at tick 1, long ago
    memory[16..24].copy_from_slice(&1u64.to_le_bytes());
    let mut queue = Queue::new(memory.as_mut_slice(), "TEST_STALE").unwrap();
    let mut output = [0u8; 16];
    assert_eq!(
        queue.try_dequeue(&mut output),
        Err(SubscriberError::OtherReaderTimedOut)
    );
}

#[test]
fn two_messages_in_turn() {
    let mut memory = vec![0u8; 128];
    let mut queue = Queue::new(memory.as_mut_slice(), "TEST_TURNS").unwrap();
    let mut output = [0u8; 16];
    assert_eq!(queue.enqueue(&[]), Ok(()));
    assert_eq!(queue.dequeue(&mut output), Ok(0));
    // the empty message took 8 bytes; the next one starts at offset 8
    assert_eq!(queue.enqueue(&[4, 3, 2, 1, 0, 1, 2, 3]), Ok(()));
    assert_eq!(queue.dequeue(&mut output), Ok(8));
    assert_eq!(&output[..8], &[4, 3, 2, 1, 0, 1, 2, 3]);
}

#[test]
fn second_enqueue_keeps_the_pending_message() {
    let mut memory = vec![0u8; 128];
    let mut queue = Queue::new(memory.as_mut_slice(), "TEST_PENDING").unwrap();
    let mut output = [0u8; 16];
    // an empty message takes the first 8 bytes; the next one starts at 8
    assert_eq!(queue.enqueue(&[]), Ok(()));
    assert_eq!(queue.enqueue(&[9, 8, 7, 6, 5, 4, 3, 2]), Ok(()));
    assert_eq!(queue.try_dequeue(&mut output), Ok(0));
    assert_eq!(queue.try_dequeue(&mut output), Ok(8));
    assert_eq!(&output[..8], &[9, 8, 7, 6, 5, 4, 3, 2]);
}

#[test]
fn lock_held_error_depends_on_the_lock_age() {
    assert_eq!(read_lock_held_error(1_000 + TEN_SECONDS_TICKS - 1, 1_000), SubscriberError::NoMessages);
    assert_eq!(read_lock_held_error(1_000 + TEN_SECONDS_TICKS, 1_000), SubscriberError::OtherReaderTimedOut);
    assert_eq!(read_lock_held_error(1_000, 1_000), SubscriberError::NoMessages);
}

#[test]
fn try_dequeue_at_reports_by_the_lock_age() {
    let mut memory = vec![0u8; 128];
    memory[16..24].copy_from_slice(&5_000u64.to_le_bytes());
    memory[8..16].copy_from_slice(&16u64.to_le_bytes());
    let before = memory.clone();
    {
        let mut queue = Queue::new(memory.as_mut_slice(), "TEST_AT").unwrap();
        let mut output = [0u8; 16];
        assert_eq!(
            queue.try_dequeue_at(&mut output, 5_000 + TEN_SECONDS_TICKS - 1),
            Err(SubscriberError::NoMessages)
        );
        assert_eq!(
            queue.try_dequeue_at(&mut output, 5_000 + TEN_SECONDS_TICKS),
            Err(SubscriberError::OtherReaderTimedOut)
        );
    }
    assert_eq!(memory, before);
}

#[test]
fn message_never_marked_ready_times_the_writer_out() {
    let mut memory = vec![0u8; 128];
    // one pending message of 8 bytes whose header still says it is being written
    memory[8..16].copy_from_slice(&16u64.to_le_bytes());
    memory[36..40].copy_from_slice(&8u32.to_le_bytes());
    {
        let mut queue = Queue::new(memory.as_mut_slice(), "TEST_WRITER").unwrap();
        let mut output = [0u8; 16];
        assert_eq!(queue.try_dequeue(&mut output), Err(SubscriberError::WriterTimedOut));
        assert_eq!(output, [0u8; 16]);
    }
    // the pending message is skipped and the lock released
    assert_eq!(u64_at(&memory, 0), 16);
    assert_eq!(u64_at(&memory, 16), 0);
}

#[test]
fn queue_from_a_granted_semaphore_keeps_the_memory_layout() {
    let mut memory = vec![0u8; 64];
    let signal = shm_queue::sem::create_sem("TEST_FROM_SIGNAL");
    let mut queue = Queue::from_signal(memory.as_mut_slice(), signal).unwrap();
    assert_eq!(queue.enqueue(&[1, 2]), Ok(()));
    let mut output = [0u8; 4];
    assert_eq!(queue.try_dequeue(&mut output), Ok(2));
    assert_eq!(&output[..2], &[1, 2]);
}

#[test]
fn queue_from_a_refused_semaphore_fails() {
    let mut memory = vec![0u8; 64];
    let r = Queue::from_signal(memory.as_mut_slice(), Err(named_sem::Error::WaitTimeout));
    assert!(r.is_err());
}

#[test]
fn one_byte_message_takes_sixteen_bytes() {
    let mut memory = vec![0u8; 128];
    {
        let mut queue = Queue::new(memory.as_mut_slice(), "TEST_ONE_BYTE").unwrap();
        assert_eq!(queue.enqueue(&[42]), Ok(()));
        assert_eq!(queue.enqueue(&[43]), Ok(()));
    }
    assert_eq!(u64_at(&memory, 8), 32);
    // the second message header lies at ring position 16, 8-byte aligned
    assert_eq!(u32_at(&memory, 32 + 16), 2);
    assert_eq!(u32_at(&memory, 32 + 20), 1);
    assert_eq!(memory[32 + 24], 43);
}

#[test]
fn full_ring_refuses_a_message_that_fits_an_empty_one() {
    let mut memory = vec![0u8; 32 + 64];
    let mut queue = Queue::new(memory.as_mut_slice(), "TEST_FULL").unwrap();
    // 10 + 8 bytes take 24 in the ring
    assert_eq!(queue.enqueue(&[1; 10]), Ok(()));
    assert_eq!(queue.enqueue(&[2; 10]), Ok(()));
    assert_eq!(queue.enqueue(&[3; 10]), Err(PublisherError::QueueFull));
    // the refused message left the pending ones alone
    let mut output = [0u8; 16];
    assert_eq!(queue.try_dequeue(&mut output), Ok(10));
    assert_eq!(&output[..10], &[1; 10]);
    // now the third message fits, wrapping around the end of the ring
    assert_eq!(queue.enqueue(&[3; 10]), Ok(()));
    assert_eq!(queue.try_dequeue(&mut output), Ok(10));
    assert_eq!(&output[..10], &[2; 10]);
    assert_eq!(queue.try_dequeue(&mut output), Ok(10));
    assert_eq!(&output[..10], &[3; 10]);
    assert_eq!(queue.try_dequeue(&mut output), Err(SubscriberError::NoMessages));
}

#[test]
fn messages_come_out_in_the_order_they_went_in_across_the_ring_end() {
    let mut memory = vec![0u8; 32 + 48];
    let mut queue = Queue::new(memory.as_mut_slice(), "TEST_FIFO").unwrap();
    let mut output = [0u8; 32];
    for round in 0u8..20 {
        let first = [round; 5];
        let second = [round.wrapping_add(100); 13];
        assert_eq!(queue.enqueue(&first), Ok(()));
        assert_eq!(queue.enqueue(&second), Ok(()));
        assert_eq!(queue.dequeue(&mut output), Ok(5));
        assert_eq!(&output[..5], &first);
        assert_eq!(queue.dequeue(&mut output), Ok(13));
        assert_eq!(&output[..13], &second);
    }
}
