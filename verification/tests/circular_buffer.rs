use shm_queue::circular_buffer::CircularBuffer;

#[test]
fn read_contiguous() {
    let mut slice = [0; 128];

    let mut read_head = [0; 64];
    {
        let mut index = 0;
        for target in slice.as_mut_slice() {
            *target = index;
            index = index + 1;
        }

        let buffer = CircularBuffer::new(slice.as_mut_slice());

        buffer.read_raw(0, read_head.as_mut_slice());
    }

    assert_eq!(read_head.as_slice(), &slice[0..64]);
}

#[test]
fn read_contiguous_wrapped() {
    let mut slice = [0; 128];

    let mut read_head = [0; 64];
    {
        let mut index = 0;
        for target in slice.as_mut_slice() {
            *target = index;
            index = index + 1;
        }

        let buffer = CircularBuffer::new(slice.as_mut_slice());

        buffer.read_raw(128, read_head.as_mut_slice());
    }

    assert_eq!(read_head.as_slice(), &slice[0..64]);
}

#[test]
fn read_wrapped() {
    let mut slice = [0; 128];

    let mut read_head = [0; 64];
    {
        let mut index = 0;
        for target in slice.as_mut_slice() {
            *target = index;
            index = index + 1;
        }

        let buffer = CircularBuffer::new(slice.as_mut_slice());

        buffer.read_raw(100, read_head.as_mut_slice());
    }

    assert_eq!(
        read_head.as_slice(),
        slice[100..]
            .iter()
            .chain(slice[..36].iter())
            .cloned()
            .collect::<Vec<_>>()
    );
}

#[test]
fn read_write_contiguous() {
    let mut slice = [0; 128];
    let mut buffer = CircularBuffer::new(slice.as_mut_slice());

    let mut write_content = [0; 64];
    let mut index = 0;
    for target in write_content.as_mut_slice() {
        *target = index;
        index = index + 1;
    }

    buffer.write_raw(0, write_content.as_slice());

    let mut read_content = [0; 64];
    buffer.read_raw(0, read_content.as_mut_slice());

    assert_eq!(write_content, read_content);
}

#[test]
fn read_write_contiguous_over_split() {
    let mut slice = [0; 128];
    let mut buffer = CircularBuffer::new(slice.as_mut_slice());

    let mut write_content = [0; 64];
    let mut index = 0;
    for target in write_content.as_mut_slice() {
        *target = index;
        index = index + 1;
    }

    buffer.write_raw(100, write_content.as_slice());

    let mut read_content = [0; 64];
    buffer.read_raw(100, &mut read_content);

    assert_eq!(write_content, read_content);
}

#[test]
fn capacity_is_slice_length() {
    let mut slice = [0u8; 24];
    let buffer = CircularBuffer::new(slice.as_mut_slice());
    assert_eq!(buffer.capacity(), 24);
}

#[test]
fn write_wraps_and_leaves_the_rest() {
    let mut slice = [7u8; 10];
    {
        let mut buffer = CircularBuffer::new(slice.as_mut_slice());
        buffer.write_raw(18, &[1, 2, 3, 4]);
    }
    // offset 18 in a ring of 10 starts at 8: two bytes at the end, two at the start
    assert_eq!(slice, [3, 4, 7, 7, 7, 7, 7, 7, 1, 2]);
}

#[test]
fn write_of_a_full_ring_reads_back() {
    let mut slice = [0u8; 8];
    let mut buffer = CircularBuffer::new(slice.as_mut_slice());
    let data = [10u8, 11, 12, 13, 14, 15, 16, 17];
    buffer.write_raw(5, &data);
    let mut out = [0u8; 8];
    buffer.read_raw(5, &mut out);
    assert_eq!(out, data);
}

#[test]
fn clear_zeroes_around_the_end() {
    let mut slice = [9u8; 10];
    {
        let mut buffer = CircularBuffer::new(slice.as_mut_slice());
        buffer.clear(7, 5);
        let mut out = [1u8; 5];
        buffer.read_raw(7, &mut out);
        assert_eq!(out, [0, 0, 0, 0, 0]);
    }
    assert_eq!(slice, [0, 0, 9, 9, 9, 9, 9, 0, 0, 0]);
}

#[test]
fn read_longer_than_the_ring_repeats_the_start() {
    let mut slice = [1u8, 2, 3, 4];
    let buffer = CircularBuffer::new(slice.as_mut_slice());
    let mut out = [0u8; 6];
    buffer.read_raw(2, &mut out);
    assert_eq!(out, [3, 4, 1, 2, 3, 4]);
}

#[test]
fn raw_bytes_reaches_an_aligned_object() {
    let mut slice = [0u8; 16];
    for (i, b) in slice.iter_mut().enumerate() {
        *b = i as u8;
    }
    let mut buffer = CircularBuffer::new(slice.as_mut_slice());
    assert_eq!(buffer.raw_bytes(16, 8), &[0, 1, 2, 3, 4, 5, 6, 7]);
    assert_eq!(buffer.raw_bytes(8, 8), &[8, 9, 10, 11, 12, 13, 14, 15]);
    buffer.raw_bytes_mut(24, 8)[0] = 99;
    assert_eq!(buffer.raw_bytes(8, 8), &[99, 9, 10, 11, 12, 13, 14, 15]);
}
