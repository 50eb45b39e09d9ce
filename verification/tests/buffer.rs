use unicode_normalization::buffer::{Buffer, INLINE_MAX};

#[test]
fn test_buffer_is_fifo() {
    let mut buffer: Buffer<usize> = Buffer::new();
    assert_eq!(None, buffer.pop_front());
    for i in 0..INLINE_MAX * 3 {
        buffer.push_back(i);
    }
    for i in 0..INLINE_MAX * 3 {
        assert_eq!(Some(i), buffer.pop_front());
    }
    assert_eq!(None, buffer.pop_front());
}

#[test]
fn test_buffer_sort_in_place() {
    let mut buffer: Buffer<usize> = Buffer::new();
    for i in 0..INLINE_MAX * 3 {
        for j in 0..i {
            buffer.push_back(i - j - 1);
        }
        buffer.mutate_in_place(|data: &mut [usize]| data.sort());
        for j in 0..i {
            assert_eq!(Some(j), buffer.pop_front());
        }
    }
}

#[test]
fn test_buffer_sort_before_push() {
    let mut buffer: Buffer<usize> = Buffer::new();
    for i in 0..INLINE_MAX * 3 {
        let inputs = (0..i).map(|j| i - j - 1).collect::<Vec<_>>();

        for j in &*inputs {
            buffer.mutate_and_push_back(*j, |data: &mut [usize]| data.sort());
        }
        let results = (0..i)
            .map(|_| buffer.pop_front().unwrap())
            .collect::<Vec<_>>();

        let mut expected = inputs.clone();
        if i > 1 {
            expected[0..i - 1].sort();
        }
        assert_eq!(expected, results);
    }
}

#[test]
fn buffer_size_follows_pushes_and_pops() {
    let mut buffer: Buffer<u32> = Buffer::new();
    assert_eq!(buffer.size(), 0);
    for i in 0..7 {
        buffer.push_back(i);
        assert_eq!(buffer.size(), i as usize + 1);
    }
    assert_eq!(buffer.pop_front(), Some(0));
    assert_eq!(buffer.size(), 6);
}

#[test]
fn buffer_is_fifo_after_mutating_a_spilled_buffer_behind_a_pop() {
    // Six items spill to the heap; one pop moves the front off zero.
    let mut buffer: Buffer<u32> = Buffer::new();
    for i in 0..6 {
        buffer.push_back(i);
    }
    assert_eq!(buffer.pop_front(), Some(0));
    buffer.mutate_in_place(|data: &mut [u32]| assert_eq!(data, &[1, 2, 3, 4, 5]));
    for i in 1..6 {
        assert_eq!(buffer.pop_front(), Some(i));
    }
    assert_eq!(buffer.pop_front(), None);
}

#[test]
fn buffer_is_fifo_after_mutate_and_push_on_a_spilled_buffer_behind_pops() {
    let mut buffer: Buffer<u32> = Buffer::new();
    for i in 0..8 {
        buffer.push_back(i);
    }
    assert_eq!(buffer.pop_front(), Some(0));
    assert_eq!(buffer.pop_front(), Some(1));
    buffer.mutate_and_push_back(8, |data: &mut [u32]| data.reverse());
    let drained: Vec<u32> = (0..7).map(|_| buffer.pop_front().unwrap()).collect();
    assert_eq!(drained, vec![7, 6, 5, 4, 3, 2, 8]);
    assert_eq!(buffer.pop_front(), None);
}

#[test]
fn buffer_interleaves_pushes_and_pops_across_the_inline_limit() {
    let mut buffer: Buffer<u32> = Buffer::new();
    let mut next_in: u32 = 0;
    let mut next_out: u32 = 0;
    for round in 0..40 {
        for _ in 0..(round % 7) {
            buffer.push_back(next_in);
            next_in += 1;
        }
        for _ in 0..(round % 5) {
            let expected = if next_out < next_in { Some(next_out) } else { None };
            assert_eq!(buffer.pop_front(), expected);
            if expected.is_some() {
                next_out += 1;
            }
        }
        assert_eq!(buffer.size(), (next_in - next_out) as usize);
    }
}
