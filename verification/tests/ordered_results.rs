use crossbeam_channel::{bounded, unbounded};
use spinningjenny::ordered::{buffer_is_full, free_slots, OrderedResults};

/// A fixed shuffle of `0..n`, from a small linear congruential generator.
fn shuffled(n: usize, seed: u64) -> Vec<usize> {
    let mut items: Vec<usize> = (0..n).collect();
    let mut state = seed;
    for i in (1..n).rev() {
        state = state.wrapping_mul(6364136223846793005).wrapping_add(1442695040888963407);
        let j = (state >> 33) as usize % (i + 1);
        items.swap(i, j);
    }
    items
}

fn deliver_with_try_next(indexes: Vec<usize>, buffer_size: Option<usize>) -> Vec<usize> {
    let mut result = vec![];
    let (sender, receiver) = unbounded();
    let (mut ord_results, _) = OrderedResults::<usize>::new(receiver, buffer_size);
    for index in indexes {
        sender.send((index, index)).unwrap();
        while let Ok(value) = ord_results.try_next() {
            result.push(value);
        }
    }
    drop(sender);
    while let Ok(value) = ord_results.try_next() {
        result.push(value);
    }
    result
}

fn deliver_with_next(indexes: Vec<usize>, buffer_size: Option<usize>) -> Vec<usize> {
    let mut result = vec![];
    let (sender, receiver) = unbounded();
    let (mut ord_results, _) = OrderedResults::<usize>::new(receiver, buffer_size);
    for index in indexes {
        sender.send((index, index)).unwrap();
    }
    drop(sender);
    while let Some(value) = ord_results.next() {
        result.push(value);
    }
    result
}

#[test]
fn ordered_results_delivery_try_next_in_order() {
    for (n, seed) in [(0usize, 1u64), (1, 2), (2, 3), (17, 4), (250, 5), (999, 6)] {
        for buffer_size in [None, Some(1), Some(7), Some(99)] {
            let expected: Vec<usize> = (0..n).collect();
            assert_eq!(deliver_with_try_next(shuffled(n, seed), buffer_size), expected);
        }
    }
}

#[test]
fn ordered_results_delivery_next_in_order() {
    for (n, seed) in [(0usize, 11u64), (1, 12), (2, 13), (17, 14), (250, 15), (999, 16)] {
        for buffer_size in [None, Some(1), Some(7), Some(99)] {
            let expected: Vec<usize> = (0..n).collect();
            assert_eq!(deliver_with_next(shuffled(n, seed), buffer_size), expected);
        }
    }
}

#[test]
fn reversed_arrivals_come_out_in_order() {
    let indexes: Vec<usize> = (0..50).rev().collect();
    assert_eq!(deliver_with_try_next(indexes.clone(), Some(3)), (0..50).collect::<Vec<_>>());
    assert_eq!(deliver_with_next(indexes, Some(3)), (0..50).collect::<Vec<_>>());
}

#[test]
fn try_next_on_empty_channel_would_block() {
    let (_sender, receiver) = unbounded::<(usize, u32)>();
    let (mut ord_results, producer) = OrderedResults::new(receiver, None);
    assert!(producer.is_none());
    assert!(ord_results.try_next().is_err());
    assert_eq!(ord_results.next_message_id(), 0);
}

#[test]
fn next_on_closed_channel_is_none() {
    let (sender, receiver) = unbounded::<(usize, u32)>();
    sender.send((1, 10)).unwrap();
    drop(sender);
    let (mut ord_results, _) = OrderedResults::new(receiver, Some(4));
    // Message 0 never came, so message 1 stays buffered.
    assert_eq!(ord_results.next(), None);
    assert_eq!(ord_results.next_message_id(), 0);
}

#[test]
fn messages_are_handed_out_with_their_payload() {
    let (sender, receiver) = unbounded::<(usize, &str)>();
    let (mut ord_results, _) = OrderedResults::new(receiver, None);
    sender.send((1, "b")).unwrap();
    assert!(ord_results.try_next().is_err());
    sender.send((0, "a")).unwrap();
    assert_eq!(ord_results.try_next().ok(), Some("a"));
    assert_eq!(ord_results.next_message_id(), 1);
    assert_eq!(ord_results.try_next().ok(), Some("b"));
    assert_eq!(ord_results.next_message_id(), 2);
    assert!(ord_results.try_next().is_err());
}

#[test]
fn try_next_takes_at_most_eight_messages_per_call() {
    let (sender, receiver) = unbounded::<(usize, usize)>();
    let (mut ord_results, _) = OrderedResults::new(receiver, None);
    for id in (0..10).rev() {
        sender.send((id, id)).unwrap();
    }
    // Ids 9 down to 2 are buffered by the first call; the second takes 1 and 0.
    assert!(ord_results.try_next().is_err());
    assert_eq!(ord_results.try_next().ok(), Some(0));
    for id in 1..10 {
        assert_eq!(ord_results.try_next().ok(), Some(id));
    }
    assert!(ord_results.try_next().is_err());
}

#[test]
fn slots_track_buffered_messages() {
    let (sender, receiver) = unbounded::<(usize, usize)>();
    let (mut ord_results, producer) = OrderedResults::new(receiver, Some(5));
    let producer = producer.unwrap();
    assert_eq!(producer.slots_available(), 5);
    sender.send((2, 2)).unwrap();
    sender.send((3, 3)).unwrap();
    assert!(ord_results.try_next().is_err());
    assert_eq!(producer.slots_available(), 3);
    sender.send((0, 0)).unwrap();
    assert_eq!(ord_results.try_next().ok(), Some(0));
    assert_eq!(producer.slots_available(), 3);
    sender.send((1, 1)).unwrap();
    assert_eq!(ord_results.try_next().ok(), Some(1));
    assert_eq!(ord_results.try_next().ok(), Some(2));
    assert_eq!(producer.slots_available(), 4);
    assert_eq!(ord_results.try_next().ok(), Some(3));
    assert_eq!(producer.slots_available(), 5);
    // There is space, so waiting returns at once.
    producer.wait_for_buffer_space();
}

#[test]
fn full_buffer_reports_no_slots_and_is_full() {
    let (sender, receiver) = unbounded::<(usize, usize)>();
    let (mut ord_results, producer) = OrderedResults::new(receiver, Some(2));
    let producer = producer.unwrap();
    assert!(!ord_results._is_full());
    for id in [4, 3, 2] {
        sender.send((id, id)).unwrap();
    }
    assert!(ord_results.try_next().is_err());
    // Three buffered messages in a buffer of two: no slot, and full.
    assert_eq!(producer.slots_available(), 0);
    assert!(ord_results._is_full());
    ord_results.release_buffer();
    assert_eq!(producer.slots_available(), 2);
    assert!(!ord_results._is_full());
    assert_eq!(ord_results.next_message_id(), 0);
}

#[test]
fn full_channel_is_full() {
    let (sender, receiver) = bounded::<(usize, usize)>(1);
    let (mut ord_results, producer) = OrderedResults::new(receiver, None);
    assert!(producer.is_none());
    assert!(!ord_results._is_full());
    sender.send((0, 7)).unwrap();
    assert!(ord_results._is_full());
    assert_eq!(ord_results.try_next().ok(), Some(7));
    assert!(!ord_results._is_full());
}

#[test]
fn free_slots_of_a_buffer() {
    assert_eq!(free_slots(5, 0), 5);
    assert_eq!(free_slots(5, 3), 2);
    assert_eq!(free_slots(5, 5), 0);
    assert_eq!(free_slots(5, 9), 0);
    assert_eq!(free_slots(0, 0), 0);
    assert_eq!(free_slots(usize::MAX, 1), usize::MAX - 1);
}

#[test]
fn buffer_fullness() {
    assert!(!buffer_is_full(5, 4));
    assert!(buffer_is_full(5, 5));
    assert!(buffer_is_full(5, 6));
    assert!(buffer_is_full(0, 0));
}

#[test]
fn next_hands_out_letters_in_id_order() {
    let (sender, receiver) = unbounded::<(usize, char)>();
    let (mut ord_results, _) = OrderedResults::new(receiver, None);
    sender.send((2, 'c')).unwrap();
    sender.send((0, 'a')).unwrap();
    sender.send((1, 'b')).unwrap();
    drop(sender);
    assert_eq!(ord_results.next(), Some('a'));
    assert_eq!(ord_results.next(), Some('b'));
    assert_eq!(ord_results.next(), Some('c'));
    assert_eq!(ord_results.next(), None);
}

#[test]
fn next_stops_at_a_missing_id() {
    let (sender, receiver) = unbounded::<(usize, char)>();
    let (mut ord_results, _) = OrderedResults::new(receiver, None);
    sender.send((0, 'a')).unwrap();
    sender.send((2, 'c')).unwrap();
    drop(sender);
    assert_eq!(ord_results.next(), Some('a'));
    assert_eq!(ord_results.next(), None);
    assert_eq!(ord_results.next_message_id(), 1);
}
