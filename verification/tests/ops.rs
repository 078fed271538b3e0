use slice_deque::deque::{can_allocate, DequeOp};
use slice_deque::SliceDeque;

#[test]
fn can_allocate_accepts_and_rejects() {
    assert!(can_allocate::<u64>(8));
    assert!(can_allocate::<u8>(4096));
    // zero-sized elements are not supported
    assert!(!can_allocate::<()>(4));
    // a request whose byte size cannot fit the machine word
    assert!(!can_allocate::<u64>(usize::MAX));
}

#[test]
fn with_capacity_starts_empty() {
    let deq: SliceDeque<u32> = SliceDeque::with_capacity(10);
    assert!(deq.capacity() >= 10);
    assert_eq!(deq.len(), 0);
    assert!(deq.is_empty());
}

#[test]
fn push_back_contents() {
    let mut deq = SliceDeque::new();
    deq.push_back(3);
    deq.push_back(4);
    deq.push_back(5);
    assert_eq!(deq.len(), 3);
    assert_eq!(deq.front(), Some(&3));
    assert_eq!(deq.back(), Some(&5));
    assert_eq!(*deq.get(1).unwrap(), 4);
}

#[test]
fn front_and_back() {
    let mut deq = SliceDeque::new();
    assert_eq!(deq.front(), None);
    assert_eq!(deq.back(), None);
    deq.push_back(1);
    deq.push_back(2);
    assert_eq!(deq.front(), Some(&1));
    assert_eq!(deq.back(), Some(&2));
    deq.push_front(3);
    assert_eq!(deq.front(), Some(&3));
    assert_eq!(deq.back(), Some(&2));
}

#[test]
fn front_mut_and_back_mut() {
    let mut deq = SliceDeque::new();
    assert!(deq.front_mut().is_none());
    assert!(deq.back_mut().is_none());
    deq.push_back(1);
    deq.push_back(2);
    *deq.front_mut().unwrap() = 3;
    assert_eq!(deq.front(), Some(&3));
    *deq.back_mut().unwrap() = 4;
    assert_eq!(deq.back(), Some(&4));
}

#[test]
fn pop_front_order() {
    let mut deq = SliceDeque::new();
    deq.push_back(1);
    deq.push_back(2);
    assert_eq!(deq.pop_front(), Some(1));
    assert_eq!(deq.pop_front(), Some(2));
    assert_eq!(deq.pop_front(), None);
}

#[test]
fn pop_back_order() {
    let mut deq = SliceDeque::new();
    assert_eq!(deq.pop_back(), None);
    deq.push_back(1);
    deq.push_back(3);
    assert_eq!(deq.pop_back(), Some(3));
    assert_eq!(deq.pop_back(), Some(1));
    assert_eq!(deq.pop_back(), None);
}

#[test]
fn first_growth_goes_to_four() {
    // An element of 2048 bytes: four slots fill the two-page minimum
    // allocation exactly, so the first growth lands on capacity 4.
    let mut deq: SliceDeque<[u64; 256]> = SliceDeque::new();
    assert_eq!(deq.capacity(), 0);
    deq.push_back([7u64; 256]);
    assert_eq!(deq.capacity(), 4);
    assert_eq!(deq.len(), 1);
}

#[test]
fn resize_scenario() {
    let mut deq = SliceDeque::new();
    deq.push_back(5);
    deq.push_back(10);
    deq.push_back(15);
    deq.resize(2, 0);
    assert_eq!(deq.to_vec(), vec![5, 10]);
    deq.resize(5, 3);
    assert_eq!(deq.to_vec(), vec![5, 10, 3, 3, 3]);
}

#[test]
fn shrink_strictly_decreases_on_large() {
    let mut deq: SliceDeque<u64> = SliceDeque::with_capacity(4096);
    for i in 0..4096u64 {
        deq.push_back(i);
    }
    let old_cap = deq.capacity();
    deq.truncate(512);
    deq.shrink_to_fit();
    assert!(deq.capacity() < old_cap);
    assert!(deq.capacity() >= deq.len());
    assert_eq!(deq.len(), 512);
    for i in 0..512u64 {
        assert_eq!(*deq.get(i as usize).unwrap(), i);
    }
}

#[test]
fn ring_rotation_keeps_window() {
    // Push to the back and pop from the front six capacities' worth of
    // times: the live window must read back unchanged wherever the head and
    // tail sit relative to the mirror boundary.
    let size = 5;
    let mut deq: SliceDeque<usize> = SliceDeque::new();
    for i in 0..size {
        deq.push_back(i);
    }
    let rounds = 6 * deq.capacity();
    for r in 0..rounds {
        let x = deq.pop_front().unwrap();
        assert_eq!(x, r % size);
        deq.push_back(x);
        assert_eq!(deq.len(), size);
        for k in 0..size {
            assert_eq!(*deq.get(k).unwrap(), (r + 1 + k) % size);
        }
    }
}

#[test]
fn truncate_drops_back() {
    let mut deq = SliceDeque::new();
    deq.push_back(5);
    deq.push_back(10);
    deq.push_back(15);
    assert_eq!(deq.to_vec(), vec![5, 10, 15]);
    deq.truncate(1);
    assert_eq!(deq.to_vec(), vec![5]);
    deq.truncate(9);
    assert_eq!(deq.to_vec(), vec![5]);
}

#[test]
fn swap_remove_back_basic() {
    let mut deq = SliceDeque::new();
    assert_eq!(deq.swap_remove_back(0), None);
    deq.push_back(1);
    deq.push_back(2);
    deq.push_back(3);
    assert_eq!(deq.swap_remove_back(0), Some(1));
    assert_eq!(deq.to_vec(), vec![3, 2]);
}

#[test]
fn swap_remove_front_basic() {
    let mut deq = SliceDeque::new();
    assert_eq!(deq.swap_remove_front(0), None);
    deq.push_back(1);
    deq.push_back(2);
    deq.push_back(3);
    assert_eq!(deq.swap_remove_front(2), Some(3));
    assert_eq!(deq.to_vec(), vec![2, 1]);
}

#[test]
fn insert_shifts_back() {
    let mut deq = SliceDeque::new();
    deq.push_back('a');
    deq.push_back('b');
    deq.push_back('c');
    assert_eq!(deq.to_vec(), vec!['a', 'b', 'c']);
    deq.insert(1, 'd');
    assert_eq!(deq.to_vec(), vec!['a', 'd', 'b', 'c']);
    deq.insert(4, 'e');
    assert_eq!(deq.to_vec(), vec!['a', 'd', 'b', 'c', 'e']);
    deq.insert(0, 'f');
    assert_eq!(deq.to_vec(), vec!['f', 'a', 'd', 'b', 'c', 'e']);
}

#[test]
fn remove_shifts_front() {
    let mut deq = SliceDeque::new();
    deq.push_back(1);
    deq.push_back(2);
    deq.push_back(3);
    assert_eq!(deq.remove(1), 2);
    assert_eq!(deq.to_vec(), vec![1, 3]);
}

#[test]
fn split_off_basic() {
    let mut deq = SliceDeque::new();
    deq.push_back(1);
    deq.push_back(2);
    deq.push_back(3);
    let cap = deq.capacity();
    let deq2 = deq.split_off(1);
    assert_eq!(deq.to_vec(), vec![1]);
    assert_eq!(deq2.to_vec(), vec![2, 3]);
    assert_eq!(deq.capacity(), cap);
}

#[test]
fn retain_keeps_order() {
    let mut deq = SliceDeque::new();
    deq.push_back(1);
    deq.push_back(2);
    deq.push_back(3);
    deq.push_back(4);
    deq.retain(|x: &i32| x % 2 == 0);
    assert_eq!(deq.to_vec(), vec![2, 4]);
}

#[test]
fn drain_full_consumption() {
    let mut deq = SliceDeque::new();
    deq.push_back(1);
    deq.push_back(2);
    deq.push_back(3);
    let mut d = deq.drain(1..3);
    let mut got = Vec::new();
    while let Some(x) = d.next() {
        got.push(x);
    }
    assert_eq!(got, vec![2, 3]);
    assert_eq!(deq.to_vec(), vec![1]);
    deq.push_back(9);
    let len = deq.len();
    deq.drain(0..len);
    assert_eq!(deq.to_vec(), Vec::<i32>::new());
}

#[test]
fn drain_partial_consumption_leaves_same_deque() {
    let mut a = SliceDeque::new();
    let mut b = SliceDeque::new();
    for i in 1..=5 {
        a.push_back(i);
        b.push_back(i);
    }
    {
        let mut da = a.drain(1..4);
        assert_eq!(da.next(), Some(2));
        // da dropped here with two elements unconsumed
    }
    {
        let mut db = b.drain(1..4);
        let mut rest = Vec::new();
        while let Some(x) = db.next() {
            rest.push(x);
        }
        assert_eq!(rest, vec![2, 3, 4]);
    }
    assert_eq!(a.to_vec(), vec![1, 5]);
    assert_eq!(a.to_vec(), b.to_vec());
}

#[test]
fn drain_back_to_front() {
    let mut deq = SliceDeque::new();
    for i in 1..=4 {
        deq.push_back(i);
    }
    let mut d = deq.drain(0..3);
    assert_eq!(d.len(), 3);
    assert!(!d.is_empty());
    assert_eq!(d.next_back(), Some(3));
    assert_eq!(d.next_back(), Some(2));
    assert_eq!(d.next_back(), Some(1));
    assert_eq!(d.next_back(), None);
    assert!(d.is_empty());
    assert_eq!(deq.to_vec(), vec![4]);
}

#[test]
fn round_trip_front_and_back() {
    let values: Vec<u32> = (0..200).map(|x| x * 7 + 3).collect();
    let mut deq = SliceDeque::new();
    for &v in &values {
        deq.push_back(v);
    }
    let mut front_order = Vec::new();
    while let Some(x) = deq.pop_front() {
        front_order.push(x);
    }
    assert_eq!(front_order, values);

    for &v in &values {
        deq.push_back(v);
    }
    let mut back_order = Vec::new();
    while let Some(x) = deq.pop_back() {
        back_order.push(x);
    }
    let mut reversed = values.clone();
    reversed.reverse();
    assert_eq!(back_order, reversed);
}

#[test]
fn growth_doubles() {
    let mut deq: SliceDeque<u64> = SliceDeque::new();
    let mut caps: Vec<usize> = Vec::new();
    for i in 0..5000u64 {
        deq.push_back(i);
        if caps.last() != Some(&deq.capacity()) {
            caps.push(deq.capacity());
        }
    }
    assert_eq!(caps, vec![512, 1024, 2048, 4096, 8192]);
    for i in 0..5000usize {
        assert_eq!(*deq.get(i).unwrap(), i as u64);
    }
}

#[test]
fn reserve_makes_room() {
    let mut deq: SliceDeque<u64> = SliceDeque::with_capacity(4);
    deq.push_back(1);
    let cap = deq.capacity();
    deq.reserve(10000);
    assert!(deq.capacity() >= cap + 10000);
    assert_eq!(deq.to_vec(), vec![1]);
    let cap = deq.capacity();
    deq.reserve(0);
    assert_eq!(deq.capacity(), cap);
}

#[test]
fn split_off_edges() {
    let mut deq = SliceDeque::new();
    deq.push_back(1);
    deq.push_back(2);
    deq.push_back(3);
    let tail = deq.split_off(3);
    assert_eq!(deq.to_vec(), vec![1, 2, 3]);
    assert!(tail.is_empty());
    let rest = deq.split_off(0);
    assert!(deq.is_empty());
    assert_eq!(rest.to_vec(), vec![1, 2, 3]);
}

#[test]
fn swap_exchanges_elements() {
    let mut deq = SliceDeque::new();
    deq.push_back(1);
    deq.push_back(2);
    deq.push_back(3);
    deq.swap(0, 2);
    assert_eq!(deq.to_vec(), vec![3, 2, 1]);
    deq.swap(1, 1);
    assert_eq!(deq.to_vec(), vec![3, 2, 1]);
}

#[test]
fn model_equivalence_against_vec() {
    // Drive the deque and a plain vector through the same pseudo-random
    // operation sequence and compare length, front, back and contents.
    let mut deq: SliceDeque<u64> = SliceDeque::new();
    let mut model: Vec<u64> = Vec::new();
    let mut state: u64 = 0x2545F4914F6CDD1D;
    for step in 0..2000u64 {
        state = state
            .wrapping_mul(6364136223846793005)
            .wrapping_add(1442695040888963407);
        let choice = (state >> 33) % 6;
        let value = step;
        match choice {
            0 => {
                assert_eq!(deq.apply_op(DequeOp::PushBack(value)), None);
                model.push(value);
            }
            1 => {
                assert_eq!(deq.apply_op(DequeOp::PushFront(value)), None);
                model.insert(0, value);
            }
            2 => {
                assert_eq!(deq.apply_op(DequeOp::PopBack), model.pop());
            }
            3 => {
                let expect = if model.is_empty() {
                    None
                } else {
                    Some(model.remove(0))
                };
                assert_eq!(deq.apply_op(DequeOp::PopFront), expect);
            }
            4 => {
                let at = ((state >> 11) as usize) % (model.len() + 1);
                assert_eq!(deq.apply_op(DequeOp::Insert(at, value)), None);
                model.insert(at, value);
            }
            _ => {
                if model.is_empty() {
                    assert_eq!(deq.apply_op(DequeOp::PopBack), None);
                } else {
                    let at = ((state >> 7) as usize) % model.len();
                    assert_eq!(deq.apply_op(DequeOp::Remove(at)), Some(model.remove(at)));
                }
            }
        }
        assert_eq!(deq.len(), model.len());
        assert_eq!(deq.front(), model.first());
        assert_eq!(deq.back(), model.last());
        for i in 0..model.len() {
            assert_eq!(deq.get(i), model.get(i));
        }
    }
}
