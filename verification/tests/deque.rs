use slice_deque::SliceDeque;
use std::cell::RefCell;
use std::rc::Rc;

#[derive(Clone, Debug)]
struct WithDrop {
    counter: Rc<RefCell<usize>>,
}

impl Drop for WithDrop {
    fn drop(&mut self) {
        *self.counter.borrow_mut() += 1;
    }
}

fn sizes_to_test() -> Vec<usize> {
    vec![2, 4, 8, 16, 32, 64, 128]
}

fn linear_usize_deque(size: usize) -> SliceDeque<usize> {
    let mut v: SliceDeque<usize> = SliceDeque::new();
    for i in 0..size {
        v.push_back(i);
        assert_eq!(v.len(), i + 1);
        for j in 0..v.len() {
            assert_eq!(*v.get(j).unwrap(), j);
        }
    }
    assert_eq!(v.len(), size);
    for i in 0..size {
        assert_eq!(*v.get(i).unwrap(), i);
    }
    v
}

fn constant_deque<T: Clone + std::fmt::Debug>(size: usize, val: &T) -> SliceDeque<T> {
    let mut v: SliceDeque<T> = SliceDeque::with_capacity(size);
    for i in 0..size {
        let copy = val.clone();
        v.push_back(copy);
        assert_eq!(v.len(), i + 1);
    }
    assert_eq!(v.len(), size);
    v
}

#[test]
fn get() {
    let mut deq = SliceDeque::new();
    deq.push_back(3);
    deq.push_back(4);
    deq.push_back(5);
    assert_eq!(deq.get(1), Some(&4));
}

#[test]
fn get_mut() {
    let mut deq = SliceDeque::new();
    deq.push_back(3);
    deq.push_back(4);
    deq.push_back(5);
    assert_eq!(deq.get(1), Some(&4));
    if let Some(elem) = deq.get_mut(1) {
        *elem = 7;
    }
    assert_eq!(*deq.get(1).unwrap(), 7);
}

#[test]
fn is_empty() {
    let mut deq = SliceDeque::new();
    assert!(deq.is_empty());
    deq.push_back(4);
    assert!(!deq.is_empty());
    deq.pop_front();
    assert!(deq.is_empty());
}

#[test]
fn push_pop_front() {
    for size in sizes_to_test() {
        let mut v: SliceDeque<usize> = SliceDeque::new();
        for i in 0..size {
            v.push_front(i);
            assert_eq!(v.len(), i + 1);
            for j in 0..v.len() {
                assert_eq!(*v.get(v.len() - j - 1).unwrap(), j);
            }
        }
        assert_eq!(v.len(), size);
        for i in 0..size {
            assert_eq!(*v.get(i).unwrap(), size - i - 1);
        }
        for i in 0..size {
            assert_eq!(v.len(), size - i);
            v.pop_front();
            for j in 0..v.len() {
                assert_eq!(*v.get(v.len() - j - 1).unwrap(), j);
            }
        }
        assert_eq!(v.len(), 0);
    }
}

#[test]
fn push_pop_back() {
    for size in sizes_to_test() {
        let mut v = linear_usize_deque(size);
        for i in 0..size {
            assert_eq!(v.len(), size - i);
            v.pop_back();
            for j in 0..v.len() {
                assert_eq!(*v.get(j).unwrap(), j);
            }
        }
        assert_eq!(v.len(), 0);
    }
}

#[test]
fn all_head_tails() {
    for size in sizes_to_test() {
        let mut v = linear_usize_deque(size);
        let permutations = 6 * v.capacity();

        // rotate from left to right
        for _ in 0..permutations {
            v.push_back(0);
            for j in (0..v.len() - 1).rev() {
                *v.get_mut(j + 1).unwrap() = *v.get(j).unwrap();
            }
            v.pop_front();
            assert_eq!(v.len(), size);
            for k in 0..size {
                assert_eq!(*v.get(k).unwrap(), k);
            }
        }

        // rotate from right to left
        for _ in 0..permutations {
            v.push_front(0);
            for j in 0..v.len() - 1 {
                *v.get_mut(j).unwrap() = *v.get(j + 1).unwrap()
            }
            v.pop_back();
            assert_eq!(v.len(), size);
            for k in 0..size {
                assert_eq!(*v.get(k).unwrap(), k);
            }
        }
    }
}

#[test]
fn drop() {
    for size in sizes_to_test() {
        let counter = Rc::new(RefCell::new(0));
        let val = WithDrop {
            counter: counter.clone(),
        };
        {
            let _v = constant_deque(size, &val);
        }
        assert_eq!(*counter.borrow(), size);
    }
}

#[test]
fn clear() {
    for size in sizes_to_test() {
        println!("s: {}", size);
        let counter = Rc::new(RefCell::new(0));
        let val = WithDrop {
            counter: counter.clone(),
        };
        assert_eq!(*counter.borrow(), 0);
        let mut v = constant_deque(size, &val);
        assert_eq!(*counter.borrow(), 0);
        v.clear();
        assert_eq!(*counter.borrow(), size);
        assert_eq!(v.len(), 0);
    }
}

#[test]
fn resize() {
    for size in sizes_to_test() {
        let mut v = linear_usize_deque(size);
        let v_ref = linear_usize_deque(size / 2);
        v.resize(size / 2, 0);
        assert_eq!(v.len(), size / 2);
        assert_eq!(v.to_vec(), v_ref.to_vec());
        let mut v_ref = v_ref;
        while v_ref.len() < size {
            v_ref.push_back(3);
        }
        v.resize(size, 3);
        assert_eq!(v.len(), size);
        assert_eq!(v_ref.len(), size);
        assert_eq!(v.to_vec(), v_ref.to_vec());

        v.resize(0, 3);
        assert_eq!(v.len(), 0);

        v.resize(size, 3);
        let v_ref = constant_deque(size, &3);
        assert_eq!(v.len(), size);
        assert_eq!(v_ref.len(), size);
        assert_eq!(v.to_vec(), v_ref.to_vec());
    }
}

#[test]
fn default() {
    let d = SliceDeque::<u8>::default();
    let r = SliceDeque::<u8>::new();
    assert_eq!(d.to_vec(), r.to_vec());
}

#[test]
fn shrink_to_fit() {
    let page_size = 4096;
    for size in sizes_to_test() {
        let mut deq = constant_deque(size, &(3 as u8));
        let old_cap = deq.capacity();
        deq.resize(size / 4, 3);
        deq.shrink_to_fit();
        if size <= page_size {
            assert_eq!(deq.capacity(), old_cap);
        } else {
            assert!(deq.capacity() < old_cap);
        }
    }
}
