use lockfree::lfs::queue::{BoundedLockFreeQueue, LockFreeQueue};
use lockfree::lfs::stack::LockFreeStack;
use std::cell::Cell;
use std::rc::Rc;

#[test]
fn stack_pops_in_reverse_order() {
    let mut s = LockFreeStack::new();
    for v in 1..=5 {
        s.push(v);
    }
    let mut out = Vec::new();
    for _ in 0..5 {
        out.push(s.pop().unwrap());
    }
    assert_eq!(out, vec![5, 4, 3, 2, 1]);
    assert_eq!(s.pop(), None);
    assert!(s.is_empty());
}

#[test]
fn stack_reuses_released_nodes() {
    let mut s = LockFreeStack::new();
    s.push("a".to_string());
    s.push("b".to_string());
    assert_eq!(s.pop(), Some("b".to_string()));
    s.push("c".to_string());
    s.push("d".to_string());
    assert_eq!(s.pop(), Some("d".to_string()));
    assert_eq!(s.pop(), Some("c".to_string()));
    assert_eq!(s.pop(), Some("a".to_string()));
    assert_eq!(s.pop(), None);
}

#[test]
fn unbounded_queue_is_fifo() {
    let mut q = LockFreeQueue::new();
    for v in 10..20 {
        q.enqueue(v);
    }
    for v in 10..20 {
        assert_eq!(q.dequeue(), Some(v));
    }
    assert_eq!(q.dequeue(), None);
    assert!(q.is_empty());
}

#[test]
fn bounded_queue_is_fifo() {
    let mut q = BoundedLockFreeQueue::new(8);
    for v in 0..8u32 {
        assert_eq!(q.enqueue(v), Ok(()));
    }
    for v in 0..8u32 {
        assert_eq!(q.dequeue(), Some(v));
    }
    assert_eq!(q.dequeue(), None);
}

#[test]
fn fresh_containers_are_empty() {
    let mut s: LockFreeStack<i32> = LockFreeStack::new();
    assert!(s.is_empty());
    assert_eq!(s.pop(), None);
    let mut q: LockFreeQueue<i32> = LockFreeQueue::new();
    assert!(q.is_empty());
    assert_eq!(q.dequeue(), None);
    let mut b: BoundedLockFreeQueue<i32> = BoundedLockFreeQueue::new(4);
    assert!(b.is_empty());
    assert!(!b.is_full());
    assert_eq!(b.len(), 0);
    assert_eq!(b.dequeue(), None);
}

#[test]
fn capacity_rounds_up_and_refuses_when_full() {
    let mut q = BoundedLockFreeQueue::new(10);
    assert_eq!(q.capacity(), 16);
    for v in 0..16u64 {
        assert_eq!(q.enqueue(v * 3), Ok(()));
    }
    assert!(q.is_full());
    assert_eq!(q.len(), 16);
    assert_eq!(q.enqueue(777), Err(777));
    assert_eq!(q.len(), 16);
    assert_eq!(q.dequeue(), Some(0));
    assert_eq!(q.enqueue(777), Ok(()));
}

#[test]
fn capacity_edge_values() {
    assert_eq!(BoundedLockFreeQueue::<u8>::new(0).capacity(), 1);
    assert_eq!(BoundedLockFreeQueue::<u8>::new(1).capacity(), 1);
    assert_eq!(BoundedLockFreeQueue::<u8>::new(16).capacity(), 16);
    assert_eq!(BoundedLockFreeQueue::<u8>::new(17).capacity(), 32);
}

#[test]
fn bounded_queue_wraps_around_its_slots() {
    let mut q = BoundedLockFreeQueue::new(3);
    let mut next_in = 0u32;
    let mut next_out = 0u32;
    for round in 0..50u32 {
        let burst = round % 4 + 1;
        for _ in 0..burst {
            if q.enqueue(next_in).is_ok() {
                next_in += 1;
            }
        }
        for _ in 0..(burst + 1) / 2 {
            if let Some(v) = q.dequeue() {
                assert_eq!(v, next_out);
                next_out += 1;
            }
        }
        assert_eq!(q.len() as u32, next_in - next_out);
    }
}

#[test]
fn interleaved_operations_conserve_values() {
    let mut q = LockFreeQueue::new();
    let mut b = BoundedLockFreeQueue::new(4);
    let mut enqueued = Vec::new();
    let mut out_q = Vec::new();
    let mut out_b = Vec::new();
    let mut refused = Vec::new();
    for i in 0..60u32 {
        if i % 3 == 2 {
            if let Some(v) = q.dequeue() {
                out_q.push(v);
            }
            if let Some(v) = b.dequeue() {
                out_b.push(v);
            }
        } else {
            enqueued.push(i);
            q.enqueue(i);
            if let Err(v) = b.enqueue(i) {
                refused.push(v);
            }
        }
    }
    while let Some(v) = q.dequeue() {
        out_q.push(v);
    }
    while let Some(v) = b.dequeue() {
        out_b.push(v);
    }
    assert_eq!(out_q, enqueued);
    let mut all_b = out_b.clone();
    all_b.extend(refused.iter().copied());
    all_b.sort();
    assert_eq!(all_b, enqueued);
}

struct Counted(Rc<Cell<usize>>);

impl Drop for Counted {
    fn drop(&mut self) {
        self.0.set(self.0.get() + 1);
    }
}

#[test]
fn dropping_containers_releases_every_value() {
    let drops = Rc::new(Cell::new(0));
    {
        let mut s = LockFreeStack::new();
        let mut q = LockFreeQueue::new();
        let mut b = BoundedLockFreeQueue::new(8);
        for _ in 0..5 {
            s.push(Counted(drops.clone()));
            q.enqueue(Counted(drops.clone()));
            assert!(b.enqueue(Counted(drops.clone())).is_ok());
        }
        drop(s.pop());
        drop(q.dequeue());
        drop(b.dequeue());
        assert_eq!(drops.get(), 3);
    }
    assert_eq!(drops.get(), 15);
}

#[test]
fn emptied_queue_reports_zero_length_and_empty() {
    let mut b = BoundedLockFreeQueue::new(2);
    assert!(b.enqueue('x').is_ok());
    assert!(b.enqueue('y').is_ok());
    assert_eq!(b.enqueue('z'), Err('z'));
    assert_eq!(b.dequeue(), Some('x'));
    assert!(b.enqueue('w').is_ok());
    assert_eq!(b.dequeue(), Some('y'));
    assert_eq!(b.dequeue(), Some('w'));
    assert_eq!(b.len(), 0);
    assert!(b.is_empty());
    assert!(!b.is_full());
    let mut q = LockFreeQueue::new();
    q.enqueue(1);
    assert!(!q.is_empty());
    assert_eq!(q.dequeue(), Some(1));
    assert!(q.is_empty());
}
