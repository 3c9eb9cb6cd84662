use packet_routing::fraction::Fraction;
use packet_routing::heap_element::{MaxHeapElement, PriorityQueue};

#[test]
fn test_priority_queue() {
    let mut priority_queue = PriorityQueue::new();
    let frac_half = Fraction { numerator: 1, denominator: 2 };
    let frac_full = Fraction { numerator: 1, denominator: 1 };
    let comm_1_half = MaxHeapElement { priority: frac_half, edge_id: 0, queue_id: 0 };
    let comm_2_half = MaxHeapElement { priority: frac_half, edge_id: 1, queue_id: 1 };
    priority_queue.push(comm_1_half.clone());
    priority_queue.push(comm_2_half.clone());
    let mut top = priority_queue.pop();
    assert_eq!(top, comm_1_half);
    let comm_1_full = MaxHeapElement { priority: frac_full, edge_id: 0, queue_id: 0 };
    priority_queue.push(comm_1_full.clone());
    top = priority_queue.pop();
    assert_eq!(top, comm_2_half);
    let comm_2_full = MaxHeapElement { priority: frac_full, edge_id: 1, queue_id: 1 };
    priority_queue.push(comm_2_full.clone());
    top = priority_queue.pop();
    assert_eq!(top, comm_1_full);
    top = priority_queue.pop();
    assert_eq!(top, comm_2_full);
}

#[test]
fn priority_queue_value_order_test() {
    // smaller fraction value first, whatever its representation
    let mut q = PriorityQueue::new();
    let third = MaxHeapElement { priority: Fraction::new(2, 6), edge_id: 5, queue_id: 0 };
    let half = MaxHeapElement { priority: Fraction::new(3, 6), edge_id: 1, queue_id: 1 };
    q.push(half.clone());
    q.push(third.clone());
    assert_eq!(q.len(), 2);
    assert_eq!(q.pop(), third);
    assert_eq!(q.pop(), half);
    assert!(q.is_empty());
}
