use containers::queue::Queue;

#[test]
fn queue_test() {
    let mut queue = Queue::new();

    queue.enqueue(1);
    assert_eq!(queue.dequeue(), Some(1));
    assert_eq!(queue.dequeue(), None);

    queue.enqueue(2);
    queue.enqueue(3);

    assert_eq!(queue.dequeue(), Some(2));
    assert_eq!(queue.dequeue(), Some(3));
    assert_eq!(queue.dequeue(), None);

    queue.enqueue(4);
    queue.enqueue(5);
    assert_eq!(queue.dequeue(), Some(4));

    queue.enqueue(6);
    queue.enqueue(7);

    assert_eq!(queue.dequeue(), Some(5));
    assert_eq!(queue.dequeue(), Some(6));
    assert_eq!(queue.dequeue(), Some(7));
    assert_eq!(queue.dequeue(), None);
}

#[test]
fn queue_keeps_order_across_refills() {
    let mut queue = Queue::new();
    let mut out = Vec::new();
    let mut next: u32 = 0;
    let mut round: u32 = 0;
    while round < 20 {
        let mut k: u32 = 0;
        while k < round % 7 + 1 {
            queue.enqueue(next);
            next += 1;
            k += 1;
        }
        let mut k: u32 = 0;
        while k < round % 5 {
            if let Some(x) = queue.dequeue() {
                out.push(x);
            }
            k += 1;
        }
        round += 1;
    }
    while let Some(x) = queue.dequeue() {
        out.push(x);
    }
    let expected: Vec<u32> = (0..next).collect();
    assert_eq!(out, expected);
}

#[test]
fn queue_of_strings() {
    let mut queue = Queue::new();
    queue.enqueue("a".to_string());
    queue.enqueue("b".to_string());
    assert_eq!(queue.dequeue(), Some("a".to_string()));
    queue.enqueue("c".to_string());
    assert_eq!(queue.dequeue(), Some("b".to_string()));
    assert_eq!(queue.dequeue(), Some("c".to_string()));
    assert_eq!(queue.dequeue(), None);
}

#[test]
fn long_queue_is_released() {
    let mut queue = Queue::new();
    let mut i: u32 = 0;
    while i < 200_000 {
        queue.enqueue(i);
        i += 1;
    }
    assert_eq!(queue.dequeue(), Some(0));
    let mut i: u32 = 0;
    while i < 100_000 {
        queue.enqueue(i);
        i += 1;
    }
    drop(queue);
}
