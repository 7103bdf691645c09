use markdown_text::queue::{pop_min2, Queue};

#[test]
fn queue_is_first_in_first_out() {
    let mut q: Queue<usize> = Queue::new();
    assert_eq!(q.len(), 0);
    assert_eq!(q.peek_first(), None);
    q.push(4);
    q.push(7);
    assert_eq!(q.len(), 2);
    assert_eq!(q.peek_first(), Some(&4));
    assert_eq!(q.pop_first(), Some(4));
    assert_eq!(q.pop_first(), Some(7));
    assert_eq!(q.pop_first(), None);
    assert_eq!(q.len(), 0);
}

fn queues(items: &[&[usize]]) -> Vec<Queue<usize>> {
    let mut v = Vec::new();
    for xs in items {
        let mut q = Queue::new();
        for x in *xs {
            q.push(*x);
        }
        v.push(q);
    }
    v
}

#[test]
fn pop_min2_takes_smallest_front_pair() {
    let mut qs = queues(&[&[5, 9], &[1], &[3, 4, 8], &[], &[2, 6]]);
    assert_eq!(pop_min2(&mut qs), Some(((2, 6), (1, 1))));
    assert_eq!(pop_min2(&mut qs), Some(((3, 4), (2, 0))));
    assert_eq!(pop_min2(&mut qs), Some(((5, 9), (0, 0))));
    assert_eq!(pop_min2(&mut qs), None);
    assert_eq!(qs[2].len(), 1);
    assert_eq!(qs[1].len(), 1);
}

#[test]
fn pop_min2_on_no_pairs() {
    let mut qs = queues(&[&[1], &[], &[2]]);
    assert_eq!(pop_min2(&mut qs), None);
}
