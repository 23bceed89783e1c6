use raytrace::trace::{gather, raster_order, BounceQueue, MAX_BOUNCES};

#[test]
fn new_queue_has_every_pixel_pending() {
    let q = BounceQueue::new(4);
    assert_eq!(q.pending, vec![0, 1, 2, 3]);
    assert!(q.finished.is_empty());
    assert_eq!(q.bounces, vec![0, 0, 0, 0]);
    assert_eq!(q.rounds_left, MAX_BOUNCES);
    assert!(q.is_running());
}

#[test]
fn empty_frame_does_not_run() {
    let q = BounceQueue::new(0);
    assert!(!q.is_running());
}

#[test]
fn misses_finish_in_order_and_hits_stay() {
    let mut q = BounceQueue::new(5);
    q.record_round(&vec![true, false, true, false, true]);
    assert_eq!(q.pending, vec![0, 2, 4]);
    assert_eq!(q.finished, vec![1, 3]);
    assert_eq!(q.bounces, vec![1, 0, 1, 0, 1]);
    assert_eq!(q.rounds_left, MAX_BOUNCES - 1);
    q.record_round(&vec![false, true, false]);
    assert_eq!(q.pending, vec![2]);
    assert_eq!(q.finished, vec![1, 3, 0, 4]);
    assert_eq!(q.bounces, vec![1, 0, 2, 0, 1]);
}

#[test]
fn a_ray_that_always_hits_finishes_after_ten_bounces() {
    let mut q = BounceQueue::new(2);
    let mut rounds = 0;
    while q.is_running() {
        let hits = vec![true; q.pending.len()];
        q.record_round(&hits);
        rounds += 1;
    }
    assert_eq!(rounds, 10);
    assert!(q.pending.is_empty());
    assert_eq!(q.finished, vec![0, 1]);
    assert_eq!(q.bounces, vec![10, 10]);
    assert_eq!(q.rounds_left, 0);
}

#[test]
fn every_pixel_finishes_exactly_once() {
    let n = 30;
    let mut q = BounceQueue::new(n);
    let mut round = 0usize;
    while q.is_running() {
        let hits: Vec<bool> = q.pending.iter().map(|&id| (id + round) % 3 != 0).collect();
        q.record_round(&hits);
        round += 1;
    }
    assert!(round <= MAX_BOUNCES as usize);
    let mut done = q.finished.clone();
    done.sort();
    assert_eq!(done, (0..n).collect::<Vec<usize>>());
    assert!(q.bounces.iter().all(|&b| b <= MAX_BOUNCES));
}

#[test]
fn raster_order_is_column_major() {
    assert_eq!(raster_order(2, 3), vec![(0, 0), (0, 1), (0, 2), (1, 0), (1, 1), (1, 2)]);
    assert_eq!(raster_order(0, 3), vec![]);
    assert_eq!(raster_order(3, 0), vec![]);
}

#[test]
fn gather_reorders_by_the_index_list() {
    let items = vec![String::from("a"), String::from("b"), String::from("c"), String::from("d")];
    assert_eq!(gather(items.clone(), &vec![2, 0, 3, 1]), vec!["c", "a", "d", "b"]);
    assert_eq!(gather(items.clone(), &vec![3]), vec!["d"]);
    assert_eq!(gather(items, &vec![]), Vec::<String>::new());
}
