use dinoscore::render_queue::{dedup, fold_update, render_order, sort_by_distance, RenderQueue};

#[test]
fn repeated_piece_pages_are_dropped() {
    assert_eq!(dedup(&vec![0, 2, 2, 5, 5, 5, 2]), vec![0, 2, 5, 2]);
    assert_eq!(dedup(&vec![]), Vec::<usize>::new());
}

#[test]
fn first_order_interleaves_the_pieces() {
    assert_eq!(render_order(&vec![0, 2, 2, 5], 7), vec![0, 2, 5, 1, 3, 6, 4]);
    assert_eq!(render_order(&vec![0], 3), vec![0, 1, 2]);
    assert_eq!(render_order(&vec![0, 1, 2], 3), vec![0, 1, 2]);
}

#[test]
fn first_order_holds_every_page_once() {
    let order = render_order(&vec![0, 0, 3, 4, 9], 12);
    let mut sorted = order.clone();
    sorted.sort();
    assert_eq!(sorted, (0..12).collect::<Vec<_>>());
}

#[test]
fn pages_near_the_current_one_come_first() {
    assert_eq!(sort_by_distance(vec![0, 2, 5, 1, 3, 6, 4], 3), vec![3, 2, 4, 5, 1, 0, 6]);
    assert_eq!(sort_by_distance(vec![], 3), Vec::<usize>::new());
}

#[test]
fn newer_requests_replace_pending_ones() {
    assert_eq!(fold_update(None, (3, None)), (3, None));
    assert_eq!(fold_update(Some((1, Some(500))), (3, None)), (3, Some(500)));
    assert_eq!(fold_update(Some((1, Some(500))), (4, Some(700))), (4, Some(700)));
}

#[test]
fn queue_follows_width_and_page() {
    let order = vec![0, 2, 5, 1, 3, 6, 4];
    let mut q = RenderQueue::new(250);
    assert_eq!(q.next_page(), None);
    q.apply_update(Some((3, Some(375))), &order);
    assert_eq!(q.width, 375);
    assert_eq!(q.page, 3);
    assert_eq!(q.queue, vec![3, 2, 4, 5, 1, 0, 6]);
    assert_eq!(q.next_page(), Some(3));
    q.apply_update(Some((3, None)), &order);
    assert_eq!(q.queue, vec![2, 4, 5, 1, 0, 6]);
    q.apply_update(Some((0, None)), &order);
    assert_eq!(q.queue, vec![0, 1, 2, 4, 5, 6]);
    q.apply_update(None, &order);
    q.apply_update(Some((0, Some(375))), &order);
    assert_eq!(q.queue, vec![0, 1, 2, 4, 5, 6]);
    assert_eq!(q.width, 375);
}
