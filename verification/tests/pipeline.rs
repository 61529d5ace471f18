use culler::decode::{DecodedImage, TargetSize};
use culler::pipeline::{
    is_fresh_delivery, prefetch_set, to_prefetch, FullSlot, LruCache, Pipeline, Request, Scheduler,
};
use std::sync::Arc;

#[test]
fn a_request_is_fresh_until_a_newer_generation_is_issued() {
    let mut sch = Scheduler::new();
    let g = sch.advance();
    let r = sch.request(5, g);
    assert!(!Scheduler::is_stale(&r, sch.generation));
    let g2 = sch.advance();
    assert_eq!(g2, g + 1);
    assert!(Scheduler::is_stale(&r, sch.generation));
}

#[test]
fn a_batch_shares_one_generation_and_goes_stale_together() {
    let mut sch = Scheduler::new();
    let g = sch.advance();
    let a = sch.request(10, g);
    let b = sch.request(11, g);
    assert!(!Scheduler::is_stale(&a, sch.generation));
    assert!(!Scheduler::is_stale(&b, sch.generation));
    sch.advance();
    assert!(Scheduler::is_stale(&a, sch.generation));
    assert!(Scheduler::is_stale(&b, sch.generation));
}

#[test]
fn generation_starts_at_zero() {
    let sch = Scheduler::new();
    assert_eq!(sch.generation, 0);
}

fn img(bytes: usize) -> Arc<DecodedImage> {
    Arc::new(DecodedImage {
        w: 1,
        h: bytes as u32,
        rgba: vec![0u8; bytes],
    })
}

#[test]
fn lru_evicts_least_recently_used_over_budget() {
    let mut c = LruCache::new(300);
    c.put(0, img(100));
    c.put(1, img(100));
    c.put(2, img(100));
    assert_eq!(c.len(), 3);
    assert!(c.get(0).is_some());
    c.put(3, img(100));
    assert!(c.contains(0));
    assert!(!c.contains(1));
    assert!(c.contains(2));
    assert!(c.contains(3));
    assert!(c.used_bytes() <= 300);
}

#[test]
fn lru_get_absent_is_none() {
    let mut c = LruCache::new(100);
    assert!(c.get(42).is_none());
}

#[test]
fn lru_put_same_key_updates_not_duplicates() {
    let mut c = LruCache::new(1000);
    c.put(7, img(100));
    c.put(7, img(200));
    assert_eq!(c.len(), 1);
    assert_eq!(c.used_bytes(), 200);
}

#[test]
fn prefetch_is_forward_biased_and_clamped() {
    assert_eq!(prefetch_set(5, 2, 100), vec![5, 6, 4, 7, 3]);
    assert_eq!(prefetch_set(0, 2, 100), vec![0, 1, 2]);
    assert_eq!(prefetch_set(99, 2, 100), vec![99, 98, 97]);
    assert_eq!(prefetch_set(0, 3, 0), Vec::<usize>::new());
}

fn sized(bytes: usize, first: u8) -> Arc<DecodedImage> {
    let mut rgba = vec![0u8; bytes];
    rgba[0] = first;
    Arc::new(DecodedImage {
        w: 1,
        h: bytes as u32,
        rgba,
    })
}

#[test]
fn what_is_put_is_found_and_used_last() {
    let mut c = LruCache::new(200);
    c.put(1, sized(100, 11));
    c.put(2, sized(100, 22));
    c.put(1, sized(100, 33));
    assert_eq!(c.get(1).unwrap().rgba[0], 33);
    c.put(3, sized(100, 44));
    assert!(!c.contains(2));
    assert_eq!(c.get(3).unwrap().rgba[0], 44);
}

#[test]
fn using_a_frame_keeps_the_frames() {
    let mut c = LruCache::new(500);
    c.put(1, sized(100, 11));
    c.put(2, sized(200, 22));
    assert!(c.get(1).is_some());
    assert!(c.get(9).is_none());
    assert_eq!(c.len(), 2);
    assert_eq!(c.used_bytes(), 300);
    assert_eq!(c.get(2).unwrap().rgba[0], 22);
}

#[test]
fn a_frame_over_the_budget_stays_alone() {
    let mut c = LruCache::new(50);
    assert!(c.is_empty());
    c.put(1, sized(10, 1));
    c.put(2, sized(400, 2));
    assert_eq!(c.len(), 1);
    assert!(c.contains(2));
    assert_eq!(c.used_bytes(), 400);
}

#[test]
fn only_missing_neighbours_are_asked_for() {
    let mut c = LruCache::new(1000);
    c.put(6, sized(10, 1));
    assert_eq!(to_prefetch(&c, 5, 2, 100), vec![4, 7, 3]);
    assert_eq!(to_prefetch(&c, 0, 1, 1), Vec::<usize>::new());
}

#[test]
fn prefetching_at_the_largest_place_does_not_overflow() {
    assert_eq!(
        prefetch_set(usize::MAX, 1, usize::MAX),
        vec![usize::MAX - 1, usize::MAX - 2]
    );
}

#[test]
fn a_result_counts_for_the_shot_and_generation_that_are_shown() {
    let req = Request {
        index: 4,
        generation: 7,
    };
    assert!(is_fresh_delivery(&req, 4, 7));
    assert!(!is_fresh_delivery(&req, 5, 7));
    assert!(!is_fresh_delivery(&req, 4, 8));
}

#[test]
fn jobs_come_in_order_with_the_current_generation() {
    let mut p = Pipeline::new();
    assert!(p.next_job().is_none());
    assert_eq!(p.bump(), 1);
    p.enqueue(3, "/s/a.JPG".to_string(), TargetSize::Full, false);
    p.enqueue(4, "/s/b.JPG".to_string(), TargetSize::Fit(10, 20), true);
    let first = p.next_job().unwrap();
    assert_eq!(
        first.req,
        Request {
            index: 3,
            generation: 1
        }
    );
    assert_eq!(first.path, "/s/a.JPG");
    assert_eq!(first.target, TargetSize::Full);
    assert!(!first.thumb_first);
    let second = p.next_job().unwrap();
    assert_eq!(second.req.index, 4);
    assert_eq!(second.target, TargetSize::Fit(10, 20));
    assert!(second.thumb_first);
    assert!(p.next_job().is_none());
}

#[test]
fn a_new_generation_supersedes_what_waits() {
    let mut p = Pipeline::default();
    p.enqueue(1, "/s/a.JPG".to_string(), TargetSize::Full, false);
    p.enqueue(2, "/s/b.JPG".to_string(), TargetSize::Full, false);
    assert_eq!(p.bump(), 1);
    assert_eq!(p.current(), 1);
    p.enqueue(3, "/s/c.JPG".to_string(), TargetSize::Full, false);
    assert_eq!(p.next_job().unwrap().req.index, 3);
    assert!(p.next_job().is_none());
}

#[test]
fn the_full_slot_holds_one_frame() {
    let mut slot = FullSlot::default();
    assert!(slot.get(0).is_none());
    slot.set(3, sized(4, 9));
    assert_eq!(slot.get(3).unwrap().rgba[0], 9);
    slot.set(5, sized(4, 8));
    assert!(slot.get(3).is_none());
    assert_eq!(slot.get(5).unwrap().rgba[0], 8);
}
