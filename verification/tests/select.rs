use relay_select::select::{
    descriptor_limit, fits_bitmask, highest_descriptor, Select, WaitError, DESCRIPTOR_CAPACITY,
    WAIT_MICROSECONDS, WAIT_SECONDS,
};

fn drain(walk: &mut Select) -> Vec<i32> {
    let mut out = Vec::new();
    while let Some(fd) = walk.next() {
        out.push(fd);
    }
    out
}

fn walk_of(fds: Vec<i32>, status: i32, readable: Vec<i32>) -> Select {
    match Select::new(fds, status, 0, readable) {
        Ok(walk) => walk,
        Err(e) => panic!("unexpected failure {:?}", e),
    }
}

#[test]
fn wait_blocks_for_one_second_at_most() {
    assert_eq!(WAIT_SECONDS, 1);
    assert_eq!(WAIT_MICROSECONDS, 0);
}

#[test]
fn bitmask_has_room_for_1024_descriptors() {
    assert_eq!(DESCRIPTOR_CAPACITY, 1024);
}

#[test]
fn highest_of_nothing_is_minus_one() {
    assert_eq!(highest_descriptor(&vec![]), -1);
}

#[test]
fn highest_is_the_maximum() {
    assert_eq!(highest_descriptor(&vec![3, 7, 5]), 7);
    assert_eq!(highest_descriptor(&vec![7, 3]), 7);
    assert_eq!(highest_descriptor(&vec![4]), 4);
}

#[test]
fn highest_of_negative_descriptors_is_their_maximum() {
    assert_eq!(highest_descriptor(&vec![-5]), -5);
    assert_eq!(highest_descriptor(&vec![-5, -2, -9]), -2);
}

#[test]
fn limit_of_nothing_is_zero() {
    assert_eq!(descriptor_limit(&vec![]), 0);
}

#[test]
fn limit_is_one_past_the_maximum() {
    assert_eq!(descriptor_limit(&vec![3, 7, 5]), 8);
    assert_eq!(descriptor_limit(&vec![0]), 1);
    assert_eq!(descriptor_limit(&vec![1023, 4]), 1024);
}

#[test]
fn descriptors_inside_the_bitmask_fit() {
    assert!(fits_bitmask(&vec![]));
    assert!(fits_bitmask(&vec![0, 1023, 17]));
}

#[test]
fn descriptors_outside_the_bitmask_do_not_fit() {
    assert!(!fits_bitmask(&vec![1024]));
    assert!(!fits_bitmask(&vec![3, -1]));
    assert!(!fits_bitmask(&vec![3, i32::MAX, 4]));
}

#[test]
fn failed_wait_is_an_error_with_its_code() {
    let made = Select::new(vec![3, 4], -1, 9, vec![3]);
    match made {
        Err(e) => assert_eq!(e, WaitError { code: 9 }),
        Ok(_) => panic!("a failed wait gave a walk"),
    }
}

#[test]
fn timed_out_wait_yields_nothing() {
    let mut walk = walk_of(vec![3, 4, 5], 0, vec![]);
    assert_eq!(walk.next(), None);
}

#[test]
fn empty_watch_set_yields_nothing() {
    let mut walk = walk_of(vec![], 0, vec![]);
    assert_eq!(walk.next(), None);
    assert_eq!(walk.next(), None);
}

#[test]
fn empty_watch_set_ignores_what_is_readable() {
    let mut walk = walk_of(vec![], 2, vec![1, 2]);
    assert_eq!(drain(&mut walk), Vec::<i32>::new());
}

#[test]
fn ready_descriptors_come_in_watch_order() {
    let mut walk = walk_of(vec![9, 3, 5], 2, vec![5, 9]);
    assert_eq!(walk.next(), Some(9));
    assert_eq!(walk.next(), Some(5));
    assert_eq!(walk.next(), None);
}

#[test]
fn unwatched_readable_descriptor_is_not_yielded() {
    let mut walk = walk_of(vec![3, 4], 1, vec![4, 8]);
    assert_eq!(drain(&mut walk), vec![4]);
}

#[test]
fn all_ready_yields_all() {
    let mut walk = walk_of(vec![6, 2, 4], 3, vec![2, 4, 6]);
    assert_eq!(drain(&mut walk), vec![6, 2, 4]);
}

#[test]
fn descriptor_watched_twice_is_yielded_twice() {
    let mut walk = walk_of(vec![4, 4, 5], 1, vec![4]);
    assert_eq!(drain(&mut walk), vec![4, 4]);
}

#[test]
fn walk_stays_over_once_it_is_over() {
    let mut walk = walk_of(vec![3], 1, vec![3]);
    assert_eq!(walk.next(), Some(3));
    assert_eq!(walk.next(), None);
    assert_eq!(walk.next(), None);
}

#[test]
fn any_status_but_minus_one_is_a_walk() {
    assert!(Select::new(vec![1], 0, 11, vec![]).is_ok());
    assert!(Select::new(vec![1], 1, 11, vec![1]).is_ok());
    assert!(Select::new(vec![1], -2, 11, vec![1]).is_ok());
}
