use iced_texture_cache::switch::{
    laid_out_indices, stack_visible_indices, visible_indices, PageRange, Switch,
};

#[test]
fn visible_indices_are_ascending_in_range_and_deduplicated() {
    assert_eq!(visible_indices(2, 2, Some(0), 3), [Some(0), Some(2), None]);
    assert_eq!(visible_indices(0, 1, Some(1), 3), [Some(0), Some(1), None]);
    assert_eq!(visible_indices(1, 2, Some(0), 3), [Some(0), Some(1), Some(2)]);
    assert_eq!(visible_indices(0, 0, Some(9), 3), [Some(0), None, None]);
    assert_eq!(visible_indices(0, 0, None, 0), [None, None, None]);
}

#[test]
fn laid_out_indices_skip_the_unused_slots() {
    assert_eq!(laid_out_indices(&[Some(0), Some(2), None]), vec![0, 2]);
    assert_eq!(laid_out_indices(&[None, None, None]), Vec::<usize>::new());
    assert_eq!(laid_out_indices(&[Some(1), Some(4), Some(5)]), vec![1, 4, 5]);
}

#[test]
fn a_stack_lays_out_the_pages_under_the_camera() {
    assert_eq!(stack_visible_indices(3, 2, 5), vec![2, 3]);
    assert_eq!(stack_visible_indices(1, 1, 5), vec![1]);
    assert_eq!(stack_visible_indices(4, 5, 5), vec![4]);
    assert_eq!(stack_visible_indices(0, 0, 0), Vec::<usize>::new());
}

#[test]
fn current_is_clamped_to_the_page_count() {
    assert_eq!(Switch::new(2, 7).current, 1);
    assert_eq!(Switch::new(0, 3).current, 0);
    assert_eq!(Switch::new(4, 2), Switch { current: 2, pending: None });
}

#[test]
fn a_switch_heads_for_the_requested_page_and_arrives_on_a_quiet_redraw() {
    let mut switch = Switch::new(5, 0);
    assert_eq!(switch.rebuild(5, 3), Some(PageRange { first: 0, last: 3 }));
    assert_eq!(switch.heading_to(), 3);
    assert_eq!(switch.current, 0);

    assert!(!switch.arrive(false, false), "not a redraw");
    assert!(!switch.arrive(true, true), "still animating");
    assert_eq!(switch.pending, Some(3));
    assert!(switch.arrive(true, false));
    assert_eq!(switch, Switch { current: 3, pending: None });
    assert!(!switch.arrive(true, false), "nothing pending");
}

#[test]
fn the_slide_track_survives_idle_rebuilds() {
    let mut switch = Switch::new(3, 0);
    assert!(switch.rebuild(3, 2).is_some());
    let heading = switch;
    assert_eq!(switch.rebuild(3, 2), None);
    assert_eq!(switch, heading);
}

#[test]
fn removing_pages_while_the_last_is_current_does_not_panic() {
    let mut switch = Switch::new(3, 2);
    assert_eq!(switch.rebuild(1, 2), None);
    assert_eq!(switch, Switch { current: 0, pending: None });
    assert_eq!(switch.rebuild(0, 0), None);
    assert_eq!(switch.heading_to(), 0);
}

#[test]
fn a_slide_backwards_passes_over_the_pages_in_between() {
    let mut switch = Switch::new(6, 5);
    assert_eq!(switch.rebuild(6, 1), Some(PageRange { first: 1, last: 5 }));
    assert_eq!(switch.rebuild(6, 4), Some(PageRange { first: 4, last: 5 }));
    assert_eq!(switch.heading_to(), 4);
}
