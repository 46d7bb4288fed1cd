use std::time::{Duration, Instant};
use vrg::device::{
    choose_surface_format, memory_type_index, select_queue_families, surface_extent, unique_indices,
    QueueFamilySupport, QueueSelection,
};
use vrg::swapchain::{choose_present_mode, image_count, sharing_families};
use vrg::util::frametime::Frametime;

fn fam(present: bool, flags: u32) -> QueueFamilySupport {
    QueueFamilySupport { present, flags }
}

#[test]
fn queue_family_selection_takes_the_first_usable_device() {
    // graphics = 1, compute = 2
    let devices = vec![
        vec![fam(false, 1), fam(false, 2)],
        vec![fam(false, 2), fam(true, 3), fam(true, 3)],
    ];
    let s = select_queue_families(&devices, 3, 2);
    assert_eq!(s, Some(QueueSelection { device: 1, present: 1, main: 1, async_compute: 0 }));
}

#[test]
fn queue_family_selection_without_a_usable_device() {
    let devices = vec![vec![fam(true, 1)], vec![]];
    assert_eq!(select_queue_families(&devices, 3, 2), None);
    assert_eq!(select_queue_families(&vec![], 3, 2), None);
}

#[test]
fn unique_queue_indices() {
    assert_eq!(unique_indices(&vec![0, 0, 1]), vec![0, 1]);
    assert_eq!(unique_indices(&vec![2, 1, 2]), vec![2, 1]);
    assert_eq!(unique_indices(&vec![]), Vec::<u32>::new());
}

#[test]
fn memory_type_selection() {
    // types: 0 = device local (1), 1 = host visible|coherent (6), 2 = host visible (2)
    let flags = vec![1, 6, 2];
    assert_eq!(memory_type_index(0b111, &flags, 2), Some(1));
    assert_eq!(memory_type_index(0b100, &flags, 2), Some(2));
    assert_eq!(memory_type_index(0b111, &flags, 1), Some(0));
    assert_eq!(memory_type_index(0b001, &flags, 4), None);
}

#[test]
fn surface_format_choice() {
    assert_eq!(choose_surface_format(&vec![(1, 0), (50, 1000104002), (50, 0)], (50, 1000104002)), 1);
    assert_eq!(choose_surface_format(&vec![(1, 0), (2, 0)], (50, 1000104002)), 0);
}

#[test]
fn surface_extent_choice() {
    assert_eq!(surface_extent((u32::MAX, u32::MAX)), (1280, 720));
    assert_eq!(surface_extent((800, 600)), (800, 600));
}

#[test]
fn swapchain_image_count() {
    assert_eq!(image_count(2, 8), 3);
    assert_eq!(image_count(3, 3), 3);
    assert_eq!(image_count(2, 2), 2);
}

#[test]
fn swapchain_sharing() {
    assert_eq!(sharing_families(0, 0), vec![0]);
    assert_eq!(sharing_families(1, 0), vec![1, 0]);
}

#[test]
fn present_mode_choice() {
    // FIFO = 2, MAILBOX = 1
    assert_eq!(choose_present_mode(&vec![2, 1], 1, 2), 1);
    assert_eq!(choose_present_mode(&vec![0, 2], 1, 2), 2);
}

#[test]
fn frametime_starts_empty() {
    let f = Frametime::new();
    assert!(f.deltas.is_empty());
    assert_eq!(f.total_millis(), Some(0));
}

#[test]
fn frametime_set_adds_each_segment_once() {
    let mut f = Frametime::new();
    f.set("update");
    f.set("render");
    f.set("update");
    let names: Vec<&str> = f.deltas.iter().map(|d| d.0.as_str()).collect();
    assert_eq!(names, vec!["update", "render"]);
    assert!(f.last_time >= f.start_time);
}

#[test]
fn frametime_set_measures_from_the_previous_mark() {
    let mut f = Frametime::new();
    let earlier = Instant::now() - Duration::from_millis(30);
    f.record("start", 0, earlier);
    f.set("work");
    assert!(f.deltas[1].1 >= 30_000_000);
}

#[test]
fn frametime_record_and_total() {
    let mut f = Frametime::new();
    let t = Instant::now();
    f.record("a", 2_500_000, t);
    f.record("b", 1_999_999, t);
    f.record("a", 3_000_000, t);
    assert_eq!(f.deltas, vec![("a".to_string(), 3_000_000), ("b".to_string(), 1_999_999)]);
    assert_eq!(f.total_millis(), Some(4));
    assert_eq!(f.last_time, t);
}

#[test]
fn frametime_total_of_large_timings() {
    let mut f = Frametime::new();
    let t = Instant::now();
    f.record("a", u128::MAX, t);
    f.record("b", u128::MAX, t);
    f.record("c", u128::MAX, t);
    assert_eq!(f.total_millis(), Some((u128::MAX / 1_000_000) * 3));
}

#[test]
fn frametime_refresh_forgets_timings() {
    let mut f = Frametime::new();
    f.set("a");
    f.refresh();
    assert!(f.deltas.is_empty());
}

#[test]
fn frametime_set_measures_from_the_last_mark_not_the_start() {
    let mut f = Frametime::new();
    let now = Instant::now();
    f.start_time = now.checked_sub(Duration::from_secs(100)).unwrap_or(now);
    f.record("start", 0, now);
    f.set("work");
    assert!(f.deltas[1].1 < 50_000_000_000);
}
