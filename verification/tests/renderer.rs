use vrg::renderer::{PlanError, Renderer};

fn three_layers() -> Renderer<&'static str, u32> {
    // shadow -> lighting -> post (post presents)
    let mut r: Renderer<&'static str, u32> = Renderer::new(2);
    r.add_layer("shadow", false, "shadow layer");
    r.add_layer("lighting", false, "lighting layer");
    r.add_layer("post", true, "post layer");
    r.add_layer_dependency("shadow", "lighting", 0x80);
    r.add_layer_dependency("lighting", "post", 0x400);
    r
}

#[test]
fn layers_are_found_by_name() {
    let r = three_layers();
    assert_eq!(*r.get_layer("shadow"), "shadow layer");
    assert_eq!(*r.get_layer("post"), "post layer");
}

#[test]
fn get_layer_mut_changes_only_that_layer() {
    let mut r = three_layers();
    *r.get_layer_mut("lighting") = "changed";
    assert_eq!(*r.get_layer("lighting"), "changed");
    assert_eq!(*r.get_layer("shadow"), "shadow layer");
    assert_eq!(r.layers.len(), 3);
}

#[test]
fn re_added_layer_name_refers_to_the_new_layer() {
    let mut r = three_layers();
    r.add_layer("shadow", false, "second shadow");
    assert_eq!(*r.get_layer("shadow"), "second shadow");
    assert_eq!(r.layers.len(), 4);
}

#[test]
fn set_root_layer_stores_the_name() {
    let mut r = three_layers();
    r.set_root_layer("post");
    assert_eq!(r.root_layer, "post");
}

#[test]
fn advance_frame_wraps_around() {
    let mut r = three_layers();
    assert_eq!(r.current_frame, 0);
    r.advance_frame();
    assert_eq!(r.current_frame, 1);
    r.advance_frame();
    assert_eq!(r.current_frame, 0);
}

#[test]
fn plan_without_root_is_refused() {
    let r = three_layers();
    assert_eq!(r.submission_plan().err(), Some(PlanError::NoRootLayer));
}

#[test]
fn plan_with_unknown_root_is_refused() {
    let mut r = three_layers();
    r.set_root_layer("missing");
    assert_eq!(r.submission_plan().err(), Some(PlanError::UnknownRootLayer));
}

#[test]
fn plan_orders_dependencies_first() {
    let mut r = three_layers();
    r.set_root_layer("post");
    let plan = r.submission_plan().ok().unwrap();
    assert_eq!(plan.len(), 3);
    assert_eq!(plan.iter().map(|s| s.layer).collect::<Vec<_>>(), vec![0, 1, 2]);
    assert_eq!(plan[0].waits, vec![]);
    assert_eq!(plan[1].waits, vec![(0, 0x80)]);
    assert_eq!(plan[2].waits, vec![(1, 0x400)]);
    assert_eq!(plan.iter().map(|s| s.present).collect::<Vec<_>>(), vec![false, false, true]);
}

#[test]
fn plan_covers_only_what_the_root_depends_on() {
    let mut r = three_layers();
    r.set_root_layer("lighting");
    let plan = r.submission_plan().ok().unwrap();
    assert_eq!(plan.iter().map(|s| s.layer).collect::<Vec<_>>(), vec![0, 1]);
    assert!(plan.iter().all(|s| !s.present));
}

#[test]
fn plan_with_two_presenting_layers_is_refused() {
    let mut r: Renderer<u8, u32> = Renderer::new(2);
    r.add_layer("a", true, 0);
    r.add_layer("b", true, 1);
    r.add_layer_dependency("a", "b", 1);
    r.set_root_layer("b");
    assert_eq!(r.submission_plan().err(), Some(PlanError::MultiplePresentLayers));
}

#[test]
fn plan_with_a_layer_waiting_on_two() {
    let mut r: Renderer<u8, u32> = Renderer::new(1);
    r.add_layer("a", false, 0);
    r.add_layer("b", false, 1);
    r.add_layer("out", true, 2);
    r.add_layer_dependency("a", "out", 5);
    r.add_layer_dependency("b", "out", 6);
    r.set_root_layer("out");
    let plan = r.submission_plan().ok().unwrap();
    assert_eq!(plan.iter().map(|s| s.layer).collect::<Vec<_>>(), vec![0, 1, 2]);
    assert_eq!(plan.iter().map(|s| s.node).collect::<Vec<_>>(), vec![0, 1, 2]);
    assert_eq!(plan[2].waits, vec![(0, 5), (1, 6)]);
}

#[test]
fn plan_with_a_dependency_cycle_is_refused() {
    let mut r: Renderer<u8, u32> = Renderer::new(2);
    r.add_layer("a", false, 0);
    r.add_layer("b", true, 1);
    r.add_layer_dependency("a", "b", 1);
    r.add_layer_dependency("b", "a", 2);
    r.set_root_layer("b");
    assert_eq!(r.submission_plan().err(), Some(PlanError::DependencyCycle));
}

#[test]
fn plan_with_a_layer_depending_on_itself_is_refused() {
    let mut r: Renderer<u8, u32> = Renderer::new(2);
    r.add_layer("a", true, 0);
    r.add_layer_dependency("a", "a", 1);
    r.set_root_layer("a");
    assert_eq!(r.submission_plan().err(), Some(PlanError::DependencyCycle));
}

#[test]
fn a_cycle_is_reported_before_two_presenting_layers() {
    let mut r: Renderer<u8, u32> = Renderer::new(2);
    r.add_layer("a", true, 0);
    r.add_layer("b", true, 1);
    r.add_layer_dependency("a", "b", 1);
    r.add_layer_dependency("b", "a", 2);
    r.set_root_layer("b");
    assert_eq!(r.submission_plan().err(), Some(PlanError::DependencyCycle));
}

#[test]
fn a_cycle_outside_the_frame_does_not_matter() {
    let mut r: Renderer<u8, u32> = Renderer::new(2);
    r.add_layer("a", false, 0);
    r.add_layer("out", true, 1);
    r.add_layer("c", false, 2);
    r.add_layer("d", true, 3);
    r.add_layer_dependency("a", "out", 1);
    r.add_layer_dependency("c", "d", 2);
    r.add_layer_dependency("d", "c", 3);
    r.set_root_layer("out");
    let plan = r.submission_plan().ok().unwrap();
    assert_eq!(plan.iter().map(|s| s.layer).collect::<Vec<_>>(), vec![0, 1]);
}

#[test]
fn plan_puts_a_dependency_before_its_dependant() {
    // "b" depends on "a", and both feed "out"
    let mut r: Renderer<u8, u32> = Renderer::new(2);
    r.add_layer("a", false, 0);
    r.add_layer("b", false, 1);
    r.add_layer("out", true, 2);
    r.add_layer_dependency("a", "out", 1);
    r.add_layer_dependency("b", "out", 2);
    r.add_layer_dependency("a", "b", 3);
    r.set_root_layer("out");
    let plan = r.submission_plan().ok().unwrap();
    assert_eq!(plan.iter().map(|s| s.layer).collect::<Vec<_>>(), vec![0, 1, 2]);
    assert_eq!(plan[1].waits, vec![(0, 3)]);
    assert_eq!(plan[2].waits, vec![(0, 1), (1, 2)]);
}

#[test]
fn plan_orders_layers_registered_after_their_dependants() {
    // registered in the opposite order of the dependencies: a -> b -> out
    let mut r: Renderer<u8, u32> = Renderer::new(2);
    r.add_layer("out", true, 0);
    r.add_layer("b", false, 1);
    r.add_layer("a", false, 2);
    r.add_layer_dependency("b", "out", 1);
    r.add_layer_dependency("a", "b", 2);
    r.set_root_layer("out");
    let plan = r.submission_plan().ok().unwrap();
    assert_eq!(plan.iter().map(|s| s.layer).collect::<Vec<_>>(), vec![2, 1, 0]);
    assert_eq!(plan.iter().map(|s| s.present).collect::<Vec<_>>(), vec![false, false, true]);
    assert_eq!(plan.last().unwrap().node, 0);
}
