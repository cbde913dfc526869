use adder_codec::pixel_tree::{Frac, PixelError, PixelNode};

fn f32_slack(num0: f32, num1: f32) -> bool {
    let slack = 0.1e-3;
    num1 - slack < num0 && num1 + slack > num0
}

fn frac_value(f: Frac) -> f32 {
    (f.num as f64 / f.den as f64) as f32
}

#[test]
fn test_make_tree() {
    let mut tree = PixelNode::new(100);
    assert_eq!(tree.nodes[0].state.d, 6);
    tree.integrate(100, Frac::new(20, 1)).unwrap();
    assert!(tree.nodes[0].best_event.is_some());
    assert_eq!(tree.nodes[0].best_event.unwrap().d, 6);
    assert_eq!(tree.nodes[0].best_event.unwrap().delta_t, 12);
    assert_eq!(tree.nodes[0].state.d, 7);
    assert!(f32_slack(tree.nodes[0].state.integration as f32, 100.0));
    assert!(f32_slack(frac_value(tree.nodes[0].state.delta_t), 20.0));
    assert_eq!(tree.nodes.len(), 2);
    assert!(tree.nodes[1].best_event.is_none());
    assert_eq!(tree.nodes[1].state.d, 6);
    assert_eq!(tree.nodes[1].state.integration, 36);
    assert!(f32_slack(frac_value(tree.nodes[1].state.delta_t), 7.2));

    tree.integrate(100, Frac::new(20, 1)).unwrap();
    assert_eq!(tree.nodes[0].best_event.unwrap().d, 7);
    // Since the event's delta-t truncates, 25.6 becomes 25
    assert_eq!(tree.nodes[0].best_event.unwrap().delta_t, 25);
    assert_eq!(tree.nodes[0].state.d, 8);
    assert!(f32_slack(tree.nodes[0].state.integration as f32, 200.0));
    assert!(f32_slack(frac_value(tree.nodes[0].state.delta_t), 40.0));
    assert!(tree.nodes.len() >= 2);
    assert_eq!(tree.nodes[1].state.d, 7);
    assert!(f32_slack(tree.nodes[1].state.integration as f32, 72.0));
    assert!(f32_slack(frac_value(tree.nodes[1].state.delta_t), 14.4));
    assert_eq!(tree.nodes[1].best_event.unwrap().d, 6);
    assert_eq!(tree.nodes[1].best_event.unwrap().delta_t, 12);
    assert_eq!(tree.nodes.len(), 3);
    let alt_alt = &tree.nodes[2];
    assert_eq!(alt_alt.state.d, 6);
    assert!(alt_alt.best_event.is_none());
    assert_eq!(alt_alt.state.integration, 8);
    assert!(f32_slack(frac_value(alt_alt.state.delta_t), 1.6));

    // cascade at this point
    // --level states are d, integration, delta_t
    // "best events" are (d, delta_t)
    //  ---------------------------------------------------------------------------8, 200, 40
    //                                        \
    //                                    (7,25)-----------------------------------7, 72, 14.4
    //                                                                  \
    //                                                             (6,12)----------6, 8, 1.6
}

// Conservation: the threshold-equivalent intensity of the popped events
// plus the final residual equals everything the pixel integrated.
#[test]
fn pop_conserves_integrated_intensity() {
    let mut tree = PixelNode::new(4);
    assert_eq!(tree.nodes[0].state.d, 2);
    tree.integrate(12, Frac::new(12, 1)).unwrap();
    // the root fired at threshold 4 and the fallback level fired exactly
    // at threshold 8, so every level holds a pending event
    assert_eq!(tree.nodes.len(), 2);
    let total_before = tree.nodes[0].state.integration;
    assert_eq!(total_before, 12);

    let events = tree.pop_best_events().unwrap();
    assert_eq!(events.len(), 2);
    assert_eq!(events[0].d, 2);
    assert_eq!(events[1].d, 3);
    let sum: u64 = events.iter().map(|e| 1u64 << e.d).sum();
    let residual = tree.nodes[0].state.integration;
    assert_eq!(sum + residual, total_before);
    assert_eq!(tree.nodes.len(), 1);
    assert!(tree.nodes[0].best_event.is_none());
}

// Popping a pixel whose deepest level has no pending event is an error and
// changes nothing.
#[test]
fn pop_without_pending_event_fails() {
    let mut tree = PixelNode::new(100);
    assert_eq!(tree.pop_best_events(), Err(PixelError::NoPendingEvent));
    tree.integrate(100, Frac::new(20, 1)).unwrap();
    // the fallback level has not fired, so the chain's deepest level has
    // no pending event
    assert_eq!(tree.pop_best_events(), Err(PixelError::NoPendingEvent));
    assert_eq!(tree.nodes.len(), 2);
}

// A decimation value past the threshold table is a typed error.
#[test]
fn integrate_rejects_oversized_decimation() {
    let mut tree = PixelNode::new(1000);
    assert_eq!(tree.nodes[0].state.d, 9);
    let before_len = tree.nodes.len();
    assert_eq!(
        tree.integrate(10, Frac::new(1, 1)),
        Err(PixelError::DecimationOverflow)
    );
    assert_eq!(tree.nodes.len(), before_len);
    assert_eq!(tree.nodes[0].state.integration, 0);
}

// The one-level step also reports a decimation value past the table.
#[test]
fn integrate_main_rejects_oversized_decimation() {
    let mut tree = PixelNode::new(1000);
    assert_eq!(
        tree.integrate_main(10, Frac::new(1, 1)),
        Err(PixelError::DecimationOverflow)
    );
    assert_eq!(tree.nodes[0].state.integration, 0);
}

#[test]
fn integrate_main_accumulates_without_event() {
    let mut tree = PixelNode::new(100);
    // 50 intensity stays below the 64 threshold: no event, exact sums
    let r = tree.integrate_main(50, Frac::new(7, 1)).unwrap();
    assert!(r.is_none());
    assert_eq!(tree.nodes[0].state.d, 6);
    assert!(tree.nodes[0].best_event.is_none());
    assert_eq!(tree.nodes[0].state.integration, 50);
    assert_eq!(tree.nodes[0].state.delta_t.num, 7);
}

#[test]
fn integrate_main_single_level() {
    let mut tree = PixelNode::new(100);
    let r = tree.integrate_main(100, Frac::new(20, 1)).unwrap();
    // threshold 64 overfilled by 36
    let (resid_i, resid_t) = r.unwrap();
    assert_eq!(resid_i, 36);
    assert!(f32_slack(frac_value(resid_t), 7.2));
    assert_eq!(tree.nodes[0].state.d, 7);
    assert_eq!(tree.nodes[0].best_event.unwrap().delta_t, 12);
}
