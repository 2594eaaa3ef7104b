use editor_reconcile::marker::{Marker, MarkerHandle, MarkerSet};
use editor_reconcile::reconcile::{MarkerReconciler, ReconcilePlan};

fn marker(start: (usize, usize), stop: (usize, usize)) -> Marker {
    Marker {
        start,
        stop,
        class: String::from("error-highlight"),
        ty: String::from("text"),
        in_front: false,
    }
}

fn set_of(markers: &[Marker]) -> MarkerSet {
    let mut s = MarkerSet::new();
    for m in markers {
        s.insert(m.clone());
    }
    s
}

fn fresh_handles(plan: &ReconcilePlan, next: &mut isize) -> Vec<MarkerHandle> {
    let mut hs = Vec::new();
    for _ in 0..plan.adds.len() {
        hs.push(MarkerHandle { id: *next });
        *next += 1;
    }
    hs
}

#[test]
fn marker_equality_is_structural() {
    let a = marker((0, 0), (1, 0));
    let b = marker((0, 0), (1, 0));
    assert_eq!(a, b);
    let c = marker((0, 0), (1, 1));
    assert!(a != c);
}

#[test]
fn marker_set_collapses_duplicates() {
    let a = marker((0, 0), (1, 0));
    let s = set_of(&[a.clone(), a.clone(), a.clone()]);
    assert_eq!(s.len(), 1);
    assert!(s.contains(&a));
    assert!(!s.contains(&marker((5, 0), (6, 0))));
}

#[test]
fn pass_defers_without_widget() {
    let rec = MarkerReconciler::new();
    let desired = set_of(&[marker((0, 0), (1, 0))]);
    assert!(rec.begin_pass(false, &desired).is_none());
}

#[test]
fn first_pass_adds_everything() {
    let mut rec = MarkerReconciler::new();
    let a = marker((0, 0), (1, 0));
    let b = marker((2, 0), (3, 0));
    let desired = set_of(&[a.clone(), b.clone()]);
    let plan = rec.begin_pass(true, &desired).unwrap();
    assert_eq!(plan.adds.len(), 2);
    assert_eq!(plan.removes.len(), 0);
    let mut next: isize = 1;
    let handles = fresh_handles(&plan, &mut next);
    rec.commit_pass(&plan, &handles);
    assert!(rec.is_registered(&a));
    assert!(rec.is_registered(&b));
}

#[test]
fn second_pass_with_same_set_is_noop() {
    let mut rec = MarkerReconciler::new();
    let desired = set_of(&[marker((0, 0), (1, 0)), marker((4, 2), (4, 9))]);
    let plan = rec.begin_pass(true, &desired).unwrap();
    let mut next: isize = 10;
    let handles = fresh_handles(&plan, &mut next);
    rec.commit_pass(&plan, &handles);

    let again = rec.begin_pass(true, &desired).unwrap();
    assert_eq!(again.adds.len(), 0);
    assert_eq!(again.removes.len(), 0);
}

#[test]
fn unchanged_marker_sees_no_churn() {
    let mut rec = MarkerReconciler::new();
    let kept = marker((1, 0), (1, 5));
    let dropped = marker((2, 0), (2, 5));
    let added = marker((3, 0), (3, 5));

    let first = set_of(&[kept.clone(), dropped.clone()]);
    let plan = rec.begin_pass(true, &first).unwrap();
    let mut next: isize = 100;
    let handles = fresh_handles(&plan, &mut next);
    rec.commit_pass(&plan, &handles);
    let kept_handle = rec.handle_for(&kept).unwrap();

    let second = set_of(&[kept.clone(), added.clone()]);
    let plan2 = rec.begin_pass(true, &second).unwrap();
    assert_eq!(plan2.adds.len(), 1);
    assert_eq!(plan2.adds[0], added);
    assert_eq!(plan2.removes.len(), 1);
    assert_eq!(plan2.removes[0].0, dropped);
    let handles2 = fresh_handles(&plan2, &mut next);
    rec.commit_pass(&plan2, &handles2);

    // the marker present in both desired sets kept the handle recorded at its addition
    assert_eq!(rec.handle_for(&kept), Some(kept_handle));
    assert!(!rec.is_registered(&dropped));
    assert!(rec.is_registered(&added));
}

#[test]
fn scenario_add_then_grow_then_shrink() {
    // desired {A}: one add, handle h1
    let mut rec = MarkerReconciler::new();
    let a = marker((0, 0), (1, 0));
    let b = marker((2, 0), (3, 0));

    let d1 = set_of(&[a.clone()]);
    let plan1 = rec.begin_pass(true, &d1).unwrap();
    assert_eq!(plan1.adds.len(), 1);
    assert_eq!(plan1.adds[0], a);
    assert_eq!(plan1.removes.len(), 0);
    let h1 = MarkerHandle { id: 41 };
    rec.commit_pass(&plan1, &vec![h1]);
    assert_eq!(rec.handle_for(&a), Some(h1));

    // desired {A, B}: one add for B only
    let d2 = set_of(&[a.clone(), b.clone()]);
    let plan2 = rec.begin_pass(true, &d2).unwrap();
    assert_eq!(plan2.adds.len(), 1);
    assert_eq!(plan2.adds[0], b);
    assert_eq!(plan2.removes.len(), 0);
    let h2 = MarkerHandle { id: 42 };
    rec.commit_pass(&plan2, &vec![h2]);

    // desired {B}: one remove of A using h1, zero calls for B
    let d3 = set_of(&[b.clone()]);
    let plan3 = rec.begin_pass(true, &d3).unwrap();
    assert_eq!(plan3.adds.len(), 0);
    assert_eq!(plan3.removes.len(), 1);
    assert_eq!(plan3.removes[0].0, a);
    assert_eq!(plan3.removes[0].1, h1);
    rec.commit_pass(&plan3, &Vec::new());
    assert!(!rec.is_registered(&a));
    assert_eq!(rec.handle_for(&b), Some(h2));
}

#[test]
fn incremental_recording_matches_per_call_commits() {
    // the fine-grained entry points behave like one whole-pass commit
    let mut rec = MarkerReconciler::new();
    let a = marker((0, 0), (0, 3));
    let b = marker((1, 0), (1, 3));
    rec.record_add(a.clone(), MarkerHandle { id: 7 });
    rec.record_add(b.clone(), MarkerHandle { id: 8 });
    assert_eq!(rec.handle_for(&a), Some(MarkerHandle { id: 7 }));
    rec.record_remove(&a);
    assert!(!rec.is_registered(&a));
    assert_eq!(rec.handle_for(&b), Some(MarkerHandle { id: 8 }));
}

#[test]
fn reset_clears_the_table() {
    let mut rec = MarkerReconciler::new();
    let a = marker((0, 0), (1, 0));
    rec.record_add(a.clone(), MarkerHandle { id: 3 });
    rec.reset();
    assert!(!rec.is_registered(&a));
    let plan = rec.begin_pass(true, &set_of(&[a.clone()])).unwrap();
    assert_eq!(plan.adds.len(), 1);
    assert_eq!(plan.removes.len(), 0);
}
