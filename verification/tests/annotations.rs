use editor_reconcile::annotation::{Annotation, AnnotationSet};
use editor_reconcile::lifecycle::WidgetLifecycle;

fn annotation(row: usize, column: usize, text: &str, ty: &str) -> Annotation {
    Annotation {
        row,
        column,
        text: String::from(text),
        ty: String::from(ty),
    }
}

#[test]
fn annotation_equality_is_structural() {
    let a = annotation(3, 0, "unknown instruction", "error");
    let b = annotation(3, 0, "unknown instruction", "error");
    assert_eq!(a, b);
    assert!(a != annotation(3, 0, "unknown instruction", "warning"));
}

#[test]
fn annotation_set_collapses_duplicates() {
    let mut s = AnnotationSet::new();
    let a = annotation(0, 0, "bad operand", "error");
    s.insert(a.clone());
    s.insert(a.clone());
    assert_eq!(s.len(), 1);
    assert!(s.contains(&a));
}

#[test]
fn sync_defers_without_widget() {
    let s = AnnotationSet::new();
    assert!(editor_reconcile::annotation::sync_payload(false, &s).is_none());
}

#[test]
fn scenario_replace_empty_then_one() {
    // desired {}: a replace call with the empty list
    let empty = AnnotationSet::new();
    let payload = editor_reconcile::annotation::sync_payload(true, &empty).unwrap();
    assert_eq!(payload.len(), 0);

    // desired {X}: a replace call with a one-element list, not an incremental add
    let mut one = AnnotationSet::new();
    let x = annotation(1, 2, "expected type", "error");
    one.insert(x.clone());
    let payload = editor_reconcile::annotation::sync_payload(true, &one).unwrap();
    assert_eq!(payload.len(), 1);
    assert_eq!(payload[0], x);
}

#[test]
fn sync_payload_reflects_whole_set() {
    let mut s = AnnotationSet::new();
    let a = annotation(0, 0, "first", "warning");
    let b = annotation(9, 4, "second", "error");
    s.insert(a.clone());
    s.insert(b.clone());
    s.insert(a.clone());
    let payload = editor_reconcile::annotation::sync_payload(true, &s).unwrap();
    assert_eq!(payload.len(), 2);
    assert!(payload.contains(&a));
    assert!(payload.contains(&b));
}

#[test]
fn widget_creation_happens_exactly_once() {
    let mut life = WidgetLifecycle::new();
    assert!(!life.ready());
    assert!(life.claim_creation());
    assert!(life.ready());
    assert!(!life.claim_creation());
    assert!(!life.claim_creation());
    assert!(life.ready());
}
