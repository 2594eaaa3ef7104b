//! Reconciliation engine for an externally hosted text-editor widget.
//!
//! The library keeps a widget's visual decorations in step with an
//! application-held desired state: inline annotations are pushed by full
//! replacement, while range markers are reconciled incrementally through a
//! handle table that maps each registered marker to the opaque handle the
//! widget returned for it.

pub mod annotation;
pub mod lifecycle;
pub mod marker;
pub mod reconcile;
