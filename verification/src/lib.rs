//! A reconciliation engine for cluster-managed resources: it parses a
//! group/version/kind designation, snapshots watched objects into a
//! structured document, hands the document to an external action handler,
//! and interprets the handler's result (diff detection, patch decision,
//! requeue scheduling).  All decision logic lives here, verified; process
//! launching, file handling and cluster calls are left to the surrounding
//! binary.

pub mod cli;
pub mod codec;
pub mod doc;
pub mod error;
pub mod finalizer;
pub mod gvk;
pub mod meta;
pub mod parse;
pub mod reconcile;
