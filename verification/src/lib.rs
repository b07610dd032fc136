//! Converts flat listings of file sizes into the nested directory export
//! that the `ncdu` disk-usage viewer reads.
//!
//! The pipeline has three stages: [`import`] turns tabular input into
//! `(path, size)` records, [`filetree`] folds the records into a directory
//! tree, and [`ncdu`] lays the tree out as the viewer's export document.
//!
//! Beside them, [`names`] holds the order of names and the cut of a path
//! into names, [`children`] the ordered children of a directory, and
//! [`independence`] the proof that the tree does not depend on the order
//! of the records.

pub mod children;
pub mod filetree;
pub mod import;
pub mod independence;
pub mod names;
pub mod ncdu;
