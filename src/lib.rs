//! Assembly of the parts and relationships of a zipped spreadsheet package:
//! column run compaction, relationship tables, raw pass-through parts,
//! the part registry and the content-type manifest.
pub mod text;
pub mod columns;
pub mod parts;
pub mod relationships;
pub mod content_types;
pub mod raw;
pub mod drawings;
