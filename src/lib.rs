//! Reading, building, writing and unpacking Web Archive files: a main
//! resource, its subresources and the archives of its subframes, stored as a
//! property list.

pub mod codec;
pub mod container;
pub mod document;
pub mod extract;
pub mod listing;
pub mod model;

pub use codec::{from_document, to_document, DecodeError};
pub use container::{from_bytes, to_binary, to_xml, ReadError};
pub use document::Document;
pub use extract::{
    index_file_extension, path_for, plan_extraction, relative_path, ExtractionRun, PathError,
    PlanError, PlannedFile,
};
pub use listing::ListingEntry;
pub use model::{ArchiveView, ResourceView, WebArchive, WebResource};
