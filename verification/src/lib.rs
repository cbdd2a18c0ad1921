pub mod scan;
pub mod metadata;
pub mod numlist;
pub mod errors;
pub mod header;
pub mod payload;
pub mod document;

pub use document::Nrrd;
pub use errors::NrrdError;
pub use metadata::Metadata;
