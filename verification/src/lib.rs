//! A resolver engine for locating functions and global variables inside a
//! loaded executable image by byte-pattern scanning and x86-64 addressing
//! conventions.
//!
//! The engine composes wildcarded byte-pattern scans, RIP-relative address
//! decoding and exception-table lookups into named, memoised resolutions.
//! Scans issued by many resolvers are batched and answered by one sweep per
//! memory section; resolver results are cached by resolver identity, so
//! that no resolver runs more than once per evaluation context, and
//! resolvers may depend on other resolvers' results.

pub mod error;
pub mod image;
pub mod pattern;
pub mod registry;
pub mod resolvers;
pub mod runtime;
pub mod scanner;
pub mod semantics;
pub mod util;

pub use error::Context;
pub use error::MemoryAccessError;
pub use error::ResolveError;
pub use image::Image;
pub use image::Memory;
pub use image::Section;
pub use pattern::Pattern;
pub use registry::NamedResolver;
pub use registry::Registry;
pub use registry::ResolverBody;
pub use resolvers::ResolutionType;
pub use resolvers::ensure_one;
pub use resolvers::resolve_function;
pub use resolvers::resolve_rip_offset;
pub use resolvers::resolve_self;
pub use resolvers::try_ensure_one;
pub use semantics::ResolvedValue;
pub use runtime::eval;
pub use runtime::resolve;
pub use runtime::resolve_many;
