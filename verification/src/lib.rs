//! Engine of a bounded web crawler: URL normalisation, domain policy,
//! the registry of visited pages and the scheduling decisions of a crawl.

pub mod coverage;
pub mod links;
pub mod normalize;
pub mod policy;
pub mod registry;
pub mod report;
pub mod scheduler;
