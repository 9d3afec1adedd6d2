//! Browsing and pruning the groups of a duplicate-photo report: the report grammar, the indexed
//! store of duplicate groups, entity tags for conditional image fetches, and the
//! decisions behind each request of the browsing server.

mod text;
pub mod etag;
pub mod grammar;
pub mod order;
pub mod report;
pub mod request;
pub mod store;

pub use grammar::LineError;
pub use report::{ParseError, parse_dups};
pub use request::{AddressError, GroupPage, ImageStep, plan_group, plan_image, plan_trash};
pub use store::{DupGroups, ImgInfo};
