//! Content-based event routing: subscribers register equality filters over
//! tagged key/value attributes, published events carry a tag set, and the
//! engine delivers each event to exactly the listeners whose filter accepts it.

pub mod tags;
pub mod topic;
pub mod linear;
pub mod tree;
pub mod laws;

pub use tags::Event;
pub use tags::Filter;
pub use topic::Listener;
pub use topic::Tally;
pub use topic::Topic;
pub use linear::LinearScan;
pub use tree::SubscribeError;
pub use tree::TagTree;
pub use tree::TreeScanner;
