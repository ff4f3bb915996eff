//! Caches over a user/group identity database.
//!
//! The identity database itself (the operating system's passwd and group
//! tables, or a test double) is reached only through an abstract identity
//! source interface.  On top of it the crate offers two caching strategies: a
//! lazy cache that resolves entries on demand and remembers every answer,
//! including confirmed absences; and an eager, immutable snapshot taken in one
//! enumeration pass, which can also be iterated.

pub mod cache;
pub mod idmap;
pub mod mock;
pub mod records;
pub mod snapshot;
pub mod source;
pub mod traits;

pub use cache::UsersCache;
pub use idmap::IdNameMap;
pub use mock::MockUsers;
pub use records::{Group, GroupView, User, UserView};
pub use snapshot::UsersSnapshot;
pub use source::IdentitySource;
pub use traits::{AllGroups, AllUsers, Groups, IdentityModel, IdentityView, Users};
