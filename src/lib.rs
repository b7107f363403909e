//! Query iteration core of an entity-component-system: column storage, query matching and
//! grouping, a table-batch cursor with typed field views, and the iteration protocols.
pub mod field;
pub mod filter;
pub mod ids;
pub mod iter;
pub mod laws;
pub mod protocols;
pub mod text;
pub mod world;

pub use field::Field;
pub use filter::{Filter, FilterView, IterOperations, QueryDesc, Term};
pub use ids::{is_pair, pair, pair_first, pair_second, Entity, IdT, ECS_PAIR};
pub use iter::{EachEntityForward, EachForward, Iter, IterIterator, IterT};
pub use world::{Table, World};
