//! A minimal virtual-machine heap with a verified mark-and-sweep garbage
//! collector.
//!
//! Objects are tagged values (integer leaves and two-field pairs) held in an
//! arena; pair edges and the root stack store arena indices, so the object
//! graph may contain arbitrary cycles. A collection marks everything
//! reachable from the root stack, sweeps everything else, and doubles the
//! allocation threshold from the surviving count.

pub mod counting;
pub mod heap;

pub use heap::Object;
pub use heap::ObjectType;
pub use heap::VM;
pub use heap::VmError;
