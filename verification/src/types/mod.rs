pub mod address;
pub mod address_map;
pub mod edge;
pub mod safe;
pub mod text;
pub mod u256;

pub use address::Address;
pub use edge::Edge;
pub use safe::Safe;
pub use u256::U256;
