//! Turns an abstract description of a small router network (named devices
//! joined by point-to-point links) into per-device vendor-style CLI
//! configuration text, automatically assigning host IP addresses and
//! interface numbers.

pub mod addr;
pub mod compile;
pub mod device;
pub mod text;
pub mod topology;

pub use addr::allocate;
pub use addr::parse_cidr;
pub use addr::AppError;
pub use addr::Cidr;
pub use addr::Ip;
pub use device::Device;
pub use device::DeviceBuilder;
pub use device::Redistributions;
pub use topology::App;
pub use topology::DirectedLink;
pub use topology::Link;
