//! Device records: identity, redistribution flag, and the per-device
//! interface counter that link creation advances.

use vstd::prelude::*;

verus! {

/// Which route redistributions a device announces.
#[derive(Clone, Copy, Debug, PartialEq, Eq)]
pub struct Redistributions {
    pub ospf_to_rip: bool,
}

/// A router.
#[derive(Debug, PartialEq)]
pub struct Device {
    pub name: String,
    pub redistributions: Redistributions,
    pub next_iface: u64,
}

/// The mathematical content of a device record.
pub ghost struct DeviceM {
    pub name: Seq<char>,
    pub ospf_to_rip: bool,
    pub next_iface: u64,
}

impl View for Device {
    type V = DeviceM;

    open spec fn view(&self) -> DeviceM {
        DeviceM {
            name: self.name@,
            ospf_to_rip: self.redistributions.ospf_to_rip,
            next_iface: self.next_iface,
        }
    }
}

/// The plain configuration value a device is created from: a name and
/// the redistribution flag.
#[derive(Debug, PartialEq)]
pub struct DeviceBuilder {
    pub name: String,
    pub redistributions: Redistributions,
}

impl DeviceBuilder {
    /// Start describing a device with the given name and all flags off.
    pub fn new(name: &str) -> (b: DeviceBuilder)
        ensures
            b.name@ == name@,
            !b.redistributions.ospf_to_rip,
    {
        DeviceBuilder { name: name.to_owned(), redistributions: Redistributions { ospf_to_rip: false } }
    }

    /// Replace the name.
    pub fn name(self, name: String) -> (b: DeviceBuilder)
        ensures
            b.name == name,
            b.redistributions == self.redistributions,
    {
        DeviceBuilder { name, ..self }
    }

    /// Set whether the device redistributes RIP routes into OSPF.
    pub fn redistribute_ospf_to_rip(self, b: bool) -> (r: DeviceBuilder)
        ensures
            r.name == self.name,
            r.redistributions.ospf_to_rip == b,
    {
        DeviceBuilder { redistributions: Redistributions { ospf_to_rip: b }, ..self }
    }
}

} // verus!
