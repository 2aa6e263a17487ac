//! Authorization resources that name collections of the API.
//!
//! These carry no data beyond the silo they belong to: authorization checks
//! tell them apart by type.

use vstd::prelude::*;

verus! {

/// The fleet: fleet-level resources are global. There is only one.
#[derive(Clone, Copy, Debug, PartialEq, Eq, Structural)]
pub struct Fleet;

/// The configuration of blueprints.
#[derive(Clone, Copy, Debug, PartialEq, Eq, Structural)]
pub struct BlueprintConfig;

/// The list of console sessions.
#[derive(Clone, Copy, Debug, PartialEq, Eq, Structural)]
pub struct ConsoleSessionList;

/// The DNS configuration.
#[derive(Clone, Copy, Debug, PartialEq, Eq, Structural)]
pub struct DnsConfig;

/// The list of IP pools.
#[derive(Clone, Copy, Debug, PartialEq, Eq, Structural)]
pub struct IpPoolList;

/// The list of device authorization requests.
#[derive(Clone, Copy, Debug, PartialEq, Eq, Structural)]
pub struct DeviceAuthRequestList;

/// The hardware and software inventory.
#[derive(Clone, Copy, Debug, PartialEq, Eq, Structural)]
pub struct Inventory;

/// A silo, by its id.
#[derive(Clone, Copy, Debug, PartialEq, Eq, Structural)]
pub struct Silo {
    pub id: u128,
}

/// The certificates of a silo.
#[derive(Clone, Copy, Debug, PartialEq, Eq, Structural)]
pub struct SiloCertificateList(Silo);

/// The identity providers of a silo.
#[derive(Clone, Copy, Debug, PartialEq, Eq, Structural)]
pub struct SiloIdentityProviderList(Silo);

/// The users of a silo.
#[derive(Clone, Copy, Debug, PartialEq, Eq, Structural)]
pub struct SiloUserList(Silo);

impl View for SiloCertificateList {
    type V = Silo;

    closed spec fn view(&self) -> Silo {
        self.0
    }
}

impl View for SiloIdentityProviderList {
    type V = Silo;

    closed spec fn view(&self) -> Silo {
        self.0
    }
}

impl View for SiloUserList {
    type V = Silo;

    closed spec fn view(&self) -> Silo {
        self.0
    }
}

impl SiloCertificateList {
    pub fn new(silo: Silo) -> (r: SiloCertificateList)
        ensures
            r@ == silo,
    {
        SiloCertificateList(silo)
    }

    pub fn silo(&self) -> (r: &Silo)
        ensures
            *r == self@,
    {
        &self.0
    }
}

impl SiloIdentityProviderList {
    pub fn new(silo: Silo) -> (r: SiloIdentityProviderList)
        ensures
            r@ == silo,
    {
        SiloIdentityProviderList(silo)
    }

    pub fn silo(&self) -> (r: &Silo)
        ensures
            *r == self@,
    {
        &self.0
    }
}

impl SiloUserList {
    pub fn new(silo: Silo) -> (r: SiloUserList)
        ensures
            r@ == silo,
    {
        SiloUserList(silo)
    }

    pub fn silo(&self) -> (r: &Silo)
        ensures
            *r == self@,
    {
        &self.0
    }
}

} // verus!
