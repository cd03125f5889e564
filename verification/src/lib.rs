//! A backend-agnostic object-storage facade with a replication layer.
//!
//! A [`store::Store`] is one named storage endpoint behind the uniform
//! capability contract of [`drivers::Driver`]. A [`multi_store::MultiStore`]
//! registers one primary store and any number of named secondary stores, and a
//! [`multi_store::Mirror`] replays one write, delete or directory deletion on
//! a chosen set of them, in ascending order of their names, under the active
//! failure [`multi_store::Policy`].
use crate::drivers::inmem::InMemoryDriver;
use crate::drivers::{Driver, Files};
use crate::errors::DriverResult;
use crate::store::Store;
use vstd::prelude::*;

pub mod assoc;
pub mod contents;
pub mod drivers;
pub mod errors;
pub mod multi_store;
pub mod names;
pub mod store;

verus! {

/// How to build a store on one of the backends that need nothing from
/// outside the process.
pub enum StoreConfig {
    /// An empty in-memory backend.
    InMem(),
}

impl StoreConfig {
    /// Builds the store that the configuration describes: for `InMem`, a
    /// reliable store that holds nothing.
    pub fn build(self) -> (res: DriverResult<Store<InMemoryDriver>>)
        ensures
            res matches Ok(store) && store.files() == Files::empty() && store.reliable(),
    {
        match self {
            StoreConfig::InMem() => Ok(Store::new(InMemoryDriver::new())),
        }
    }

    /// A store on the given backend.
    pub fn with_driver<D: Driver>(driver: D) -> (store: Store<D>)
        ensures
            store.backend() == driver,
            store.files() == driver.files(),
            store.reliable() == driver.reliable(),
    {
        Store::new(driver)
    }
}

} // verus!
