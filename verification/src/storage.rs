//! Names of the storage areas the application keeps on disk.

use vstd::prelude::*;

verus! {

/// One of the application's storage areas.
#[derive(Debug, Clone, Copy, PartialEq, Eq, Structural)]
pub enum StorageType {
    Workflows,
    Executions,
    Models,
    Plugins,
    Cache,
    Temp,
}

impl StorageType {
    /// The subdirectory each storage area lives in.
    pub fn dir_name(&self) -> (r: &'static str)
        ensures
            *self is Workflows ==> r@ == "workflows"@,
            *self is Executions ==> r@ == "executions"@,
            *self is Models ==> r@ == "models"@,
            *self is Plugins ==> r@ == "plugins"@,
            *self is Cache ==> r@ == "cache"@,
            *self is Temp ==> r@ == "temp"@,
    {
        match self {
            StorageType::Workflows => "workflows",
            StorageType::Executions => "executions",
            StorageType::Models => "models",
            StorageType::Plugins => "plugins",
            StorageType::Cache => "cache",
            StorageType::Temp => "temp",
        }
    }
}

} // verus!
