//! Loaders of extension artifacts.
//!
//! Opening a shared library and calling its entry symbol happens at the edge
//! of the program; a loader here names the entry symbol to look up and turns
//! each way in which loading can fail into its own supervisor error. A loader
//! only constructs: it makes no lifecycle call.
use crate::supervisor::ModuleManagerError;
use vstd::prelude::*;

verus! {

/// How an attempt to construct an extension from an artifact failed.
#[derive(Debug)]
pub enum LoadFailure {
    /// The artifact could not be found or opened.
    ArtifactUnreadable(String),
    /// The artifact exports no entry symbol of the expected name.
    SymbolMissing(String),
    /// The entry symbol returned no usable instance.
    InvalidInstance(String),
}

/// The supervisor error for a load failure: `LoadError` where the artifact
/// or its symbol could not be had, `InvalidModule` where the constructed
/// instance is unusable. The failure's detail is kept.
pub fn load_error(failure: LoadFailure) -> (r: ModuleManagerError)
    ensures
        failure matches LoadFailure::ArtifactUnreadable(d) ==> r matches ModuleManagerError::LoadError(m)
            && m@ == d@,
        failure matches LoadFailure::SymbolMissing(d) ==> r matches ModuleManagerError::LoadError(m) && m@
            == d@,
        failure matches LoadFailure::InvalidInstance(d) ==> r matches ModuleManagerError::InvalidModule(m)
            && m@ == d@,
{
    match failure {
        LoadFailure::ArtifactUnreadable(d) => ModuleManagerError::LoadError(d),
        LoadFailure::SymbolMissing(d) => ModuleManagerError::LoadError(d),
        LoadFailure::InvalidInstance(d) => ModuleManagerError::InvalidModule(d),
    }
}

/// Loader of module artifacts, whose entry symbol is `create_module`.
pub struct ModuleLoader {
    entry_symbol: String,
}

impl View for ModuleLoader {
    type V = Seq<char>;

    /// The entry symbol.
    closed spec fn view(&self) -> Seq<char> {
        self.entry_symbol@
    }
}

impl ModuleLoader {
    pub fn new() -> (r: ModuleLoader)
        ensures
            r@ == "create_module"@,
    {
        ModuleLoader { entry_symbol: "create_module".to_owned() }
    }

    /// The symbol that constructs an instance.
    pub fn entry_symbol(&self) -> (r: String)
        ensures
            r@ == self@,
    {
        self.entry_symbol.clone()
    }
}

/// Loader of plugin artifacts, whose entry symbol is `create_plugin`.
pub struct PluginLoader {
    entry_symbol: String,
}

impl View for PluginLoader {
    type V = Seq<char>;

    /// The entry symbol.
    closed spec fn view(&self) -> Seq<char> {
        self.entry_symbol@
    }
}

impl PluginLoader {
    pub fn new() -> (r: PluginLoader)
        ensures
            r@ == "create_plugin"@,
    {
        PluginLoader { entry_symbol: "create_plugin".to_owned() }
    }

    /// The symbol that constructs an instance.
    pub fn entry_symbol(&self) -> (r: String)
        ensures
            r@ == self@,
    {
        self.entry_symbol.clone()
    }
}

} // verus!
