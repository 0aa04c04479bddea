//! The extension supervisor: the table of loaded extensions and the state
//! machine that drives each of them.
//!
//! An extension goes `Loaded → Initializing → Running → Stopping → Stopped`,
//! and to `Failed` from `Initializing` or `Stopping` when its call returns an
//! error. Only a `Running` extension is executed, and only a `Running` one is
//! shut down. No two extensions in the table share a name.
use crate::messenger::{not_owned_by, Messenger, MessengerView};
use vstd::prelude::*;

verus! {

/// serde_json's `Value`, the structured request and result of `execute`:
/// carried through, never read.
#[verifier::external_type_specification]
#[verifier::external_body]
pub struct ExValue(serde_json::Value);

/// The operations every loadable extension offers.
pub trait Module {
    fn name(&self) -> String;

    fn version(&self) -> String;

    fn description(&self) -> String;

    /// Called once, before any `execute`; the extension may subscribe and
    /// publish through `messenger`.
    fn init(&mut self, messenger: &mut Messenger) -> Result<(), String>;

    fn execute(&self, input: serde_json::Value) -> Result<serde_json::Value, String>;

    /// Called once, when the extension is unloaded or stopped.
    fn shutdown(&mut self) -> Result<(), String>;
}

#[derive(PartialEq, Eq, Structural, Clone, Copy, Debug)]
pub enum ModuleStatus {
    Loaded,
    Initializing,
    Running,
    Stopping,
    Stopped,
    Failed,
}

#[derive(Debug)]
pub enum ModuleManagerError {
    LoadError(String),
    UnloadError(String),
    DuplicateName(String),
    ModuleNotFound(String),
    NotRunning(String),
    InitializationError(String),
    ExecutionError(String),
    ShutdownError(String),
    InvalidModule(String),
}

/// An extension's descriptor and its current state.
#[derive(Debug)]
pub struct ModuleInfo {
    pub name: String,
    pub version: String,
    pub description: String,
    pub status: ModuleStatus,
}

pub ghost struct ModuleInfoView {
    pub name: Seq<char>,
    pub version: Seq<char>,
    pub description: Seq<char>,
    pub status: ModuleStatus,
}

impl View for ModuleInfo {
    type V = ModuleInfoView;

    open spec fn view(&self) -> ModuleInfoView {
        ModuleInfoView {
            name: self.name@,
            version: self.version@,
            description: self.description@,
            status: self.status,
        }
    }
}

impl ModuleInfo {
    /// A copy of the descriptor and state.
    pub fn copy(&self) -> (r: ModuleInfo)
        ensures
            r@ == self@,
    {
        ModuleInfo {
            name: self.name.clone(),
            version: self.version.clone(),
            description: self.description.clone(),
            status: self.status,
        }
    }
}

/// `after` has the descriptor of `before`.
pub open spec fn same_descriptor(before: ModuleInfoView, after: ModuleInfoView) -> bool {
    after.name == before.name && after.version == before.version && after.description == before.description
}

/// One extension's step on a start, with its outcome: a `Loaded` one is
/// initialized and then `Running`, or `Failed` with `InitializationError`; a
/// `Running` one stays so; any other is left alone and reported
/// `NotRunning`.
pub open spec fn started(
    before: ModuleInfoView,
    after: ModuleInfoView,
    r: Result<(), ModuleManagerError>,
) -> bool {
    &&& same_descriptor(before, after)
    &&& match before.status {
        ModuleStatus::Loaded => (after.status == ModuleStatus::Running && r is Ok) || (after.status
            == ModuleStatus::Failed && r matches Err(ModuleManagerError::InitializationError(_))),
        ModuleStatus::Running => after == before && r is Ok,
        _ => after == before && r matches Err(ModuleManagerError::NotRunning(_)),
    }
}

/// One extension's step on a stop, with its outcome: a `Running` one is shut
/// down and then `Stopped`, or `Failed` with `ShutdownError`; any other is
/// left alone and reported `NotRunning`.
pub open spec fn stopped(
    before: ModuleInfoView,
    after: ModuleInfoView,
    r: Result<(), ModuleManagerError>,
) -> bool {
    &&& same_descriptor(before, after)
    &&& match before.status {
        ModuleStatus::Running => (after.status == ModuleStatus::Stopped && r is Ok) || (after.status
            == ModuleStatus::Failed && r matches Err(ModuleManagerError::ShutdownError(_))),
        _ => after == before && r matches Err(ModuleManagerError::NotRunning(_)),
    }
}

/// The state and result that an extension's `init` outcome gives: `Running`
/// and success, or `Failed` and `InitializationError` with its message.
pub fn after_init(outcome: Result<(), String>) -> (r: (ModuleStatus, Result<(), ModuleManagerError>))
    ensures
        outcome is Ok ==> r.0 == ModuleStatus::Running && r.1 is Ok,
        outcome matches Err(e) ==> r.0 == ModuleStatus::Failed && (r.1 matches Err(
            ModuleManagerError::InitializationError(m),
        ) && m@ == e@),
{
    match outcome {
        Ok(()) => (ModuleStatus::Running, Ok(())),
        Err(e) => (ModuleStatus::Failed, Err(ModuleManagerError::InitializationError(e))),
    }
}

/// The state and result that an extension's `shutdown` outcome gives:
/// `Stopped` and success, or `Failed` and `ShutdownError` with its message.
pub fn after_shutdown(outcome: Result<(), String>) -> (r: (ModuleStatus, Result<(), ModuleManagerError>))
    ensures
        outcome is Ok ==> r.0 == ModuleStatus::Stopped && r.1 is Ok,
        outcome matches Err(e) ==> r.0 == ModuleStatus::Failed && (r.1 matches Err(
            ModuleManagerError::ShutdownError(m),
        ) && m@ == e@),
{
    match outcome {
        Ok(()) => (ModuleStatus::Stopped, Ok(())),
        Err(e) => (ModuleStatus::Failed, Err(ModuleManagerError::ShutdownError(e))),
    }
}

/// Whether some extension in the table is named `name`.
pub open spec fn has_name(table: Seq<ModuleInfoView>, name: Seq<char>) -> bool {
    exists|i: int| 0 <= i < table.len() && table[i].name == name
}

/// No two extensions in the table share a name.
pub open spec fn names_unique(table: Seq<ModuleInfoView>) -> bool {
    forall|i: int, j: int|
        0 <= i < table.len() && 0 <= j < table.len() && i != j ==> table[i].name != table[j].name
}

/// A loaded extension: its descriptor and state, and the instance.
pub struct ModuleEntry<M: Module> {
    info: ModuleInfo,
    module: M,
}

/// The table of loaded extensions, in the order in which they were loaded.
pub struct ModuleSupervisor<M: Module> {
    entries: Vec<ModuleEntry<M>>,
}

impl<M: Module> View for ModuleSupervisor<M> {
    type V = Seq<ModuleInfoView>;

    closed spec fn view(&self) -> Seq<ModuleInfoView> {
        self.entries@.map_values(|e: ModuleEntry<M>| e.info@)
    }
}

impl<M: Module> ModuleSupervisor<M> {
    pub open spec fn wf(&self) -> bool {
        &&& names_unique(self@)
        &&& forall|i: int| 0 <= i < self@.len() ==> (#[trigger] self@[i]).name.len() > 0
    }

    pub fn new() -> (r: ModuleSupervisor<M>)
        ensures
            r.wf(),
            r@ == Seq::<ModuleInfoView>::empty(),
    {
        let r = ModuleSupervisor { entries: Vec::new() };
        assert(r@ =~= Seq::<ModuleInfoView>::empty());
        r
    }

    /// Number of extensions in the table.
    pub fn len(&self) -> (r: usize)
        ensures
            r == self@.len(),
    {
        self.entries.len()
    }

    /// Index of the extension named `name`, if any.
    fn position(&self, name: &str) -> (r: Option<usize>)
        ensures
            r matches Some(i) ==> i < self@.len() && self@[i as int].name == name@,
            r is None ==> !has_name(self@, name@),
    {
        let n = name.to_owned();
        let mut i: usize = 0;
        while i < self.entries.len()
            invariant
                i <= self.entries@.len(),
                n@ == name@,
                forall|j: int| 0 <= j < i ==> self@[j].name != name@,
            decreases self.entries@.len() - i,
        {
            if self.entries[i].info.name == n {
                return Some(i);
            }
            i = i + 1;
        }
        None
    }

    /// Adds `module`, described by `info`, to the table in state `Loaded`,
    /// without calling it. Fails with `InvalidModule` where the name is
    /// empty, and with `DuplicateName` where an extension of that name is
    /// already loaded; the table is then unchanged.
    pub fn register(&mut self, info: ModuleInfo, module: M) -> (r: Result<(), ModuleManagerError>)
        requires
            old(self).wf(),
        ensures
            final(self).wf(),
            r is Ok <==> info.name@.len() > 0 && !has_name(old(self)@, info.name@),
            info.name@.len() == 0 ==> r matches Err(ModuleManagerError::InvalidModule(_)),
            info.name@.len() > 0 && has_name(old(self)@, info.name@) ==> r matches Err(
                ModuleManagerError::DuplicateName(_),
            ),
            r is Err ==> final(self)@ == old(self)@,
            r matches Err(ModuleManagerError::DuplicateName(n)) ==> n@ == info.name@,
            r is Ok ==> final(self)@ == old(self)@.push(
                ModuleInfoView {
                    name: info.name@,
                    version: info.version@,
                    description: info.description@,
                    status: ModuleStatus::Loaded,
                },
            ),
    {
        if info.name.as_str().unicode_len() == 0 {
            return Err(ModuleManagerError::InvalidModule(info.name));
        }
        if self.position(info.name.as_str()).is_some() {
            return Err(ModuleManagerError::DuplicateName(info.name));
        }
        let entry = ModuleEntry {
            info: ModuleInfo {
                name: info.name,
                version: info.version,
                description: info.description,
                status: ModuleStatus::Loaded,
            },
            module,
        };
        let ghost e = entry.info@;
        self.entries.push(entry);
        assert(self@ =~= old(self)@.push(e));
        proof {
            let t = self@;
            let o = old(self)@;
            assert forall|i: int, j: int|
                0 <= i < t.len() && 0 <= j < t.len() && i != j implies t[i].name != t[j].name by {
                if i < o.len() && j < o.len() {
                    assert(t[i] == o[i] && t[j] == o[j]);
                } else if i < o.len() {
                    assert(t[i] == o[i]);
                } else {
                    assert(t[j] == o[j]);
                }
            }
            assert forall|i: int| 0 <= i < t.len() implies (#[trigger] t[i]).name.len() > 0 by {
                if i < o.len() {
                    assert(t[i] == o[i]);
                }
            }
        }
        Ok(())
    }

    /// Sets the state of entry `i`.
    fn set_status(&mut self, i: usize, status: ModuleStatus)
        requires
            i < old(self)@.len(),
            old(self).wf(),
        ensures
            final(self).wf(),
            final(self)@ == old(self)@.update(
                i as int,
                ModuleInfoView { status, ..old(self)@[i as int] },
            ),
    {
        self.entries[i].info.status = status;
        assert(self@ =~= old(self)@.update(i as int, ModuleInfoView { status, ..old(self)@[i as int] }));
        proof {
            let t = self@;
            let o = old(self)@;
            assert forall|a: int, b: int|
                0 <= a < t.len() && 0 <= b < t.len() && a != b implies t[a].name != t[b].name by {
                assert(t[a].name == o[a].name && t[b].name == o[b].name);
            }
            assert forall|a: int| 0 <= a < t.len() implies (#[trigger] t[a]).name.len() > 0 by {
                assert(t[a].name == o[a].name);
            }
        }
    }

    /// Starts entry `i`: see `started`. Subscriptions that its `init` makes
    /// belong to it.
    fn start_at(&mut self, i: usize, messenger: &mut Messenger) -> (r: Result<(), ModuleManagerError>)
        requires
            i < old(self)@.len(),
            old(self).wf(),
        ensures
            final(self).wf(),
            final(self)@.len() == old(self)@.len(),
            forall|j: int| 0 <= j < old(self)@.len() && j != i ==> final(self)@[j] == old(self)@[j],
            started(old(self)@[i as int], final(self)@[i as int], r),
    {
        match self.entries[i].info.status {
            ModuleStatus::Loaded => {
                self.set_status(i, ModuleStatus::Initializing);
                assert(self.entries@.len() == self@.len());
                let ghost mid = self@;
                let name = self.entries[i].info.name.clone();
                messenger.set_scope(name.as_str());
                let outcome = self.entries[i].module.init(messenger);
                messenger.set_scope("");
                assert(self.entries@.len() == mid.len());
                assert(self@ =~= mid);
                let (status, r) = after_init(outcome);
                self.set_status(i, status);
                r
            },
            ModuleStatus::Running => Ok(()),
            _ => Err(ModuleManagerError::NotRunning(self.entries[i].info.name.clone())),
        }
    }

    /// Starts the extension named `name`: see `started`. Fails with
    /// `ModuleNotFound`, the table unchanged, where there is none.
    pub fn start(&mut self, name: &str, messenger: &mut Messenger) -> (r: Result<(), ModuleManagerError>)
        requires
            old(self).wf(),
        ensures
            final(self).wf(),
            !has_name(old(self)@, name@) ==> (r matches Err(ModuleManagerError::ModuleNotFound(n)) && n@ == name@)
                && final(self)@ == old(self)@,
            forall|i: int|
                0 <= i < old(self)@.len() && old(self)@[i].name == name@ ==> {
                    &&& final(self)@.len() == old(self)@.len()
                    &&& started(old(self)@[i], final(self)@[i], r)
                    &&& forall|j: int| 0 <= j < old(self)@.len() && j != i ==> final(self)@[j] == old(self)@[j]
                },
    {
        match self.position(name) {
            None => Err(ModuleManagerError::ModuleNotFound(name.to_owned())),
            Some(i) => self.start_at(i, messenger),
        }
    }

    /// The descriptor that `module` gives of itself, in state `Loaded`.
    fn describe(module: &M) -> (r: ModuleInfo)
        ensures
            r.status == ModuleStatus::Loaded,
    {
        ModuleInfo {
            name: module.name(),
            version: module.version(),
            description: module.description(),
            status: ModuleStatus::Loaded,
        }
    }

    /// Loads `module`: asks its name, rejects it with `DuplicateName` where an
    /// extension of that name is loaded, or with `InvalidModule` where the name
    /// is empty (before any call into it, the table unchanged), else adds it
    /// and initializes it. It is then `Running`, or `Failed` with
    /// `InitializationError`, and stays in the table either way.
    pub fn add_module(&mut self, module: M, messenger: &mut Messenger) -> (r: Result<(), ModuleManagerError>)
        requires
            old(self).wf(),
        ensures
            final(self).wf(),
            r matches Err(ModuleManagerError::DuplicateName(n)) ==> has_name(old(self)@, n@) && final(self)@
                == old(self)@ && final(messenger)@ == old(messenger)@,
            r matches Err(ModuleManagerError::InvalidModule(_)) ==> final(self)@ == old(self)@
                && final(messenger)@ == old(messenger)@,
            !(r matches Err(ModuleManagerError::DuplicateName(_))) && !(r matches Err(
                ModuleManagerError::InvalidModule(_),
            )) ==> {
                &&& final(self)@.len() == old(self)@.len() + 1
                &&& final(self)@.take(old(self)@.len() as int) == old(self)@
                &&& !has_name(old(self)@, final(self)@.last().name)
                &&& r is Ok ==> final(self)@.last().status == ModuleStatus::Running
                &&& r is Err ==> (r matches Err(ModuleManagerError::InitializationError(_)))
                    && final(self)@.last().status == ModuleStatus::Failed
            },
    {
        let info = Self::describe(&module);
        match self.register(info, module) {
            Err(e) => Err(e),
            Ok(()) => {
                let last = self.len() - 1;
                let ghost mid = self@;
                let r = self.start_at(last, messenger);
                proof {
                    assert(mid[last as int].status == ModuleStatus::Loaded);
                    assert(self@.take(old(self)@.len() as int) =~= old(self)@) by {
                        assert forall|j: int| 0 <= j < old(self)@.len() implies self@[j] == old(self)@[j] by {
                            assert(mid[j] == old(self)@[j]);
                        }
                    }
                    assert(self@.last() == self@[last as int]);
                }
                r
            },
        }
    }

    /// Starts every extension in table order: see `started`. Returns each
    /// extension's name with its outcome; one failure stops no other.
    pub fn start_all(&mut self, messenger: &mut Messenger) -> (r: Vec<(String, Result<(), ModuleManagerError>)>)
        requires
            old(self).wf(),
        ensures
            final(self).wf(),
            final(self)@.len() == old(self)@.len(),
            r@.len() == old(self)@.len(),
            forall|i: int|
                0 <= i < r@.len() ==> (#[trigger] r@[i]).0@ == old(self)@[i].name && started(
                    old(self)@[i],
                    final(self)@[i],
                    r@[i].1,
                ),
    {
        let mut r: Vec<(String, Result<(), ModuleManagerError>)> = Vec::new();
        let mut i: usize = 0;
        while i < self.entries.len()
            invariant
                self.wf(),
                i <= self@.len(),
                self@.len() == old(self)@.len(),
                r@.len() == i,
                forall|j: int|
                    0 <= j < i ==> (#[trigger] r@[j]).0@ == old(self)@[j].name && started(
                        old(self)@[j],
                        self@[j],
                        r@[j].1,
                    ),
                forall|j: int| i <= j < self@.len() ==> self@[j] == old(self)@[j],
            decreases self@.len() - i,
        {
            let name = self.entries[i].info.name.clone();
            let ghost before = self@;
            let outcome = self.start_at(i, messenger);
            r.push((name, outcome));
            proof {
                assert forall|j: int| 0 <= j < i implies self@[j] == before[j] by {}
            }
            i = i + 1;
        }
        r
    }

    /// Stops entry `i`: see `stopped`.
    fn stop_at(&mut self, i: usize) -> (r: Result<(), ModuleManagerError>)
        requires
            i < old(self)@.len(),
            old(self).wf(),
        ensures
            final(self).wf(),
            final(self)@.len() == old(self)@.len(),
            forall|j: int| 0 <= j < old(self)@.len() && j != i ==> final(self)@[j] == old(self)@[j],
            stopped(old(self)@[i as int], final(self)@[i as int], r),
    {
        match self.entries[i].info.status {
            ModuleStatus::Running => {
                self.set_status(i, ModuleStatus::Stopping);
                assert(self.entries@.len() == self@.len());
                let ghost mid = self@;
                let outcome = self.entries[i].module.shutdown();
                assert(self.entries@.len() == mid.len());
                assert(self@ =~= mid);
                let (status, r) = after_shutdown(outcome);
                self.set_status(i, status);
                r
            },
            _ => Err(ModuleManagerError::NotRunning(self.entries[i].info.name.clone())),
        }
    }

    /// Shuts down every running extension in table order: see `stopped`.
    /// Returns each extension's name with its outcome; one failure stops no
    /// other. The extensions stay in the table.
    pub fn stop_all(&mut self) -> (r: Vec<(String, Result<(), ModuleManagerError>)>)
        requires
            old(self).wf(),
        ensures
            final(self).wf(),
            final(self)@.len() == old(self)@.len(),
            r@.len() == old(self)@.len(),
            forall|i: int|
                0 <= i < r@.len() ==> (#[trigger] r@[i]).0@ == old(self)@[i].name && stopped(
                    old(self)@[i],
                    final(self)@[i],
                    r@[i].1,
                ),
    {
        let mut r: Vec<(String, Result<(), ModuleManagerError>)> = Vec::new();
        let mut i: usize = 0;
        while i < self.entries.len()
            invariant
                self.wf(),
                i <= self@.len(),
                self@.len() == old(self)@.len(),
                r@.len() == i,
                forall|j: int|
                    0 <= j < i ==> (#[trigger] r@[j]).0@ == old(self)@[j].name && stopped(
                        old(self)@[j],
                        self@[j],
                        r@[j].1,
                    ),
                forall|j: int| i <= j < self@.len() ==> self@[j] == old(self)@[j],
            decreases self@.len() - i,
        {
            let name = self.entries[i].info.name.clone();
            let ghost before = self@;
            let outcome = self.stop_at(i);
            r.push((name, outcome));
            proof {
                assert forall|j: int| 0 <= j < i implies self@[j] == before[j] by {}
            }
            i = i + 1;
        }
        r
    }

    /// Unloads the extension named `name`: a `Running` one goes to
    /// `Stopping` and is shut down; whatever the shutdown returns, it then
    /// leaves the table, its instance is dropped, and the subscriptions it
    /// owns are removed from `messenger`. One in another state leaves the
    /// table without a call. Fails with `ModuleNotFound`, the table and the
    /// broker unchanged, where there is none.
    pub fn remove_module(&mut self, name: &str, messenger: &mut Messenger) -> (r: Result<
        (),
        ModuleManagerError,
    >)
        requires
            old(self).wf(),
        ensures
            final(self).wf(),
            !has_name(old(self)@, name@) ==> (r matches Err(ModuleManagerError::ModuleNotFound(n)) && n@ == name@)
                && final(self)@ == old(self)@ && final(messenger)@ == old(messenger)@,
            forall|i: int|
                0 <= i < old(self)@.len() && old(self)@[i].name == name@ ==> {
                    &&& final(self)@ == old(self)@.remove(i)
                    &&& final(messenger)@ == (MessengerView {
                        subscribers: old(messenger)@.subscribers.filter(not_owned_by(name@)),
                        ..old(messenger)@
                    })
                    &&& old(self)@[i].status == ModuleStatus::Running ==> (r is Ok || r matches Err(
                        ModuleManagerError::ShutdownError(_),
                    ))
                    &&& old(self)@[i].status != ModuleStatus::Running ==> r is Ok
                },
    {
        match self.position(name) {
            None => Err(ModuleManagerError::ModuleNotFound(name.to_owned())),
            Some(i) => {
                let ghost orig = self@;
                let r = match self.stop_at(i) {
                    Err(ModuleManagerError::ShutdownError(e)) => Err(ModuleManagerError::ShutdownError(e)),
                    _ => Ok(()),
                };
                let ghost stopped_view = self@;
                let entry = self.entries.remove(i);
                let ghost mv = messenger@;
                messenger.unsubscribe_owner(name);
                assert(messenger@ =~= MessengerView {
                    subscribers: mv.subscribers.filter(not_owned_by(name@)),
                    ..mv
                });
                proof {
                    assert(self@ =~= stopped_view.remove(i as int));
                    assert(self@ =~= orig.remove(i as int)) by {
                        assert forall|j: int| 0 <= j < self@.len() implies self@[j] == orig.remove(i as int)[j] by {
                            if j < i {
                                assert(stopped_view[j] == orig[j]);
                            } else {
                                assert(stopped_view[j + 1] == orig[j + 1]);
                            }
                        }
                    }
                    assert forall|a: int, b: int|
                        0 <= a < self@.len() && 0 <= b < self@.len() && a != b implies self@[a].name
                        != self@[b].name by {
                        let oa = if a < i { a } else { a + 1 };
                        let ob = if b < i { b } else { b + 1 };
                        assert(self@[a] == orig[oa] && self@[b] == orig[ob]);
                    }
                    assert forall|k: int| 0 <= k < orig.len() && orig[k].name == name@ implies k == i by {}
                    assert forall|a: int| 0 <= a < self@.len() implies (#[trigger] self@[a]).name.len() > 0 by {
                        let oa = if a < i { a } else { a + 1 };
                        assert(self@[a] == orig[oa]);
                    }
                }
                r
            },
        }
    }

    /// Calls `execute` on the extension named `name` and returns its result,
    /// its error as `ExecutionError`. Fails with `ModuleNotFound` where there
    /// is no such extension, and with `NotRunning`, without calling it, where
    /// it is not `Running`.
    pub fn execute_module(&self, name: &str, input: serde_json::Value) -> (r: Result<
        serde_json::Value,
        ModuleManagerError,
    >)
        requires
            self.wf(),
        ensures
            !has_name(self@, name@) ==> (r matches Err(ModuleManagerError::ModuleNotFound(n)) && n@ == name@),
            forall|i: int|
                0 <= i < self@.len() && self@[i].name == name@ ==> if self@[i].status == ModuleStatus::Running {
                    r is Ok || r matches Err(ModuleManagerError::ExecutionError(_))
                } else {
                    r matches Err(ModuleManagerError::NotRunning(_))
                },
    {
        match self.position(name) {
            None => Err(ModuleManagerError::ModuleNotFound(name.to_owned())),
            Some(i) => {
                proof {
                    assert forall|k: int| 0 <= k < self@.len() && self@[k].name == name@ implies k == i by {}
                }
                if self.entries[i].info.status != ModuleStatus::Running {
                    return Err(ModuleManagerError::NotRunning(name.to_owned()));
                }
                match self.entries[i].module.execute(input) {
                    Ok(v) => Ok(v),
                    Err(e) => Err(ModuleManagerError::ExecutionError(e)),
                }
            },
        }
    }

    /// The descriptor and state of the extension named `name`; fails with
    /// `ModuleNotFound` where there is none.
    pub fn get_module_info(&self, name: &str) -> (r: Result<ModuleInfo, ModuleManagerError>)
        ensures
            !has_name(self@, name@) <==> r matches Err(ModuleManagerError::ModuleNotFound(_)),
            r matches Err(ModuleManagerError::ModuleNotFound(n)) ==> n@ == name@,
            r matches Ok(info) ==> exists|i: int| 0 <= i < self@.len() && self@[i] == info@,
            r matches Ok(info) ==> info@.name == name@,
            r is Ok || r matches Err(ModuleManagerError::ModuleNotFound(_)),
    {
        match self.position(name) {
            None => Err(ModuleManagerError::ModuleNotFound(name.to_owned())),
            Some(i) => {
                let info = self.entries[i].info.copy();
                assert(self@[i as int] == info@);
                Ok(info)
            },
        }
    }

    /// The descriptor and state of every extension, in table order.
    pub fn list_modules(&self) -> (r: Vec<ModuleInfo>)
        ensures
            r@.map_values(|m: ModuleInfo| m@) == self@,
    {
        let mut r: Vec<ModuleInfo> = Vec::new();
        let mut i: usize = 0;
        while i < self.entries.len()
            invariant
                i <= self.entries@.len(),
                r@.len() == i,
                forall|j: int| 0 <= j < i ==> (#[trigger] r@[j])@ == self@[j],
            decreases self.entries@.len() - i,
        {
            r.push(self.entries[i].info.copy());
            i = i + 1;
        }
        assert(r@.map_values(|m: ModuleInfo| m@) =~= self@);
        r
    }
}

} // verus!
