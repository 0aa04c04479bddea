//! The host's own state: whether it runs, how many connections it serves, and
//! what it last recorded of each module and plugin.
//!
//! The counter wraps around on overflow, as an atomic `fetch_add` /
//! `fetch_sub` does. Each record table holds at most one record per name.
use vstd::prelude::*;

verus! {

/// What the host last recorded of a module: whether it is active, and when
/// it last ran, in seconds of the host's clock.
#[derive(Clone, Copy, PartialEq, Eq, Structural, Debug)]
pub struct ModuleState {
    pub is_active: bool,
    pub last_execution: u64,
}

/// What the host last recorded of a plugin: whether it is loaded, and when
/// it last ran, in seconds of the host's clock.
#[derive(Clone, Copy, PartialEq, Eq, Structural, Debug)]
pub struct PluginState {
    pub is_loaded: bool,
    pub last_execution: u64,
}

/// No two records of the table share a name.
pub open spec fn keys_unique<V>(table: Seq<(Seq<char>, V)>) -> bool {
    forall|i: int, j: int| 0 <= i < table.len() && 0 <= j < table.len() && i != j ==> table[i].0 != table[j].0
}

/// The table after recording `value` under `name`: the record of that name
/// replaced where there is one, else a new record at the end.
pub open spec fn recorded<V>(table: Seq<(Seq<char>, V)>, name: Seq<char>, value: V) -> Seq<(Seq<char>, V)> {
    if exists|i: int| 0 <= i < table.len() && table[i].0 == name {
        let i = choose|i: int| 0 <= i < table.len() && table[i].0 == name;
        table.update(i, (name, value))
    } else {
        table.push((name, value))
    }
}

/// The value recorded under `name`, if any.
pub open spec fn lookup<V>(table: Seq<(Seq<char>, V)>, name: Seq<char>) -> Option<V> {
    if exists|i: int| 0 <= i < table.len() && table[i].0 == name {
        let i = choose|i: int| 0 <= i < table.len() && table[i].0 == name;
        Some(table[i].1)
    } else {
        None
    }
}

pub open spec fn table_view<V>(table: Seq<(String, V)>) -> Seq<(Seq<char>, V)> {
    table.map_values(|e: (String, V)| (e.0@, e.1))
}

/// Records `value` under `name` in `table`.
fn record<V: Copy>(table: &mut Vec<(String, V)>, name: String, value: V)
    requires
        keys_unique(table_view(old(table)@)),
    ensures
        keys_unique(table_view(final(table)@)),
        table_view(final(table)@) == recorded(table_view(old(table)@), name@, value),
{
    let ghost before = table_view(table@);
    let mut i: usize = 0;
    while i < table.len()
        invariant
            i <= table@.len(),
            table_view(table@) == before,
            before == table_view(old(table)@),
            keys_unique(before),
            forall|j: int| 0 <= j < i ==> before[j].0 != name@,
        decreases table@.len() - i,
    {
        if table[i].0 == name {
            let ghost k = i as int;
            assert(before[k].0 == name@);
            table.set(i, (name, value));
            proof {
                let c = choose|c: int| 0 <= c < before.len() && before[c].0 == name@;
                assert(c == k);
                assert(table_view(table@) =~= before.update(k, (name@, value)));
                assert(recorded(before, name@, value) == before.update(k, (name@, value)));
                let after = table_view(table@);
                assert forall|a: int, b: int|
                    0 <= a < after.len() && 0 <= b < after.len() && a != b implies after[a].0 != after[b].0 by {
                    assert(after[a].0 == before[a].0 && after[b].0 == before[b].0);
                }
            }
            return;
        }
        i = i + 1;
    }
    let ghost n = name@;
    table.push((name, value));
    proof {
        assert(table_view(table@) =~= before.push((n, value)));
        let after = table_view(table@);
        assert forall|a: int, b: int|
            0 <= a < after.len() && 0 <= b < after.len() && a != b implies after[a].0 != after[b].0 by {
            if a < before.len() && b < before.len() {
                assert(after[a] == before[a] && after[b] == before[b]);
            } else if a < before.len() {
                assert(after[a] == before[a]);
            } else {
                assert(after[b] == before[b]);
            }
        }
    }
}

/// The value recorded under `name` in `table`, if any.
fn find<V: Copy>(table: &Vec<(String, V)>, name: &str) -> (r: Option<V>)
    requires
        keys_unique(table_view(table@)),
    ensures
        r == lookup(table_view(table@), name@),
{
    let ghost view = table_view(table@);
    let n = name.to_owned();
    let mut i: usize = 0;
    while i < table.len()
        invariant
            i <= table@.len(),
            view == table_view(table@),
            keys_unique(view),
            n@ == name@,
            forall|j: int| 0 <= j < i ==> view[j].0 != name@,
        decreases table@.len() - i,
    {
        if table[i].0 == n {
            proof {
                assert(view[i as int].0 == name@);
                let c = choose|c: int| 0 <= c < view.len() && view[c].0 == name@;
                assert(c == i);
            }
            return Some(table[i].1);
        }
        i = i + 1;
    }
    None
}

pub ghost struct CoreStateView {
    pub is_running: bool,
    pub active_connections: nat,
    pub module_states: Seq<(Seq<char>, ModuleState)>,
    pub plugin_states: Seq<(Seq<char>, PluginState)>,
}

/// The host's state.
pub struct CoreState {
    is_running: bool,
    active_connections: usize,
    module_states: Vec<(String, ModuleState)>,
    plugin_states: Vec<(String, PluginState)>,
}

impl View for CoreState {
    type V = CoreStateView;

    closed spec fn view(&self) -> CoreStateView {
        CoreStateView {
            is_running: self.is_running,
            active_connections: self.active_connections as nat,
            module_states: table_view(self.module_states@),
            plugin_states: table_view(self.plugin_states@),
        }
    }
}

impl CoreState {
    pub open spec fn wf(&self) -> bool {
        keys_unique(self@.module_states) && keys_unique(self@.plugin_states)
    }

    /// A running host with no connections and no records.
    pub fn new() -> (r: CoreState)
        ensures
            r.wf(),
            r@.is_running,
            r@.active_connections == 0,
            r@.module_states == Seq::<(Seq<char>, ModuleState)>::empty(),
            r@.plugin_states == Seq::<(Seq<char>, PluginState)>::empty(),
    {
        let r = CoreState {
            is_running: true,
            active_connections: 0,
            module_states: Vec::new(),
            plugin_states: Vec::new(),
        };
        assert(r@.module_states =~= Seq::<(Seq<char>, ModuleState)>::empty());
        assert(r@.plugin_states =~= Seq::<(Seq<char>, PluginState)>::empty());
        r
    }

    pub fn is_running(&self) -> (r: bool)
        ensures
            r == self@.is_running,
    {
        self.is_running
    }

    /// Marks the host as stopped.
    pub fn stop(&mut self)
        requires
            old(self).wf(),
        ensures
            final(self).wf(),
            final(self)@ == (CoreStateView { is_running: false, ..old(self)@ }),
    {
        self.is_running = false;
    }

    /// Counts one more connection, wrapping to zero past `usize::MAX`;
    /// returns the count before.
    pub fn increment_connections(&mut self) -> (r: usize)
        requires
            old(self).wf(),
        ensures
            final(self).wf(),
            r == old(self)@.active_connections,
            final(self)@ == (CoreStateView {
                active_connections: if r == usize::MAX {
                    0
                } else {
                    (r + 1) as nat
                },
                ..old(self)@
            }),
    {
        let r = self.active_connections;
        self.active_connections = r.wrapping_add(1);
        r
    }

    /// Counts one connection less, wrapping to `usize::MAX` below zero;
    /// returns the count before.
    pub fn decrement_connections(&mut self) -> (r: usize)
        requires
            old(self).wf(),
        ensures
            final(self).wf(),
            r == old(self)@.active_connections,
            final(self)@ == (CoreStateView {
                active_connections: if r == 0 {
                    usize::MAX as nat
                } else {
                    (r - 1) as nat
                },
                ..old(self)@
            }),
    {
        let r = self.active_connections;
        self.active_connections = r.wrapping_sub(1);
        r
    }

    pub fn active_connections(&self) -> (r: usize)
        ensures
            r == self@.active_connections,
    {
        self.active_connections
    }

    /// Records `state` for the module `name`, replacing its earlier record.
    pub fn update_module_state(&mut self, name: String, state: ModuleState)
        requires
            old(self).wf(),
        ensures
            final(self).wf(),
            final(self)@ == (CoreStateView {
                module_states: recorded(old(self)@.module_states, name@, state),
                ..old(self)@
            }),
    {
        record(&mut self.module_states, name, state);
    }

    /// Records `state` for the plugin `name`, replacing its earlier record.
    pub fn update_plugin_state(&mut self, name: String, state: PluginState)
        requires
            old(self).wf(),
        ensures
            final(self).wf(),
            final(self)@ == (CoreStateView {
                plugin_states: recorded(old(self)@.plugin_states, name@, state),
                ..old(self)@
            }),
    {
        record(&mut self.plugin_states, name, state);
    }

    /// What is recorded of the module `name`.
    pub fn module_state(&self, name: &str) -> (r: Option<ModuleState>)
        requires
            self.wf(),
        ensures
            r == lookup(self@.module_states, name@),
    {
        find(&self.module_states, name)
    }

    /// What is recorded of the plugin `name`.
    pub fn plugin_state(&self, name: &str) -> (r: Option<PluginState>)
        requires
            self.wf(),
        ensures
            r == lookup(self@.plugin_states, name@),
    {
        find(&self.plugin_states, name)
    }
}

} // verus!
