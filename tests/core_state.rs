use zark_waf::state::{CoreState, ModuleState, PluginState};

#[test]
fn new_state_runs_with_no_connections() {
    let s = CoreState::new();
    assert!(s.is_running());
    assert_eq!(s.active_connections(), 0);
    assert!(s.module_state("m").is_none());
}

#[test]
fn stop_clears_the_running_flag() {
    let mut s = CoreState::new();
    s.stop();
    assert!(!s.is_running());
}

#[test]
fn connection_counter_returns_the_previous_count() {
    let mut s = CoreState::new();
    assert_eq!(s.increment_connections(), 0);
    assert_eq!(s.increment_connections(), 1);
    assert_eq!(s.decrement_connections(), 2);
    assert_eq!(s.active_connections(), 1);
}

#[test]
fn connection_counter_wraps_below_zero() {
    let mut s = CoreState::new();
    assert_eq!(s.decrement_connections(), 0);
    assert_eq!(s.active_connections(), usize::MAX);
    assert_eq!(s.increment_connections(), usize::MAX);
    assert_eq!(s.active_connections(), 0);
}

#[test]
fn module_state_is_replaced_by_name() {
    let mut s = CoreState::new();
    s.update_module_state("m".to_string(), ModuleState { is_active: true, last_execution: 5 });
    s.update_module_state("n".to_string(), ModuleState { is_active: false, last_execution: 1 });
    s.update_module_state("m".to_string(), ModuleState { is_active: false, last_execution: 9 });
    assert_eq!(s.module_state("m"), Some(ModuleState { is_active: false, last_execution: 9 }));
    assert_eq!(s.module_state("n"), Some(ModuleState { is_active: false, last_execution: 1 }));
    assert!(s.plugin_state("m").is_none());
}

#[test]
fn plugin_state_is_replaced_by_name() {
    let mut s = CoreState::new();
    s.update_plugin_state("p".to_string(), PluginState { is_loaded: true, last_execution: 3 });
    s.update_plugin_state("p".to_string(), PluginState { is_loaded: false, last_execution: 4 });
    assert_eq!(s.plugin_state("p"), Some(PluginState { is_loaded: false, last_execution: 4 }));
}
