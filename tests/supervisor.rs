use std::cell::RefCell;
use std::rc::Rc;
use zark_waf::loader::{load_error, LoadFailure, ModuleLoader, PluginLoader};
use zark_waf::messenger::Messenger;
use zark_waf::supervisor::{after_init, after_shutdown, Module, ModuleManagerError, ModuleStatus, ModuleSupervisor};
use zark_waf::uid::Uid;

#[derive(Default)]
struct Record {
    calls: Vec<String>,
    subscription: Option<Uid>,
}

struct TestModule {
    name: String,
    version: String,
    subscribe_to: Option<String>,
    fail_init: bool,
    fail_execute: bool,
    fail_shutdown: bool,
    record: Rc<RefCell<Record>>,
}

impl TestModule {
    fn new(name: &str, record: &Rc<RefCell<Record>>) -> TestModule {
        TestModule {
            name: name.to_string(),
            version: "1.0".to_string(),
            subscribe_to: None,
            fail_init: false,
            fail_execute: false,
            fail_shutdown: false,
            record: Rc::clone(record),
        }
    }

    fn log(&self, what: &str) {
        self.record.borrow_mut().calls.push(format!("{}:{}", self.name, what));
    }
}

impl Module for TestModule {
    fn name(&self) -> String {
        self.name.clone()
    }

    fn version(&self) -> String {
        self.version.clone()
    }

    fn description(&self) -> String {
        format!("test module {}", self.name)
    }

    fn init(&mut self, messenger: &mut Messenger) -> Result<(), String> {
        self.log("init");
        if self.fail_init {
            return Err("init failed".to_string());
        }
        if let Some(topic) = &self.subscribe_to {
            let id = messenger.subscribe(topic).map_err(|_| "subscribe failed".to_string())?;
            self.record.borrow_mut().subscription = Some(id);
        }
        Ok(())
    }

    fn execute(&self, input: serde_json::Value) -> Result<serde_json::Value, String> {
        self.log("execute");
        if self.fail_execute {
            return Err("execute failed".to_string());
        }
        Ok(input)
    }

    fn shutdown(&mut self) -> Result<(), String> {
        self.log("shutdown");
        if self.fail_shutdown {
            return Err("shutdown failed".to_string());
        }
        Ok(())
    }
}

fn json(text: &str) -> serde_json::Value {
    serde_json::from_str(text).unwrap()
}

fn calls(record: &Rc<RefCell<Record>>) -> Vec<String> {
    record.borrow().calls.clone()
}

#[test]
fn logger_lifecycle_scenario() {
    let record = Rc::new(RefCell::new(Record::default()));
    let mut messenger = Messenger::new();
    let mut sup: ModuleSupervisor<TestModule> = ModuleSupervisor::new();
    let mut logger = TestModule::new("logger", &record);
    logger.subscribe_to = Some("module_manager".to_string());
    let info_in = zark_waf::supervisor::ModuleInfo {
        name: logger.name(),
        version: logger.version(),
        description: logger.description(),
        status: ModuleStatus::Loaded,
    };
    sup.register(info_in, logger).unwrap();
    assert_eq!(sup.get_module_info("logger").unwrap().status, ModuleStatus::Loaded);

    let started = sup.start_all(&mut messenger);
    assert_eq!(started.len(), 1);
    assert_eq!(started[0].0, "logger");
    assert!(started[0].1.is_ok());
    let info = sup.get_module_info("logger").unwrap();
    assert_eq!(info.status, ModuleStatus::Running);
    assert_eq!(info.version, "1.0");

    let out = sup.execute_module("logger", json(r#"{"action":"start"}"#)).unwrap();
    assert_eq!(out, json(r#"{"action":"start"}"#));

    let id = record.borrow().subscription.as_ref().unwrap().duplicate();
    assert_eq!(messenger.publish("module_manager", b"hi"), 1);
    assert_eq!(messenger.receive(&id), Some(b"hi".to_vec()));

    assert!(sup.remove_module("logger", &mut messenger).is_ok());
    assert_eq!(calls(&record), vec!["logger:init", "logger:execute", "logger:shutdown"]);
    // the logger's subscription went with it
    assert!(messenger.subscribers("module_manager").is_empty());
    assert_eq!(messenger.publish("module_manager", b"bye"), 0);
    assert!(matches!(sup.get_module_info("logger"), Err(ModuleManagerError::ModuleNotFound(ref n)) if n == "logger"));
    assert_eq!(sup.len(), 0);
}

#[test]
fn add_module_initializes_and_runs() {
    let record = Rc::new(RefCell::new(Record::default()));
    let mut messenger = Messenger::new();
    let mut sup = ModuleSupervisor::new();
    sup.add_module(TestModule::new("logger", &record), &mut messenger).unwrap();
    let info = sup.get_module_info("logger").unwrap();
    assert_eq!(info.status, ModuleStatus::Running);
    assert_eq!(info.description, "test module logger");
    // a second start_all finds it running and calls nothing
    let again = sup.start_all(&mut messenger);
    assert!(again[0].1.is_ok());
    assert_eq!(calls(&record), vec!["logger:init"]);
}

#[test]
fn duplicate_name_is_rejected_before_any_call() {
    let first = Rc::new(RefCell::new(Record::default()));
    let second = Rc::new(RefCell::new(Record::default()));
    let mut messenger = Messenger::new();
    let mut sup = ModuleSupervisor::new();
    sup.add_module(TestModule::new("logger", &first), &mut messenger).unwrap();
    let mut dup = TestModule::new("logger", &second);
    dup.version = "2.0".to_string();
    let r = sup.add_module(dup, &mut messenger);
    assert!(matches!(r, Err(ModuleManagerError::DuplicateName(ref n)) if n == "logger"));
    let list = sup.list_modules();
    assert_eq!(list.len(), 1);
    assert_eq!(list[0].name, "logger");
    assert_eq!(list[0].version, "1.0");
    assert_eq!(list[0].status, ModuleStatus::Running);
    assert!(calls(&second).is_empty());
}

#[test]
fn remove_unknown_name_is_not_found_and_changes_nothing() {
    let record = Rc::new(RefCell::new(Record::default()));
    let mut messenger = Messenger::new();
    let mut sup = ModuleSupervisor::new();
    sup.add_module(TestModule::new("a", &record), &mut messenger).unwrap();
    assert!(matches!(sup.remove_module("b", &mut messenger), Err(ModuleManagerError::ModuleNotFound(ref n)) if n == "b"));
    assert_eq!(sup.len(), 1);
    assert_eq!(sup.get_module_info("a").unwrap().status, ModuleStatus::Running);
    assert_eq!(calls(&record), vec!["a:init"]);
}

#[test]
fn failed_init_leaves_a_queryable_failed_entry() {
    let record = Rc::new(RefCell::new(Record::default()));
    let mut messenger = Messenger::new();
    let mut sup = ModuleSupervisor::new();
    let mut m = TestModule::new("bad", &record);
    m.fail_init = true;
    let r = sup.add_module(m, &mut messenger);
    assert!(matches!(r, Err(ModuleManagerError::InitializationError(_))));
    assert_eq!(sup.get_module_info("bad").unwrap().status, ModuleStatus::Failed);
}

#[test]
fn execute_on_failed_or_stopped_never_calls_the_extension() {
    let record = Rc::new(RefCell::new(Record::default()));
    let mut messenger = Messenger::new();
    let mut sup = ModuleSupervisor::new();
    let mut bad = TestModule::new("bad", &record);
    bad.fail_init = true;
    let _ = sup.add_module(bad, &mut messenger);
    sup.add_module(TestModule::new("good", &record), &mut messenger).unwrap();
    assert!(matches!(sup.execute_module("bad", json("1")), Err(ModuleManagerError::NotRunning(_))));
    let stopped = sup.stop_all();
    assert!(matches!(stopped[0].1, Err(ModuleManagerError::NotRunning(_))));
    assert!(stopped[1].1.is_ok());
    assert_eq!(sup.get_module_info("good").unwrap().status, ModuleStatus::Stopped);
    assert!(matches!(sup.execute_module("good", json("1")), Err(ModuleManagerError::NotRunning(_))));
    assert!(!calls(&record).iter().any(|c| c.ends_with(":execute")));
    // a stopped extension is not started again
    let restarted = sup.start_all(&mut messenger);
    assert!(matches!(restarted[1].1, Err(ModuleManagerError::NotRunning(_))));
}

#[test]
fn execute_unknown_name_is_not_found() {
    let sup: ModuleSupervisor<TestModule> = ModuleSupervisor::new();
    assert!(matches!(sup.execute_module("x", json("null")), Err(ModuleManagerError::ModuleNotFound(ref n)) if n == "x"));
}

#[test]
fn execute_error_becomes_execution_error() {
    let record = Rc::new(RefCell::new(Record::default()));
    let mut messenger = Messenger::new();
    let mut sup = ModuleSupervisor::new();
    let mut m = TestModule::new("m", &record);
    m.fail_execute = true;
    sup.add_module(m, &mut messenger).unwrap();
    assert!(matches!(sup.execute_module("m", json("{}")), Err(ModuleManagerError::ExecutionError(_))));
    assert_eq!(sup.get_module_info("m").unwrap().status, ModuleStatus::Running);
}

#[test]
fn failed_shutdown_still_removes_the_extension() {
    let record = Rc::new(RefCell::new(Record::default()));
    let mut messenger = Messenger::new();
    let mut sup = ModuleSupervisor::new();
    let mut m = TestModule::new("m", &record);
    m.fail_shutdown = true;
    sup.add_module(m, &mut messenger).unwrap();
    assert!(matches!(sup.remove_module("m", &mut messenger), Err(ModuleManagerError::ShutdownError(_))));
    assert_eq!(sup.len(), 0);
    assert_eq!(calls(&record), vec!["m:init", "m:shutdown"]);
}

#[test]
fn removing_a_failed_extension_makes_no_call() {
    let record = Rc::new(RefCell::new(Record::default()));
    let mut messenger = Messenger::new();
    let mut sup = ModuleSupervisor::new();
    let mut m = TestModule::new("m", &record);
    m.fail_init = true;
    let _ = sup.add_module(m, &mut messenger);
    assert!(sup.remove_module("m", &mut messenger).is_ok());
    assert_eq!(calls(&record), vec!["m:init"]);
}

#[test]
fn stop_all_reports_each_extension_separately() {
    let record = Rc::new(RefCell::new(Record::default()));
    let mut messenger = Messenger::new();
    let mut sup = ModuleSupervisor::new();
    let mut a = TestModule::new("a", &record);
    a.fail_shutdown = true;
    sup.add_module(a, &mut messenger).unwrap();
    sup.add_module(TestModule::new("b", &record), &mut messenger).unwrap();
    let r = sup.stop_all();
    assert_eq!(r.len(), 2);
    assert_eq!(r[0].0, "a");
    assert!(matches!(r[0].1, Err(ModuleManagerError::ShutdownError(_))));
    assert_eq!(r[1].0, "b");
    assert!(r[1].1.is_ok());
    assert_eq!(sup.get_module_info("a").unwrap().status, ModuleStatus::Failed);
    assert_eq!(sup.get_module_info("b").unwrap().status, ModuleStatus::Stopped);
}

#[test]
fn start_all_reports_each_extension_separately() {
    let record = Rc::new(RefCell::new(Record::default()));
    let mut messenger = Messenger::new();
    let mut sup = ModuleSupervisor::new();
    for (name, fail) in [("a", false), ("b", true), ("c", false)] {
        let mut m = TestModule::new(name, &record);
        m.fail_init = fail;
        let info = zark_waf::supervisor::ModuleInfo {
            name: m.name(),
            version: m.version(),
            description: m.description(),
            status: ModuleStatus::Loaded,
        };
        sup.register(info, m).unwrap();
    }
    let r = sup.start_all(&mut messenger);
    assert!(r[0].1.is_ok());
    assert!(matches!(r[1].1, Err(ModuleManagerError::InitializationError(_))));
    assert!(r[2].1.is_ok());
    let list = sup.list_modules();
    let states: Vec<ModuleStatus> = list.iter().map(|i| i.status).collect();
    assert_eq!(states, vec![ModuleStatus::Running, ModuleStatus::Failed, ModuleStatus::Running]);
}

#[test]
fn start_by_name() {
    let record = Rc::new(RefCell::new(Record::default()));
    let mut messenger = Messenger::new();
    let mut sup = ModuleSupervisor::new();
    let m = TestModule::new("m", &record);
    let info = zark_waf::supervisor::ModuleInfo {
        name: m.name(),
        version: m.version(),
        description: m.description(),
        status: ModuleStatus::Loaded,
    };
    sup.register(info, m).unwrap();
    assert!(matches!(sup.start("x", &mut messenger), Err(ModuleManagerError::ModuleNotFound(_))));
    assert!(sup.start("m", &mut messenger).is_ok());
    assert_eq!(sup.get_module_info("m").unwrap().status, ModuleStatus::Running);
}

#[test]
fn load_failures_map_to_distinct_errors() {
    assert!(matches!(
        load_error(LoadFailure::ArtifactUnreadable("no file".to_string())),
        ModuleManagerError::LoadError(ref m) if m == "no file"
    ));
    assert!(matches!(
        load_error(LoadFailure::SymbolMissing("create_module".to_string())),
        ModuleManagerError::LoadError(ref m) if m == "create_module"
    ));
    assert!(matches!(
        load_error(LoadFailure::InvalidInstance("null".to_string())),
        ModuleManagerError::InvalidModule(ref m) if m == "null"
    ));
}

#[test]
fn loaders_name_their_entry_symbols() {
    assert_eq!(ModuleLoader::new().entry_symbol(), "create_module");
    assert_eq!(PluginLoader::new().entry_symbol(), "create_plugin");
}

#[test]
fn unloading_keeps_subscriptions_of_others() {
    let record = Rc::new(RefCell::new(Record::default()));
    let other = Rc::new(RefCell::new(Record::default()));
    let mut messenger = Messenger::new();
    let host = messenger.subscribe("events").unwrap();
    let mut sup = ModuleSupervisor::new();
    let mut a = TestModule::new("a", &record);
    a.subscribe_to = Some("events".to_string());
    let mut b = TestModule::new("b", &other);
    b.subscribe_to = Some("events".to_string());
    sup.add_module(a, &mut messenger).unwrap();
    sup.add_module(b, &mut messenger).unwrap();
    assert_eq!(messenger.subscribers("events").len(), 3);
    sup.remove_module("a", &mut messenger).unwrap();
    let left = messenger.subscribers("events");
    assert_eq!(left.len(), 2);
    assert!(left[0].equals(&host));
    assert!(left[1].equals(other.borrow().subscription.as_ref().unwrap()));
}

#[test]
fn remove_unknown_name_leaves_the_broker_alone() {
    let mut messenger = Messenger::new();
    let id = messenger.subscribe("t").unwrap();
    let mut sup: ModuleSupervisor<TestModule> = ModuleSupervisor::new();
    assert!(matches!(sup.remove_module("", &mut messenger), Err(ModuleManagerError::ModuleNotFound(_))));
    assert_eq!(messenger.subscribers("t").len(), 1);
    assert!(messenger.subscribers("t")[0].equals(&id));
}

#[test]
fn empty_name_is_an_invalid_module() {
    let record = Rc::new(RefCell::new(Record::default()));
    let mut messenger = Messenger::new();
    let mut sup = ModuleSupervisor::new();
    let r = sup.add_module(TestModule::new("", &record), &mut messenger);
    assert!(matches!(r, Err(ModuleManagerError::InvalidModule(_))));
    assert_eq!(sup.len(), 0);
    assert!(calls(&record).is_empty());
}

#[test]
fn init_outcome_gives_state_and_result() {
    let (status, r) = after_init(Ok(()));
    assert_eq!(status, ModuleStatus::Running);
    assert!(r.is_ok());
    let (status, r) = after_init(Err("no config".to_string()));
    assert_eq!(status, ModuleStatus::Failed);
    assert!(matches!(r, Err(ModuleManagerError::InitializationError(ref m)) if m == "no config"));
}

#[test]
fn shutdown_outcome_gives_state_and_result() {
    let (status, r) = after_shutdown(Ok(()));
    assert_eq!(status, ModuleStatus::Stopped);
    assert!(r.is_ok());
    let (status, r) = after_shutdown(Err("busy".to_string()));
    assert_eq!(status, ModuleStatus::Failed);
    assert!(matches!(r, Err(ModuleManagerError::ShutdownError(ref m)) if m == "busy"));
}

#[test]
fn rejected_load_leaves_the_broker_alone() {
    let first = Rc::new(RefCell::new(Record::default()));
    let second = Rc::new(RefCell::new(Record::default()));
    let mut messenger = Messenger::new();
    let mut sup = ModuleSupervisor::new();
    sup.add_module(TestModule::new("logger", &first), &mut messenger).unwrap();
    let mut dup = TestModule::new("logger", &second);
    dup.subscribe_to = Some("events".to_string());
    assert!(sup.add_module(dup, &mut messenger).is_err());
    assert!(messenger.subscribers("events").is_empty());
}
