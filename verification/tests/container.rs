use injector::{build, BuildError, Descriptor, Lifecycle, Override, Param, Registry,
    ResolutionError};

fn singleton_with_deps(impl_name: &str, deps: &[&str]) -> Descriptor {
    Descriptor {
        impl_name: impl_name.to_string(),
        lifecycle: Lifecycle::Singleton,
        deps: deps.iter().map(|d| d.to_string()).collect(),
        params: Vec::new(),
        failure: None,
    }
}

fn transient_with_deps(impl_name: &str, deps: &[&str]) -> Descriptor {
    Descriptor {
        impl_name: impl_name.to_string(),
        lifecycle: Lifecycle::Transient,
        deps: deps.iter().map(|d| d.to_string()).collect(),
        params: Vec::new(),
        failure: None,
    }
}

#[test]
fn test_register_and_lookup() {
    let mut reg = Registry::new();
    assert!(reg.register("Logger".to_string(), singleton_with_deps("ConsoleLogger", &[])).is_ok());
    let d = reg.lookup(&"Logger".to_string()).expect("bound key must be found");
    assert_eq!(d.impl_name, "ConsoleLogger");
    let missing = reg.lookup(&"Mailer".to_string());
    assert!(matches!(missing, Err(injector::RegistryError::UnknownInterface(k)) if k == "Mailer"));
}

#[test]
fn test_duplicate_binding_refused() {
    let mut reg = Registry::new();
    assert!(reg.register("Logger".to_string(), singleton_with_deps("A", &[])).is_ok());
    let second = reg.register("Logger".to_string(), singleton_with_deps("B", &[]));
    assert!(matches!(second, Err(injector::RegistryError::DuplicateBinding(k)) if k == "Logger"));
    // the first binding survives untouched
    let d = reg.lookup(&"Logger".to_string()).expect("first binding stays");
    assert_eq!(d.impl_name, "A");
}

#[test]
fn test_valid_registry_builds_and_all_resolvable() {
    let mut reg = Registry::new();
    reg.register("Inventory".to_string(), singleton_with_deps("StaticInventory", &[])).unwrap();
    reg.register("Notifier".to_string(), singleton_with_deps("ConsoleNotifier", &[])).unwrap();
    reg.register(
        "OrderService".to_string(),
        singleton_with_deps("OrderServiceImpl", &["Inventory", "Notifier"]),
    ).unwrap();
    reg.register("TimeSource".to_string(), transient_with_deps("SystemTimeSource", &[])).unwrap();
    let mut c = build(reg, Vec::new()).expect("a valid registry must build");
    for key in ["Inventory", "Notifier", "OrderService", "TimeSource"] {
        let got = c.resolve(&key.to_string());
        assert!(got.is_ok(), "every bound interface must resolve");
        assert_eq!(got.unwrap().key, key);
    }
}

#[test]
fn test_missing_dependency_fails_build() {
    let mut reg = Registry::new();
    reg.register("Mailer".to_string(), singleton_with_deps("EmailService", &["Logger"])).unwrap();
    let r = build(reg, Vec::new());
    match r {
        Err(BuildError::MissingDependency { key, dependency }) => {
            assert_eq!(key, "Mailer");
            assert_eq!(dependency, "Logger");
        },
        _ => panic!("build must fail with the missing dependency named"),
    }
}

#[test]
fn test_cycle_fails_build_with_path() {
    let mut reg = Registry::new();
    reg.register("A".to_string(), singleton_with_deps("ImplA", &["B"])).unwrap();
    reg.register("B".to_string(), singleton_with_deps("ImplB", &["A"])).unwrap();
    let r = build(reg, Vec::new());
    match r {
        Err(BuildError::DependencyCycle(path)) => {
            assert_eq!(path.len(), 3);
            assert_eq!(path[0], path[2]);
            assert_ne!(path[0], path[1]);
            assert!(path[0] == "A" || path[0] == "B");
            assert!(path[1] == "A" || path[1] == "B");
        },
        _ => panic!("build must fail with a dependency cycle"),
    }
}

#[test]
fn test_self_cycle_fails_build() {
    let mut reg = Registry::new();
    reg.register("A".to_string(), singleton_with_deps("ImplA", &["A"])).unwrap();
    let r = build(reg, Vec::new());
    match r {
        Err(BuildError::DependencyCycle(path)) => {
            assert_eq!(path, vec!["A".to_string(), "A".to_string()]);
        },
        _ => panic!("a self-dependency is a cycle"),
    }
}

#[test]
fn test_provider_cycle_fails_build() {
    let mut reg = Registry::new();
    reg.register("A".to_string(), transient_with_deps("ProviderA", &["B"])).unwrap();
    reg.register("B".to_string(), transient_with_deps("ProviderB", &["A"])).unwrap();
    let r = build(reg, Vec::new());
    assert!(matches!(r, Err(BuildError::DependencyCycle(_))));
}

#[test]
fn test_missing_parameter_fails_build() {
    let mut reg = Registry::new();
    let mut d = singleton_with_deps("EmailService", &[]);
    d.params.push(Param { name: "from_address".to_string(), value: None });
    reg.register("Mailer".to_string(), d).unwrap();
    let r = build(reg, Vec::new());
    match r {
        Err(BuildError::MissingParameter { key, name }) => {
            assert_eq!(key, "Mailer");
            assert_eq!(name, "from_address");
        },
        _ => panic!("an unset parameter must fail the build"),
    }
}

#[test]
fn test_parameter_default_used_without_override() {
    let mut reg = Registry::new();
    let mut d = singleton_with_deps("EmailService", &[]);
    d.params.push(Param {
        name: "from_address".to_string(),
        value: Some("default@example.com".to_string()),
    });
    reg.register("Mailer".to_string(), d).unwrap();
    let mut c = build(reg, Vec::new()).expect("defaults satisfy the parameter check");
    let inst = c.resolve(&"Mailer".to_string()).unwrap();
    assert_eq!(inst.params, vec![("from_address".to_string(), "default@example.com".to_string())]);
}

#[test]
fn test_parameter_override_changes_only_target() {
    let mut reg = Registry::new();
    let mut mailer = singleton_with_deps("EmailService", &[]);
    mailer.params.push(Param {
        name: "from_address".to_string(),
        value: Some("default@example.com".to_string()),
    });
    let mut user = singleton_with_deps("UserServiceImpl", &[]);
    user.params.push(Param { name: "id".to_string(), value: Some("fixed".to_string()) });
    reg.register("Mailer".to_string(), mailer).unwrap();
    reg.register("UserService".to_string(), user).unwrap();
    let overrides = vec![Override::Parameter {
        key: "Mailer".to_string(),
        name: "from_address".to_string(),
        value: "noreply@example.com".to_string(),
    }];
    let mut c = build(reg, overrides).expect("override applies");
    let mailer_inst = c.resolve(&"Mailer".to_string()).unwrap();
    assert_eq!(
        mailer_inst.params,
        vec![("from_address".to_string(), "noreply@example.com".to_string())],
    );
    // the untouched descriptor keeps its own parameter value
    let user_inst = c.resolve(&"UserService".to_string()).unwrap();
    assert_eq!(user_inst.params, vec![("id".to_string(), "fixed".to_string())]);
}

#[test]
fn test_full_override_replaces_implementation() {
    let mut reg = Registry::new();
    reg.register("Logger".to_string(), singleton_with_deps("ConsoleLogger", &[])).unwrap();
    let overrides = vec![Override::Replace {
        key: "Logger".to_string(),
        descriptor: singleton_with_deps("FileLogger", &[]),
    }];
    let mut c = build(reg, overrides).expect("replacement applies");
    let inst = c.resolve(&"Logger".to_string()).unwrap();
    assert_eq!(inst.impl_name, "FileLogger");
    assert_ne!(inst.impl_name, "ConsoleLogger");
}

#[test]
fn test_override_unknown_key_fails_build() {
    let reg = Registry::new();
    let overrides = vec![Override::Replace {
        key: "Logger".to_string(),
        descriptor: singleton_with_deps("FileLogger", &[]),
    }];
    let r = build(reg, overrides);
    assert!(matches!(r, Err(BuildError::UnknownInterface(k)) if k == "Logger"));
}

#[test]
fn test_override_unknown_parameter_fails_build() {
    let mut reg = Registry::new();
    reg.register("Logger".to_string(), singleton_with_deps("ConsoleLogger", &[])).unwrap();
    let overrides = vec![Override::Parameter {
        key: "Logger".to_string(),
        name: "level".to_string(),
        value: "debug".to_string(),
    }];
    let r = build(reg, overrides);
    match r {
        Err(BuildError::MissingParameter { key, name }) => {
            assert_eq!(key, "Logger");
            assert_eq!(name, "level");
        },
        _ => panic!("an override naming an undeclared parameter must fail"),
    }
}

#[test]
fn test_singleton_resolved_twice_is_identical() {
    let mut reg = Registry::new();
    reg.register("Logger".to_string(), singleton_with_deps("ConsoleLogger", &[])).unwrap();
    let mut c = build(reg, Vec::new()).unwrap();
    let a = c.resolve(&"Logger".to_string()).unwrap();
    let b = c.resolve(&"Logger".to_string()).unwrap();
    assert_eq!(a.id, b.id, "a singleton keeps one identity");
    assert_eq!(a.impl_name, b.impl_name);
}

#[test]
fn test_provider_resolved_twice_is_distinct_and_lazy() {
    let mut reg = Registry::new();
    reg.register("TimeSource".to_string(), Descriptor::transient("SystemTimeSource".to_string()))
        .unwrap();
    let mut c = build(reg, Vec::new()).unwrap();
    assert_eq!(c.singleton_count(), 0, "the build never invokes a provider");
    let a = c.resolve(&"TimeSource".to_string()).unwrap();
    let b = c.resolve(&"TimeSource".to_string()).unwrap();
    assert_ne!(a.id, b.id, "each resolution constructs a fresh instance");
    assert_eq!(a.impl_name, b.impl_name);
}

#[test]
fn test_resolve_unknown_interface() {
    let mut reg = Registry::new();
    reg.register("Logger".to_string(), singleton_with_deps("ConsoleLogger", &[])).unwrap();
    let mut c = build(reg, Vec::new()).unwrap();
    let r = c.resolve(&"Mailer".to_string());
    assert!(matches!(r, Err(ResolutionError::UnknownInterface(k)) if k == "Mailer"));
}

#[test]
fn test_failing_singleton_constructor_aborts_build() {
    let mut reg = Registry::new();
    let mut d = singleton_with_deps("FileLogger", &[]);
    d.failure = Some("cannot open log file".to_string());
    reg.register("Logger".to_string(), d).unwrap();
    let r = build(reg, Vec::new());
    match r {
        Err(BuildError::ComponentConstructionFailed { key, cause }) => {
            assert_eq!(key, "Logger");
            assert_eq!(cause, "cannot open log file");
        },
        _ => panic!("a failing singleton constructor must abort the build"),
    }
}

#[test]
fn test_failing_provider_surfaces_at_resolve() {
    let mut reg = Registry::new();
    let mut d = transient_with_deps("SystemTimeSource", &[]);
    d.failure = Some("clock unavailable".to_string());
    reg.register("TimeSource".to_string(), d).unwrap();
    let mut c = build(reg, Vec::new()).expect("providers never run during the build");
    let r = c.resolve(&"TimeSource".to_string());
    match r {
        Err(ResolutionError::ProviderFailed { key, cause }) => {
            assert_eq!(key, "TimeSource");
            assert_eq!(cause, "clock unavailable");
        },
        _ => panic!("a failing provider must surface at resolution"),
    }
}

#[test]
fn test_provider_with_nested_provider_and_singleton() {
    let mut reg = Registry::new();
    reg.register("Logger".to_string(), singleton_with_deps("ConsoleLogger", &[])).unwrap();
    reg.register("TimeSource".to_string(), transient_with_deps("SystemTimeSource", &[])).unwrap();
    reg.register(
        "Reporter".to_string(),
        transient_with_deps("ReportService", &["Logger", "TimeSource"]),
    ).unwrap();
    let mut c = build(reg, Vec::new()).unwrap();
    let inst = c.resolve(&"Reporter".to_string()).unwrap();
    assert_eq!(inst.deps.len(), 2);
    match &inst.deps[0] {
        injector::DepRef::Shared(_) => {},
        _ => panic!("a singleton dependency is injected by shared reference"),
    }
    match &inst.deps[1] {
        injector::DepRef::Owned(child) => {
            assert_eq!(child.key, "TimeSource");
            assert_eq!(child.id, inst.id, "one resolution, one identity");
        },
        _ => panic!("a transient dependency is constructed by recursive invocation"),
    }
}

#[test]
fn test_singleton_with_provider_dependency_defers_it() {
    let mut reg = Registry::new();
    reg.register("TimeSource".to_string(), transient_with_deps("SystemTimeSource", &[])).unwrap();
    reg.register("Logger".to_string(), singleton_with_deps("LoggerImpl", &["TimeSource"])).unwrap();
    let mut c = build(reg, Vec::new()).unwrap();
    assert_eq!(c.singleton_count(), 1, "only the singleton is constructed eagerly");
    let inst = c.resolve(&"Logger".to_string()).unwrap();
    match &inst.deps[0] {
        injector::DepRef::Deferred(k) => assert_eq!(k, "TimeSource"),
        _ => panic!("a provider is never invoked during the build"),
    }
}
