use dictionary_engine::plugin_manager::validate_manifest;
use dictionary_engine::PluginManager;
use dictionary_engine::PluginManifest;

fn manifest(id: &str) -> PluginManifest {
    PluginManifest {
        id: id.to_string(),
        name: format!("{} plugin", id),
        version: "1.0.0".to_string(),
        description: None,
        author: None,
        main: "index.js".to_string(),
        permissions: vec!["clipboard".to_string()],
        dependencies: vec![("base".to_string(), "2.0".to_string())],
        enabled: false,
    }
}

#[test]
fn validation_rejects_missing_fields_in_order() {
    let mut m = manifest("p1");
    m.id = String::new();
    assert_eq!(
        validate_manifest(m, true).unwrap_err(),
        "Plugin ID cannot be empty"
    );

    let mut m = manifest("p1");
    m.name = String::new();
    assert_eq!(
        validate_manifest(m, true).unwrap_err(),
        "Plugin name cannot be empty"
    );

    let mut m = manifest("p1");
    m.main = String::new();
    assert_eq!(
        validate_manifest(m, true).unwrap_err(),
        "Plugin main file cannot be empty"
    );

    let m = manifest("p1");
    assert_eq!(
        validate_manifest(m, false).unwrap_err(),
        "Main file 'index.js' not found"
    );
}

#[test]
fn validation_defaults_an_empty_version() {
    let mut m = manifest("p1");
    m.version = String::new();
    let checked = validate_manifest(m, true).unwrap();
    assert_eq!(checked.version, "0.1.0");

    let kept = validate_manifest(manifest("p1"), true).unwrap();
    assert_eq!(kept.version, "1.0.0");
}

#[test]
fn install_registers_once_per_identifier() {
    let mut mgr = PluginManager::new("plugins".to_string());
    let id = mgr
        .install_plugin(manifest("alpha"), "plugins/alpha".to_string())
        .unwrap();
    assert_eq!(id, "alpha");

    let again = mgr.install_plugin(manifest("alpha"), "plugins/alpha".to_string());
    assert_eq!(again.unwrap_err(), "Plugin 'alpha' already installed");

    let p = mgr.get_plugin("alpha").unwrap();
    assert_eq!(p.manifest.id, "alpha");
    assert_eq!(p.path, "plugins/alpha");
    assert!(!p.loaded);
    assert!(p.error.is_none());
    assert!(mgr.get_plugin("beta").is_none());
}

#[test]
fn enable_and_disable_flip_the_flags() {
    let mut mgr = PluginManager::new("plugins".to_string());
    mgr.install_plugin(manifest("alpha"), "plugins/alpha".to_string())
        .unwrap();

    mgr.enable_plugin("alpha").unwrap();
    assert!(mgr.get_plugin("alpha").unwrap().manifest.enabled);

    mgr.disable_plugin("alpha").unwrap();
    let p = mgr.get_plugin("alpha").unwrap();
    assert!(!p.manifest.enabled);
    assert!(!p.loaded);

    assert_eq!(
        mgr.enable_plugin("zzz").unwrap_err(),
        "Plugin not found: zzz"
    );
    assert_eq!(
        mgr.disable_plugin("zzz").unwrap_err(),
        "Plugin not found: zzz"
    );
}

#[test]
fn uninstall_removes_the_registration() {
    let mut mgr = PluginManager::new("plugins".to_string());
    mgr.install_plugin(manifest("alpha"), "plugins/alpha".to_string())
        .unwrap();
    mgr.install_plugin(manifest("beta"), "plugins/beta".to_string())
        .unwrap();

    mgr.uninstall_plugin("alpha").unwrap();
    assert!(mgr.get_plugin("alpha").is_none());
    assert!(mgr.get_plugin("beta").is_some());
    assert_eq!(
        mgr.uninstall_plugin("alpha").unwrap_err(),
        "Plugin not found: alpha"
    );
}

#[test]
fn discovery_replaces_an_existing_registration() {
    let mut mgr = PluginManager::new("plugins".to_string());
    mgr.install_plugin(manifest("alpha"), "plugins/old".to_string())
        .unwrap();
    mgr.enable_plugin("alpha").unwrap();

    let mut newer = manifest("alpha");
    newer.version = "2.0.0".to_string();
    mgr.add_discovered(newer, "plugins/alpha".to_string());

    let p = mgr.get_plugin("alpha").unwrap();
    assert_eq!(p.manifest.version, "2.0.0");
    assert_eq!(p.path, "plugins/alpha");
    assert!(!p.manifest.enabled);
    assert_eq!(mgr.get_plugins().len(), 1);
}

#[test]
fn stats_count_states() {
    let mut mgr = PluginManager::new("plugins".to_string());
    mgr.install_plugin(manifest("a"), "plugins/a".to_string())
        .unwrap();
    mgr.install_plugin(manifest("b"), "plugins/b".to_string())
        .unwrap();
    mgr.install_plugin(manifest("c"), "plugins/c".to_string())
        .unwrap();
    mgr.enable_plugin("a").unwrap();
    mgr.enable_plugin("b").unwrap();

    let stats = mgr.get_stats();
    assert_eq!(stats.total, 3);
    assert_eq!(stats.enabled, 2);
    assert_eq!(stats.loaded, 0);
    assert_eq!(stats.errors, 0);
}
