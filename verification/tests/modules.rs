use jsshaker::analyzer::{TreeShakeConfig, TreeShakeJsxPreset};
use jsshaker::options::{parse_preset, resolve_options, Options, PresetConfigs, TreeShakePreset};
use jsshaker::modules::ModuleRegistry;
use jsshaker::vfs::{
    disk_candidates, first_present, fold_path, normalize, MultiModuleFs, SingleFileFs, Vfs, ENTRY_PATH,
};

fn config(enabled: bool) -> TreeShakeConfig {
    TreeShakeConfig {
        enabled,
        jsx: TreeShakeJsxPreset::Disabled,
        preserve_exceptions: false,
        unknown_property_read_side_effects: false,
        iterate_side_effects: false,
        max_simple_string_length: 12,
        min_simple_number_value: -999,
        max_simple_number_value: 999,
        max_recursion_depth: 2,
        remember_exhausted_variables: true,
        eager_exhaustive_callbacks: false,
        enable_fn_cache: false,
        enable_fn_stats: false,
        fn_cache_size_limit: 100,
    }
}

fn presets() -> PresetConfigs {
    let mut safest = config(true);
    safest.preserve_exceptions = true;
    let recommended = config(true);
    let mut smallest = config(true);
    smallest.max_recursion_depth = 5;
    let disabled = config(false);
    PresetConfigs { safest, recommended, smallest, disabled }
}

fn no_options() -> Options {
    Options {
        preset: None,
        minify: None,
        always_inline_literal: None,
        jsx: None,
        source_map: None,
        max_recursion_depth: None,
        remember_exhausted_variables: None,
        eager_exhaustive_callbacks: None,
        enable_fn_cache: None,
        enable_fn_stats: None,
    }
}

fn fs() -> MultiModuleFs {
    MultiModuleFs(vec![
        ("/src/a.js".to_string(), "import './b'".to_string()),
        ("/src/b.js".to_string(), "export const b = 1".to_string()),
        ("/src/c".to_string(), "c".to_string()),
        ("/src/d.mjs".to_string(), "d".to_string()),
        ("/src/a.js".to_string(), "export const a = 2".to_string()),
    ])
}

#[test]
fn normalize_resolves_dots() {
    assert_eq!(normalize("/a/./b/../c"), "/a/c");
    assert_eq!(normalize("a/b/.."), "a");
    assert_eq!(normalize("a/../.."), "..");
    assert_eq!(normalize("/.."), "/");
    assert_eq!(normalize(""), ".");
    assert_eq!(normalize("./x/"), "x");
}

#[test]
fn normalize_is_idempotent_on_examples() {
    for p in ["/a/./b/../c", "../../x/./y", "a//b", "/..", "x/.."] {
        let once = normalize(p);
        assert_eq!(normalize(&once), once);
    }
}

#[test]
fn single_file_fs() {
    let f = SingleFileFs("let x = 1".to_string());
    assert_eq!(f.read_file(ENTRY_PATH), "let x = 1");
    assert_eq!(f.resolve_module(ENTRY_PATH, "./other"), None);
    assert_eq!(f.normalize_path("/a/../b".to_string()), "/a/../b");
}

#[test]
fn multi_module_fs_later_entry_wins() {
    let f = fs();
    assert!(f.path_exists("/src/a.js"));
    assert!(!f.path_exists("/src/e.js"));
    assert_eq!(f.read_file("/src/a.js"), "export const a = 2");
    assert_eq!(f.normalize_path("/src/./x/../a.js".to_string()), "/src/a.js");
}

#[test]
fn multi_module_fs_resolution_order() {
    let f = fs();
    assert_eq!(f.resolve_module("/src/a.js", "./b"), Some("/src/b.js".to_string()));
    assert_eq!(f.resolve_module("/src/a.js", "./c"), Some("/src/c".to_string()));
    assert_eq!(f.resolve_module("/src/a.js", "./d"), Some("/src/d.mjs".to_string()));
    assert_eq!(f.resolve_module("/src/a.js", "react"), None);
    assert_eq!(f.try_resolve_module("/src/a.js", "./missing"), None);
    assert_eq!(f.try_resolve_module("/src/a.js", "lodash"), Some(None));
}

#[test]
fn preset_names() {
    assert_eq!(parse_preset(&None), Some(TreeShakePreset::Recommended));
    assert_eq!(parse_preset(&Some("safest".to_string())), Some(TreeShakePreset::Safest));
    assert_eq!(parse_preset(&Some("smallest".to_string())), Some(TreeShakePreset::Smallest));
    assert_eq!(parse_preset(&Some("disabled".to_string())), Some(TreeShakePreset::Disabled));
    assert_eq!(parse_preset(&Some("fastest".to_string())), None);
}

#[test]
fn resolve_options_defaults() {
    let r = resolve_options(&presets(), &no_options());
    assert_eq!(r.config, config(true));
    assert!(!r.minify);
    assert!(!r.source_map);
}

#[test]
fn resolve_options_overrides() {
    let mut o = no_options();
    o.preset = Some("smallest".to_string());
    o.minify = Some(true);
    o.source_map = Some(true);
    o.always_inline_literal = Some(true);
    o.jsx = Some("react".to_string());
    o.max_recursion_depth = Some(9);
    o.enable_fn_cache = Some(true);
    let r = resolve_options(&presets(), &o);
    assert!(r.minify);
    assert!(r.source_map);
    assert_eq!(r.config.jsx, TreeShakeJsxPreset::React);
    assert_eq!(r.config.max_recursion_depth, 9);
    assert!(r.config.enable_fn_cache);
    assert_eq!(r.config.min_simple_number_value, i64::MIN);
    assert_eq!(r.config.max_simple_number_value, i64::MAX);
    assert_eq!(r.config.max_simple_string_length, usize::MAX);
    assert!(r.config.remember_exhausted_variables);

    let mut d = no_options();
    d.preset = Some("disabled".to_string());
    d.jsx = Some("vue".to_string());
    let r = resolve_options(&presets(), &d);
    assert!(!r.config.enabled);
    assert_eq!(r.config.jsx, TreeShakeJsxPreset::Disabled);
}

#[test]
fn disk_candidates_try_extensions_in_order() {
    let c = disk_candidates("/src/a.js", "./b").unwrap();
    assert_eq!(
        c,
        vec![
            "/src/./b".to_string(),
            "/src/./b.js".to_string(),
            "/src/./b.mjs".to_string(),
            "/src/./b.cjs".to_string(),
        ]
    );
}

#[test]
fn disk_candidates_replace_an_existing_extension() {
    let c = disk_candidates("/lib/index.js", "../util.ts").unwrap();
    assert_eq!(c[0], "/lib/../util.ts");
    assert_eq!(c[1], "/lib/../util.js");
    assert_eq!(c[3], "/lib/../util.cjs");
}

#[test]
fn disk_candidates_skip_bare_specifiers() {
    assert_eq!(disk_candidates("/src/a.js", "react"), None);
    assert_eq!(disk_candidates("/src/a.js", ""), None);
}

#[test]
fn first_present_picks_the_first_hit() {
    let paths = vec!["a".to_string(), "b".to_string(), "c".to_string()];
    assert_eq!(first_present(&paths, &vec![false, true, true]), Some("b".to_string()));
    assert_eq!(first_present(&paths, &vec![true, false, true]), Some("a".to_string()));
    assert_eq!(first_present(&paths, &vec![false, false, false]), None);
    assert_eq!(first_present(&vec![], &vec![]), None);
}

#[test]
fn fold_path_lowercases_and_unifies_separators() {
    assert_eq!(fold_path("./A\\B/./c"), "a/b/c");
    assert_eq!(fold_path("/Src/Main.JS"), "/src/main.js");
    assert_eq!(fold_path("../x"), ".x");
    assert_eq!(fold_path(""), "");
}

#[test]
fn registry_gives_each_path_one_id() {
    let mut r = ModuleRegistry::new();
    assert_eq!(r.lookup_or_register("/a.js".to_string()), (0, true));
    assert_eq!(r.lookup_or_register("/b.js".to_string()), (1, true));
    assert_eq!(r.lookup_or_register("/a.js".to_string()), (0, false));
    assert_eq!(r.len(), 2);
    assert_eq!(r.lookup("/b.js"), Some(1));
    assert_eq!(r.lookup("/c.js"), None);
    assert_eq!(r.path_of(1), Some("/b.js".to_string()));
    assert_eq!(r.path_of(2), None);
}
