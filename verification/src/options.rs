use vstd::prelude::*;

use crate::analyzer::{TreeShakeConfig, TreeShakeJsxPreset};

verus! {

/// The options a caller passes; unset ones keep the preset's setting.
#[derive(Debug)]
pub struct Options {
    /// One of `safest`, `recommended` (the default), `smallest`, `disabled`.
    pub preset: Option<String>,
    pub minify: Option<bool>,
    pub always_inline_literal: Option<bool>,
    /// `react` turns on React JSX handling.
    pub jsx: Option<String>,
    pub source_map: Option<bool>,
    pub max_recursion_depth: Option<u32>,
    pub remember_exhausted_variables: Option<bool>,
    pub eager_exhaustive_callbacks: Option<bool>,
    pub enable_fn_cache: Option<bool>,
    pub enable_fn_stats: Option<bool>,
}

/// Generated code and, where asked for, its source map.
#[derive(Debug)]
pub struct Chunk {
    pub code: String,
    pub source_map_json: Option<String>,
}

/// The result of shaking one module.
#[derive(Debug)]
pub struct SingleModuleResult {
    pub output: Chunk,
    pub diagnostics: Vec<String>,
}

/// The result of shaking several modules: the output per module path.
#[derive(Debug)]
pub struct MultiModuleResult {
    pub output: Vec<(String, Chunk)>,
    pub diagnostics: Vec<String>,
}

/// The named presets.
#[derive(Debug, Clone, Copy, PartialEq, Eq, Structural)]
pub enum TreeShakePreset {
    Safest,
    Recommended,
    Smallest,
    Disabled,
}

/// The settings of each preset.
#[derive(Debug, Clone, Copy)]
pub struct PresetConfigs {
    pub safest: TreeShakeConfig,
    pub recommended: TreeShakeConfig,
    pub smallest: TreeShakeConfig,
    pub disabled: TreeShakeConfig,
}

/// What the options resolve to: the analysis settings, whether to minify,
/// and whether to produce a source map.
#[derive(Debug, Clone, Copy)]
pub struct ResolvedOptions {
    pub config: TreeShakeConfig,
    pub minify: bool,
    pub source_map: bool,
}

/// The preset a name selects; no name selects `recommended`.
pub open spec fn preset_of(name: Option<Seq<char>>) -> Option<TreeShakePreset> {
    match name {
        None => Some(TreeShakePreset::Recommended),
        Some(n) => if n == "safest"@ {
            Some(TreeShakePreset::Safest)
        } else if n == "recommended"@ {
            Some(TreeShakePreset::Recommended)
        } else if n == "smallest"@ {
            Some(TreeShakePreset::Smallest)
        } else if n == "disabled"@ {
            Some(TreeShakePreset::Disabled)
        } else {
            None
        },
    }
}

/// The view of an optional string.
pub open spec fn opt_str(s: Option<String>) -> Option<Seq<char>> {
    match s {
        Some(x) => Some(x@),
        None => None,
    }
}

/// The settings of a preset.
pub open spec fn preset_config(presets: PresetConfigs, p: TreeShakePreset) -> TreeShakeConfig {
    match p {
        TreeShakePreset::Safest => presets.safest,
        TreeShakePreset::Recommended => presets.recommended,
        TreeShakePreset::Smallest => presets.smallest,
        TreeShakePreset::Disabled => presets.disabled,
    }
}

/// `c` with every literal inlined where asked for: the simple number
/// range widens to all of `i64` and the simple string length to any.
pub open spec fn apply_inline(c: TreeShakeConfig, o: Options) -> TreeShakeConfig {
    if o.always_inline_literal == Some(true) {
        TreeShakeConfig {
            min_simple_number_value: i64::MIN,
            max_simple_number_value: i64::MAX,
            max_simple_string_length: usize::MAX,
            ..c
        }
    } else {
        c
    }
}

/// `c` with React JSX turned on where `jsx` is `react`.
pub open spec fn apply_jsx(c: TreeShakeConfig, o: Options) -> TreeShakeConfig {
    if opt_str(o.jsx) == Some("react"@) {
        TreeShakeConfig { jsx: TreeShakeJsxPreset::React, ..c }
    } else {
        c
    }
}

/// `c` with each of the remaining options that is set replacing its
/// setting.
pub open spec fn apply_flags(c: TreeShakeConfig, o: Options) -> TreeShakeConfig {
    TreeShakeConfig {
        max_recursion_depth: match o.max_recursion_depth {
            Some(d) => d as usize,
            None => c.max_recursion_depth,
        },
        remember_exhausted_variables: match o.remember_exhausted_variables {
            Some(b) => b,
            None => c.remember_exhausted_variables,
        },
        eager_exhaustive_callbacks: match o.eager_exhaustive_callbacks {
            Some(b) => b,
            None => c.eager_exhaustive_callbacks,
        },
        enable_fn_cache: match o.enable_fn_cache {
            Some(b) => b,
            None => c.enable_fn_cache,
        },
        enable_fn_stats: match o.enable_fn_stats {
            Some(b) => b,
            None => c.enable_fn_stats,
        },
        ..c
    }
}

/// `c` with the options that are set applied.
pub open spec fn apply_options(c: TreeShakeConfig, o: Options) -> TreeShakeConfig {
    apply_flags(apply_jsx(apply_inline(c, o), o), o)
}

/// Whether `s` is the text `t`.
fn is_text(s: &str, t: &str) -> (r: bool)
    ensures
        r == (s@ == t@),
{
    crate::value::str_eq(s, t)
}

/// The preset a name selects, if it names one.
pub fn parse_preset(name: &Option<String>) -> (r: Option<TreeShakePreset>)
    ensures
        r == preset_of(opt_str(*name)),
{
    proof {
        reveal_strlit("safest");
        reveal_strlit("recommended");
        reveal_strlit("smallest");
        reveal_strlit("disabled");
    }
    match name {
        None => Some(TreeShakePreset::Recommended),
        Some(n) => {
            if is_text(n.as_str(), "safest") {
                Some(TreeShakePreset::Safest)
            } else if is_text(n.as_str(), "recommended") {
                Some(TreeShakePreset::Recommended)
            } else if is_text(n.as_str(), "smallest") {
                Some(TreeShakePreset::Smallest)
            } else if is_text(n.as_str(), "disabled") {
                Some(TreeShakePreset::Disabled)
            } else {
                None
            }
        },
    }
}

/// Applies the inlining option.
fn with_inline(c: TreeShakeConfig, options: &Options) -> (r: TreeShakeConfig)
    ensures
        r == apply_inline(c, *options),
{
    let mut config = c;
    if options.always_inline_literal == Some(true) {
        config.min_simple_number_value = i64::MIN;
        config.max_simple_number_value = i64::MAX;
        config.max_simple_string_length = usize::MAX;
    }
    config
}

/// Applies the JSX option.
fn with_jsx(c: TreeShakeConfig, options: &Options) -> (r: TreeShakeConfig)
    ensures
        r == apply_jsx(c, *options),
{
    let mut config = c;
    let react = match &options.jsx {
        Some(j) => {
            proof {
                reveal_strlit("react");
            }
            is_text(j.as_str(), "react")
        },
        None => false,
    };
    if react {
        config.jsx = TreeShakeJsxPreset::React;
    }
    config
}

/// Applies the remaining options.
fn with_flags(c: TreeShakeConfig, options: &Options) -> (r: TreeShakeConfig)
    ensures
        r == apply_flags(c, *options),
{
    let mut config = c;
    if let Some(depth) = options.max_recursion_depth {
        config.max_recursion_depth = depth as usize;
    }
    if let Some(remember) = options.remember_exhausted_variables {
        config.remember_exhausted_variables = remember;
    }
    if let Some(eager) = options.eager_exhaustive_callbacks {
        config.eager_exhaustive_callbacks = eager;
    }
    if let Some(enable) = options.enable_fn_cache {
        config.enable_fn_cache = enable;
    }
    if let Some(enable) = options.enable_fn_stats {
        config.enable_fn_stats = enable;
    }
    config
}

/// Resolves the options against the presets: the named preset's settings
/// with the options that are set applied; no minifying and no source map
/// unless asked for.
pub fn resolve_options(presets: &PresetConfigs, options: &Options) -> (r: ResolvedOptions)
    requires
        preset_of(opt_str(options.preset)) is Some,
    ensures
        r.config == apply_options(preset_config(*presets, preset_of(opt_str(options.preset))->0), *options),
        r.minify == (options.minify == Some(true)),
        r.source_map == (options.source_map == Some(true)),
{
    let preset = match parse_preset(&options.preset) {
        Some(p) => p,
        None => {
            proof {
                assert(false);
            }
            TreeShakePreset::Recommended
        },
    };
    let config = match preset {
        TreeShakePreset::Safest => presets.safest,
        TreeShakePreset::Recommended => presets.recommended,
        TreeShakePreset::Smallest => presets.smallest,
        TreeShakePreset::Disabled => presets.disabled,
    };
    let config = with_flags(with_jsx(with_inline(config, options), options), options);
    let minify = match options.minify {
        Some(b) => b,
        None => false,
    };
    let source_map = match options.source_map {
        Some(b) => b,
        None => false,
    };
    ResolvedOptions { config, minify, source_map }
}


/// Resolving options against a preset: every option that is set replaces
/// the preset's setting of it, every option that is not set leaves that
/// setting as the preset has it, and the settings no option touches stay
/// the preset's.
pub proof fn law_options_override_preset(presets: PresetConfigs, o: Options)
    requires
        preset_of(opt_str(o.preset)) is Some,
    ensures
        ({
            let c = preset_config(presets, preset_of(opt_str(o.preset))->0);
            let r = apply_options(c, o);
            &&& r.max_recursion_depth == (match o.max_recursion_depth {
                Some(d) => d as usize,
                None => c.max_recursion_depth,
            })
            &&& (o.remember_exhausted_variables matches Some(b) ==> r.remember_exhausted_variables == b)
            &&& (o.remember_exhausted_variables is None ==> r.remember_exhausted_variables == c.remember_exhausted_variables)
            &&& (o.eager_exhaustive_callbacks matches Some(b) ==> r.eager_exhaustive_callbacks == b)
            &&& (o.eager_exhaustive_callbacks is None ==> r.eager_exhaustive_callbacks == c.eager_exhaustive_callbacks)
            &&& (o.enable_fn_cache matches Some(b) ==> r.enable_fn_cache == b)
            &&& (o.enable_fn_cache is None ==> r.enable_fn_cache == c.enable_fn_cache)
            &&& (o.enable_fn_stats matches Some(b) ==> r.enable_fn_stats == b)
            &&& (o.enable_fn_stats is None ==> r.enable_fn_stats == c.enable_fn_stats)
            &&& (o.always_inline_literal == Some(true) ==> r.min_simple_number_value == i64::MIN
                && r.max_simple_number_value == i64::MAX && r.max_simple_string_length == usize::MAX)
            &&& (o.always_inline_literal != Some(true) ==> r.min_simple_number_value == c.min_simple_number_value
                && r.max_simple_number_value == c.max_simple_number_value
                && r.max_simple_string_length == c.max_simple_string_length)
            &&& r.jsx == (if opt_str(o.jsx) == Some("react"@) { TreeShakeJsxPreset::React } else { c.jsx })
            &&& r.enabled == c.enabled
            &&& r.preserve_exceptions == c.preserve_exceptions
            &&& r.unknown_property_read_side_effects == c.unknown_property_read_side_effects
            &&& r.iterate_side_effects == c.iterate_side_effects
            &&& r.fn_cache_size_limit == c.fn_cache_size_limit
        }),
{
}

} // verus!
