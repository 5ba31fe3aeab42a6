use oink::cli::Commands;
use oink::config::{AppConfig, BlackList, BlackListLine, IfTrait, LayerConfig};
use oink::coordinator::{generate, DnaSet};
use oink::errors::EngineError;
use oink::layers::{Layers, Trait, TraitFile};

use sha3::Digest;

fn img() -> image::DynamicImage {
    image::DynamicImage::new_rgb8(3, 2)
}

fn tf(stem: &str) -> TraitFile {
    TraitFile { stem: stem.to_string(), width: 3, height: 2, image: img() }
}

fn layer_cfg(name: &str) -> LayerConfig {
    LayerConfig {
        name: name.to_string(),
        display_name: None,
        none: None,
        exclude_if_traits: None,
    }
}

fn app_cfg(layers: Vec<LayerConfig>, amount: usize, tolerance: usize) -> AppConfig {
    AppConfig {
        policy_id: None,
        name: "proj".to_string(),
        display_name: None,
        amount,
        tolerance,
        path: "assets".to_string(),
        off_traits: None,
        layers,
        config_name: "proj".to_string(),
        bl: None,
    }
}

fn visual_trait(layer: &str, name: &str, weight: u32) -> Trait {
    Trait {
        layer: layer.to_string(),
        name: name.to_string(),
        weight,
        image: Some(img()),
    }
}

fn none_trait(layer: &str, weight: u32) -> Trait {
    Trait { layer: layer.to_string(), name: "None".to_string(), weight, image: None }
}

// ---- catalog construction ----

#[test]
fn load_builds_catalog_in_order() {
    let mut layers = Layers::default();
    let cfg = app_cfg(vec![layer_cfg("Background"), layer_cfg("Hat")], 1, 1);
    let listings = vec![vec![tf("Blue#7"), tf("Red")], vec![tf("Crown#0")]];
    layers.load(&cfg, listings).unwrap();

    assert_eq!(layers.trait_sets.len(), 2);
    assert_eq!(layers.trait_sets[0].len(), 2);
    assert_eq!(layers.trait_sets[0][0].name, "Blue");
    assert_eq!(layers.trait_sets[0][0].weight, 7);
    assert_eq!(layers.trait_sets[0][1].name, "Red");
    assert_eq!(layers.trait_sets[0][1].weight, 50);
    assert!(layers.trait_sets[0][0].image.is_some());
    assert_eq!(layers.trait_sets[1][0].name, "Crown");
    assert_eq!(layers.trait_sets[1][0].weight, 0);
    assert_eq!(layers.width, 3);
    assert_eq!(layers.height, 2);
}

#[test]
fn load_appends_none_entry_for_none_weight() {
    let mut layers = Layers::default();
    let mut lc = layer_cfg("Hat");
    lc.none = Some(12);
    let cfg = app_cfg(vec![lc], 1, 1);
    layers.load(&cfg, vec![vec![tf("Crown")]]).unwrap();

    let set = &layers.trait_sets[0];
    assert_eq!(set.len(), 2);
    let last = &set[1];
    assert_eq!(last.name, "None");
    assert_eq!(last.weight, 12);
    assert!(last.image.is_none());
}

#[test]
fn load_appends_zero_weight_none_for_exclusion_rules() {
    let mut layers = Layers::default();
    let mut lc = layer_cfg("Hat");
    lc.exclude_if_traits = Some(vec![IfTrait {
        layer: "Background".to_string(),
        traits: vec![],
    }]);
    let cfg = app_cfg(vec![lc], 1, 1);
    layers.load(&cfg, vec![vec![tf("Crown")]]).unwrap();

    let set = &layers.trait_sets[0];
    assert_eq!(set.len(), 2);
    assert_eq!(set[1].name, "None");
    assert_eq!(set[1].weight, 0);
    assert!(set[1].image.is_none());
}

#[test]
fn load_uses_display_name_as_trait_label() {
    let mut layers = Layers::default();
    let mut lc = layer_cfg("01_bg");
    lc.display_name = Some("Background".to_string());
    let cfg = app_cfg(vec![lc], 1, 1);
    layers.load(&cfg, vec![vec![tf("Blue")]]).unwrap();
    assert_eq!(layers.trait_sets[0][0].layer, "Background");
}

#[test]
fn load_skips_disabled_traits() {
    let mut layers = Layers::default();
    let mut cfg = app_cfg(vec![layer_cfg("Background")], 1, 1);
    cfg.off_traits = Some(vec!["Red#3".to_string()]);
    layers.load(&cfg, vec![vec![tf("Blue"), tf("Red#3")]]).unwrap();
    assert_eq!(layers.trait_sets[0].len(), 1);
    assert_eq!(layers.trait_sets[0][0].name, "Blue");
}

#[test]
fn load_rejects_duplicate_trait_name_across_layers() {
    let mut layers = Layers::default();
    let cfg = app_cfg(vec![layer_cfg("Background"), layer_cfg("Hat")], 1, 1);
    let r = layers.load(&cfg, vec![vec![tf("Gold")], vec![tf("Gold")]]);
    assert_eq!(r.unwrap_err(), EngineError::DuplicateTraitName("Gold".to_string()));
}

#[test]
fn load_rejects_unparsable_weight() {
    let mut layers = Layers::default();
    let cfg = app_cfg(vec![layer_cfg("Background")], 1, 1);
    let r = layers.load(&cfg, vec![vec![tf("Blue#x9")]]);
    assert_eq!(r.unwrap_err(), EngineError::UnparsableWeight("x9".to_string()));
}

#[test]
fn load_rejects_empty_layer() {
    let mut layers = Layers::default();
    let cfg = app_cfg(vec![layer_cfg("Background")], 1, 1);
    let r = layers.load(&cfg, vec![vec![]]);
    assert_eq!(r.unwrap_err(), EngineError::EmptyLayer("Background".to_string()));
}

#[test]
fn parse_weight_accepts_digits_only() {
    assert_eq!(oink::layers::parse_weight("123"), Some(123));
    assert_eq!(oink::layers::parse_weight("0"), Some(0));
    assert_eq!(oink::layers::parse_weight("4294967295"), Some(u32::MAX));
    assert_eq!(oink::layers::parse_weight("4294967296"), None);
    assert_eq!(oink::layers::parse_weight("12a"), None);
    assert_eq!(oink::layers::parse_weight(""), None);
}

#[test]
fn split_stem_takes_weight_between_delimiters() {
    let (name, w) = oink::layers::split_stem("Gold#25");
    assert_eq!(name, "Gold");
    assert_eq!(w, Some("25".to_string()));
    let (name, w) = oink::layers::split_stem("Gold");
    assert_eq!(name, "Gold");
    assert_eq!(w, None);
    let (name, w) = oink::layers::split_stem("Gold#25#x");
    assert_eq!(name, "Gold");
    assert_eq!(w, Some("25".to_string()));
}

// ---- weighted selection ----

#[test]
fn select_trait_walks_weight_spans() {
    let ts = vec![visual_trait("L", "A", 2), visual_trait("L", "B", 3)];
    assert_eq!(oink::layers::select_trait(&ts, 0), 0);
    assert_eq!(oink::layers::select_trait(&ts, 1), 0);
    assert_eq!(oink::layers::select_trait(&ts, 2), 1);
    assert_eq!(oink::layers::select_trait(&ts, 4), 1);
}

#[test]
fn select_trait_zero_total_picks_last() {
    let ts = vec![visual_trait("L", "A", 0), none_trait("L", 0)];
    assert_eq!(oink::layers::select_trait(&ts, 0), 1);
}

#[test]
fn weighted_sampling_skew_never_picks_zero_weight() {
    // Weights [100, 0]: the zero-weight entry can never take the
    // running value below zero first, so index 0 wins every draw.
    let layers = Layers {
        trait_sets: vec![vec![visual_trait("L", "A", 100), visual_trait("L", "B", 0)]],
        width: 3,
        height: 2,
    };
    let cfgs = vec![layer_cfg("L")];
    for _ in 0..10000 {
        let (def, _, _) = layers.create_unique(&cfgs);
        assert_eq!(def[0], 0);
    }
}

// ---- exclusion resolution ----

#[test]
fn layer_only_rule_forces_no_trait_entry() {
    // Hat owns the rule {layer: "Background", traits: {}}; whenever
    // Background resolves to a visual trait, Hat falls to its last
    // (no-trait) entry.
    let layers = Layers {
        trait_sets: vec![
            vec![visual_trait("Background", "Blue", 50)],
            vec![visual_trait("Hat", "Crown", 50), none_trait("Hat", 0)],
        ],
        width: 3,
        height: 2,
    };
    let mut hat_cfg = layer_cfg("Hat");
    hat_cfg.exclude_if_traits = Some(vec![IfTrait {
        layer: "Background".to_string(),
        traits: vec![],
    }]);
    let cfgs = vec![layer_cfg("Background"), hat_cfg];
    let finals = layers.apply_excludes(&cfgs, &vec![0, 0]);
    assert_eq!(finals, vec![0, 1]);
}

#[test]
fn named_trait_rule_matches_on_any_layer() {
    // Empty layer name: the rule matches the trait name wherever it
    // was drawn, visual traits only.
    let layers = Layers {
        trait_sets: vec![
            vec![visual_trait("Background", "Lava", 50)],
            vec![visual_trait("Hat", "Crown", 50), none_trait("Hat", 0)],
        ],
        width: 3,
        height: 2,
    };
    let mut hat_cfg = layer_cfg("Hat");
    hat_cfg.exclude_if_traits = Some(vec![IfTrait {
        layer: String::new(),
        traits: vec!["Lava".to_string()],
    }]);
    let cfgs = vec![layer_cfg("Background"), hat_cfg];
    let finals = layers.apply_excludes(&cfgs, &vec![0, 0]);
    assert_eq!(finals, vec![0, 1]);
}

#[test]
fn rule_without_match_changes_nothing() {
    let layers = Layers {
        trait_sets: vec![
            vec![visual_trait("Background", "Blue", 50)],
            vec![visual_trait("Hat", "Crown", 50), none_trait("Hat", 0)],
        ],
        width: 3,
        height: 2,
    };
    let mut hat_cfg = layer_cfg("Hat");
    hat_cfg.exclude_if_traits = Some(vec![IfTrait {
        layer: "Fur".to_string(),
        traits: vec![],
    }]);
    let cfgs = vec![layer_cfg("Background"), hat_cfg];
    let finals = layers.apply_excludes(&cfgs, &vec![0, 0]);
    assert_eq!(finals, vec![0, 0]);
}

#[test]
fn non_visual_trait_does_not_trigger_layer_rule() {
    // Background resolves to its no-trait entry: a layer-only rule asks
    // for a visual trait, so Hat keeps its draw.
    let layers = Layers {
        trait_sets: vec![
            vec![visual_trait("Background", "Blue", 50), none_trait("Background", 10)],
            vec![visual_trait("Hat", "Crown", 50), none_trait("Hat", 0)],
        ],
        width: 3,
        height: 2,
    };
    let mut hat_cfg = layer_cfg("Hat");
    hat_cfg.exclude_if_traits = Some(vec![IfTrait {
        layer: "Background".to_string(),
        traits: vec![],
    }]);
    let cfgs = vec![layer_cfg("Background"), hat_cfg];
    let finals = layers.apply_excludes(&cfgs, &vec![1, 0]);
    assert_eq!(finals, vec![1, 0]);
}

// ---- blacklist ----

#[test]
fn blacklist_rejects_pair_and_accepts_single() {
    let bl = BlackList {
        list: vec![BlackListLine {
            trait_name: "Crown".to_string(),
            excludes: vec!["Mohawk".to_string()],
        }],
    };
    let table = AppConfig::bl(bl, true).unwrap();
    let mut cfg = app_cfg(vec![], 1, 1);
    cfg.bl = Some(table);

    let both = vec!["Crown".to_string(), "Mohawk".to_string()];
    assert!(cfg.is_bl(&both, true));
    let crown_only = vec!["Crown".to_string(), "Blue".to_string()];
    assert!(!cfg.is_bl(&crown_only, true));
    let mohawk_only = vec!["Mohawk".to_string()];
    assert!(!cfg.is_bl(&mohawk_only, true));
}

#[test]
fn blacklist_case_folds_when_insensitive() {
    let bl = BlackList {
        list: vec![BlackListLine {
            trait_name: "CROWN".to_string(),
            excludes: vec!["MOHAWK".to_string()],
        }],
    };
    let table = AppConfig::bl(bl, false).unwrap();
    let mut cfg = app_cfg(vec![], 1, 1);
    cfg.bl = Some(table);

    let both = vec!["crown".to_string(), "Mohawk".to_string()];
    assert!(cfg.is_bl(&both, false));
    // Case sensitive build keeps the spelling apart.
    let bl2 = BlackList {
        list: vec![BlackListLine {
            trait_name: "CROWN".to_string(),
            excludes: vec!["MOHAWK".to_string()],
        }],
    };
    let table2 = AppConfig::bl(bl2, true).unwrap();
    let mut cfg2 = app_cfg(vec![], 1, 1);
    cfg2.bl = Some(table2);
    assert!(!cfg2.is_bl(&both, true));
}

#[test]
fn blacklist_rejects_ambiguous_partner() {
    let bl = BlackList {
        list: vec![
            BlackListLine {
                trait_name: "Crown".to_string(),
                excludes: vec!["Mohawk".to_string()],
            },
            BlackListLine {
                trait_name: "Halo".to_string(),
                excludes: vec!["Mohawk".to_string()],
            },
        ],
    };
    let r = AppConfig::bl(bl, true);
    assert_eq!(r.unwrap_err(), EngineError::AmbiguousBlacklistEntry("Mohawk".to_string()));
}

#[test]
fn missing_blacklist_rejects_nothing() {
    let cfg = app_cfg(vec![], 1, 1);
    assert!(!cfg.is_bl(&vec!["Crown".to_string(), "Mohawk".to_string()], true));
}

// ---- coordinator ----

fn two_by_two_layers() -> (Layers, Vec<LayerConfig>) {
    let layers = Layers {
        trait_sets: vec![
            vec![visual_trait("Background", "Blue", 50), visual_trait("Background", "Red", 50)],
            vec![visual_trait("Hat", "Crown", 50), visual_trait("Hat", "Mohawk", 50)],
        ],
        width: 3,
        height: 2,
    };
    let cfgs = vec![layer_cfg("Background"), layer_cfg("Hat")];
    (layers, cfgs)
}

#[test]
fn generate_accepts_unique_combinations() {
    let (layers, cfgs) = two_by_two_layers();
    let cfg = app_cfg(cfgs, 4, 1000);
    let mut dna_set = DnaSet::new();
    let v = generate(&cfg, &layers, false, &mut dna_set).unwrap();
    assert_eq!(v.len(), 4);
    for a in 0..v.len() {
        for b in a + 1..v.len() {
            assert_ne!(v[a].1, v[b].1);
            assert_ne!(v[a].0, v[b].0);
        }
    }
}

#[test]
fn tolerance_exhaustion_fails_with_context() {
    // Four possible combinations, ten requested: the cumulative failure
    // budget of five must run out.
    let (layers, cfgs) = two_by_two_layers();
    let cfg = app_cfg(cfgs, 10, 5);
    let mut dna_set = DnaSet::new();
    let r = generate(&cfg, &layers, false, &mut dna_set);
    assert_eq!(
        r.unwrap_err(),
        EngineError::ToleranceExceeded("proj".to_string(), 10, 5)
    );
}

#[test]
fn uniqueness_set_spans_runs() {
    // One possible combination; a second run against the same set can
    // never accept it again.
    let layers = Layers {
        trait_sets: vec![vec![visual_trait("Background", "Blue", 50)]],
        width: 3,
        height: 2,
    };
    let cfgs = vec![layer_cfg("Background")];
    let cfg = app_cfg(cfgs, 1, 4);
    let mut dna_set = DnaSet::new();
    let first = generate(&cfg, &layers, false, &mut dna_set).unwrap();
    assert_eq!(first.len(), 1);
    let r = generate(&cfg, &layers, false, &mut dna_set);
    assert_eq!(
        r.unwrap_err(),
        EngineError::ToleranceExceeded("proj".to_string(), 1, 4)
    );
}

#[test]
fn generate_skips_blacklisted_combination() {
    // Blue and Crown may not meet; with one trait per layer every draw
    // is Blue+Crown, so generation must exhaust its budget.
    let layers = Layers {
        trait_sets: vec![
            vec![visual_trait("Background", "Blue", 50)],
            vec![visual_trait("Hat", "Crown", 50)],
        ],
        width: 3,
        height: 2,
    };
    let cfgs = vec![layer_cfg("Background"), layer_cfg("Hat")];
    let bl = BlackList {
        list: vec![BlackListLine {
            trait_name: "Blue".to_string(),
            excludes: vec!["Crown".to_string()],
        }],
    };
    let mut cfg = app_cfg(cfgs, 1, 3);
    cfg.bl = Some(AppConfig::bl(bl, true).unwrap());
    let mut dna_set = DnaSet::new();
    let r = generate(&cfg, &layers, true, &mut dna_set);
    assert_eq!(
        r.unwrap_err(),
        EngineError::ToleranceExceeded("proj".to_string(), 1, 3)
    );
}

#[test]
fn dna_set_insert_reports_presence() {
    let mut s = DnaSet::new();
    assert!(s.insert_if_absent(&"abc".to_string()));
    assert!(!s.insert_if_absent(&"abc".to_string()));
    assert!(s.insert_if_absent(&"abd".to_string()));
}

// ---- fingerprint ----

fn expected_fingerprint(labels: &[&str]) -> String {
    let mut bytes: Vec<Vec<u8>> = labels.iter().map(|l| l.as_bytes().to_vec()).collect();
    bytes.sort();
    let mut hasher = sha3::Keccak256::new();
    hasher.update(bytes.concat());
    let digest = hasher.finalize();
    let mut out = String::new();
    for b in digest.iter() {
        out.push_str(&format!("{:02x}", b));
    }
    out
}

#[test]
fn fingerprint_matches_keccak_of_sorted_labels() {
    let labels = vec!["Hat-Crown".to_string(), "Background-Blue".to_string()];
    let dna = oink::fingerprint::hash_dna(&labels);
    assert_eq!(dna, expected_fingerprint(&["Hat-Crown", "Background-Blue"]));
    assert_eq!(dna.len(), 64);
}

#[test]
fn fingerprint_is_order_independent() {
    let forward = vec!["Background-Blue".to_string(), "Hat-Crown".to_string(), "Fur-Gold".to_string()];
    let backward = vec!["Fur-Gold".to_string(), "Hat-Crown".to_string(), "Background-Blue".to_string()];
    assert_eq!(oink::fingerprint::hash_dna(&forward), oink::fingerprint::hash_dna(&backward));
}

#[test]
fn fingerprint_distinguishes_different_label_sets() {
    let one = vec!["Background-Blue".to_string()];
    let two = vec!["Background-Red".to_string()];
    assert_ne!(oink::fingerprint::hash_dna(&one), oink::fingerprint::hash_dna(&two));
}

#[test]
fn create_unique_labels_only_visual_traits() {
    // A no-trait selection contributes neither a name nor a label.
    let layers = Layers {
        trait_sets: vec![
            vec![visual_trait("Background", "Blue", 50)],
            vec![none_trait("Hat", 50)],
        ],
        width: 3,
        height: 2,
    };
    let cfgs = vec![layer_cfg("Background"), layer_cfg("Hat")];
    let (def, names, dna) = layers.create_unique(&cfgs);
    assert_eq!(def, vec![0, 0]);
    assert_eq!(names, vec!["Blue".to_string()]);
    assert_eq!(dna, expected_fingerprint(&["Background-Blue"]));
}

// ---- commands ----

#[test]
fn command_defaults() {
    match Commands::new() {
        Commands::Gen(args) => {
            assert_eq!(args.config_folder, "configs");
            assert_eq!(args.bl_file, "blacklist.json");
            assert!(!args.bl_case_sen);
        }
        Commands::Clean => panic!("expected the generation command"),
    }
    assert!(matches!(Commands::default(), Commands::Gen(_)));
}
