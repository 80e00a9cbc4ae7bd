use srt::matcher::get_regex;
use srt::name::{
    compose_name, get_name, get_new_name, instrument_from_str, keyword_from_alias,
    resolve_keywords, Instrument, Keyword,
};
use srt::path::{next_candidate, numbered_file_name, probe, Probe, MAX_ATTEMPTS};

fn strings(v: &[&str]) -> Vec<String> {
    v.iter().map(|s| s.to_string()).collect()
}

fn drums() -> Instrument {
    Instrument {
        prefix: "drm".to_string(),
        keywords: vec![
            Keyword::new("kick".to_string(), strings(&["kik"])),
            Keyword::new("tambourine".to_string(), strings(&["tamb"])),
            Keyword::new("shaker".to_string(), strings(&["cabasa"])),
        ],
        descriptors: strings(&["vintage", "break"]),
        invalid_names: vec![],
    }
}

#[test]
fn alias_and_name_of_one_keyword_give_one_token() {
    assert_eq!(
        get_new_name("tamb tambourine vintage", &drums()),
        Some("drm - tambourine vintage ourine".to_string())
    );
}

#[test]
fn alias_resolves_and_rest_is_kept() {
    assert_eq!(
        get_new_name("drum beater kik drm", &drums()),
        Some("drm - kick drum beater drm".to_string())
    );
}

#[test]
fn descriptors_follow_in_order_found() {
    assert_eq!(
        get_new_name("cabasa vintage break", &drums()),
        Some("drm - shaker vintage break".to_string())
    );
    assert_eq!(
        get_new_name("break cabasa vintage", &drums()),
        Some("drm - shaker break vintage".to_string())
    );
}

#[test]
fn no_keyword_gives_no_name() {
    assert_eq!(get_new_name("sidestick 1", &drums()), None);
    assert_eq!(get_name("sidestick 1", &vec![drums()]), None);
}

#[test]
fn only_alias_gives_canonical_token() {
    assert_eq!(get_new_name("kik", &drums()), Some("drm - kick".to_string()));
}

#[test]
fn repeated_keyword_appears_once() {
    assert_eq!(get_new_name("kick kik", &drums()), Some("drm - kick".to_string()));
    assert_eq!(get_new_name("shaker 2 shaker", &drums()), Some("drm - shaker 2".to_string()));
}

#[test]
fn synthesis_is_repeatable() {
    let a = get_new_name("kik vintage 3", &drums());
    let b = get_new_name("kik vintage 3", &drums());
    assert_eq!(a, b);
    assert_eq!(a, Some("drm - kick vintage 3".to_string()));
}

#[test]
fn invalid_matches_are_dropped() {
    let mut inst = drums();
    inst.invalid_names = strings(&["kik"]);
    assert_eq!(get_new_name("kik shaker", &inst), Some("drm - shaker".to_string()));
}

#[test]
fn unlisted_case_variant_gives_no_name() {
    assert_eq!(get_new_name("KIK", &drums()), None);
}

#[test]
fn literals_are_not_patterns() {
    let inst = Instrument {
        prefix: "fx".to_string(),
        keywords: vec![Keyword::new("a.b".to_string(), vec![])],
        descriptors: vec![],
        invalid_names: vec![],
    };
    let all = vec![inst];
    assert!(instrument_from_str("axb", &all).is_none());
    assert!(instrument_from_str("x a.b y", &all).is_some());
    assert_eq!(get_new_name("x a.b y", &all[0]), Some("fx - a.b x y".to_string()));
}

#[test]
fn first_matching_instrument_wins() {
    let perc = Instrument {
        prefix: "prc".to_string(),
        keywords: vec![Keyword::new("shaker".to_string(), vec![])],
        descriptors: vec![],
        invalid_names: vec![],
    };
    let hats = Instrument {
        prefix: "hat".to_string(),
        keywords: vec![Keyword::new("hat".to_string(), vec![])],
        descriptors: vec![],
        invalid_names: vec![],
    };
    let all = vec![hats, perc, drums()];
    assert_eq!(instrument_from_str("shaker loop", &all).map(|i| i.prefix.clone()), Some("prc".to_string()));
    assert_eq!(instrument_from_str("hat shaker", &all).map(|i| i.prefix.clone()), Some("hat".to_string()));
    assert!(instrument_from_str("snare", &all).is_none());
    assert_eq!(get_name("Shaker_loop", &all), None);
    assert_eq!(get_name("shaker_(loop)", &all), Some("prc - shaker loop".to_string()));
}

#[test]
fn get_name_sanitizes_first() {
    assert_eq!(get_name("kik-vintage_02", &vec![drums()]), Some("drm - kick vintage 02".to_string()));
}

#[test]
fn keyword_spellings() {
    let k = Keyword::new("kick".to_string(), strings(&["kik", "bd"]));
    assert_eq!(k.as_vec(), strings(&["kik", "bd", "kick"]));
}

#[test]
fn alias_lookup() {
    assert_eq!(keyword_from_alias("cabasa", &drums()), Some("shaker".to_string()));
    assert_eq!(keyword_from_alias("kick", &drums()), None);
}

#[test]
fn resolve_dedupes_in_first_occurrence_order() {
    let hits = strings(&["shaker", "kik", "cabasa", "", "kick"]);
    assert_eq!(resolve_keywords(&drums(), &hits), Some(strings(&["shaker", "kick"])));
    assert_eq!(resolve_keywords(&drums(), &strings(&["snare"])), None);
}

#[test]
fn compose_from_parts() {
    let inst = drums();
    assert_eq!(
        compose_name(&inst, &strings(&["tamb"]), &strings(&["", "break", "vintage"]), "left"),
        Some("drm - tambourine break vintage left".to_string())
    );
    assert_eq!(compose_name(&inst, &strings(&["kik"]), &vec![], ""), Some("drm - kick".to_string()));
}

#[test]
fn matcher_splits_text() {
    let m = get_regex(&strings(&["ab", "c"]));
    assert_eq!(m.split("xABycz"), Some((strings(&["x", "y", "z"]), strings(&["AB", "c"]))));
    assert!(m.is_match("zzC"));
    assert!(!m.is_match("zz"));
}

#[test]
fn numbered_candidates() {
    assert_eq!(numbered_file_name("drm - kick", "wav", 1), "drm - kick 1.wav".to_string());
    assert_eq!(numbered_file_name("drm - kick", "", 12), "drm - kick 12".to_string());
    assert_eq!(next_candidate("a", "wav", 0), Some((1, "a 1.wav".to_string())));
    assert_eq!(next_candidate("a", "wav", 1), Some((2, "a 2.wav".to_string())));
    assert_eq!(next_candidate("a", "wav", MAX_ATTEMPTS), None);
}

#[test]
fn probe_steps() {
    assert!(matches!(probe("a", "wav", 0, false), Probe::Use));
    match probe("a", "wav", 0, true) {
        Probe::Try(n, name) => {
            assert_eq!(n, 1);
            assert_eq!(name, "a 1.wav".to_string());
        }
        _ => panic!("expected a next candidate"),
    }
    assert!(matches!(probe("a", "wav", MAX_ATTEMPTS, true), Probe::GiveUp));
}
