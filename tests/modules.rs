use robber::modules::{expand_mods, module_candidates, pick_candidate, ModAction};

#[test]
fn inline_tests_module_cleared() {
    assert_eq!(expand_mods(&"tests".to_string(), true), ModAction::Clear);
    assert_eq!(expand_mods(&"util".to_string(), true), ModAction::Keep);
}

#[test]
fn module_without_body_loaded() {
    assert_eq!(expand_mods(&"util".to_string(), false), ModAction::Load);
    assert_eq!(expand_mods(&"tests".to_string(), false), ModAction::Load);
}

#[test]
fn candidates_in_order() {
    let c = module_candidates("util");
    assert_eq!(c.len(), 2);
    assert_eq!(c[0].subdir, None);
    assert_eq!(c[0].file, "util.rs");
    assert_eq!(c[1].subdir, Some("util".to_string()));
    assert_eq!(c[1].file, "mod.rs");
}

#[test]
fn first_existing_candidate_wins() {
    assert_eq!(pick_candidate(&vec![true, true]), Some(0));
    assert_eq!(pick_candidate(&vec![false, true]), Some(1));
    assert_eq!(pick_candidate(&vec![false, false]), None);
}
