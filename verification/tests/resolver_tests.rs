use celeb_shortest_distance::data::Actor;
use celeb_shortest_distance::resolver::{
    fuzzy_search_actor, get_actor_by_id, get_actor_by_name, get_unique_actor, normalize_query,
    parse_actor_id, ResolveStep, ResolverState,
};
use std::collections::HashMap;

fn actor(id: usize, name: &str, birth_year: Option<u32>) -> Actor {
    Actor { id, name: name.to_string(), birth_year }
}

fn small_table() -> HashMap<usize, Actor> {
    let mut actors = HashMap::new();
    actors.insert(129, actor(129, "Tom Cruise", Some(1962)));
    actors.insert(158, actor(158, "Tom Hanks", Some(1956)));
    actors.insert(197, actor(197, "Jack Nicholson", Some(1937)));
    actors
}

fn homonym_table() -> HashMap<usize, Actor> {
    let mut actors = small_table();
    actors.insert(1, actor(1, "tom cruise", Some(2006)));
    actors
}

#[test]
fn normalize_trims_and_folds() {
    assert_eq!(normalize_query("  ToM hAnKs \n"), "tom hanks".to_string());
    assert_eq!(normalize_query(""), String::new());
    assert_eq!(normalize_query(" \t "), String::new());
}

#[test]
fn parse_accepts_trimmed_digits() {
    assert_eq!(parse_actor_id("129\n"), Some(129));
    assert_eq!(parse_actor_id("  20947 "), Some(20947));
    assert_eq!(parse_actor_id("12a"), None);
    assert_eq!(parse_actor_id(""), None);
    assert_eq!(parse_actor_id("99999999999999999999999999999999"), None);
}

#[test]
fn lookup_by_id() {
    let actors = small_table();
    assert_eq!(get_actor_by_id(&actors, 129).unwrap().id, 129);
    assert!(get_actor_by_id(&actors, 20947).is_none());
}

#[test]
fn lookup_by_name_folds_case() {
    let actors = homonym_table();
    let found = get_actor_by_name(&actors, "tom cruise");
    let mut ids: Vec<usize> = found.iter().map(|a| a.id).collect();
    ids.sort();
    assert_eq!(ids, vec![1, 129]);
}

#[test]
fn exact_match_resolves_single_actor() {
    let actors = small_table();
    let step = get_unique_actor(&ResolverState::AwaitingName, "tom cruise", &actors);
    match step {
        ResolveStep::Resolved(a) => assert_eq!(a.id, 129),
        _ => panic!("expected a resolution"),
    }
}

#[test]
fn case_folding_makes_exact_match() {
    let actors = small_table();
    let step = get_unique_actor(&ResolverState::AwaitingName, "ToM hAnKs", &actors);
    match step {
        ResolveStep::Resolved(a) => assert_eq!(a.id, 158),
        _ => panic!("expected a resolution"),
    }
}

#[test]
fn homonyms_ask_for_disambiguation() {
    let actors = homonym_table();
    let step = get_unique_actor(&ResolverState::AwaitingName, "tom cruise", &actors);
    match step {
        ResolveStep::Ambiguous(candidates) => {
            let mut ids: Vec<usize> = candidates.iter().map(|a| a.id).collect();
            ids.sort();
            assert_eq!(ids, vec![1, 129]);
        },
        _ => panic!("expected homonym candidates"),
    }
    let step = get_unique_actor(&ResolverState::AwaitingDisambiguationId, "129", &actors);
    match step {
        ResolveStep::Resolved(a) => assert_eq!(a.id, 129),
        _ => panic!("expected a resolution by identifier"),
    }
}

#[test]
fn unknown_id_reprompts_until_known() {
    let actors = small_table();
    let step = get_unique_actor(&ResolverState::AwaitingDisambiguationId, "20947", &actors);
    match step {
        ResolveStep::UnknownId(id) => assert_eq!(id, 20947),
        _ => panic!("expected an unknown identifier"),
    }
    let step = get_unique_actor(&ResolverState::AwaitingDisambiguationId, "129", &actors);
    match step {
        ResolveStep::Resolved(a) => assert_eq!(a.id, 129),
        _ => panic!("expected a resolution by identifier"),
    }
}

#[test]
fn unparseable_id_is_invalid() {
    let actors = small_table();
    let step = get_unique_actor(&ResolverState::AwaitingDisambiguationId, "first one", &actors);
    assert!(matches!(step, ResolveStep::InvalidQuery));
}

#[test]
fn empty_name_is_invalid() {
    let actors = small_table();
    let step = get_unique_actor(&ResolverState::AwaitingName, "   \n", &actors);
    assert!(matches!(step, ResolveStep::InvalidQuery));
}

#[test]
fn absent_name_yields_suggestions_from_corpus() {
    let actors = small_table();
    let step = get_unique_actor(&ResolverState::AwaitingName, "tom kruse", &actors);
    match step {
        ResolveStep::Suggestions(names) => {
            assert_eq!(names.len(), 3);
            for name in &names {
                assert!(actors.values().any(|a| &a.name == name));
            }
        },
        _ => panic!("expected suggestions"),
    }
}

#[test]
fn suggestions_degrade_with_a_small_corpus() {
    let mut actors = HashMap::new();
    actors.insert(7, actor(7, "Penelope Cruz", Some(1974)));
    let step = get_unique_actor(&ResolverState::AwaitingName, "tom kruse", &actors);
    match step {
        ResolveStep::Suggestions(names) => assert_eq!(names, vec!["Penelope Cruz".to_string()]),
        _ => panic!("expected suggestions"),
    }
}

#[test]
fn fuzzy_keeps_the_top_scores() {
    let names: Vec<String> = [
        "Tom Cruise",
        "Tom Hanks",
        "tom kruse",
        "Jack Nicholson",
        "Kevin Bacon",
        "Emma Watson",
    ]
    .iter()
    .map(|s| s.to_string())
    .collect();
    let query = "tom cruise";
    let kept = fuzzy_search_actor(&names, query);
    assert_eq!(kept.len(), 3);
    for name in &kept {
        assert!(names.contains(name));
    }
    // Every name left out scores no higher than any survivor.
    let min_kept = kept
        .iter()
        .map(|n| strsim::jaro_winkler(n, query).to_bits())
        .min()
        .unwrap();
    for name in &names {
        if !kept.contains(name) {
            assert!(strsim::jaro_winkler(name, query).to_bits() <= min_kept);
        }
    }
    // The obviously closest name survives.
    assert!(kept.contains(&"Tom Cruise".to_string()));
}

#[test]
fn empty_corpus_yields_empty_suggestions() {
    let actors: HashMap<usize, Actor> = HashMap::new();
    let step = get_unique_actor(&ResolverState::AwaitingName, "anyone", &actors);
    match step {
        ResolveStep::Suggestions(names) => assert!(names.is_empty()),
        _ => panic!("expected an empty suggestion list"),
    }
}

#[test]
fn duplicate_names_collapse_in_suggestions() {
    let names: Vec<String> = ["tom cruise", "tom cruise", "tom kruse", "tom cruise"]
        .iter()
        .map(|s| s.to_string())
        .collect();
    let kept = fuzzy_search_actor(&names, "tom cruz");
    assert_eq!(kept.len(), 2);
    assert_ne!(kept[0], kept[1]);
    assert!(kept.contains(&"tom cruise".to_string()));
    assert!(kept.contains(&"tom kruse".to_string()));
}

#[test]
fn exact_scoring_name_survives() {
    let names: Vec<String> = ["tom cruise", "Tom Hanks", "Jack Nicholson", "Kevin Bacon", "Emma Watson"]
        .iter()
        .map(|s| s.to_string())
        .collect();
    let query = "tom cruise";
    let kept = fuzzy_search_actor(&names, query);
    assert_eq!(kept.len(), 3);
    assert!(kept.iter().any(|n| strsim::jaro_winkler(n, query) == 1.0));
}

#[test]
fn fuzzy_on_few_names_returns_them_all() {
    let names: Vec<String> = vec!["Alpha".to_string(), "Beta".to_string()];
    let kept = fuzzy_search_actor(&names, "alpha");
    assert_eq!(kept.len(), 2);
}
