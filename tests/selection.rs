use budgetbeast::selection::{MenuError, SelectionCache};

fn categories() -> Vec<String> {
    ["Groceries", "Delivery", "Cafe", "Eating out", "Transport", "Other"]
        .iter()
        .map(|c| c.to_string())
        .collect()
}

#[test]
fn resolving_one_option_retires_the_menu() {
    let mut cache = SelectionCache::new();
    let opts = cache.open_menu(&categories(), 1250, &"lunch".to_string(), 10).unwrap();
    assert_eq!(opts.len(), 6);
    assert_eq!(cache.len(), 6);
    let labels: Vec<&str> = opts.iter().map(|o| o.label.as_str()).collect();
    assert_eq!(labels, vec!["Groceries", "Delivery", "Cafe", "Eating out", "Transport", "Other"]);

    let choice = cache.resolve(opts[2].token).unwrap();
    assert_eq!(choice.category, "Cafe");
    assert_eq!(choice.amount, 1250);
    assert_eq!(choice.note, "lunch");
    assert_eq!(choice.created_at, 10);
    assert_eq!(cache.len(), 0);
    for o in &opts {
        assert!(cache.resolve(o.token).is_none());
        assert!(!cache.contains(o.token));
    }
}

#[test]
fn six_option_menu_resolve_drops_six() {
    let mut cache = SelectionCache::new();
    let first = cache.open_menu(&categories(), 100, &String::new(), 0).unwrap();
    let second = cache.open_menu(&categories(), 200, &String::new(), 0).unwrap();
    assert_eq!(cache.len(), 12);
    let choice = cache.resolve(second[3].token).unwrap();
    assert_eq!(choice.category, "Eating out");
    assert_eq!(choice.amount, 200);
    assert_eq!(cache.len(), 6);
    for o in &first {
        assert!(cache.contains(o.token));
    }
}

#[test]
fn tokens_are_distinct() {
    let mut cache = SelectionCache::new();
    let opts = cache.open_menu(&categories(), 1, &String::new(), 0).unwrap();
    for i in 0..opts.len() {
        for j in 0..opts.len() {
            if i != j {
                assert_ne!(opts[i].token, opts[j].token);
            }
        }
    }
}

#[test]
fn unknown_token_is_not_found() {
    let mut cache = SelectionCache::new();
    let opts = cache.open_menu(&categories(), 1, &String::new(), 0).unwrap();
    let unknown = opts.iter().map(|o| o.token).max().unwrap().wrapping_add(1);
    assert!(cache.resolve(unknown).is_none());
    assert_eq!(cache.len(), 6);
}

#[test]
fn sweep_removes_aged_choices() {
    let mut cache = SelectionCache::new();
    let old = cache.open_menu(&categories(), 1, &String::new(), 1_000).unwrap();
    let young = cache.open_menu(&categories(), 2, &String::new(), 1_500).unwrap();
    cache.sweep(1_999, 1_000);
    assert_eq!(cache.len(), 12);
    cache.sweep(2_000, 1_000);
    assert_eq!(cache.len(), 6);
    for o in &old {
        assert!(cache.resolve(o.token).is_none());
    }
    assert_eq!(cache.resolve(young[0].token).unwrap().amount, 2);
}

#[test]
fn clock_reading_before_creation_counts_as_fresh() {
    let mut cache = SelectionCache::new();
    cache.open_menu(&categories(), 1, &String::new(), 5_000).unwrap();
    cache.sweep(1_000, 10);
    assert_eq!(cache.len(), 6);
    cache.sweep(1_000, 0);
    assert_eq!(cache.len(), 0);
}

#[test]
fn colliding_ids_are_refused() {
    let mut cache = SelectionCache::new();
    let cats = vec!["A".to_string(), "B".to_string()];
    let note = String::new();
    assert!(matches!(
        cache.open_menu_with(&vec![1, 1], 9, &cats, 5, &note, 0),
        Err(MenuError::IdCollision)
    ));
    assert_eq!(cache.len(), 0);
    let opts = cache.open_menu_with(&vec![1, 2], 9, &cats, 5, &note, 0).unwrap();
    assert_eq!(opts[1].token, 2);
    assert_eq!(opts[1].label, "B");
    assert!(matches!(
        cache.open_menu_with(&vec![3, 2], 10, &cats, 5, &note, 0),
        Err(MenuError::IdCollision)
    ));
    assert!(matches!(
        cache.open_menu_with(&vec![3, 4], 9, &cats, 5, &note, 0),
        Err(MenuError::IdCollision)
    ));
    assert_eq!(cache.len(), 2);
    cache.open_menu_with(&vec![3, 4], 10, &cats, 5, &note, 0).unwrap();
    assert_eq!(cache.resolve(2).unwrap().category, "B");
    assert_eq!(cache.len(), 2);
    assert!(cache.contains(3) && cache.contains(4));
}

#[test]
fn token_count_must_match_categories() {
    let mut cache = SelectionCache::new();
    let cats = vec!["A".to_string(), "B".to_string()];
    assert!(matches!(
        cache.open_menu_with(&vec![1], 9, &cats, 5, &String::new(), 0),
        Err(MenuError::TokenCountMismatch)
    ));
    assert_eq!(cache.len(), 0);
}

#[test]
fn empty_menu_opens_nothing() {
    let mut cache = SelectionCache::new();
    let opts = cache.open_menu(&Vec::new(), 5, &String::new(), 0).unwrap();
    assert!(opts.is_empty());
    assert_eq!(cache.len(), 0);
}

#[test]
fn picked_choice_becomes_a_transaction() {
    let mut cache = SelectionCache::new();
    let opts = cache.open_menu(&categories(), 990, &"tea".to_string(), 0).unwrap();
    let choice = cache.resolve(opts[4].token).unwrap();
    let t = choice.into_transaction(None, "2024-05-06T10:00:00+00:00".to_string());
    assert_eq!(t.category, "Transport");
    assert_eq!(t.amount, 990);
    assert_eq!(t.username, "unknown");
    assert_eq!(t.note.as_deref(), Some("tea"));
    assert_eq!(t.date, "2024-05-06T10:00:00+00:00");

    let opts = cache.open_menu(&categories(), 5, &String::new(), 0).unwrap();
    let t = cache
        .resolve(opts[0].token)
        .unwrap()
        .into_transaction(Some("ann".to_string()), "d".to_string());
    assert_eq!(t.username, "ann");
    assert_eq!(t.note.as_deref(), Some(""));
}

#[test]
fn first_single_category_menu_opens() {
    let mut cache = SelectionCache::new();
    let opts = cache.open_menu(&vec!["Other".to_string()], 1, &String::new(), 0).unwrap();
    assert_eq!(opts.len(), 1);
    assert_eq!(cache.len(), 1);
}
