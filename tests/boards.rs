use game_sessions::boards::{
    get_all_gustom, get_gustom_game, name_precedes, update_custom_game, BoardTable,
};

#[test]
fn saved_board_is_found_by_name() {
    let mut t: BoardTable<u32> = BoardTable::new();
    assert!(get_gustom_game(&t, &"tower".to_string()).is_none());
    update_custom_game(&mut t, "tower".to_string(), 3);
    update_custom_game(&mut t, "pit".to_string(), 4);
    assert_eq!(get_gustom_game(&t, &"tower".to_string()), Some(&3));
    assert_eq!(get_gustom_game(&t, &"pit".to_string()), Some(&4));
    assert_eq!(get_all_gustom(&t).len(), 2);
}

#[test]
fn saving_again_replaces_the_board() {
    let mut t: BoardTable<u32> = BoardTable::new();
    update_custom_game(&mut t, "tower".to_string(), 3);
    update_custom_game(&mut t, "tower".to_string(), 8);
    assert_eq!(get_gustom_game(&t, &"tower".to_string()), Some(&8));
    assert_eq!(get_all_gustom(&t).len(), 1);
    assert_eq!(get_all_gustom(&t)[0], ("tower".to_string(), 8));
}

#[test]
fn boards_are_listed_by_name() {
    let mut t: BoardTable<u32> = BoardTable::new();
    for (n, v) in [("pit", 1), ("abyss", 2), ("tower", 3), ("ab", 4), ("pit", 5), ("Zed", 6)] {
        update_custom_game(&mut t, n.to_string(), v);
    }
    let names: Vec<&str> = get_all_gustom(&t).iter().map(|e| e.0.as_str()).collect();
    assert_eq!(names, vec!["Zed", "ab", "abyss", "pit", "tower"]);
    assert_eq!(get_gustom_game(&t, &"pit".to_string()), Some(&5));
}

#[test]
fn name_order_is_lexicographic() {
    let s = |x: &str| x.to_string();
    assert!(name_precedes(&s("ab"), &s("abc")));
    assert!(!name_precedes(&s("abc"), &s("ab")));
    assert!(name_precedes(&s(""), &s("a")));
    assert!(!name_precedes(&s("a"), &s("a")));
    assert!(name_precedes(&s("b"), &s("é")));
}
