use s3wf2::document::{CharacterSet, CharacterType};

#[test]
fn character_set_works() {
    let mut characters = CharacterSet::new();
    characters.add_male("kb10uy", "佑").unwrap();
    characters.add_female("natsuki", "夏稀").unwrap();
    characters.add_mob("tomone", "朋音").unwrap();
    characters.add_female("ayano", "文乃").unwrap();

    let mut iter = characters.characters().iter();
    assert_eq!(
        iter.next(),
        Some(&("ayano".to_string(), CharacterType::Female(2, "文乃".to_string())))
    );
    assert_eq!(
        iter.next(),
        Some(&("kb10uy".to_string(), CharacterType::Male(1, "佑".to_string())))
    );
    assert_eq!(
        iter.next(),
        Some(&("natsuki".to_string(), CharacterType::Female(1, "夏稀".to_string())))
    );
    assert_eq!(
        iter.next(),
        Some(&("tomone".to_string(), CharacterType::Mob(1, "朋音".to_string())))
    );
    assert_eq!(iter.next(), None);
}

#[test]
fn enumeration_ignores_insertion_order() {
    let mut a = CharacterSet::new();
    a.add_custom("zed", "Zed", "fff").unwrap();
    a.add_female("amy", "Amy").unwrap();
    a.add_male("Bob", "Bob").unwrap();
    let mut b = CharacterSet::new();
    b.add_male("Bob", "Bob").unwrap();
    b.add_custom("zed", "Zed", "fff").unwrap();
    b.add_female("amy", "Amy").unwrap();
    assert_eq!(a.characters(), b.characters());
    let ids: Vec<&str> = a.characters().iter().map(|e| e.0.as_str()).collect();
    assert_eq!(ids, vec!["Bob", "amy", "zed"]);
}

#[test]
fn duplicate_character_is_refused() {
    let mut c = CharacterSet::new();
    c.add_mob("m", "M").unwrap();
    assert!(c.add_female("m", "F").is_err());
    assert!(c.add_custom("m", "F", "abc").is_err());
    assert_eq!(c.len(), 1);
    assert_eq!(c.get("m"), Some(&CharacterType::Mob(1, "M".to_string())));
    assert_eq!(c.get("x"), None);
}

#[test]
fn ordinals_count_per_kind() {
    let mut c = CharacterSet::new();
    c.add_male("a", "A").unwrap();
    c.add_female("b", "B").unwrap();
    c.add_male("c", "C").unwrap();
    assert_eq!(c.get("c"), Some(&CharacterType::Male(2, "C".to_string())));
    assert_eq!(c.get("b").unwrap().display_name(), "B");
}

#[test]
fn enumeration_depends_on_ids_only() {
    let mut a = CharacterSet::new();
    a.add_male("m", "M").unwrap();
    a.add_female("b", "B").unwrap();
    a.add_custom("k", "K", "123456").unwrap();
    let mut b = CharacterSet::new();
    b.add_custom("b", "B", "abc").unwrap();
    b.add_mob("k", "K").unwrap();
    b.add_female("m", "M").unwrap();
    let ids = |c: &CharacterSet| c.characters().iter().map(|e| e.0.clone()).collect::<Vec<String>>();
    assert_eq!(ids(&a), ids(&b));
    assert_eq!(ids(&a), vec!["b", "k", "m"]);
}
