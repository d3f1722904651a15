use lagom_ecs::game::Game;
use lagom_ecs::game::HasComp;
use lagom_ecs::game::TextBox;
use lagom_ecs::game::TEXT_RENDERER_TAG;
use lagom_ecs::game::TEXT_VALUE_TAG;

const TEST_COMP: u64 = 10;
const TEST_COMP2: u64 = 11;

#[test]
fn test_hello() {
    let mut game = Game::new();
    let e1 = game.create_entity();
    let e2 = game.create_entity();

    game.add_component(e1, TEST_COMP, 1235);
    game.add_component(e1, TEST_COMP, 1555);
    game.add_component(e1, TEST_COMP2, 0);

    game.add_component(e2, TEST_COMP2, 0);

    let test_comp_filter = HasComp::new(TEST_COMP);

    let matches = game.get_entities_with_filter(&vec![test_comp_filter]);

    println!("{:?}", &matches);

    game.get_component(0, TEST_COMP);

    game.add_entity(&TextBox {});

    let a: Option<u64> = game.get_component(0, TEST_COMP);

    let mut a = a.unwrap();
    a = 4;

    println!("{}", a);
}

#[test]
fn filter_matches_exactly() {
    let mut game = Game::new();
    let e1 = game.create_entity();
    let e2 = game.create_entity();
    let e3 = game.create_entity();

    game.add_component(e1, TEST_COMP, 1);
    game.add_component(e1, TEST_COMP2, 2);
    game.add_component(e2, TEST_COMP, 3);
    game.add_component(e3, TEST_COMP2, 4);

    let both = game.get_entities_with_filter(&vec![
        HasComp::new(TEST_COMP),
        HasComp::new(TEST_COMP2),
    ]);
    assert_eq!(both, vec![e1]);

    let first = game.get_entities_with_filter(&vec![HasComp::new(TEST_COMP)]);
    assert_eq!(first, vec![e1, e2]);

    let none = game.get_entities_with_filter(&vec![HasComp::new(99)]);
    assert!(none.is_empty());

    // With no filters, every entity matches.
    let all = game.get_entities_with_filter(&Vec::new());
    assert_eq!(all, vec![e1, e2, e3]);
}

#[test]
fn get_component_returns_first_match() {
    let mut game = Game::new();
    let e = game.create_entity();
    game.add_component(e, TEST_COMP, 1235);
    game.add_component(e, TEST_COMP, 1555);

    assert_eq!(game.get_component(e, TEST_COMP), Some(1235));
    assert_eq!(game.get_component(e, TEST_COMP2), None);
}

#[test]
fn textbox_creates_entity_with_components() {
    let mut game = Game::new();
    game.add_entity(&TextBox {});

    let rendered = game.get_entities_with_filter(&vec![
        HasComp::new(TEXT_RENDERER_TAG),
        HasComp::new(TEXT_VALUE_TAG),
    ]);
    assert_eq!(rendered, vec![0]);
    assert_eq!(game.get_component(0, TEXT_RENDERER_TAG), Some(0));
}

#[test]
fn has_comp_matches_slice() {
    let mut game = Game::new();
    let e = game.create_entity();
    game.add_component(e, TEST_COMP, 7);

    let filter = HasComp::new(TEST_COMP);
    let res = game.get_entities_with_filter(&vec![filter]);
    assert_eq!(res, vec![e]);
}
