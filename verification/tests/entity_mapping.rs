use woodpecker_ui::entity_mapping::WidgetMapper;

const ROOT: u64 = 0;

fn name(s: &str) -> String {
    s.to_string()
}

fn key(s: &str) -> Option<String> {
    Some(s.to_string())
}

#[test]
fn new_mapper_records_nothing() {
    let mapper = WidgetMapper::new();
    assert_eq!(mapper.get_all_children(ROOT), Vec::<u64>::new());
    assert!(!mapper.added_this_frame(ROOT));
    assert!(!mapper.added_this_frame(1));
}

#[test]
fn get_key_is_the_type_name_without_a_key() {
    assert_eq!(WidgetMapper::get_key(name("Button"), None), "Button");
}

#[test]
fn get_key_joins_name_and_key_with_a_hyphen() {
    assert_eq!(WidgetMapper::get_key(name("Button"), key("ok")), "Button-ok");
    assert_eq!(WidgetMapper::get_key(name("Button"), key("")), "Button-");
    assert_eq!(WidgetMapper::get_key(name(""), key("a-b")), "-a-b");
}

#[test]
fn first_resolve_creates_fresh_nodes_in_order() {
    let mut mapper = WidgetMapper::new();
    let a = mapper.get_or_insert_entity_world(name("Button"), ROOT, None, 0);
    let b = mapper.get_or_insert_entity_world(name("Slider"), ROOT, None, 1);
    assert_eq!(a, 1);
    assert_eq!(b, 2);
    assert_eq!(mapper.get_all_children(ROOT), vec![1, 2]);
    assert!(mapper.added_this_frame(a));
    assert!(mapper.added_this_frame(b));
    assert_eq!(mapper.take_despawned(), Vec::<u64>::new());
}

#[test]
fn a_fresh_node_is_larger_than_its_parent() {
    let mut mapper = WidgetMapper::new();
    let child = mapper.get_or_insert_entity_world(name("Button"), 40, None, 0);
    assert_eq!(child, 41);
    let next = mapper.get_or_insert_entity_world(name("Button"), 7, None, 0);
    assert_eq!(next, 42);
    assert_eq!(mapper.get_all_children(40), vec![41]);
    assert_eq!(mapper.get_all_children(7), vec![42]);
}

#[test]
fn unchanged_tick_yields_the_same_handles() {
    let mut mapper = WidgetMapper::new();
    let a = mapper.get_or_insert_entity_world(name("Panel"), ROOT, None, 0);
    let b = mapper.get_or_insert_entity_world(name("Panel"), ROOT, key("right"), 1);
    let a0 = mapper.get_or_insert_entity_world(name("Text"), a, None, 0);
    let b0 = mapper.get_or_insert_entity_world(name("Text"), b, None, 0);

    mapper.clear_added_this_frame();
    assert!(!mapper.added_this_frame(a));

    assert_eq!(mapper.get_or_insert_entity_world(name("Panel"), ROOT, None, 0), a);
    assert_eq!(mapper.get_or_insert_entity_world(name("Panel"), ROOT, key("right"), 1), b);
    assert_eq!(mapper.get_or_insert_entity_world(name("Text"), a, None, 0), a0);
    assert_eq!(mapper.get_or_insert_entity_world(name("Text"), b, None, 0), b0);

    assert_eq!(mapper.get_all_children(ROOT), vec![a, b]);
    assert_eq!(mapper.get_all_children(a), vec![a0]);
    assert_eq!(mapper.get_all_children(b), vec![b0]);
    assert!(mapper.added_this_frame(a));
    assert!(mapper.added_this_frame(b0));
    assert_eq!(mapper.take_despawned(), Vec::<u64>::new());
}

#[test]
fn changed_key_replaces_the_child_and_its_subtree() {
    let mut mapper = WidgetMapper::new();
    let a = mapper.get_or_insert_entity_world(name("Panel"), ROOT, key("one"), 0);
    let b = mapper.get_or_insert_entity_world(name("Panel"), ROOT, key("two"), 1);
    let a0 = mapper.get_or_insert_entity_world(name("Text"), a, None, 0);
    let a00 = mapper.get_or_insert_entity_world(name("Icon"), a0, None, 0);
    let b0 = mapper.get_or_insert_entity_world(name("Text"), b, None, 0);
    mapper.clear_added_this_frame();

    let a2 = mapper.get_or_insert_entity_world(name("Panel"), ROOT, key("uno"), 0);
    let b2 = mapper.get_or_insert_entity_world(name("Panel"), ROOT, key("two"), 1);
    let a20 = mapper.get_or_insert_entity_world(name("Text"), a2, None, 0);
    let a200 = mapper.get_or_insert_entity_world(name("Icon"), a20, None, 0);
    let b20 = mapper.get_or_insert_entity_world(name("Text"), b2, None, 0);

    assert_ne!(a2, a);
    assert_ne!(a20, a0);
    assert_ne!(a200, a00);
    for fresh in [a2, a20, a200] {
        for old in [a, b, a0, a00, b0] {
            assert_ne!(fresh, old);
        }
    }
    assert_eq!(b2, b);
    assert_eq!(b20, b0);

    assert_eq!(mapper.get_all_children(ROOT), vec![a2, b]);
    assert_eq!(mapper.get_all_children(a), Vec::<u64>::new());
    assert_eq!(mapper.get_all_children(a0), Vec::<u64>::new());
    assert_eq!(mapper.get_all_children(a2), vec![a20]);
    assert_eq!(mapper.get_all_children(a20), vec![a200]);
    assert_eq!(mapper.take_despawned(), vec![a]);
    assert_eq!(mapper.take_despawned(), Vec::<u64>::new());
}

#[test]
fn changed_type_replaces_the_child() {
    let mut mapper = WidgetMapper::new();
    let a = mapper.get_or_insert_entity_world(name("Button"), ROOT, None, 0);
    let a2 = mapper.get_or_insert_entity_world(name("Slider"), ROOT, None, 0);
    assert_ne!(a, a2);
    assert_eq!(mapper.get_all_children(ROOT), vec![a2]);
    assert_eq!(mapper.take_despawned(), vec![a]);
}

#[test]
fn name_and_key_are_told_apart_by_the_whole_key() {
    let mut mapper = WidgetMapper::new();
    let a = mapper.get_or_insert_entity_world(name("A-b"), ROOT, None, 0);
    let same = mapper.get_or_insert_entity_world(name("A"), ROOT, key("b"), 0);
    assert_eq!(a, same);
}

#[test]
fn inserting_at_the_front_recreates_every_sibling() {
    let mut mapper = WidgetMapper::new();
    let a = mapper.get_or_insert_entity_world(name("A"), ROOT, None, 0);
    let b = mapper.get_or_insert_entity_world(name("B"), ROOT, None, 1);
    let c = mapper.get_or_insert_entity_world(name("C"), ROOT, None, 2);
    assert_eq!(mapper.get_all_children(ROOT), vec![a, b, c]);
    mapper.clear_added_this_frame();

    let x = mapper.get_or_insert_entity_world(name("X"), ROOT, None, 0);
    let a2 = mapper.get_or_insert_entity_world(name("A"), ROOT, None, 1);
    let b2 = mapper.get_or_insert_entity_world(name("B"), ROOT, None, 2);
    let c2 = mapper.get_or_insert_entity_world(name("C"), ROOT, None, 3);

    assert_eq!((x, a2, b2, c2), (4, 5, 6, 7));
    assert_eq!(mapper.get_all_children(ROOT), vec![x, a2, b2, c2]);
    assert_eq!(mapper.take_despawned(), vec![a, b, c]);
    for fresh in [x, a2, b2, c2] {
        assert!(mapper.added_this_frame(fresh));
        for old in [a, b, c] {
            assert_ne!(fresh, old);
        }
    }
}

#[test]
fn inserting_a_sibling_with_the_key_of_its_neighbour_keeps_the_nodes() {
    let mut mapper = WidgetMapper::new();
    let a = mapper.get_or_insert_entity_world(name("Item"), ROOT, None, 0);
    let b = mapper.get_or_insert_entity_world(name("Item"), ROOT, None, 1);
    mapper.clear_added_this_frame();

    let x = mapper.get_or_insert_entity_world(name("Item"), ROOT, None, 0);
    let a2 = mapper.get_or_insert_entity_world(name("Item"), ROOT, None, 1);
    let b2 = mapper.get_or_insert_entity_world(name("Item"), ROOT, None, 2);
    assert_eq!((x, a2), (a, b));
    assert_eq!(b2, 3);
    assert_eq!(mapper.take_despawned(), Vec::<u64>::new());
}

#[test]
fn records_that_are_not_declared_again_stay() {
    let mut mapper = WidgetMapper::new();
    let a = mapper.get_or_insert_entity_world(name("A"), ROOT, None, 0);
    let b = mapper.get_or_insert_entity_world(name("B"), ROOT, None, 1);
    mapper.clear_added_this_frame();
    assert_eq!(mapper.get_or_insert_entity_world(name("A"), ROOT, None, 0), a);
    assert_eq!(mapper.get_all_children(ROOT), vec![a, b]);
    assert!(mapper.added_this_frame(a));
    assert!(!mapper.added_this_frame(b));
}

#[test]
fn remove_by_entity_id_deletes_one_record() {
    let mut mapper = WidgetMapper::new();
    let a = mapper.get_or_insert_entity_world(name("A"), ROOT, None, 0);
    let b = mapper.get_or_insert_entity_world(name("B"), ROOT, None, 1);
    let c = mapper.get_or_insert_entity_world(name("C"), ROOT, None, 2);
    let b0 = mapper.get_or_insert_entity_world(name("Text"), b, None, 0);

    mapper.remove_by_entity_id(ROOT, b);
    assert_eq!(mapper.get_all_children(ROOT), vec![a, c]);
    assert_eq!(mapper.get_all_children(b), vec![b0]);

    mapper.remove_by_entity_id(ROOT, b);
    mapper.remove_by_entity_id(a, c);
    mapper.remove_by_entity_id(99, a);
    assert_eq!(mapper.get_all_children(ROOT), vec![a, c]);

    assert_eq!(mapper.get_or_insert_entity_world(name("C"), ROOT, None, 1), c);
    assert_eq!(mapper.take_despawned(), Vec::<u64>::new());
}

#[test]
fn event_slot_is_empty_until_it_is_filled() {
    let mut mapper = WidgetMapper::new();
    assert_eq!(*mapper.map_observer(0, 7), None);
    assert_eq!(*mapper.map_observer(0, 7), None);
}

#[test]
fn event_slot_is_found_again_by_slot_and_node() {
    let mut mapper = WidgetMapper::new();
    let node = mapper.get_or_insert_entity_world(name("Button"), ROOT, None, 0);

    let mut subscriptions = 0;
    for _ in 0..2 {
        let slot = mapper.map_observer(3, node);
        if slot.is_none() {
            subscriptions += 1;
            *slot = Some(500);
        }
    }
    assert_eq!(subscriptions, 1);
    assert_eq!(*mapper.map_observer(3, node), Some(500));
    assert_eq!(*mapper.map_observer(4, node), None);
    assert_eq!(*mapper.map_observer(3, node + 1), None);

    *mapper.map_observer(3, node) = Some(501);
    assert_eq!(*mapper.map_observer(3, node), Some(501));
    assert_eq!(mapper.get_all_children(ROOT), vec![node]);
}

#[test]
fn event_slots_of_large_numbers_do_not_collide() {
    let mut mapper = WidgetMapper::new();
    *mapper.map_observer(usize::MAX, u64::MAX) = Some(1);
    *mapper.map_observer(usize::MAX, 0) = Some(2);
    *mapper.map_observer(0, u64::MAX) = Some(3);
    *mapper.map_observer(1, 0) = Some(4);
    assert_eq!(*mapper.map_observer(usize::MAX, u64::MAX), Some(1));
    assert_eq!(*mapper.map_observer(usize::MAX, 0), Some(2));
    assert_eq!(*mapper.map_observer(0, u64::MAX), Some(3));
    assert_eq!(*mapper.map_observer(1, 0), Some(4));
    assert_eq!(*mapper.map_observer(0, 0), None);
}

#[test]
fn clear_added_this_frame_forgets_every_node() {
    let mut mapper = WidgetMapper::new();
    let a = mapper.get_or_insert_entity_world(name("A"), ROOT, None, 0);
    assert!(mapper.added_this_frame(a));
    mapper.clear_added_this_frame();
    assert!(!mapper.added_this_frame(a));
    assert_eq!(mapper.get_all_children(ROOT), vec![a]);
}

#[test]
fn spawn_root_hands_out_handles_that_no_child_gets() {
    let mut mapper = WidgetMapper::new();
    assert_eq!(mapper.next_entity(), 0);
    let root = mapper.spawn_root();
    let other = mapper.spawn_root();
    assert_eq!((root, other), (0, 1));
    assert_eq!(mapper.next_entity(), 2);
    let a = mapper.get_or_insert_entity_world(name("A"), root, None, 0);
    let b = mapper.get_or_insert_entity_world(name("B"), other, None, 0);
    assert_eq!((a, b), (2, 3));
    assert_eq!(mapper.next_entity(), 4);
    assert_eq!(mapper.get_all_children(root), vec![a]);
    assert_eq!(mapper.get_all_children(other), vec![b]);
    assert!(!mapper.added_this_frame(root));
}

#[test]
fn next_entity_follows_a_large_parent() {
    let mut mapper = WidgetMapper::new();
    let child = mapper.get_or_insert_entity_world(name("A"), 1000, None, 0);
    assert_eq!(child, 1001);
    assert_eq!(mapper.next_entity(), 1002);
}
