use murder::editor::{
    color_selected, delete_objects, new_child_object, fallback_to_root, get_all_components, leave_queried,
    press_listing, text_contains, update_inspector_list, EditorCommand, InspectorListing,
    ListingPress, ListingShade, Marker, PointerInteraction,
};
use murder::scene::GameObject;
use std::collections::BTreeSet;

fn obj(ent: u64, name: &str) -> GameObject {
    GameObject { ent, name: name.to_string(), id: 7, code: String::new() }
}

struct Markers {
    selected: BTreeSet<u64>,
    queried: BTreeSet<u64>,
    showing: BTreeSet<u64>,
}

fn apply(m: &mut Markers, cmds: &[EditorCommand]) {
    for c in cmds {
        match *c {
            EditorCommand::Despawn(e) => {
                m.selected.remove(&e);
                m.queried.remove(&e);
                m.showing.remove(&e);
            }
            EditorCommand::Insert(k, e) => {
                set_of(m, k).insert(e);
            }
            EditorCommand::Remove(k, e) => {
                set_of(m, k).remove(&e);
            }
        }
    }
}

fn set_of(m: &mut Markers, k: Marker) -> &mut BTreeSet<u64> {
    match k {
        Marker::Selected => &mut m.selected,
        Marker::Queried => &mut m.queried,
        Marker::Showing => &mut m.showing,
    }
}

fn press(primary: bool, ctrl: bool, target: u64) -> ListingPress {
    ListingPress { primary, ctrl, target, target_object: target + 100 }
}

fn markers(selected: &[u64], queried: &[u64]) -> Markers {
    Markers {
        selected: selected.iter().copied().collect(),
        queried: queried.iter().copied().collect(),
        showing: BTreeSet::new(),
    }
}

fn vec_of(s: &BTreeSet<u64>) -> Vec<u64> {
    s.iter().copied().collect()
}

#[test]
fn plain_press_selects_only_the_target() {
    let cmds = press_listing(press(true, false, 3), &vec![1, 2], &vec![9]);
    assert_eq!(
        cmds,
        vec![
            EditorCommand::Remove(Marker::Selected, 1),
            EditorCommand::Remove(Marker::Selected, 2),
            EditorCommand::Insert(Marker::Selected, 3),
        ]
    );
    let mut m = markers(&[1, 2], &[9]);
    apply(&mut m, &cmds);
    assert_eq!(vec_of(&m.selected), vec![3]);
    assert_eq!(vec_of(&m.queried), vec![9]);
}

#[test]
fn pressing_the_selected_listing_enters_its_object() {
    let cmds = press_listing(press(true, false, 3), &vec![3], &vec![9]);
    assert_eq!(
        cmds,
        vec![
            EditorCommand::Remove(Marker::Selected, 3),
            EditorCommand::Remove(Marker::Queried, 9),
            EditorCommand::Insert(Marker::Queried, 103),
            EditorCommand::Remove(Marker::Selected, 3),
            EditorCommand::Insert(Marker::Selected, 3),
        ]
    );
    let mut m = markers(&[3], &[9]);
    apply(&mut m, &cmds);
    assert_eq!(vec_of(&m.queried), vec![103]);
    assert_eq!(vec_of(&m.selected), vec![3]);
}

#[test]
fn ctrl_press_toggles_and_twice_restores() {
    let mut m = markers(&[1, 2], &[9]);
    let cmds = press_listing(press(true, true, 2), &vec_of(&m.selected), &vec_of(&m.queried));
    assert_eq!(cmds, vec![EditorCommand::Remove(Marker::Selected, 2)]);
    apply(&mut m, &cmds);
    assert_eq!(vec_of(&m.selected), vec![1]);
    let cmds = press_listing(press(true, true, 2), &vec_of(&m.selected), &vec_of(&m.queried));
    assert_eq!(cmds, vec![EditorCommand::Insert(Marker::Selected, 2)]);
    apply(&mut m, &cmds);
    assert_eq!(vec_of(&m.selected), vec![1, 2]);
}

#[test]
fn ctrl_press_on_sole_selected_does_not_enter() {
    let cmds = press_listing(press(true, true, 3), &vec![3], &vec![9]);
    assert_eq!(cmds, vec![EditorCommand::Remove(Marker::Selected, 3)]);
}

#[test]
fn secondary_press_does_nothing() {
    assert!(press_listing(press(false, false, 3), &vec![3], &vec![9]).is_empty());
}

#[test]
fn leave_button_clears_queried_and_showing() {
    let cmds = leave_queried(true, &vec![4], &vec![5, 6]);
    assert_eq!(
        cmds,
        vec![
            EditorCommand::Remove(Marker::Queried, 4),
            EditorCommand::Remove(Marker::Showing, 5),
            EditorCommand::Remove(Marker::Showing, 6),
        ]
    );
    assert!(leave_queried(false, &vec![4], &vec![5]).is_empty());
}

#[test]
fn fallback_queries_the_root_only_when_nothing_is_queried() {
    assert_eq!(fallback_to_root(0, 42), vec![EditorCommand::Insert(Marker::Queried, 42)]);
    assert!(fallback_to_root(1, 42).is_empty());
}

#[test]
fn delete_despawns_selected_objects_while_key_held() {
    let sel = vec![obj(10, "a"), obj(11, "b")];
    assert_eq!(
        delete_objects(true, &sel),
        vec![EditorCommand::Despawn(10), EditorCommand::Despawn(11)]
    );
    assert!(delete_objects(false, &sel).is_empty());
}

#[test]
fn inspector_update_removes_and_adds() {
    let listings = vec![
        InspectorListing { entity: 50, obj: obj(1, "a") },
        InspectorListing { entity: 51, obj: obj(2, "b") },
    ];
    let objects = vec![obj(1, "a"), obj(3, "c"), obj(4, "d"), obj(2, "renamed")];
    let children = Some(vec![1, 3, 2]);
    let u = update_inspector_list(&listings, &objects, &children);
    assert!(u.removed_listings.is_empty());
    // object 3 is a child without listing; object 2 was renamed, so no listing equals it
    assert_eq!(u.listed_objects, vec![1, 3]);

    let u = update_inspector_list(&listings, &objects, &Some(vec![3]));
    assert_eq!(u.removed_listings, vec![50, 51]);
    assert_eq!(u.listed_objects, vec![1]);

    let u = update_inspector_list(&listings, &objects, &None);
    assert_eq!(u.removed_listings, vec![50, 51]);
    assert!(u.listed_objects.is_empty());
}

#[test]
fn inspector_update_settles_after_one_step() {
    let listings = vec![InspectorListing { entity: 50, obj: obj(1, "a") }, InspectorListing { entity: 51, obj: obj(9, "z") }];
    let objects = vec![obj(1, "a"), obj(3, "c"), obj(4, "d")];
    let children = Some(vec![1, 3]);
    let u = update_inspector_list(&listings, &objects, &children);
    assert_eq!(u.removed_listings, vec![51]);
    assert_eq!(u.listed_objects, vec![1]);
    let mut next: Vec<InspectorListing> = listings
        .iter()
        .filter(|l| !u.removed_listings.contains(&l.entity))
        .map(|l| InspectorListing { entity: l.entity, obj: l.obj.duplicate() })
        .collect();
    for (n, k) in u.listed_objects.iter().enumerate() {
        next.push(InspectorListing { entity: 60 + n as u64, obj: objects[*k].duplicate() });
    }
    let remaining: Vec<GameObject> = objects
        .iter()
        .enumerate()
        .filter(|(k, _)| !u.listed_objects.contains(k))
        .map(|(_, o)| o.duplicate())
        .collect();
    let again = update_inspector_list(&next, &remaining, &children);
    assert!(again.removed_listings.is_empty());
    assert!(again.listed_objects.is_empty());
}

#[test]
fn selected_shade_is_painted_last() {
    let buttons = vec![(1, PointerInteraction::Idle), (2, PointerInteraction::Hovered), (3, PointerInteraction::Pressed)];
    let cmds = color_selected(&buttons, &vec![2]);
    assert_eq!(
        cmds,
        vec![
            (1, ListingShade::Idle),
            (2, ListingShade::Hovered),
            (3, ListingShade::Pressed),
            (2, ListingShade::Selected),
        ]
    );
}

#[test]
fn component_names_of_the_project() {
    let names = vec![
        "bevy_ecs::name::Name".to_string(),
        "murder::components::TestComponent".to_string(),
        "murder::editor::Root".to_string(),
        "my::murder::components::Thing".to_string(),
    ];
    assert_eq!(
        get_all_components(&names),
        vec![
            "murder::components::TestComponent".to_string(),
            "my::murder::components::Thing".to_string(),
        ]
    );
}

#[test]
fn text_search() {
    assert!(text_contains("abcabd", "abd"));
    assert!(text_contains("abc", ""));
    assert!(!text_contains("ab", "abc"));
    assert!(!text_contains("abcab", "ba"));
}

#[test]
fn same_as_compares_every_field() {
    let a = obj(1, "a");
    assert!(a.same_as(&a.duplicate()));
    assert!(!a.same_as(&obj(1, "b")));
    assert!(!a.same_as(&obj(2, "a")));
    let mut c = a.duplicate();
    c.code = "x".to_string();
    assert!(!a.same_as(&c));
}

#[test]
fn new_child_object_needs_one_queried_entity() {
    let (o, parent) = new_child_object(77, 5, &vec![3]).unwrap();
    assert_eq!(parent, 3);
    assert_eq!((o.ent, o.name.as_str(), o.id, o.code.as_str()), (77, "YIPPEE", 5, ""));
    assert!(new_child_object(77, 5, &vec![]).is_none());
    assert!(new_child_object(77, 5, &vec![3, 4]).is_none());
}

#[test]
fn inspector_update_settles_in_any_order() {
    let listings = vec![InspectorListing { entity: 50, obj: obj(1, "a") }, InspectorListing { entity: 51, obj: obj(9, "z") }];
    let objects = vec![obj(1, "a"), obj(3, "c"), obj(4, "d"), obj(5, "e")];
    let children = Some(vec![1, 3, 5]);
    let u = update_inspector_list(&listings, &objects, &children);
    assert_eq!(u.removed_listings, vec![51]);
    assert_eq!(u.listed_objects, vec![1, 3]);
    let mut next: Vec<InspectorListing> = u
        .listed_objects
        .iter()
        .enumerate()
        .map(|(n, k)| InspectorListing { entity: 60 + n as u64, obj: objects[*k].duplicate() })
        .collect();
    next.insert(1, InspectorListing { entity: 50, obj: obj(1, "a") });
    next.reverse();
    let remaining = vec![obj(4, "d"), obj(1, "a")];
    let again = update_inspector_list(&next, &remaining, &children);
    assert!(again.removed_listings.is_empty());
    assert!(again.listed_objects.is_empty());
}
