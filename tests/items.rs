use std::cell::Cell;

use recstore::cli::ItemBatchMod;
use recstore::items::{Error, Item, ItemManager, State};

fn item(internal_id: u32, ref_id: Option<u32>, state: State, children: Vec<usize>) -> Item {
    Item {
        internal_id,
        ref_id,
        name: format!("i{}", internal_id),
        context: None,
        state,
        children,
    }
}

fn two_todos() -> ItemManager {
    ItemManager::new(
        vec![item(0, Some(0), State::Todo, vec![]), item(1, Some(1), State::Todo, vec![])],
        vec![0, 1],
    )
    .ok()
    .unwrap()
}

fn batch(name: Option<&str>, context: Option<&str>, note: Option<bool>) -> ItemBatchMod {
    ItemBatchMod {
        name: name.map(|s| s.to_string()),
        context: context.map(|s| s.to_string()),
        note,
    }
}

#[test]
fn child_added_under_ref_id() {
    let mut m = two_todos();
    assert_eq!(m.add_child_to_ref_id(1, "sub".to_string(), None, State::Todo), Ok(()));
    let d = m.data();
    assert_eq!(d.len(), 3);
    assert_eq!(d[2].internal_id, 2);
    assert_eq!(d[2].ref_id, Some(2));
    assert_eq!(d[2].name, "sub");
    assert_eq!(d[1].children, vec![2]);
    assert!(d[0].children.is_empty());
    assert_eq!(m.roots(), &vec![0, 1]);
    assert!(m.is_modified());
}

#[test]
fn child_for_unknown_ref_id_is_not_found_and_leaves_store_clean() {
    let mut m = two_todos();
    assert_eq!(m.add_child_to_ref_id(99, "sub".to_string(), None, State::Todo), Err(()));
    assert_eq!(m.data().len(), 2);
    assert!(!m.is_modified());
    assert_eq!(m.internal_ids().len(), 2);
    assert_eq!(m.ref_ids().len(), 2);
}

#[test]
fn child_found_deep_in_tree() {
    let mut m = ItemManager::new(
        vec![
            item(0, Some(0), State::Todo, vec![1]),
            item(1, Some(5), State::Note, vec![2]),
            item(2, Some(1), State::Todo, vec![]),
        ],
        vec![0],
    )
    .ok()
    .unwrap();
    m.add_child_to_ref_id(1, "deep".to_string(), Some("work".to_string()), State::Note).unwrap();
    assert_eq!(m.data()[2].children, vec![3]);
    assert_eq!(m.data()[3].ref_id, Some(2));
    assert_eq!(m.data()[3].context, Some("work".to_string()));
    assert_eq!(m.data()[3].state, State::Note);
    assert_eq!(m.find(5).map(|i| i.internal_id), Some(1));
    assert!(m.find(7).is_none());
}

#[test]
fn single_selection_applies_without_confirmation() {
    let mut m = two_todos();
    assert!(ItemManager::needs_confirmation(&vec![1, 2]));
    assert!(!ItemManager::needs_confirmation(&vec![1]));
    assert!(m.mass_modify(&vec![1], &batch(Some("new"), None, None), false));
    assert_eq!(m.data()[1].name, "new");
    assert_eq!(m.data()[0].name, "i0");
    assert!(m.is_modified());
}

#[test]
fn multiple_selection_needs_confirmation() {
    let mut m = two_todos();
    assert!(!m.mass_modify(&vec![0, 1], &batch(Some("new"), None, None), false));
    assert_eq!(m.data()[0].name, "i0");
    assert!(!m.is_modified());
    assert!(m.mass_modify(&vec![0, 1], &batch(Some("new"), Some("home"), None), true));
    assert_eq!(m.data()[0].name, "new");
    assert_eq!(m.data()[1].context, Some("home".to_string()));
    assert!(m.mass_modify(&vec![0], &batch(None, Some(""), None), false));
    assert_eq!(m.data()[0].context, None);
    assert_eq!(m.data()[1].context, Some("home".to_string()));
}

#[test]
fn note_flag_moves_state() {
    let mut m = ItemManager::new(
        vec![
            item(0, Some(0), State::Todo, vec![]),
            item(1, Some(1), State::Note, vec![]),
            item(2, None, State::Done, vec![]),
        ],
        vec![0, 1, 2],
    )
    .ok()
    .unwrap();
    m.mass_modify(&vec![0], &batch(Some("x"), None, None), false);
    assert_eq!(m.data()[0].state, State::Todo);
    m.mass_modify(&vec![0, 1], &batch(None, None, Some(false)), true);
    assert_eq!(m.data()[0].state, State::Todo);
    assert_eq!(m.data()[1].state, State::Todo);
    m.mass_modify(&vec![0], &batch(None, None, Some(true)), false);
    assert_eq!(m.data()[0].state, State::Note);
    assert_eq!(m.data()[2].state, State::Done);
    assert_eq!(m.data()[2].ref_id, None);
}

#[test]
fn unknown_selection_changes_nothing() {
    let mut m = two_todos();
    assert!(m.mass_modify(&vec![42], &batch(Some("x"), None, None), false));
    assert!(!m.is_modified());
    assert_eq!(m.data()[0].name, "i0");
}

#[test]
fn repeated_internal_id_is_refused() {
    let r = ItemManager::new(
        vec![item(3, Some(0), State::Todo, vec![]), item(3, Some(1), State::Todo, vec![])],
        vec![0, 1],
    );
    assert_eq!(r.err(), Some(Error::RepeatedInternalID(3)));
}

#[test]
fn repeated_ref_id_is_refused() {
    let r = ItemManager::new(
        vec![item(0, Some(4), State::Todo, vec![1]), item(1, Some(4), State::Note, vec![])],
        vec![0],
    );
    assert_eq!(r.err(), Some(Error::RepeatedRefID(4)));
}

#[test]
fn bad_index_is_refused() {
    let r = ItemManager::new(vec![item(0, Some(0), State::Todo, vec![])], vec![1]);
    assert_eq!(r.err(), Some(Error::BadIndex(1)));
    let r = ItemManager::new(vec![item(0, Some(0), State::Todo, vec![0])], vec![0]);
    assert_eq!(r.err(), Some(Error::BadIndex(0)));
}

#[test]
fn missing_ref_ids_are_filled_and_done_items_lose_theirs() {
    let m = ItemManager::new(
        vec![
            item(0, None, State::Todo, vec![1]),
            item(1, Some(0), State::Done, vec![]),
            item(2, Some(1), State::Note, vec![]),
            item(3, None, State::Note, vec![]),
        ],
        vec![0, 2, 3],
    )
    .ok()
    .unwrap();
    let refs: Vec<Option<u32>> = m.data().iter().map(|i| i.ref_id).collect();
    assert_eq!(refs, vec![Some(0), None, Some(1), Some(2)]);
    assert!(!m.is_modified());
    for it in m.data() {
        assert_eq!(it.ref_id.is_some(), it.state != State::Done);
    }
}

#[test]
fn root_item_gets_lowest_free_ids() {
    let mut m = ItemManager::new(
        vec![item(0, Some(1), State::Todo, vec![]), item(2, None, State::Done, vec![])],
        vec![0, 1],
    )
    .ok()
    .unwrap();
    m.add_item_on_root("a".to_string(), None, State::Todo);
    assert_eq!(m.data()[2].internal_id, 1);
    assert_eq!(m.data()[2].ref_id, Some(0));
    m.add_item_on_root("b".to_string(), None, State::Done);
    assert_eq!(m.data()[3].internal_id, 3);
    assert_eq!(m.data()[3].ref_id, None);
    m.add_item_on_root("c".to_string(), None, State::Note);
    assert_eq!(m.data()[4].ref_id, Some(2));
    assert_eq!(m.roots(), &vec![0, 1, 2, 3, 4]);
    assert_eq!(m.get_surface_ref_ids(), vec![1, 0, 2]);
    assert!(m.is_modified());
}

#[test]
fn item_ids_stay_unique_after_adds() {
    let mut m = two_todos();
    for k in 0..5 {
        m.add_item_on_root(format!("r{}", k), None, if k % 2 == 0 { State::Done } else { State::Todo });
        m.add_child_to_ref_id(0, format!("c{}", k), None, State::Note).unwrap();
    }
    let mut internal: Vec<u32> = m.data().iter().map(|i| i.internal_id).collect();
    internal.sort();
    internal.dedup();
    assert_eq!(internal.len(), m.data().len());
    let mut refs: Vec<u32> = m.data().iter().filter_map(|i| i.ref_id).collect();
    let n = refs.len();
    refs.sort();
    refs.dedup();
    assert_eq!(refs.len(), n);
    assert_eq!(m.internal_ids().len(), m.data().len());
    assert_eq!(m.ref_ids().len(), n);
    for it in m.data() {
        assert_eq!(it.ref_id.is_some(), it.state != State::Done);
    }
}

#[test]
fn surface_ids_skip_children_and_done_items() {
    let m = ItemManager::new(
        vec![
            item(0, Some(3), State::Todo, vec![1]),
            item(1, Some(0), State::Todo, vec![]),
            item(2, None, State::Done, vec![]),
            item(4, Some(1), State::Note, vec![]),
        ],
        vec![0, 2, 3],
    )
    .ok()
    .unwrap();
    assert_eq!(m.get_surface_ref_ids(), vec![3, 1]);
}

#[test]
fn item_save_twice_writes_once() {
    let mut m = two_todos();
    let writes = Cell::new(0);
    m.add_item_on_root("a".to_string(), None, State::Todo);
    let w = |d: &Vec<Item>, r: &Vec<usize>| -> Result<(), ()> {
        assert_eq!(d.len(), 3);
        assert_eq!(r.len(), 3);
        writes.set(writes.get() + 1);
        Ok(())
    };
    assert_eq!(m.save_if_modified(w), Ok(true));
    assert_eq!(m.save_if_modified(w), Ok(false));
    assert_eq!(writes.get(), 1);
    assert!(!m.is_modified());
}

#[test]
fn done_frees_ref_id_for_reuse() {
    let mut m = ItemManager::new(
        vec![item(0, Some(0), State::Todo, vec![]), item(1, Some(1), State::Note, vec![])],
        vec![0, 1],
    )
    .ok()
    .unwrap();
    assert!(!m.mark_done(1));
    assert!(!m.mark_done(7));
    assert!(!m.is_modified());
    assert!(m.mark_done(0));
    assert_eq!(m.data()[0].state, State::Done);
    assert_eq!(m.data()[0].ref_id, None);
    assert!(!m.ref_ids().contains(&0));
    assert!(m.is_modified());
    m.add_item_on_root("again".to_string(), None, State::Todo);
    assert_eq!(m.data()[2].ref_id, Some(0));
    assert_eq!(m.data()[2].internal_id, 2);
}

#[test]
fn internal_id_checked_before_ref_id() {
    let r = ItemManager::new(
        vec![item(0, Some(0), State::Todo, vec![]), item(0, Some(0), State::Todo, vec![])],
        vec![0, 1],
    );
    assert_eq!(r.err(), Some(Error::RepeatedInternalID(0)));
}

#[test]
fn first_repetition_in_order_is_reported() {
    let r = ItemManager::new(
        vec![
            item(0, Some(5), State::Todo, vec![1]),
            item(1, Some(5), State::Todo, vec![]),
            item(0, Some(9), State::Todo, vec![]),
        ],
        vec![0, 2],
    );
    assert_eq!(r.err(), Some(Error::RepeatedRefID(5)));
}

#[test]
fn back_filled_ref_ids_skip_kept_ones() {
    let m = ItemManager::new(
        vec![
            item(0, None, State::Todo, vec![]),
            item(1, None, State::Note, vec![]),
            item(2, Some(1), State::Todo, vec![]),
            item(3, Some(0), State::Done, vec![]),
        ],
        vec![0, 1, 2, 3],
    )
    .ok()
    .unwrap();
    let refs: Vec<Option<u32>> = m.data().iter().map(|i| i.ref_id).collect();
    assert_eq!(refs, vec![Some(0), Some(2), Some(1), None]);
}
