use pi_world::alter::LocalIndex;
use pi_world::archetype::ArchetypeIndex;
use pi_world::editor::{sorted_by_component, EditorState};
use pi_world::world::ComponentIndex;

fn c(i: u32) -> ComponentIndex {
    ComponentIndex(i)
}

#[test]
fn the_last_operation_on_a_component_comes_first() {
    let mut st = EditorState::new();
    assert!(st.sorted_add_removes().is_empty());
    st.alter_components_by_index(&vec![(c(3), true), (c(1), true), (c(3), false)]);
    assert_eq!(st.sorted_add_removes(), &vec![(c(1), true), (c(3), false), (c(3), true)]);
    st.add_components_by_index(&vec![c(2), c(0)]);
    assert_eq!(st.sorted_add_removes(), &vec![(c(0), true), (c(2), true)]);
    st.remove_components_by_index(&vec![c(5), c(4), c(5)]);
    assert_eq!(st.sorted_add_removes(), &vec![(c(4), false), (c(5), false), (c(5), false)]);
}

#[test]
fn sorting_by_component_is_stable() {
    let ops = vec![(c(7), false), (c(2), true), (c(7), true), (c(u32::MAX), true), (c(0), false), (c(2), false)];
    assert_eq!(
        sorted_by_component(&ops),
        vec![(c(0), false), (c(2), true), (c(2), false), (c(7), false), (c(7), true), (c(u32::MAX), true)]
    );
    assert!(sorted_by_component(&Vec::new()).is_empty());
}

#[test]
fn mappings_and_states_are_found_again() {
    let mut st = EditorState::new();
    st.add_components_by_index(&vec![c(1)]);
    let (m0, s0) = st.locate(ArchetypeIndex(3), ArchetypeIndex(0));
    assert_eq!((m0, s0), (LocalIndex(0), 0));
    // the same archetype under the same operations finds the same mapping
    assert_eq!(st.locate(ArchetypeIndex(3), ArchetypeIndex(0)), (LocalIndex(0), 0));
    // another archetype gets its own mapping but shares the state
    assert_eq!(st.locate(ArchetypeIndex(4), ArchetypeIndex(0)), (LocalIndex(1), 0));
    // other operations get their own state and mappings
    st.remove_components_by_index(&vec![c(1)]);
    assert_eq!(st.locate(ArchetypeIndex(3), ArchetypeIndex(0)), (LocalIndex(2), 1));
    st.add_components_by_index(&vec![c(1)]);
    assert_eq!(st.locate(ArchetypeIndex(4), ArchetypeIndex(0)), (LocalIndex(1), 0));
}
