use contextmap::ContextMap;
use contextmap::ContextRecord;
use contextmap::InsertionError;
use contextmap::InsertionOutcome;
use contextmap::LinkInsertionCommand;
use contextmap::StrictInsertionError;
use contextmap::ValueInsertionCommand;

fn some(context: u32, link: &'static str, value: u32) -> Option<ContextRecord<u32, &'static str, u32>> {
    Some(ContextRecord { context, link, value: Some(value) })
}

fn none(context: u32, link: &'static str) -> Option<ContextRecord<u32, &'static str, u32>> {
    Some(ContextRecord { context, link, value: None })
}

#[test]
fn insert_test() {
    let mut context_map = ContextMap::<u32, u32, u32>::new();
    context_map.insert(0, 0, 0).unwrap();
    println!("{:?}", &context_map);
    context_map.insert(1, 1, 1).unwrap();
    println!("{:?}", &context_map);
    context_map.insert(2, 1, 0).unwrap();
    println!("{:?}", &context_map);

    println!("{:?}", context_map.query(&0, &0));
    println!("{:?}", context_map.query(&1, &0));
    println!("{:?}", context_map.query(&1, &0));

    println!("{:?}", context_map.query(&0, &1));
    println!("{:?}", context_map.query(&1, &1));
    println!("{:?}", context_map.query(&1, &1));
}

#[test]
fn insert_test_answers() {
    let mut context_map = ContextMap::<u32, u32, u32>::new();
    assert_eq!(context_map.insert(0, 0, 0), Ok(InsertionOutcome::NewLink));
    assert_eq!(context_map.insert(1, 1, 1), Ok(InsertionOutcome::NewLink));
    assert_eq!(context_map.insert(2, 1, 0), Ok(InsertionOutcome::NullifyAndRepoint));

    let first = ContextRecord { context: 0, link: 0, value: Some(0) };
    assert_eq!(context_map.query(&0, &0), Some(first));
    assert_eq!(context_map.query(&1, &0), Some(first));
    assert_eq!(context_map.query(&2, &0), Some(ContextRecord { context: 2, link: 0, value: None }));

    assert_eq!(context_map.query(&0, &1), None);
    assert_eq!(context_map.query(&1, &1), Some(ContextRecord { context: 1, link: 1, value: Some(1) }));
    assert_eq!(context_map.query(&2, &1), Some(ContextRecord { context: 2, link: 1, value: Some(0) }));
}

#[test]
fn new_map_is_empty() {
    let map = ContextMap::<&'static str, u32, u32>::new();
    assert_eq!(map.query(&0, &"a"), None);
    assert_eq!(map.get_live_value(&"a"), None);
    assert_eq!(map.get_live_link(&10), None);
}

#[test]
fn value_moves_from_one_link_to_another() {
    let mut map = ContextMap::<&'static str, u32, u32>::new();
    assert_eq!(map.insert(0, "a", 10), Ok(InsertionOutcome::NewLink));
    assert_eq!(map.insert(1, "b", 20), Ok(InsertionOutcome::NewLink));
    assert_eq!(map.insert(2, "b", 10), Ok(InsertionOutcome::NullifyAndRepoint));

    assert_eq!(map.query(&2, &"a"), none(2, "a"));
    assert_eq!(map.query(&3, &"a"), none(2, "a"));
    assert_eq!(map.query(&100, &"a"), none(2, "a"));
    assert_eq!(map.get_live_value(&"a"), None);

    assert_eq!(map.query(&2, &"b"), some(2, "b", 10));
    assert_eq!(map.query(&3, &"b"), some(2, "b", 10));
    assert_eq!(map.get_live_value(&"b"), Some(10));

    assert_eq!(map.get_live_link(&10), Some("b"));
}

#[test]
fn value_moves_and_the_past_stays() {
    let mut map = ContextMap::<&'static str, u32, u32>::new();
    map.insert(0, "a", 10).unwrap();
    map.insert(1, "b", 20).unwrap();
    map.insert(2, "b", 10).unwrap();

    assert_eq!(map.query(&0, &"a"), some(0, "a", 10));
    assert_eq!(map.query(&1, &"a"), some(0, "a", 10));
    assert_eq!(map.query(&0, &"b"), None);
    assert_eq!(map.query(&1, &"b"), some(1, "b", 20));
}

#[test]
fn new_link_is_queryable_from_its_context_on() {
    let mut map = ContextMap::<&'static str, u32, u32>::new();
    assert_eq!(map.insert(5, "a", 10), Ok(InsertionOutcome::NewLink));
    assert_eq!(map.query(&4, &"a"), None);
    assert_eq!(map.query(&5, &"a"), some(5, "a", 10));
    assert_eq!(map.query(&6, &"a"), some(5, "a", 10));
    assert_eq!(map.query(&5, &"b"), None);
    assert_eq!(map.get_live_value(&"a"), Some(10));
    assert_eq!(map.get_live_link(&10), Some("a"));
}

#[test]
fn update_appends_a_record() {
    let mut map = ContextMap::<&'static str, u32, u32>::new();
    map.insert(1, "a", 10).unwrap();
    assert_eq!(map.insert(4, "a", 30), Ok(InsertionOutcome::Update));
    assert_eq!(map.query(&1, &"a"), some(1, "a", 10));
    assert_eq!(map.query(&3, &"a"), some(1, "a", 10));
    assert_eq!(map.query(&4, &"a"), some(4, "a", 30));
    assert_eq!(map.query(&9, &"a"), some(4, "a", 30));
    assert_eq!(map.get_live_value(&"a"), Some(30));
    assert_eq!(map.get_live_link(&30), Some("a"));
}

#[test]
fn overwrite_fills_an_empty_latest_record() {
    let mut map = ContextMap::<&'static str, u32, u32>::new();
    map.insert(0, "a", 10).unwrap();
    map.insert(2, "b", 10).unwrap();
    assert_eq!(map.get_live_value(&"a"), None);
    assert_eq!(map.query(&2, &"a"), none(2, "a"));

    assert_eq!(map.insert(2, "a", 30), Ok(InsertionOutcome::Overwrite));
    assert_eq!(map.query(&2, &"a"), some(2, "a", 30));
    assert_eq!(map.query(&1, &"a"), some(0, "a", 10));
    assert_eq!(map.get_live_value(&"a"), Some(30));
    assert_eq!(map.get_live_link(&30), Some("a"));
}

#[test]
fn overwrite_that_takes_a_value_retires_its_holder() {
    let mut map = ContextMap::<&'static str, u32, u32>::new();
    map.insert(0, "a", 10).unwrap();
    map.insert(1, "b", 20).unwrap();
    map.insert(3, "b", 10).unwrap();
    map.insert(2, "c", 30).unwrap();
    // "a" carries nothing at its latest context 3; the value 30 is with "c".
    assert_eq!(map.insert(3, "a", 30), Ok(InsertionOutcome::NullifyAndRepoint));
    assert_eq!(map.query(&3, &"a"), some(3, "a", 30));
    assert_eq!(map.query(&3, &"c"), none(3, "c"));
    assert_eq!(map.query(&2, &"c"), some(2, "c", 30));
    assert_eq!(map.get_live_link(&30), Some("a"));
    assert_eq!(map.get_live_value(&"c"), None);
}

#[test]
fn new_link_that_takes_a_value_retires_its_holder() {
    let mut map = ContextMap::<&'static str, u32, u32>::new();
    map.insert(0, "a", 10).unwrap();
    assert_eq!(map.insert(1, "b", 10), Ok(InsertionOutcome::NullifyAndRepoint));
    assert_eq!(map.query(&1, &"a"), none(1, "a"));
    assert_eq!(map.query(&0, &"a"), some(0, "a", 10));
    assert_eq!(map.query(&1, &"b"), some(1, "b", 10));
    assert_eq!(map.query(&0, &"b"), None);
    assert_eq!(map.get_live_link(&10), Some("b"));
}

#[test]
fn outdated_context_for_the_link_is_rejected() {
    let mut map = ContextMap::<&'static str, u32, u32>::new();
    map.insert(5, "a", 10).unwrap();
    assert_eq!(map.insert(4, "a", 30), Err(InsertionError::OutdatedContext));
    assert_eq!(map.query(&4, &"a"), None);
    assert_eq!(map.query(&5, &"a"), some(5, "a", 10));
    assert_eq!(map.get_live_value(&"a"), Some(10));
    assert_eq!(map.get_live_link(&30), None);
    assert_eq!(map.get_live_link(&10), Some("a"));
}

#[test]
fn outdated_context_for_the_value_is_rejected() {
    let mut map = ContextMap::<&'static str, u32, u32>::new();
    map.insert(5, "a", 10).unwrap();
    assert_eq!(map.insert(4, "b", 10), Err(InsertionError::OutdatedContext));
    assert_eq!(map.query(&4, &"b"), None);
    assert_eq!(map.query(&9, &"b"), None);
    assert_eq!(map.get_live_value(&"b"), None);
    assert_eq!(map.get_live_link(&10), Some("a"));
    assert_eq!(map.query(&5, &"a"), some(5, "a", 10));

    map.insert(1, "c", 30).unwrap();
    assert_eq!(map.insert(3, "c", 10), Err(InsertionError::OutdatedContext));
    assert_eq!(map.get_live_value(&"c"), Some(30));
    assert_eq!(map.query(&3, &"c"), some(1, "c", 30));
}

#[test]
fn overwriting_a_value_at_its_context_is_rejected() {
    let mut map = ContextMap::<&'static str, u32, u32>::new();
    map.insert(5, "a", 10).unwrap();
    assert_eq!(map.insert(5, "a", 30), Err(InsertionError::OverwritingSome));
    assert_eq!(map.query(&5, &"a"), some(5, "a", 10));
    assert_eq!(map.get_live_value(&"a"), Some(10));
    assert_eq!(map.get_live_link(&10), Some("a"));
    assert_eq!(map.get_live_link(&30), None);
}

#[test]
fn retiring_a_holder_at_its_context_is_rejected() {
    let mut map = ContextMap::<&'static str, u32, u32>::new();
    map.insert(5, "a", 10).unwrap();
    assert_eq!(map.insert(5, "b", 10), Err(InsertionError::NullifyingSome));
    assert_eq!(map.query(&5, &"b"), None);
    assert_eq!(map.query(&5, &"a"), some(5, "a", 10));
    assert_eq!(map.get_live_link(&10), Some("a"));

    map.insert(2, "c", 30).unwrap();
    assert_eq!(map.insert(5, "c", 10), Err(InsertionError::NullifyingSome));
    assert_eq!(map.get_live_value(&"c"), Some(30));
    assert_eq!(map.query(&5, &"c"), some(2, "c", 30));
}

#[test]
fn error_of_the_link_comes_before_error_of_the_value() {
    let mut map = ContextMap::<&'static str, u32, u32>::new();
    map.insert(5, "a", 10).unwrap();
    map.insert(7, "b", 20).unwrap();
    // For "a" the context is the latest one; for the holder of 20 it is outdated.
    assert_eq!(map.insert(5, "a", 20), Err(InsertionError::OverwritingSome));
    // For "b" the context is outdated; for the holder of 10 it is the latest one.
    assert_eq!(map.insert(5, "b", 10), Err(InsertionError::OutdatedContext));
    assert_eq!(map.get_live_value(&"a"), Some(10));
    assert_eq!(map.get_live_value(&"b"), Some(20));
}

#[test]
fn reinserting_the_live_pair_is_no_change() {
    let mut map = ContextMap::<&'static str, u32, u32>::new();
    map.insert(5, "a", 10).unwrap();
    assert_eq!(map.insert(5, "a", 10), Ok(InsertionOutcome::NoChange));
    assert_eq!(map.insert(9, "a", 10), Ok(InsertionOutcome::NoChange));
    assert_eq!(map.insert(1, "a", 10), Ok(InsertionOutcome::NoChange));
    assert_eq!(map.query(&9, &"a"), some(5, "a", 10));
    assert_eq!(map.query(&5, &"a"), some(5, "a", 10));
    assert_eq!(map.query(&4, &"a"), None);
    assert_eq!(map.get_live_value(&"a"), Some(10));
    assert_eq!(map.get_live_link(&10), Some("a"));
}

#[test]
fn earlier_value_of_a_link_stays_indexed_to_it() {
    let mut map = ContextMap::<&'static str, u32, u32>::new();
    map.insert(0, "a", 10).unwrap();
    map.insert(1, "a", 30).unwrap();
    assert_eq!(map.get_live_value(&"a"), Some(30));
    assert_eq!(map.get_live_link(&30), Some("a"));
    assert_eq!(map.get_live_link(&10), Some("a"));
    // The value 10 is indexed to the history of "a": nothing is compared.
    assert_eq!(map.insert(1, "a", 10), Ok(InsertionOutcome::NoChange));
    assert_eq!(map.get_live_value(&"a"), Some(30));
    // Another link that claims 10 retires the history that 10 is indexed to.
    assert_eq!(map.insert(2, "b", 10), Ok(InsertionOutcome::NullifyAndRepoint));
    assert_eq!(map.get_live_value(&"a"), None);
    assert_eq!(map.get_live_value(&"b"), Some(10));
    assert_eq!(map.get_live_link(&10), Some("b"));
    assert_eq!(map.query(&1, &"a"), some(1, "a", 30));
    assert_eq!(map.query(&2, &"a"), none(2, "a"));
}

#[test]
fn live_values_are_indexed_to_their_links() {
    let mut map = ContextMap::<u32, u32, u32>::new();
    map.insert(0, 1, 100).unwrap();
    map.insert(1, 2, 200).unwrap();
    map.insert(2, 3, 300).unwrap();
    map.insert(3, 2, 100).unwrap();
    map.insert(4, 1, 300).unwrap();
    map.insert(5, 4, 200).unwrap();
    for link in 0..6u32 {
        if let Some(value) = map.get_live_value(&link) {
            assert_eq!(map.get_live_link(&value), Some(link));
        }
    }
    assert_eq!(map.get_live_value(&1), Some(300));
    assert_eq!(map.get_live_value(&2), None);
    assert_eq!(map.get_live_value(&3), None);
    assert_eq!(map.get_live_value(&4), Some(200));
}

#[test]
fn later_insertions_keep_earlier_answers() {
    let mut map = ContextMap::<&'static str, u32, u32>::new();
    map.insert(1, "a", 10).unwrap();
    map.insert(3, "a", 30).unwrap();
    let at_1 = map.query(&1, &"a");
    let at_2 = map.query(&2, &"a");
    let at_3 = map.query(&3, &"a");
    let at_4 = map.query(&4, &"a");
    assert_eq!(at_2, some(1, "a", 10));
    assert_eq!(at_4, some(3, "a", 30));

    map.insert(5, "a", 50).unwrap();
    map.insert(6, "b", 50).unwrap();
    map.insert(6, "a", 60).unwrap();
    assert_eq!(map.query(&0, &"a"), None);
    assert_eq!(map.query(&1, &"a"), at_1);
    assert_eq!(map.query(&2, &"a"), at_2);
    assert_eq!(map.query(&3, &"a"), at_3);
    assert_eq!(map.query(&4, &"a"), at_4);
    assert_eq!(map.query(&5, &"a"), some(5, "a", 50));
    assert_eq!(map.query(&6, &"a"), some(6, "a", 60));
}

#[test]
fn insert_with_overwrite_is_insert() {
    let mut map = ContextMap::<&'static str, u32, u32>::new();
    assert_eq!(map.insert_with_overwrite(0, "a", 10), Ok(InsertionOutcome::NewLink));
    assert_eq!(map.insert_with_overwrite(1, "b", 10), Ok(InsertionOutcome::NullifyAndRepoint));
    assert_eq!(map.insert_with_overwrite(1, "a", 30), Ok(InsertionOutcome::Overwrite));
    assert_eq!(map.insert_with_overwrite(0, "a", 40), Err(InsertionError::OutdatedContext));
    assert_eq!(map.insert_with_overwrite(1, "a", 40), Err(InsertionError::OverwritingSome));
    assert_eq!(map.insert_with_overwrite(1, "c", 30), Err(InsertionError::NullifyingSome));
    assert_eq!(map.insert_with_overwrite(2, "a", 40), Ok(InsertionOutcome::Update));
    assert_eq!(map.insert_with_overwrite(2, "a", 40), Ok(InsertionOutcome::NoChange));
    assert_eq!(map.query(&1, &"a"), some(1, "a", 30));
    assert_eq!(map.query(&2, &"a"), some(2, "a", 40));
}

#[test]
fn insert_without_overwrite_rejects_overwrite() {
    let mut map = ContextMap::<&'static str, u32, u32>::new();
    assert_eq!(map.insert_without_overwrite(0, "a", 10), Ok(InsertionOutcome::NewLink));
    assert_eq!(map.insert_without_overwrite(1, "b", 10), Ok(InsertionOutcome::NullifyAndRepoint));
    assert_eq!(map.insert_without_overwrite(1, "a", 30), Err(StrictInsertionError::Overwrite));
    assert_eq!(map.query(&1, &"a"), none(1, "a"));
    assert_eq!(map.get_live_link(&30), None);
    assert_eq!(map.insert_without_overwrite(2, "a", 30), Ok(InsertionOutcome::Update));
    assert_eq!(map.insert_without_overwrite(2, "a", 30), Ok(InsertionOutcome::NoChange));
    assert_eq!(map.query(&2, &"a"), some(2, "a", 30));
}

#[test]
fn insert_without_overwrite_passes_rejections_on() {
    let mut map = ContextMap::<&'static str, u32, u32>::new();
    map.insert_without_overwrite(5, "a", 10).unwrap();
    assert_eq!(
        map.insert_without_overwrite(4, "a", 30),
        Err(StrictInsertionError::Rejected(InsertionError::OutdatedContext))
    );
    assert_eq!(
        map.insert_without_overwrite(5, "a", 30),
        Err(StrictInsertionError::Rejected(InsertionError::OverwritingSome))
    );
    assert_eq!(
        map.insert_without_overwrite(5, "b", 10),
        Err(StrictInsertionError::Rejected(InsertionError::NullifyingSome))
    );
    assert_eq!(map.query(&5, &"a"), some(5, "a", 10));
    assert_eq!(map.query(&5, &"b"), None);
}

#[test]
fn errors_are_shown_by_name() {
    assert_eq!(InsertionError::OutdatedContext.to_string(), "OutdatedContext");
    assert_eq!(InsertionError::OverwritingSome.to_string(), "OverwritingSome");
    assert_eq!(InsertionError::NullifyingSome.to_string(), "NullifyingSome");
}

#[test]
fn index_is_exact_without_reassignment() {
    let mut map = ContextMap::<u32, u32, u32>::new();
    map.insert(0, 1, 100).unwrap();
    map.insert(1, 2, 200).unwrap();
    map.insert(2, 3, 100).unwrap();
    map.insert(3, 1, 200).unwrap();
    map.insert(3, 2, 300).unwrap();
    for value in [100u32, 200, 300, 400] {
        if let Some(link) = map.get_live_link(&value) {
            assert_eq!(map.get_live_value(&link), Some(value));
        }
    }
    assert_eq!(map.get_live_link(&100), Some(3));
    assert_eq!(map.get_live_link(&200), Some(1));
    assert_eq!(map.get_live_link(&300), Some(2));
    assert_eq!(map.get_live_link(&400), None);
}

#[test]
fn plan_says_what_an_insertion_would_do() {
    let mut map = ContextMap::<&'static str, u32, u32>::new();
    assert_eq!(
        map.generate_link_insertion_command(&0, &"a", &10),
        Ok(LinkInsertionCommand::NewLink { context: 0, link: "a", value: 10 })
    );
    assert_eq!(
        map.generate_value_insertion_command(&0, &"a", &10),
        Ok(ValueInsertionCommand::AddValue { new_value: 10 })
    );
    map.insert(0, "a", 10).unwrap();
    map.insert(4, "b", 20).unwrap();

    assert_eq!(map.generate_link_insertion_command(&9, &"a", &10), Ok(LinkInsertionCommand::NoChange));
    assert_eq!(
        map.generate_link_insertion_command(&2, &"a", &30),
        Ok(LinkInsertionCommand::Update { context: 2, link: "a", value: 30 })
    );
    assert_eq!(map.generate_link_insertion_command(&3, &"b", &30), Err(InsertionError::OutdatedContext));
    assert_eq!(map.generate_link_insertion_command(&4, &"b", &30), Err(InsertionError::OverwritingSome));

    assert_eq!(
        map.generate_value_insertion_command(&9, &"a", &10),
        Ok(ValueInsertionCommand::AddValue { new_value: 10 })
    );
    assert_eq!(map.generate_value_insertion_command(&3, &"a", &20), Err(InsertionError::OutdatedContext));
    assert_eq!(map.generate_value_insertion_command(&4, &"a", &20), Err(InsertionError::NullifyingSome));
    assert_eq!(
        map.generate_value_insertion_command(&5, &"a", &20),
        Ok(ValueInsertionCommand::RemoveExistingValueAddNewValue {
            existing_value: 20,
            new_context: 5,
            new_value: 20
        })
    );

    assert_eq!(
        map.generate_insertion_commands(&5, &"a", &20),
        Ok((
            LinkInsertionCommand::Update { context: 5, link: "a", value: 20 },
            ValueInsertionCommand::RemoveExistingValueAddNewValue {
                existing_value: 20,
                new_context: 5,
                new_value: 20
            }
        ))
    );
    assert_eq!(map.generate_insertion_commands(&4, &"b", &10), Err(InsertionError::OverwritingSome));
    // Planning writes nothing.
    assert_eq!(map.get_live_value(&"a"), Some(10));
    assert_eq!(map.get_live_value(&"b"), Some(20));

    map.insert(6, "c", 10).unwrap();
    assert_eq!(
        map.generate_link_insertion_command(&6, &"a", &30),
        Ok(LinkInsertionCommand::Overwrite { context: 6, link: "a", value: 30 })
    );
}

#[test]
fn executing_a_plan_is_inserting() {
    let mut map = ContextMap::<&'static str, u32, u32>::new();
    map.insert(0, "a", 10).unwrap();
    map.insert(1, "b", 20).unwrap();
    let (link_command, value_command) = map.generate_insertion_commands(&2, &"b", &10).unwrap();
    assert_eq!(
        map.execute_insertion_commands(link_command, value_command),
        InsertionOutcome::NullifyAndRepoint
    );
    assert_eq!(map.query(&2, &"a"), none(2, "a"));
    assert_eq!(map.query(&2, &"b"), some(2, "b", 10));
    assert_eq!(map.get_live_link(&10), Some("b"));

    let (link_command, value_command) = map.generate_insertion_commands(&7, &"b", &10).unwrap();
    assert_eq!(map.execute_insertion_commands(link_command, value_command), InsertionOutcome::NoChange);
    assert_eq!(map.query(&7, &"b"), some(2, "b", 10));
}
