use deskollama::registry::Cancels;

#[test]
fn a_stream_can_be_stopped_from_its_start_to_its_end() {
    let mut cancels: Cancels<u32> = Cancels::new();
    assert_eq!(cancels.to_abort("a"), None);
    let a = cancels.started("a".to_string(), 1).unwrap();
    cancels.started("b".to_string(), 2).unwrap();
    assert_eq!(cancels.to_abort("a"), Some(&1));
    cancels.ended("a", a);
    assert_eq!(cancels.to_abort("a"), None);
    assert_eq!(cancels.to_abort("b"), Some(&2));
}

#[test]
fn a_stream_takes_the_place_of_one_of_the_same_name() {
    let mut cancels: Cancels<u32> = Cancels::new();
    let first = cancels.started("a".to_string(), 1).unwrap();
    let second = cancels.started("a".to_string(), 2).unwrap();
    assert_eq!(cancels.to_abort("a"), Some(&2));
    cancels.ended("a", first);
    assert_eq!(cancels.to_abort("a"), Some(&2));
    cancels.ended("a", second);
    cancels.ended("a", second);
    assert_eq!(cancels.to_abort("a"), None);
}

#[test]
fn an_end_touches_no_stream_but_its_own() {
    let mut cancels: Cancels<u32> = Cancels::new();
    let a = cancels.started("a".to_string(), 1).unwrap();
    let b = cancels.started("b".to_string(), 2).unwrap();
    cancels.ended("a", b);
    cancels.ended("c", a);
    assert_eq!(cancels.to_abort("a"), Some(&1));
    assert_eq!(cancels.to_abort("b"), Some(&2));
    cancels.ended("b", b);
    assert_eq!(cancels.to_abort("a"), Some(&1));
    assert_eq!(cancels.to_abort("b"), None);
}

#[test]
fn no_ticket_is_given_out_twice() {
    let mut cancels: Cancels<u32> = Cancels::new();
    let mut seen = Vec::new();
    for i in 0..20 {
        let id = format!("s{}", i % 3);
        let ticket = cancels.started(id.clone(), i).unwrap();
        assert!(!seen.contains(&ticket));
        seen.push(ticket);
        if i % 2 == 0 {
            cancels.ended(&id, ticket);
        }
    }
    assert_eq!(seen[0], 0);
    assert_eq!(seen[19], 19);
}
