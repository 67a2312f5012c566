use lib::agent::Agent;

#[test]
fn intern_same_string_twice_gives_same_number() {
    let mut agent = Agent::new();
    let a = agent.intern_string("alpha");
    let b = agent.intern_string("beta");
    let a2 = agent.intern_string("alpha");
    assert_eq!(a, 0);
    assert_eq!(b, 1);
    assert_eq!(a2, a);
    assert_eq!(agent.string_table, vec!["alpha".to_string(), "beta".to_string()]);
}

#[test]
fn intern_keeps_numbers() {
    let mut agent = Agent::new();
    let x = agent.intern_string("x");
    for w in ["y", "z", "x", ""] {
        agent.intern_string(w);
    }
    assert_eq!(agent.string_table[x], "x");
    assert_eq!(agent.intern_string(""), 3);
    assert_eq!(agent.string_table.len(), 4);
}

#[test]
fn intern_gives_the_first_number_of_a_string() {
    let mut agent = Agent { string_table: vec!["a".to_string(), "b".to_string(), "a".to_string()] };
    assert_eq!(agent.intern_string("a"), 0);
    assert_eq!(agent.intern_string("b"), 1);
    assert_eq!(agent.intern_string("c"), 3);
    assert_eq!(agent.string_table.len(), 4);
}
