use rand_bot::grammar::{find_entry, is_well_formed, Spec};
use rand_bot::sample::sample_entry;
use rand_bot::source::Source;

fn tok(s: &str) -> Spec {
    Spec::Token(s.to_string())
}

fn r(s: &str) -> Spec {
    Spec::Ref(s.to_string())
}

fn table() -> Vec<(String, Spec)> {
    vec![
        ("cmd".to_string(), Spec::Chain(vec![tok("give"), r("who"), r("amount")])),
        ("who".to_string(), Spec::Player),
        ("amount".to_string(), Spec::Int { min: Some(1), max: Some(5) }),
    ]
}

#[test]
fn entry_resolves_references() {
    let t = table();
    let players = vec!["ann".to_string(), "ben".to_string()];
    // Pick 1 for the player, then 7 wraps into [1, 5] as 2.
    let mut src = Source::from_words(vec![1, 7]);
    let out = sample_entry(&t, &"cmd".to_string(), &players, &mut src);
    let expect: Vec<(String, bool)> = vec![
        ("give".to_string(), false),
        ("ben".to_string(), false),
        ("2".to_string(), false),
    ];
    assert_eq!(out, expect);
}

#[test]
fn entry_with_thread_source() {
    let t = table();
    let players = vec!["ann".to_string()];
    let mut src = Source::thread();
    for _ in 0..50 {
        let out = sample_entry(&t, &"cmd".to_string(), &players, &mut src);
        assert_eq!(out.len(), 3);
        assert_eq!(out[1].0, "ann");
        let n: i32 = out[2].0.parse().unwrap();
        assert!((1..=5).contains(&n));
    }
}

#[test]
fn table_well_formedness() {
    let t = table();
    let players = vec!["ann".to_string()];
    assert!(is_well_formed(&r("cmd"), &t, t.len(), &players));
    assert!(!is_well_formed(&r("cmd"), &t, t.len(), &vec![]));
    assert!(!is_well_formed(&r("cmd"), &t, 1, &players));
    assert!(!is_well_formed(&r("missing"), &t, t.len(), &players));
    let cyclic = vec![
        ("a".to_string(), Spec::Chain(vec![tok("x"), r("b")])),
        ("b".to_string(), Spec::Opt(Box::new(r("a")))),
    ];
    assert!(!is_well_formed(&r("a"), &cyclic, cyclic.len(), &players));
}

#[test]
fn grammar_well_formedness() {
    let none: Vec<(String, Spec)> = vec![];
    let players = vec!["ann".to_string()];
    assert!(is_well_formed(&Spec::Int { min: Some(3), max: Some(3) }, &none, 0, &players));
    assert!(!is_well_formed(&Spec::Int { min: Some(4), max: Some(3) }, &none, 0, &players));
    assert!(!is_well_formed(&Spec::Enum(vec![]), &none, 0, &players));
    assert!(!is_well_formed(&Spec::OneOf(vec![]), &none, 0, &players));
    assert!(is_well_formed(&Spec::Chain(vec![]), &none, 0, &players));
    let many = |min, max| Spec::Many { spec: Box::new(tok("x")), min, max, delim: ",".to_string() };
    assert!(is_well_formed(&many(None, None), &none, 0, &players));
    assert!(!is_well_formed(&many(Some(4), None), &none, 0, &players));
    assert!(!is_well_formed(&Spec::Player, &none, 0, &vec![]));
}

#[test]
fn find_entry_takes_first_match() {
    let t = vec![
        ("a".to_string(), tok("1")),
        ("b".to_string(), tok("2")),
        ("a".to_string(), tok("3")),
    ];
    assert_eq!(find_entry(&t, &"a".to_string()), Some(0));
    assert_eq!(find_entry(&t, &"b".to_string()), Some(1));
    assert_eq!(find_entry(&t, &"c".to_string()), None);
}
