use rand_bot::bounded::bounded_i32;
use rand_bot::grammar::Spec;
use rand_bot::sample::{command, commands, join_tokens, sample, RandBot};
use rand_bot::source::Source;

fn tok(s: &str) -> Spec {
    Spec::Token(s.to_string())
}

fn sample_texts(spec: &Spec, players: &Vec<String>, src: &mut Source) -> Vec<String> {
    sample(spec, players, src).into_iter().map(|(t, _)| t).collect()
}

fn names(v: &[&str]) -> Vec<String> {
    v.iter().map(|s| s.to_string()).collect()
}

#[test]
fn bounded_stays_in_range_at_extremes() {
    for &v in &[i32::MIN, i32::MIN + 1, -1, 0, 1, i32::MAX - 1, i32::MAX] {
        for &(lo, hi) in &[(i32::MIN, i32::MAX), (0, 3), (-5, -5), (i32::MAX, i32::MAX), (i32::MIN, i32::MIN), (-10, 10)] {
            let r = bounded_i32(v, lo, hi);
            assert!(lo <= r && r <= hi, "{} in [{}, {}] gave {}", v, lo, hi, r);
        }
    }
}

#[test]
fn bounded_wraps_exactly() {
    assert_eq!(bounded_i32(5, 1, 3), 2);
    assert_eq!(bounded_i32(3, 1, 3), 3);
    assert_eq!(bounded_i32(4, 1, 3), 1);
    assert_eq!(bounded_i32(0, 1, 3), 3);
    assert_eq!(bounded_i32(-1, 1, 3), 2);
    assert_eq!(bounded_i32(7, 7, 7), 7);
    assert_eq!(bounded_i32(i32::MIN, i32::MIN, i32::MAX), i32::MIN);
    assert_eq!(bounded_i32(i32::MAX, i32::MIN, i32::MAX), i32::MAX);
    assert_eq!(bounded_i32(-7, 0, 3), 1);
}

#[test]
fn token_yields_itself() {
    let mut src = Source::thread();
    for _ in 0..50 {
        assert_eq!(sample_texts(&tok("x"), &vec![], &mut src), vec!["x".to_string()]);
    }
}

#[test]
fn enum_yields_members_and_all_of_them() {
    let spec = Spec::Enum(names(&["a", "b", "c"]));
    let mut src = Source::thread();
    let mut seen = [false; 3];
    for _ in 0..300 {
        let r = sample_texts(&spec, &vec![], &mut src);
        assert_eq!(r.len(), 1);
        let i = ["a", "b", "c"].iter().position(|v| *v == r[0]).expect("value outside the enum");
        seen[i] = true;
    }
    assert!(seen.iter().all(|s| *s));
}

#[test]
fn chain_keeps_order() {
    let spec = Spec::Chain(vec![tok("a"), tok("b")]);
    let mut src = Source::thread();
    for _ in 0..50 {
        assert_eq!(sample_texts(&spec, &vec![], &mut src), names(&["a", "b"]));
    }
}

#[test]
fn many_pinned_count_and_delimiters() {
    let spec = Spec::Many { spec: Box::new(tok("x")), min: Some(2), max: Some(2), delim: ",".to_string() };
    let mut src = Source::thread();
    for _ in 0..50 {
        assert_eq!(sample_texts(&spec, &vec![], &mut src), names(&["x", ",", "x"]));
    }
}

#[test]
fn many_default_bounds() {
    let spec = Spec::Many { spec: Box::new(tok("x")), min: None, max: None, delim: ";".to_string() };
    let mut src = Source::thread();
    let mut counts = [false; 4];
    for _ in 0..400 {
        let r = sample_texts(&spec, &vec![], &mut src);
        let n = r.iter().filter(|t| *t == "x").count();
        assert!(n <= 3);
        assert_eq!(r.len(), if n == 0 { 0 } else { 2 * n - 1 });
        for (i, t) in r.iter().enumerate() {
            assert_eq!(t, if i % 2 == 0 { "x" } else { ";" });
        }
        counts[n] = true;
    }
    assert!(counts.iter().all(|c| *c));
}

#[test]
fn many_from_fixed_words() {
    let spec = Spec::Many { spec: Box::new(tok("x")), min: Some(1), max: Some(3), delim: "-".to_string() };
    // 5 wraps into [1, 3] as 2.
    let mut src = Source::from_words(vec![5]);
    assert_eq!(sample_texts(&spec, &vec![], &mut src), names(&["x", "-", "x"]));
}

#[test]
fn opt_yields_nothing_or_inner() {
    let spec = Spec::Opt(Box::new(tok("x")));
    let mut src = Source::thread();
    let (mut none, mut some) = (0, 0);
    for _ in 0..400 {
        let r = sample_texts(&spec, &vec![], &mut src);
        if r.is_empty() {
            none += 1;
        } else {
            assert_eq!(r, names(&["x"]));
            some += 1;
        }
    }
    assert!(none > 100 && some > 100);
}

#[test]
fn opt_from_fixed_words() {
    let spec = Spec::Opt(Box::new(tok("x")));
    let mut src = Source::from_words(vec![0, 1]);
    assert_eq!(sample_texts(&spec, &vec![], &mut src), Vec::<String>::new());
    assert_eq!(sample_texts(&spec, &vec![], &mut src), names(&["x"]));
}

#[test]
fn player_comes_from_roster() {
    let roster = names(&["alice", "bob"]);
    let mut src = Source::thread();
    let mut seen = [false; 2];
    for _ in 0..200 {
        let r = sample_texts(&Spec::Player, &roster, &mut src);
        assert_eq!(r.len(), 1);
        let i = roster.iter().position(|p| *p == r[0]).expect("name outside the roster");
        seen[i] = true;
    }
    assert!(seen[0] && seen[1]);
}

#[test]
fn player_from_fixed_words() {
    let roster = names(&["alice", "bob"]);
    let mut src = Source::from_words(vec![3, 4]);
    assert_eq!(sample_texts(&Spec::Player, &roster, &mut src), names(&["bob"]));
    assert_eq!(sample_texts(&Spec::Player, &roster, &mut src), names(&["alice"]));
}

#[test]
fn one_of_and_doc_expand_the_choice() {
    let spec = Spec::Doc {
        spec: Box::new(Spec::OneOf(vec![tok("a"), Spec::Chain(vec![tok("b"), tok("c")])])),
        name: "pick".to_string(),
        desc: Some("a or b c".to_string()),
    };
    let mut src = Source::from_words(vec![1]);
    assert_eq!(sample_texts(&spec, &vec![], &mut src), names(&["b", "c"]));
    let mut src = Source::from_words(vec![2]);
    assert_eq!(sample_texts(&spec, &vec![], &mut src), names(&["a"]));
}

#[test]
fn int_written_in_decimal() {
    let spec = Spec::Int { min: Some(-50), max: Some(-10) };
    // -1 is 0xffff_ffff; (-1 - -50) mod 41 = 8, so -42.
    let mut src = Source::from_words(vec![0xffff_ffff]);
    assert_eq!(sample_texts(&spec, &vec![], &mut src), names(&["-42"]));
    let spec = Spec::Int { min: None, max: None };
    let mut src = Source::from_words(vec![123456]);
    assert_eq!(sample_texts(&spec, &vec![], &mut src), names(&["123456"]));
}

#[test]
fn int_in_bounds_with_thread_source() {
    let spec = Spec::Int { min: Some(1), max: Some(3) };
    let mut src = Source::thread();
    for _ in 0..100 {
        let r = sample_texts(&spec, &vec![], &mut src);
        assert!(r == names(&["1"]) || r == names(&["2"]) || r == names(&["3"]));
    }
}

#[test]
fn move_scenario_tokens() {
    let spec = Spec::Chain(vec![tok("move"), Spec::Space, Spec::Int { min: Some(1), max: Some(3) }]);
    let mut src = Source::thread();
    for _ in 0..100 {
        let r = sample_texts(&spec, &vec![], &mut src);
        let written: String = r.concat();
        assert!(written == "move 1" || written == "move 2" || written == "move 3", "{}", written);
    }
}

#[test]
fn command_glues_the_grammars_own_delimiters() {
    let spec = Spec::Chain(vec![tok("move"), Spec::Space, Spec::Int { min: Some(1), max: Some(3) }]);
    let mut src = Source::from_words(vec![2]);
    assert_eq!(command(&spec, &vec![], &mut src), "move 2");
    let plain = |s: &str| (s.to_string(), false);
    assert_eq!(join_tokens(&vec![plain("a"), plain("b"), plain("c")]), "a b c");
    assert_eq!(join_tokens(&vec![plain("a"), (",".to_string(), true), plain("b")]), "a,b");
    assert_eq!(join_tokens(&vec![]), "");
    let many = Spec::Chain(vec![
        tok("play"),
        Spec::Many { spec: Box::new(tok("x")), min: Some(3), max: Some(3), delim: ",".to_string() },
        tok("end"),
    ]);
    let mut src = Source::from_words(vec![]);
    assert_eq!(command(&many, &vec![], &mut src), "play x,x,x end");
}

#[test]
fn move_scenario_commands() {
    let spec = Spec::Chain(vec![tok("move"), Spec::Space, Spec::Int { min: Some(1), max: Some(3) }]);
    for _ in 0..100 {
        let r = commands(&spec, &vec![]);
        assert!(r == names(&["move 1"]) || r == names(&["move 2"]) || r == names(&["move 3"]), "{:?}", r);
    }
}

#[test]
fn sample_marks_delimiters() {
    let spec = Spec::Chain(vec![
        tok("a"),
        Spec::Space,
        Spec::Many { spec: Box::new(tok("x")), min: Some(2), max: Some(2), delim: ";".to_string() },
    ]);
    let mut src = Source::from_words(vec![]);
    let out = sample(&spec, &vec![], &mut src);
    let expect: Vec<(String, bool)> = vec![
        ("a".to_string(), false),
        (" ".to_string(), true),
        ("x".to_string(), false),
        (";".to_string(), true),
        ("x".to_string(), false),
    ];
    assert_eq!(out, expect);
}

#[test]
fn nested_grammar_terminates() {
    let leaf = Spec::OneOf(vec![tok("a"), Spec::Player, Spec::Int { min: Some(0), max: Some(9) }]);
    let mid = Spec::Many { spec: Box::new(Spec::Chain(vec![leaf, Spec::Opt(Box::new(tok("b")))])), min: Some(0), max: Some(3), delim: ",".to_string() };
    let top = Spec::Chain(vec![Spec::Many { spec: Box::new(mid), min: None, max: Some(3), delim: ";".to_string() }, tok("end")]);
    let roster = names(&["p"]);
    let mut src = Source::thread();
    for _ in 0..100 {
        let r = sample_texts(&top, &roster, &mut src);
        assert_eq!(r.last().map(|s| s.as_str()), Some("end"));
    }
}

#[test]
fn commands_gives_one_command() {
    let spec = Spec::Chain(vec![tok("play"), Spec::Player]);
    let roster = names(&["alice", "bob"]);
    let r = commands(&spec, &roster);
    assert_eq!(r.len(), 1);
    assert!(r[0] == "play alice" || r[0] == "play bob");
    let mut bot = RandBot;
    let r = bot.commands(&roster, &spec);
    assert!(r == names(&["play alice"]) || r == names(&["play bob"]));
}

#[test]
fn fixed_words_are_replayed_in_order() {
    let mut src = Source::from_words(vec![7, 0xffff_ffff, 5, 8]);
    assert_eq!(src.next_int(), 7);
    assert_eq!(src.next_int(), -1);
    assert!(src.next_coin());
    assert_eq!(src.next_index(3), 2);
    assert_eq!(src.next_int(), 0);
    assert!(!src.next_coin());
    assert_eq!(src.next_index(4), 0);
}
