use markov_memory::Memory;
use markov_memory::NextPartList;
use markov_memory::SentencePart;
use markov_memory::SentencePartPair;

fn word(s: &str) -> SentencePart {
    SentencePart::Word(String::from(s))
}

#[test]
fn empty_model_has_no_contexts() {
    let m = Memory::default();
    assert_eq!(m.len(), 0);
}

#[test]
fn empty_line_records_nothing() {
    let mut m = Memory::default();
    m.learn("");
    m.learn("   ");
    m.learn(" \t \r\n ");
    assert_eq!(m.len(), 0);
}

#[test]
fn single_word_line_records_one_transition() {
    let mut m = Memory::default();
    m.learn("hi");
    assert_eq!(m.len(), 1);
    let pair = SentencePartPair::with_previous_word("hi");
    let table = m.lookup(&pair).expect("context should be recorded");
    assert_eq!(table.len(), 1);
    assert_eq!(table.count_of(&SentencePart::EndOfLine), 1);
}

#[test]
fn two_word_line_records_two_transitions() {
    let mut m = Memory::default();
    m.learn("hi there");
    let first = SentencePartPair::with_previous_word("hi");
    let t1 = m.lookup(&first).expect("first context");
    assert_eq!(t1.count_of(&word("there")), 1);
    let mut second = SentencePartPair::with_previous_word("hi");
    second.shift("there");
    let t2 = m.lookup(&second).expect("second context");
    assert_eq!(t2.count_of(&SentencePart::EndOfLine), 1);
}

#[test]
fn learning_lowercases_words() {
    let mut m = Memory::default();
    m.learn("HELLO World");
    let pair = SentencePartPair::with_previous_word("hello");
    let table = m.lookup(&pair).expect("lowercased context");
    assert_eq!(table.count_of(&word("world")), 1);
}

#[test]
fn two_lines_share_contexts_and_counts() {
    let mut m = Memory::default();
    m.learn("The cat sat");
    m.learn("The cat ran");
    let the = SentencePartPair::with_previous_word("the");
    let t_the = m.lookup(&the).expect("context (the, start)");
    assert_eq!(t_the.count_of(&word("cat")), 2);
    let mut cat_the = SentencePartPair::with_previous_word("the");
    cat_the.shift("cat");
    let t_cat = m.lookup(&cat_the).expect("context (cat, the)");
    assert_eq!(t_cat.len(), 2);
    assert_eq!(t_cat.count_of(&word("sat")), 1);
    assert_eq!(t_cat.count_of(&word("ran")), 1);
}

#[test]
fn relearning_doubles_every_count() {
    let mut m = Memory::default();
    m.learn("a b a b");
    let contexts = m.len();
    m.learn("a b a b");
    assert_eq!(m.len(), contexts);
    let a = SentencePartPair::with_previous_word("a");
    let t_a = m.lookup(&a).expect("context (a, start)");
    assert_eq!(t_a.count_of(&word("b")), 2);
    let mut b_a = SentencePartPair::with_previous_word("a");
    b_a.shift("b");
    let t_ba = m.lookup(&b_a).expect("context (b, a)");
    assert_eq!(t_ba.count_of(&word("a")), 2);
    let mut a_b = SentencePartPair::with_previous_word("b");
    a_b.shift("a");
    let t_ab = m.lookup(&a_b).expect("context (a, b)");
    assert_eq!(t_ab.count_of(&word("b")), 2);
}

#[test]
fn unknown_starting_word_yields_nothing() {
    let mut m = Memory::default();
    m.learn("The cat sat");
    assert_eq!(m.speak("zzz"), None);
}

#[test]
fn empty_model_speaks_nothing() {
    let m = Memory::default();
    assert_eq!(m.speak("anything"), None);
}

#[test]
fn single_word_context_ends_immediately() {
    let mut m = Memory::default();
    m.learn("hi");
    assert_eq!(m.speak("hi"), None);
}

#[test]
fn speaking_follows_only_recorded_chains() {
    let mut m = Memory::default();
    m.learn("The cat sat");
    m.learn("The cat ran");
    for _ in 0..50 {
        let s = m.speak("the").expect("a continuation for (the, start) exists");
        assert!(s == "the cat sat" || s == "the cat ran", "unexpected sentence: {}", s);
    }
}

#[test]
fn speaking_samples_every_recorded_continuation() {
    let mut m = Memory::default();
    m.learn("The cat sat");
    m.learn("The cat ran");
    let mut saw_sat = false;
    let mut saw_ran = false;
    for _ in 0..200 {
        match m.speak("the").expect("a continuation exists").as_str() {
            "the cat sat" => saw_sat = true,
            "the cat ran" => saw_ran = true,
            other => panic!("unexpected sentence: {}", other),
        }
    }
    assert!(saw_sat, "an equally weighted continuation never came up");
    assert!(saw_ran, "an equally weighted continuation never came up");
}

#[test]
fn speaking_lowercases_starting_word() {
    let mut m = Memory::default();
    m.learn("Hi there");
    let s = m.speak("HI").expect("continuation exists");
    assert_eq!(s, "hi there");
}

#[test]
fn is_word_distinguishes_variants() {
    assert!(word("x").is_word());
    assert!(!SentencePart::StartOfLine.is_word());
    assert!(!SentencePart::EndOfLine.is_word());
}

#[test]
fn default_pair_is_not_a_valid_sentence() {
    let pair = SentencePartPair::default();
    assert!(!pair.is_valid_sentence());
}

#[test]
fn seeded_pair_is_a_valid_sentence() {
    let pair = SentencePartPair::with_previous_word("hey");
    assert!(pair.is_valid_sentence());
}

#[test]
fn shifting_keeps_the_pair_valid() {
    let mut pair = SentencePartPair::default();
    pair.shift("one");
    assert!(pair.is_valid_sentence());
    pair.shift("two");
    assert!(pair.is_valid_sentence());
}

#[test]
fn counting_creates_and_increments_entries() {
    let mut t = NextPartList::default();
    assert_eq!(t.len(), 0);
    assert_eq!(t.total(), 0);
    t.count_part(word("a"));
    t.count_part(word("a"));
    t.count_part(word("b"));
    assert_eq!(t.len(), 2);
    assert_eq!(t.total(), 3);
    assert_eq!(t.count_of(&word("a")), 2);
    assert_eq!(t.count_of(&word("b")), 1);
    assert_eq!(t.count_of(&word("c")), 0);
}

#[test]
fn weighted_selection_matches_counts() {
    let mut t = NextPartList::default();
    for _ in 0..9 {
        t.count_part(word("a"));
    }
    t.count_part(word("b"));
    assert_eq!(t.total(), 10);
    let mut hits_a = 0;
    let mut hits_b = 0;
    for index in 0..10 {
        match t.get(index) {
            Some(SentencePart::Word(w)) if w == "a" => hits_a += 1,
            Some(SentencePart::Word(w)) if w == "b" => hits_b += 1,
            other => panic!("unexpected selection: {:?}", other),
        }
    }
    assert_eq!(hits_a, 9);
    assert_eq!(hits_b, 1);
}

#[test]
fn selection_outside_the_total_yields_nothing() {
    let mut t = NextPartList::default();
    t.count_part(word("a"));
    assert!(t.get(0).is_some());
    assert!(t.get(1).is_none());
    assert!(t.get(usize::MAX).is_none());
}

#[test]
fn empty_table_selects_nothing() {
    let t = NextPartList::default();
    assert!(t.get(0).is_none());
}

#[test]
fn break_rule_follows_the_formula() {
    assert!(!markov_memory::memory::break_decision(0, 0));
    assert!(!markov_memory::memory::break_decision(2, 0));
    assert!(markov_memory::memory::break_decision(3, 9));
    assert!(!markov_memory::memory::break_decision(3, 10));
    assert!(markov_memory::memory::break_decision(6, 19));
    assert!(!markov_memory::memory::break_decision(6, 20));
    assert!(!markov_memory::memory::break_decision(29, 99));
    assert!(markov_memory::memory::break_decision(30, 99));
    assert!(markov_memory::memory::break_decision(33, 0));
}
