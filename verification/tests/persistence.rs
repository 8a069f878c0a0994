use markov_memory::Error;
use markov_memory::Memory;
use markov_memory::SentencePart;
use markov_memory::SentencePartPair;

fn word(s: &str) -> SentencePart {
    SentencePart::Word(String::from(s))
}

fn sample_model() -> Memory {
    let mut m = Memory::default();
    m.learn("The cat sat");
    m.learn("The cat ran");
    m.learn("a b a b");
    m
}

#[test]
fn encoding_round_trips_through_bytes() {
    let m = sample_model();
    let bytes = m.to_bytes();
    let back = Memory::from_bytes(bytes.as_slice()).expect("own encoding must decode");
    assert_eq!(back.len(), m.len());
    let the = SentencePartPair::with_previous_word("the");
    let t = back.lookup(&the).expect("context survives the round trip");
    assert_eq!(t.count_of(&word("cat")), 2);
    let mut cat_the = SentencePartPair::with_previous_word("the");
    cat_the.shift("cat");
    let t2 = back.lookup(&cat_the).expect("second context survives");
    assert_eq!(t2.count_of(&word("sat")), 1);
    assert_eq!(t2.count_of(&word("ran")), 1);
    assert_eq!(t2.count_of(&SentencePart::EndOfLine), 0);
}

#[test]
fn empty_model_round_trips() {
    let m = Memory::default();
    let bytes = m.to_bytes();
    let back = Memory::from_bytes(bytes.as_slice()).expect("empty model decodes");
    assert_eq!(back.len(), 0);
}

#[test]
fn words_beyond_ascii_round_trip() {
    let mut m = Memory::default();
    m.learn("caffè œuf 日本語");
    let bytes = m.to_bytes();
    let back = Memory::from_bytes(bytes.as_slice()).expect("encoding decodes");
    let first = SentencePartPair::with_previous_word("caffè");
    let t = back.lookup(&first).expect("non-ASCII context survives");
    assert_eq!(t.count_of(&word("œuf")), 1);
    let mut third = SentencePartPair::with_previous_word("œuf");
    third.shift("日本語");
    let t3 = back.lookup(&third).expect("last context survives");
    assert_eq!(t3.count_of(&SentencePart::EndOfLine), 1);
}

#[test]
fn truncated_bytes_fail_to_decode() {
    let m = sample_model();
    let bytes = m.to_bytes();
    let cut = &bytes[..bytes.len() - 1];
    match Memory::from_bytes(cut) {
        Err(Error::CouldNotDeserialize) => {},
        other => panic!("expected a decode error, got {:?}", other.map(|m2| m2.len())),
    }
}

#[test]
fn trailing_garbage_fails_to_decode() {
    let m = sample_model();
    let mut bytes = m.to_bytes();
    bytes.push(0);
    match Memory::from_bytes(bytes.as_slice()) {
        Err(Error::CouldNotDeserialize) => {},
        other => panic!("expected a decode error, got {:?}", other.map(|m2| m2.len())),
    }
}

#[test]
fn empty_bytes_fail_to_decode() {
    match Memory::from_bytes(&[]) {
        Err(Error::CouldNotDeserialize) => {},
        other => panic!("expected a decode error, got {:?}", other.map(|m2| m2.len())),
    }
}

#[test]
fn archive_round_trips_through_save_and_load() {
    let m = sample_model();
    let archive = m.save().expect("saving to bytes succeeds");
    let back = Memory::load(archive.as_slice()).expect("the archive loads");
    assert_eq!(back.len(), m.len());
    let the = SentencePartPair::with_previous_word("the");
    let before = m.lookup(&the).expect("context before saving");
    let after = back.lookup(&the).expect("context after loading");
    assert_eq!(after.len(), before.len());
    assert_eq!(after.total(), before.total());
    assert_eq!(after.count_of(&word("cat")), before.count_of(&word("cat")));
}

#[test]
fn loaded_model_behaves_like_the_original() {
    let mut m = Memory::default();
    m.learn("Hi there");
    let archive = m.save().expect("saving succeeds");
    let back = Memory::load(archive.as_slice()).expect("loading succeeds");
    assert_eq!(back.speak("hi"), Some(String::from("hi there")));
    assert_eq!(back.speak("zzz"), None);
}

#[test]
fn garbage_archive_fails_to_load() {
    let garbage = vec![1u8, 2, 3, 4, 5, 6, 7, 8, 9];
    match Memory::load(garbage.as_slice()) {
        Err(Error::CouldNotReadZip) | Err(Error::CouldNotReadFirstFile) => {},
        other => panic!("expected an archive error, got {:?}", other.map(|m2| m2.len())),
    }
}

#[test]
fn loaded_model_can_keep_learning() {
    let mut m = Memory::default();
    m.learn("x y");
    let archive = m.save().expect("saving succeeds");
    let mut back = Memory::load(archive.as_slice()).expect("loading succeeds");
    back.learn("x y");
    let x = SentencePartPair::with_previous_word("x");
    let t = back.lookup(&x).expect("context exists");
    assert_eq!(t.count_of(&word("y")), 2);
}
