use rand::{SeedableRng, StdRng};
use simple_mc::{
    generate_sentence, generate_sentence_from, read_corpus, trimcomma, GenerateError, SentAtom,
    Walk, WordFreq, MAX_REDRAWS,
};

const SENTENCES: &str = "this is a sentence
this is another sentence
not this, though";

fn word(text: &str) -> SentAtom {
    SentAtom::Word(text.to_string())
}

fn seen(model: &WordFreq, pred: &str, succ: &SentAtom) -> bool {
    match model.get(&word(pred)) {
        Some(table) => table.contains_key(succ),
        None => false,
    }
}

#[test]
fn test_generate_sentence() {
    let counts = read_corpus(SENTENCES);
    let mut rng = StdRng::from_seed(&[1, 2, 3, 4]);
    for _ in 0..5 {
        println!("{}.", generate_sentence(&mut rng, &counts).unwrap());
    }
}

#[test]
fn first_sentences_of_a_known_seed() {
    let counts = read_corpus(SENTENCES);
    let mut rng = StdRng::from_seed(&[1, 2, 3, 4]);
    let mut sentences = Vec::new();
    for _ in 0..8 {
        sentences.push(generate_sentence(&mut rng, &counts).unwrap());
    }
    assert_eq!(
        sentences,
        vec![
            "sentence",
            "sentence",
            "another sentence",
            "this is a sentence",
            "is a sentence",
            "a sentence",
            "though",
            "not this though",
        ]
    );
}

#[test]
fn every_sentence_is_a_walk_through_the_corpus() {
    let counts = read_corpus(SENTENCES);
    let mut rng = StdRng::from_seed(&[7, 7, 7]);
    for _ in 0..500 {
        let sentence = generate_sentence(&mut rng, &counts).unwrap();
        let tokens: Vec<&str> = sentence.split(' ').collect();
        assert!(!tokens.is_empty());
        assert!(counts.contains_key(&word(trimcomma(tokens[0]))));
        for pair in tokens.windows(2) {
            let pred = trimcomma(pair[0]);
            assert!(seen(&counts, pred, &word(trimcomma(pair[1]))), "{}", sentence);
            if pair[0].ends_with(',') {
                assert!(seen(&counts, pred, &SentAtom::Comma), "{}", sentence);
            }
        }
        let last = tokens[tokens.len() - 1];
        assert!(!last.ends_with(','), "{}", sentence);
        assert!(seen(&counts, last, &SentAtom::SentBreak), "{}", sentence);
    }
}

#[test]
fn markers_never_show_as_text() {
    let counts = read_corpus(SENTENCES);
    let mut rng = StdRng::from_seed(&[3, 1, 4, 1, 5]);
    for _ in 0..500 {
        let sentence = generate_sentence(&mut rng, &counts).unwrap();
        assert!(!sentence.contains("SentBreak"));
        assert!(!sentence.contains("SentenceBreak"));
        assert!(!sentence.contains("Comma"));
        assert!(!sentence.contains(" ,"));
        assert!(!sentence.starts_with(','));
        assert!(!sentence.ends_with(','));
        assert!(!sentence.ends_with(' '));
    }
}

#[test]
fn comma_is_attached_to_the_word_before_it() {
    let counts = read_corpus("not this, though");
    let mut rng = StdRng::from_seed(&[1, 2, 3, 4]);
    let mut with_comma = 0;
    let mut without_comma = 0;
    for _ in 0..200 {
        let sentence = generate_sentence(&mut rng, &counts).unwrap();
        match sentence.as_str() {
            "not this, though" | "this, though" => with_comma += 1,
            "not this though" | "this though" | "though" => without_comma += 1,
            other => panic!("not a walk through the corpus: {:?}", other),
        }
    }
    assert!(with_comma > 0);
    assert!(without_comma > 0);
}

#[test]
fn the_whole_line_can_come_back() {
    let counts = read_corpus("not this, though");
    let mut rng = StdRng::from_seed(&[1, 2, 3, 4]);
    let mut found = false;
    for _ in 0..200 {
        if generate_sentence(&mut rng, &counts).unwrap() == "not this, though" {
            found = true;
        }
    }
    assert!(found);
}

#[test]
fn from_its_first_word_the_line_comes_back_with_its_comma() {
    let counts = read_corpus("not this, though");
    let mut rng = StdRng::from_seed(&[1, 2, 3, 4]);
    let mut with_comma = 0;
    let mut without_comma = 0;
    for _ in 0..100 {
        let sentence = generate_sentence_from(&mut rng, &counts, &word("not")).unwrap();
        match sentence.as_str() {
            "not this, though" => with_comma += 1,
            "not this though" => without_comma += 1,
            other => panic!("not a walk from the first word: {:?}", other),
        }
    }
    assert!(with_comma > 0);
    assert!(without_comma > 0);
}

#[test]
fn a_sentence_starts_with_the_word_it_is_started_from() {
    let counts = read_corpus(SENTENCES);
    let mut rng = StdRng::from_seed(&[2, 7, 1, 8]);
    for first in ["this", "is", "a", "sentence", "another", "not", "though"] {
        for _ in 0..20 {
            let sentence = generate_sentence_from(&mut rng, &counts, &word(first)).unwrap();
            let start = sentence.split(' ').next().unwrap();
            assert_eq!(trimcomma(start), first);
        }
    }
    assert_eq!(
        generate_sentence_from(&mut rng, &counts, &word("sentence")),
        Ok("sentence".to_string())
    );
    assert_eq!(
        generate_sentence_from(&mut rng, &counts, &word("though")),
        Ok("though".to_string())
    );
}

#[test]
fn from_a_word_with_nothing_but_a_comma_after_it_no_sentence_comes() {
    let mut counts = WordFreq::new();
    counts.record(word("on"), word("stuck"));
    counts.record(word("stuck"), SentAtom::Comma);
    counts.record(word("stuck"), SentAtom::SentBreak);
    counts.record(word("stuck"), SentAtom::Comma);
    counts.record(word("stuck"), SentAtom::Comma);
    let mut rng = StdRng::from_seed(&[1, 2, 3, 4]);
    let mut stuck = 0;
    let mut done = 0;
    for _ in 0..8 {
        match generate_sentence_from(&mut rng, &counts, &word("on")) {
            Ok(sentence) => {
                assert_eq!(sentence, "on stuck");
                done += 1;
            }
            Err(error) => {
                assert_eq!(error, GenerateError::DegenerateCommaChain);
                stuck += 1;
            }
        }
    }
    assert_eq!(stuck + done, 8);
    assert!(stuck > 0);
}

#[test]
fn same_seed_gives_the_same_sentences() {
    let first_model = read_corpus(SENTENCES);
    let second_model = read_corpus(SENTENCES);
    let mut first_rng = StdRng::from_seed(&[9, 8, 7, 6]);
    let mut second_rng = StdRng::from_seed(&[9, 8, 7, 6]);
    for _ in 0..100 {
        assert_eq!(
            generate_sentence(&mut first_rng, &first_model),
            generate_sentence(&mut second_rng, &second_model)
        );
    }
}

#[test]
fn other_seed_gives_other_sentences() {
    let counts = read_corpus(SENTENCES);
    let mut first_rng = StdRng::from_seed(&[1, 2, 3, 4]);
    let mut second_rng = StdRng::from_seed(&[4, 3, 2, 1]);
    let mut first = Vec::new();
    let mut second = Vec::new();
    for _ in 0..50 {
        first.push(generate_sentence(&mut first_rng, &counts));
        second.push(generate_sentence(&mut second_rng, &counts));
    }
    assert_ne!(first, second);
}

#[test]
fn empty_model_is_an_error() {
    let mut rng = StdRng::from_seed(&[1, 2, 3, 4]);
    assert_eq!(
        generate_sentence(&mut rng, &read_corpus("")),
        Err(GenerateError::EmptyModel)
    );
    assert_eq!(
        generate_sentence(&mut rng, &read_corpus("lonely\n\nwords\n")),
        Err(GenerateError::EmptyModel)
    );
    assert_eq!(
        generate_sentence(&mut rng, &WordFreq::new()),
        Err(GenerateError::EmptyModel)
    );
}

#[test]
fn a_single_line_of_two_words_gives_its_two_walks() {
    let counts = read_corpus("hello world");
    let mut rng = StdRng::from_seed(&[1, 2, 3, 4]);
    let mut whole = 0;
    let mut tail = 0;
    for _ in 0..100 {
        match generate_sentence(&mut rng, &counts).unwrap().as_str() {
            "hello world" => whole += 1,
            "world" => tail += 1,
            other => panic!("not a walk through the corpus: {:?}", other),
        }
    }
    assert!(whole > 0);
    assert!(tail > 0);
}

#[test]
fn a_comma_with_no_word_after_it_is_an_error() {
    let mut counts = WordFreq::new();
    counts.record(word("stuck"), SentAtom::Comma);
    let mut rng = StdRng::from_seed(&[1, 2, 3, 4]);
    assert_eq!(
        generate_sentence(&mut rng, &counts),
        Err(GenerateError::DegenerateCommaChain)
    );
}

#[test]
fn walk_attaches_the_comma_and_goes_on() {
    let mut walk = Walk::start("not");
    assert_eq!(walk.advance(&word("this")), Ok(false));
    assert_eq!(walk.advance(&SentAtom::Comma), Ok(false));
    assert_eq!(walk.sentence(), "not this,");
    assert_eq!(walk.advance(&word("though")), Ok(false));
    assert_eq!(walk.advance(&SentAtom::SentBreak), Ok(true));
    assert_eq!(walk.sentence(), "not this, though");
    assert_eq!(walk.len(), 3);
    assert_eq!(walk.last_word(), "though");
}

#[test]
fn walk_of_one_word() {
    let mut walk = Walk::start("alone");
    assert_eq!(walk.len(), 1);
    assert_eq!(walk.last_word(), "alone");
    assert_eq!(walk.sentence(), "alone");
    assert_eq!(walk.advance(&SentAtom::SentBreak), Ok(true));
    assert_eq!(walk.sentence(), "alone");
}

#[test]
fn walk_discards_markers_after_a_comma() {
    let mut walk = Walk::start("well");
    assert_eq!(walk.advance(&SentAtom::Comma), Ok(false));
    assert_eq!(walk.advance(&SentAtom::SentBreak), Ok(false));
    assert_eq!(walk.advance(&SentAtom::Comma), Ok(false));
    assert_eq!(walk.advance(&SentAtom::SentBreak), Ok(false));
    assert_eq!(walk.sentence(), "well,");
    assert_eq!(walk.len(), 1);
    assert_eq!(walk.advance(&word("then")), Ok(false));
    assert_eq!(walk.advance(&SentAtom::Comma), Ok(false));
    assert_eq!(walk.advance(&word("so")), Ok(false));
    assert_eq!(walk.advance(&SentAtom::SentBreak), Ok(true));
    assert_eq!(walk.sentence(), "well, then, so");
}

#[test]
fn walk_gives_up_after_the_last_redraw() {
    let mut walk = Walk::start("stuck");
    assert_eq!(walk.advance(&SentAtom::Comma), Ok(false));
    for _ in 0..MAX_REDRAWS - 1 {
        assert_eq!(walk.advance(&SentAtom::SentBreak), Ok(false));
    }
    assert_eq!(
        walk.advance(&SentAtom::SentBreak),
        Err(GenerateError::DegenerateCommaChain)
    );
    assert_eq!(
        walk.advance(&SentAtom::Comma),
        Err(GenerateError::DegenerateCommaChain)
    );
    assert_eq!(walk.sentence(), "stuck,");
    assert_eq!(walk.advance(&word("free")), Ok(false));
    assert_eq!(walk.advance(&SentAtom::SentBreak), Ok(true));
    assert_eq!(walk.sentence(), "stuck, free");
}

#[test]
fn redraws_are_counted_anew_after_each_comma() {
    let mut walk = Walk::start("a");
    assert_eq!(walk.advance(&SentAtom::Comma), Ok(false));
    for _ in 0..MAX_REDRAWS - 1 {
        assert_eq!(walk.advance(&SentAtom::Comma), Ok(false));
    }
    assert_eq!(walk.advance(&word("b")), Ok(false));
    assert_eq!(walk.advance(&SentAtom::Comma), Ok(false));
    for _ in 0..MAX_REDRAWS - 1 {
        assert_eq!(walk.advance(&SentAtom::SentBreak), Ok(false));
    }
    assert_eq!(walk.advance(&word("c")), Ok(false));
    assert_eq!(walk.advance(&SentAtom::SentBreak), Ok(true));
    assert_eq!(walk.sentence(), "a, b, c");
}
