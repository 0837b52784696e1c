use rand::{SeedableRng, StdRng};
use simple_mc::{read_corpus, weighted_choice, SentAtom, WordTally};

fn word(text: &str) -> SentAtom {
    SentAtom::Word(text.to_string())
}

#[test]
fn choice_is_an_atom_that_was_counted() {
    let mut counts = WordTally::new();
    counts.tally(word("often"));
    counts.tally(SentAtom::Comma);
    counts.tally(word("often"));
    counts.tally(word("often"));
    let mut rng = StdRng::from_seed(&[1, 2, 3, 4]);
    for _ in 0..1000 {
        let atom = weighted_choice(&mut rng, &counts);
        assert!(counts.get(atom).copied().unwrap_or(0) > 0);
        assert_ne!(atom, &SentAtom::SentBreak);
        assert_ne!(atom, &word("never"));
    }
}

#[test]
fn choice_goes_by_the_counts() {
    let mut counts = WordTally::new();
    counts.tally(word("often"));
    counts.tally(word("seldom"));
    counts.tally(word("often"));
    counts.tally(word("often"));
    let mut rng = StdRng::from_seed(&[1, 2, 3, 4]);
    let mut often = 0;
    let mut seldom = 0;
    for _ in 0..4000 {
        match weighted_choice(&mut rng, &counts) {
            SentAtom::Word(w) if w == "often" => often += 1,
            SentAtom::Word(w) if w == "seldom" => seldom += 1,
            other => panic!("never counted: {:?}", other),
        }
    }
    assert!(2700 < often && often < 3300, "{}", often);
    assert!(700 < seldom && seldom < 1300, "{}", seldom);
}

#[test]
fn choice_among_one_is_that_one() {
    let mut counts = WordTally::new();
    counts.tally(SentAtom::SentBreak);
    counts.tally(SentAtom::SentBreak);
    let mut rng = StdRng::from_seed(&[5]);
    for _ in 0..20 {
        assert_eq!(weighted_choice(&mut rng, &counts), &SentAtom::SentBreak);
    }
}

#[test]
fn choice_in_a_trained_model() {
    let model = read_corpus("a b\na b\na c\na b,");
    let table = model.get(&word("a")).unwrap();
    let mut rng = StdRng::from_seed(&[1, 2, 3, 4]);
    let mut b = 0;
    let mut c = 0;
    for _ in 0..400 {
        match weighted_choice(&mut rng, table) {
            SentAtom::Word(w) if w == "b" => b += 1,
            SentAtom::Word(w) if w == "c" => c += 1,
            other => panic!("never counted: {:?}", other),
        }
    }
    assert!(b > c);
    assert!(c > 0);
}

#[test]
fn expansion_repeats_each_atom_by_its_count() {
    let mut counts = WordTally::new();
    assert!(counts.expand().is_empty());
    counts.tally(word("a"));
    counts.tally(SentAtom::Comma);
    counts.tally(word("a"));
    counts.tally(word("b"));
    counts.tally(SentAtom::Comma);
    counts.tally(word("a"));
    assert_eq!(
        counts.expand(),
        vec![
            &word("a"),
            &word("a"),
            &word("a"),
            &SentAtom::Comma,
            &SentAtom::Comma,
            &word("b"),
        ]
    );
}
