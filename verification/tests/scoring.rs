use surch::distance::levenshtein_distance;
use surch::double::{NINE_TENTHS, ONE, TENTH};
use surch::score::{calculate_score, Score};
use surch::text::{chars_of, has_char, has_part, matches_at, occurs_once, same_text};

#[test]
fn distance_of_known_pairs() {
    assert_eq!(levenshtein_distance("kitten", "sitting"), 3);
    assert_eq!(levenshtein_distance("flaw", "lawn"), 2);
    assert_eq!(levenshtein_distance("report", "retort"), 1);
    assert_eq!(levenshtein_distance("abc", "xyz"), 3);
}

#[test]
fn distance_to_nothing_is_the_length() {
    assert_eq!(levenshtein_distance("", ""), 0);
    assert_eq!(levenshtein_distance("", "notes"), 5);
    assert_eq!(levenshtein_distance("notes", ""), 5);
}

#[test]
fn distance_counts_characters_not_bytes() {
    assert_eq!(levenshtein_distance("naïve", "naive"), 1);
    assert_eq!(levenshtein_distance("日本語", "日本"), 1);
}

#[test]
fn distance_is_symmetric_and_zero_only_for_equal_texts() {
    assert_eq!(
        levenshtein_distance("saturday", "sunday"),
        levenshtein_distance("sunday", "saturday")
    );
    assert_eq!(levenshtein_distance("saturday", "sunday"), 3);
    assert_eq!(levenshtein_distance("sunday", "sunday"), 0);
    assert_ne!(levenshtein_distance("sunday", "sundae"), 0);
}

#[test]
fn distance_by_way_of_a_third_text_is_no_shorter() {
    let direct = levenshtein_distance("book", "back");
    let by_way = levenshtein_distance("book", "boo") + levenshtein_distance("boo", "back");
    assert_eq!(direct, 2);
    assert!(direct <= by_way);
}

#[test]
fn distance_is_no_more_than_the_longer_text() {
    assert_eq!(levenshtein_distance("ab", "wxyz"), 4);
}

#[test]
fn score_of_the_name_itself_is_whole() {
    assert_eq!(calculate_score("notes.txt", "notes.txt"), Score::Whole);
    assert_eq!(calculate_score("anything", ""), Score::Whole);
    assert_eq!(calculate_score("", ""), Score::Whole);
}

#[test]
fn score_without_a_character_of_the_query_is_nothing() {
    assert_eq!(calculate_score("notes", "notez"), Score::Nothing);
    assert_eq!(calculate_score("", "a"), Score::Nothing);
}

#[test]
fn score_at_the_beginning_is_higher_than_inside() {
    let opening = calculate_score("notes.txt", "notes");
    let within = calculate_score("my notes", "notes");
    assert_eq!(opening, Score::Opening { matched: 5, length: 9 });
    assert_eq!(within, Score::Within { matched: 5, length: 8 });
    assert!(opening.reaches(within));
    assert!(!within.reaches(opening));
}

#[test]
fn score_of_a_near_name_counts_edits() {
    assert_eq!(calculate_score("listen", "silent"), Score::Near { distance: 4, length: 6 });
    assert_eq!(calculate_score("abcb", "acb"), Score::Near { distance: 1, length: 4 });
}

#[test]
fn score_counts_characters_not_bytes() {
    assert_eq!(calculate_score("日本語", "日本"), Score::Opening { matched: 2, length: 3 });
}

/// The value of a score by its formula in floating point.
fn formula(score: Score) -> f64 {
    match score {
        Score::Whole => 1.0,
        Score::Nothing => 0.0,
        Score::Opening { matched, length } => 0.9 + (matched as f64 / length as f64) * 0.1,
        Score::Within { matched, length } => matched as f64 / length as f64,
        Score::Near { distance, length } => 1.0 - (distance as f64 / length as f64),
    }
}

/// The value of a score as the library holds it.
fn held(score: Score) -> f64 {
    score.to_value() as f64 / ONE as f64
}

/// The scores that two counts make.
fn scores(part: usize, length: usize) -> [Score; 3] {
    [
        Score::Opening { matched: part, length },
        Score::Within { matched: part, length },
        Score::Near { distance: part, length },
    ]
}

#[test]
fn scores_are_those_of_double_precision() {
    assert_eq!(held(Score::Whole), 1.0);
    assert_eq!(held(Score::Nothing), 0.0);
    for length in 1..300 {
        for part in 0..=length {
            for score in scores(part, length) {
                assert_eq!(held(score), formula(score), "{:?}", score);
            }
        }
    }
}

#[test]
fn scores_of_large_counts_are_those_of_double_precision() {
    let mut state: u64 = 0x9e37_79b9_7f4a_7c15;
    for round in 0..3_000 {
        let mut next = || {
            state ^= state << 13;
            state ^= state >> 7;
            state ^= state << 17;
            state
        };
        let length = ((next() >> (round % 60)) as usize).max(1);
        let part = (next() as usize) % length;
        for part in [part, 1, length - 1, length] {
            if part <= length {
                for score in scores(part, length) {
                    assert_eq!(held(score), formula(score), "{:?}", score);
                }
            }
        }
    }
}

#[test]
fn scores_are_ordered_as_numbers_in_double_precision() {
    let half = Score::Within { matched: 1, length: 2 };
    assert!(Score::Whole.reaches(half));
    assert!(half.reaches(Score::Nothing));
    assert!(!Score::Nothing.reaches(half));
    assert!(Score::Near { distance: 3, length: 6 }.reaches(half));
    assert!(half.reaches(Score::Near { distance: 3, length: 6 }));
    assert!(!Score::Near { distance: 4, length: 6 }.reaches(half));
    // One edit in three comes out a little above two of three matched.
    let near = Score::Near { distance: 1, length: 3 };
    let within = Score::Within { matched: 2, length: 3 };
    assert!(near.reaches(within));
    assert!(!within.reaches(near));
    let all: Vec<Score> = (1..12)
        .flat_map(|length| (0..=length).flat_map(move |part| scores(part, length)))
        .collect();
    for a in &all {
        for b in &all {
            assert_eq!(a.reaches(*b), formula(*a) >= formula(*b), "{:?} {:?}", a, b);
        }
    }
}

#[test]
fn scores_hold_at_the_largest_lengths() {
    let most = Score::Opening { matched: usize::MAX, length: usize::MAX };
    let nearly = Score::Near { distance: 1, length: usize::MAX };
    assert_eq!(most.to_value(), ONE);
    assert_eq!(nearly.to_value(), ONE);
    assert!(Score::Whole.reaches(most) && most.reaches(Score::Whole));
    assert_eq!(Score::Near { distance: usize::MAX, length: usize::MAX }.to_value(), 0);
}

#[test]
fn opening_scores_nine_tenths_or_more() {
    for length in 1..200 {
        for matched in 0..length {
            let opening = Score::Opening { matched, length };
            let within = Score::Within { matched, length };
            assert!(opening.to_value() >= NINE_TENTHS);
            assert!(!within.reaches(opening));
        }
    }
    assert_eq!(NINE_TENTHS as f64 / ONE as f64, 0.9);
    assert_eq!(TENTH as f64 / ONE as f64, 0.1);
}

#[test]
fn texts_are_taken_apart_by_characters() {
    assert_eq!(chars_of("aé日"), vec!['a', 'é', '日']);
    assert!(same_text("aé", "aé"));
    assert!(!same_text("aé", "ae"));
    assert!(!same_text("a", "aa"));
    assert!(has_char(&chars_of("abc"), 'b'));
    assert!(!has_char(&chars_of("abc"), 'd'));
    assert!(matches_at(&chars_of("bc"), &chars_of("abc"), 1));
    assert!(!matches_at(&chars_of("bc"), &chars_of("abc"), 2));
    assert!(has_part(&chars_of("bc"), &chars_of("abcd")));
    assert!(has_part(&chars_of(""), &chars_of("")));
    assert!(!has_part(&chars_of("cb"), &chars_of("abcd")));
}

#[test]
fn a_character_occurs_exactly_once() {
    assert!(occurs_once("C:\\Users", '\\'));
    assert!(!occurs_once("C:\\Users\\me", '\\'));
    assert!(!occurs_once("/home", '\\'));
}
