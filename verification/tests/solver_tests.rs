use nerdle_solver::clue::compare_words;
use nerdle_solver::counts::char_counts;
use nerdle_solver::enumerate::equations_size;
use nerdle_solver::filter::{remove, session_state, SessionState};
use nerdle_solver::optimize::{clue_groups, contains_word, select_guess};
use nerdle_solver::walker::{char_walker, CharWalker};

fn strings(words: &[&str]) -> Vec<String> {
    words.iter().map(|w| w.to_string()).collect()
}

#[test]
fn compare_same_word_is_all_exact() {
    assert_eq!(compare_words("48-32=16", "48-32=16"), "GGGGGGGG");
}

#[test]
fn compare_same_word_is_all_exact_short() {
    assert_eq!(compare_words("1+2=3", "1+2=3"), "GGGGG");
}

#[test]
fn compare_transposed_digits() {
    // goal 12+34=46 against guess 34+12=46: the digits are present but
    // misplaced, the operator, '=' and the final 46 are exact.
    assert_eq!(compare_words("12+34=46", "34+12=46"), "YYGYYGGG");
}

#[test]
fn compare_consumes_duplicates() {
    // goal holds a single '1'; the guess repeats it: only one marking.
    let clue = compare_words("12+34=46", "11111111");
    let marked = clue.chars().filter(|c| *c != ' ').count();
    assert_eq!(marked, 1);
}

#[test]
fn compare_marks_do_not_exceed_goal_occurrences() {
    let goal = "20+20=40";
    let guess = "00000000";
    let clue = compare_words(goal, guess);
    let marked = clue.chars().filter(|c| *c != ' ').count();
    let in_goal = goal.chars().filter(|c| *c == '0').count();
    assert!(marked <= in_goal);
    assert_eq!(marked, 3);
}

#[test]
fn filter_keeps_exact_match_only() {
    let mut pool = strings(&["48-32=16", "40-20=20"]);
    remove(&mut pool, "48-32=16", "GGGGGGGG");
    assert_eq!(pool, strings(&["48-32=16"]));
}

#[test]
fn filter_is_idempotent() {
    let mut pool = strings(&["48-32=16", "40-20=20", "12+34=46"]);
    let guess = "48-32=16";
    let clue = compare_words("12+34=46", guess);
    remove(&mut pool, guess, &clue);
    let once = pool.clone();
    remove(&mut pool, guess, &clue);
    assert_eq!(pool, once);
}

#[test]
fn filter_respects_absent_characters() {
    // the clue says '9' is absent, so words holding a '9' drop out.
    let mut pool = strings(&["9+9=18", "13-8=5"]);
    let clue = compare_words("13-8=5", "9+9=18");
    remove(&mut pool, "9+9=18", &clue);
    assert_eq!(pool, strings(&["13-8=5"]));
}

#[test]
fn goal_survives_its_own_clue() {
    // Filtering by the clue the goal itself produced never drops the goal.
    let goal = "12+34=46";
    let mut pool = strings(&["48-32=16", "40-20=20", "12+34=46", "34+12=46"]);
    for guess in ["48-32=16", "34+12=46", "11111111"] {
        let clue = compare_words(goal, guess);
        remove(&mut pool, guess, &clue);
        assert!(pool.iter().any(|w| w == goal));
    }
}

#[test]
fn enumeration_includes_and_excludes() {
    let pool = equations_size(5);
    assert!(pool.iter().any(|w| w == "1+2=3"));
    assert!(!pool.iter().any(|w| w == "01+2=3"));
    assert!(!pool.iter().any(|w| w == "1+-2=1"));
    assert!(!pool.iter().any(|w| w == "1/0=0"));
}

#[test]
fn enumeration_strings_are_true_equations() {
    let pool = equations_size(5);
    for w in &pool {
        assert_eq!(w.len(), 5);
        let eq = w.find('=').expect("an equation holds an '='");
        let lhs = &w[..eq];
        let rhs = &w[eq + 1..];
        let value = equation::evaluate(lhs).expect("the left side evaluates");
        assert_eq!(format!("{}", value), rhs);
        assert!(rhs.chars().all(|c| c.is_ascii_digit()));
        assert!(rhs.len() == 1 || !rhs.starts_with('0'));
    }
}

#[test]
fn enumeration_is_deterministic_in_content() {
    let mut a = equations_size(5);
    let mut b = equations_size(5);
    a.sort();
    b.sort();
    assert_eq!(a, b);
}

#[test]
fn enumeration_has_no_duplicates() {
    let mut pool = equations_size(5);
    let n = pool.len();
    pool.sort();
    pool.dedup();
    assert_eq!(pool.len(), n);
}

#[test]
fn walker_covers_every_fragment_once() {
    let mut walker = char_walker(2);
    let mut seen = Vec::new();
    while let Some(frag) = walker.next() {
        seen.push(frag.into_iter().collect::<String>());
    }
    assert_eq!(seen.len(), 14 * 14);
    let n = seen.len();
    seen.sort();
    seen.dedup();
    assert_eq!(seen.len(), n);
}

#[test]
fn walker_is_restartable() {
    let mut first = char_walker(2);
    let mut second = char_walker(2);
    while let Some(frag) = first.next() {
        assert_eq!(second.next(), Some(frag));
    }
    assert_eq!(second.next(), None);
}

#[test]
fn grammar_prune_flags_leading_zero_and_double_sign() {
    assert!(CharWalker::leading_zeros_double_signs(&"04*7".chars().collect()));
    assert!(CharWalker::leading_zeros_double_signs(&"1+-2".chars().collect()));
    assert!(CharWalker::leading_zeros_double_signs(&"+12".chars().collect()));
    assert!(!CharWalker::leading_zeros_double_signs(&"1+20".chars().collect()));
    assert!(!CharWalker::leading_zeros_double_signs(&"48-32".chars().collect()));
}

#[test]
fn clue_groups_counts_patterns() {
    let pool = strings(&["48-32=16", "40-20=20", "12+34=46"]);
    let groups = clue_groups(&pool, "48-32=16");
    assert_eq!(groups.len(), 3);
    let total: u64 = groups.iter().map(|(_, n)| *n).sum();
    assert_eq!(total, 3);
    assert!(groups.iter().any(|(c, n)| c == "GGGGGGGG" && *n == 1));
}

#[test]
fn clue_groups_merges_equal_patterns() {
    let pool = strings(&["48-32=16", "48-32=16"]);
    let groups = clue_groups(&pool, "48-32=16");
    assert_eq!(groups.len(), 1);
    assert_eq!(groups[0].1, 2);
}

fn entropy_bits(word_set: &Vec<String>, guess: &str) -> u64 {
    let count = word_set.len() as f64;
    let groups = clue_groups(word_set, guess);
    let score: f64 = groups
        .iter()
        .map(|(_, n)| {
            let v = *n as f64;
            v * (count / v).ln()
        })
        .sum::<f64>()
        / count;
    score.to_bits()
}

#[test]
fn select_guess_is_stable() {
    let universe = strings(&["48-32=16", "40-20=20", "12+34=46", "34+12=46"]);
    let word_set = strings(&["48-32=16", "40-20=20", "12+34=46"]);
    let entropies: Vec<u64> =
        universe.iter().map(|g| entropy_bits(&word_set, g)).collect();
    let first = select_guess(&universe, &word_set, &entropies);
    let second = select_guess(&universe, &word_set, &entropies);
    assert_eq!(first, second);
}

#[test]
fn select_guess_takes_strictly_better_scores() {
    let universe = strings(&["48-32=16", "40-20=20"]);
    let word_set = strings(&["48-32=16", "40-20=20"]);
    assert_eq!(select_guess(&universe, &word_set, &vec![7, 5]), "48-32=16");
    assert_eq!(select_guess(&universe, &word_set, &vec![5, 7]), "40-20=20");
}

#[test]
fn select_guess_prefers_solutions_on_full_ties() {
    // Both guesses split the pool into the same number of groups with equal
    // scores; the later one is a possible solution, so it displaces.
    let universe = strings(&["48-32=16", "40-20=20"]);
    let word_set = strings(&["48-32=16", "40-20=20"]);
    assert_eq!(select_guess(&universe, &word_set, &vec![5, 5]), "40-20=20");
}

#[test]
fn char_counts_tallies_occurrences() {
    let pool = strings(&["48-32=16", "40-20=20"]);
    let counts = char_counts(&pool);
    let get = |c: char| {
        counts
            .iter()
            .find(|(k, _)| *k == c)
            .map(|(_, n)| *n)
            .unwrap_or(0)
    };
    assert_eq!(get('0'), 3);
    assert_eq!(get('2'), 3);
    assert_eq!(get('='), 2);
    assert_eq!(get('9'), 0);
    let total: u64 = counts.iter().map(|(_, n)| *n).sum();
    assert_eq!(total, 16);
}

#[test]
fn contains_word_finds_members() {
    let pool = strings(&["48-32=16", "40-20=20"]);
    assert!(contains_word(&pool, "40-20=20"));
    assert!(!contains_word(&pool, "12+34=46"));
}

#[test]
fn session_state_distinguishes_outcomes() {
    assert!(matches!(session_state(&strings(&[])), SessionState::Failed));
    assert!(matches!(session_state(&strings(&["1+2=3"])), SessionState::Solved));
    assert!(matches!(
        session_state(&strings(&["1+2=3", "2+1=3"])),
        SessionState::Ongoing
    ));
}
