use vstd::prelude::*;

use crate::strings::{chars_to_string, str_to_chars};

verus! {

// Throughout this module a consumed goal position is overwritten with the
// sentinel ' ', which lies outside the puzzle alphabet and so matches no
// further guess character.
/// Index of the first occurrence of `c` in `s` at or after position `i`,
/// or -1 when there is none.
pub open spec fn find_from(s: Seq<char>, c: char, i: int) -> int
    decreases s.len() - i,
{
    if i < 0 || i >= s.len() {
        -1
    } else if s[i] == c {
        i
    } else {
        find_from(s, c, i + 1)
    }
}

pub open spec fn find_first(s: Seq<char>, c: char) -> int {
    find_from(s, c, 0)
}

pub proof fn lemma_find_from(s: Seq<char>, c: char, i: int)
    requires
        i >= 0,
    ensures
        find_from(s, c, i) >= -1,
        find_from(s, c, i) == -1 ==> forall|k: int| i <= k < s.len() ==> s[k] != c,
        find_from(s, c, i) >= 0 ==> i <= find_from(s, c, i) < s.len() && s[find_from(s, c, i)]
            == c && forall|k: int| i <= k < find_from(s, c, i) ==> s[k] != c,
    decreases s.len() - i,
{
    if 0 <= i < s.len() && s[i] != c {
        lemma_find_from(s, c, i + 1);
    }
}

/// First scoring pass: the clue holds 'G' exactly where guess and goal agree.
pub open spec fn exact_clue(goal: Seq<char>, guess: Seq<char>) -> Seq<char> {
    Seq::new(guess.len(), |i: int| if goal[i] == guess[i] { 'G' } else { ' ' })
}

/// The goal after the first pass: every matched position is consumed.
pub open spec fn exact_goal(goal: Seq<char>, guess: Seq<char>) -> Seq<char> {
    Seq::new(goal.len(), |i: int| if goal[i] == guess[i] { ' ' } else { goal[i] })
}

/// Second scoring pass, from position `i` on: each still-unmarked guess
/// character that occurs among the unconsumed goal characters is marked 'Y'
/// and consumes its first remaining occurrence. Returns the final clue and
/// the goal with all consumed positions blanked.
pub open spec fn mark_present(goal: Seq<char>, guess: Seq<char>, clue: Seq<char>, i: int) -> (
    Seq<char>,
    Seq<char>,
)
    decreases guess.len() - i,
{
    if i < 0 || i >= guess.len() {
        (clue, goal)
    } else if clue[i] == ' ' {
        let j = find_first(goal, guess[i]);
        if j >= 0 {
            mark_present(goal.update(j, ' '), guess, clue.update(i, 'Y'), i + 1)
        } else {
            mark_present(goal, guess, clue, i + 1)
        }
    } else {
        mark_present(goal, guess, clue, i + 1)
    }
}

/// The clue that `guess` earns against `goal`: 'G' for an exact match, 'Y'
/// for a character present elsewhere among the unconsumed goal characters,
/// ' ' for an absent character.
pub open spec fn clue_spec(goal: Seq<char>, guess: Seq<char>) -> Seq<char> {
    mark_present(exact_goal(goal, guess), guess, exact_clue(goal, guess), 0).0
}

/// Executable search for the first unconsumed occurrence of `c`.
pub fn find_first_exec(v: &Vec<char>, c: char) -> (r: Option<usize>)
    ensures
        match r {
            Some(j) => j as int == find_first(v@, c) && j < v@.len() && v@[j as int] == c,
            None => find_first(v@, c) == -1,
        },
{
    let mut i: usize = 0;
    while i < v.len()
        invariant
            i <= v@.len(),
            find_first(v@, c) == find_from(v@, c, i as int),
        decreases v@.len() - i,
    {
        if v[i] == c {
            return Some(i);
        }
        i += 1;
    }
    None
}

/// Compare a guess against a goal and return the clue string: 'G' for a
/// character in the right place, 'Y' for one present but misplaced, ' ' for
/// one absent, with repeated characters consumed so that no goal character
/// rewards two guess positions.
pub fn compare_words(goal: &str, guess: &str) -> (r: String)
    requires
        goal@.len() == guess@.len(),
    ensures
        r@ == clue_spec(goal@, guess@),
{
    let mut goal_chars: Vec<char> = str_to_chars(goal);
    let guess_chars: Vec<char> = str_to_chars(guess);
    let n = guess_chars.len();
    let mut s: Vec<char> = Vec::new();
    let mut k: usize = 0;
    while k < n
        invariant
            k <= n,
            s@.len() == k,
            forall|t: int| 0 <= t < k ==> s@[t] == ' ',
        decreases n - k,
    {
        s.push(' ');
        k += 1;
    }
    // First pass: mark exact matches and consume them in the goal.
    let mut i: usize = 0;
    while i < n
        invariant
            n == guess@.len(),
            goal@.len() == n,
            goal_chars@.len() == n,
            guess_chars@ == guess@,
            s@.len() == n,
            i <= n,
            forall|t: int| 0 <= t < i ==> s@[t] == exact_clue(goal@, guess@)[t],
            forall|t: int| 0 <= t < i ==> goal_chars@[t] == exact_goal(goal@, guess@)[t],
            forall|t: int| i <= t < n ==> s@[t] == ' ' && goal_chars@[t] == goal@[t],
        decreases n - i,
    {
        if goal_chars[i] == guess_chars[i] {
            s.set(i, 'G');
            goal_chars.set(i, ' ');
        }
        i += 1;
    }
    proof {
        assert(s@ =~= exact_clue(goal@, guess@));
        assert(goal_chars@ =~= exact_goal(goal@, guess@));
    }
    let ghost clue0 = s@;
    let ghost goal0 = goal_chars@;
    // Second pass: mark present-but-misplaced characters, consuming the
    // first remaining goal occurrence of each.
    let mut i: usize = 0;
    while i < n
        invariant
            n == guess@.len(),
            goal@.len() == n,
            goal_chars@.len() == n,
            s@.len() == n,
            guess_chars@ == guess@,
            i <= n,
            mark_present(goal_chars@, guess@, s@, i as int) == mark_present(goal0, guess@, clue0, 0),
            clue0 == exact_clue(goal@, guess@),
            goal0 == exact_goal(goal@, guess@),
        decreases n - i,
    {
        if s[i] == ' ' {
            match find_first_exec(&goal_chars, guess_chars[i]) {
                Some(j) => {
                    s.set(i, 'Y');
                    goal_chars.set(j, ' ');
                },
                None => {},
            }
        }
        i += 1;
    }
    chars_to_string(&s)
}

proof fn lemma_mark_present_no_blank(goal: Seq<char>, guess: Seq<char>, clue: Seq<char>, i: int)
    requires
        clue.len() == guess.len(),
        forall|k: int| 0 <= k < clue.len() ==> clue[k] != ' ',
    ensures
        mark_present(goal, guess, clue, i) == (clue, goal),
    decreases guess.len() - i,
{
    if 0 <= i < guess.len() {
        lemma_mark_present_no_blank(goal, guess, clue, i + 1);
    }
}

/// The second pass only turns blank clue positions at or after its start
/// into present-marks; every other clue position keeps its value.
pub proof fn lemma_mark_present_clue_pointwise(
    goal: Seq<char>,
    guess: Seq<char>,
    clue: Seq<char>,
    i: int,
)
    requires
        clue.len() == guess.len(),
    ensures
        mark_present(goal, guess, clue, i).0.len() == clue.len(),
        mark_present(goal, guess, clue, i).1.len() == goal.len(),
        forall|k: int|
            0 <= k < clue.len() ==> mark_present(goal, guess, clue, i).0[k] == clue[k] || (clue[k]
                == ' ' && k >= i && mark_present(goal, guess, clue, i).0[k] == 'Y'),
    decreases guess.len() - i,
{
    if 0 <= i < guess.len() {
        if clue[i] == ' ' {
            let j = find_first(goal, guess[i]);
            if j >= 0 {
                lemma_find_from(goal, guess[i], 0);
                let goal1 = goal.update(j, ' ');
                let clue1 = clue.update(i, 'Y');
                lemma_mark_present_clue_pointwise(goal1, guess, clue1, i + 1);
                assert forall|k: int| 0 <= k < clue.len() implies mark_present(
                    goal,
                    guess,
                    clue,
                    i,
                ).0[k] == clue[k] || (clue[k] == ' ' && k >= i && mark_present(
                    goal,
                    guess,
                    clue,
                    i,
                ).0[k] == 'Y') by {
                    assert(mark_present(goal1, guess, clue1, i + 1).0[k] == clue1[k] || (clue1[k]
                        == ' ' && k >= i + 1 && mark_present(goal1, guess, clue1, i + 1).0[k]
                        == 'Y'));
                }
            } else {
                lemma_mark_present_clue_pointwise(goal, guess, clue, i + 1);
            }
        } else {
            lemma_mark_present_clue_pointwise(goal, guess, clue, i + 1);
        }
    }
}

/// The second pass only consumes goal characters: each position of the
/// returned goal holds its old character or the sentinel.
pub proof fn lemma_mark_present_work_pointwise(
    goal: Seq<char>,
    guess: Seq<char>,
    clue: Seq<char>,
    i: int,
)
    requires
        clue.len() == guess.len(),
    ensures
        mark_present(goal, guess, clue, i).1.len() == goal.len(),
        forall|k: int|
            0 <= k < goal.len() ==> mark_present(goal, guess, clue, i).1[k] == goal[k]
                || mark_present(goal, guess, clue, i).1[k] == ' ',
    decreases guess.len() - i,
{
    if 0 <= i < guess.len() {
        if clue[i] == ' ' {
            let j = find_first(goal, guess[i]);
            if j >= 0 {
                lemma_find_from(goal, guess[i], 0);
                let goal1 = goal.update(j, ' ');
                let clue1 = clue.update(i, 'Y');
                lemma_mark_present_work_pointwise(goal1, guess, clue1, i + 1);
                assert forall|k: int| 0 <= k < goal.len() implies mark_present(
                    goal,
                    guess,
                    clue,
                    i,
                ).1[k] == goal[k] || mark_present(goal, guess, clue, i).1[k] == ' ' by {
                    assert(mark_present(goal1, guess, clue1, i + 1).1[k] == goal1[k]
                        || mark_present(goal1, guess, clue1, i + 1).1[k] == ' ');
                }
            } else {
                lemma_mark_present_work_pointwise(goal, guess, clue, i + 1);
            }
        } else {
            lemma_mark_present_work_pointwise(goal, guess, clue, i + 1);
        }
    }
}

/// Occurrences of `c` in `s` at or after position `i`.
pub open spec fn count_occ_from(s: Seq<char>, c: char, i: int) -> nat
    decreases s.len() - i,
{
    if i < 0 || i >= s.len() {
        0
    } else {
        (if s[i] == c {
            1nat
        } else {
            0nat
        }) + count_occ_from(s, c, i + 1)
    }
}

pub open spec fn count_occ(s: Seq<char>, c: char) -> nat {
    count_occ_from(s, c, 0)
}

/// Positions at or after `i` whose guess character is `c` and which the clue
/// marks exact or present.
pub open spec fn count_marked_from(clue: Seq<char>, guess: Seq<char>, c: char, i: int) -> nat
    decreases clue.len() - i,
{
    if i < 0 || i >= clue.len() {
        0
    } else {
        (if guess[i] == c && clue[i] != ' ' {
            1nat
        } else {
            0nat
        }) + count_marked_from(clue, guess, c, i + 1)
    }
}

pub open spec fn count_marked(clue: Seq<char>, guess: Seq<char>, c: char) -> nat {
    count_marked_from(clue, guess, c, 0)
}

proof fn lemma_count_occ_from_update(s: Seq<char>, c: char, i: int, j: int, x: char)
    requires
        0 <= j < s.len(),
        0 <= i,
        x != c,
    ensures
        j < i ==> count_occ_from(s.update(j, x), c, i) == count_occ_from(s, c, i),
        i <= j && s[j] == c ==> count_occ_from(s.update(j, x), c, i) + 1 == count_occ_from(
            s,
            c,
            i,
        ),
        i <= j && s[j] != c ==> count_occ_from(s.update(j, x), c, i) == count_occ_from(s, c, i),
    decreases s.len() - i,
{
    if 0 <= i < s.len() {
        lemma_count_occ_from_update(s, c, i + 1, j, x);
    }
}

proof fn lemma_count_marked_from_update_below(
    clue: Seq<char>,
    guess: Seq<char>,
    c: char,
    i: int,
    j: int,
    x: char,
)
    requires
        0 <= j < i,
        j < clue.len(),
    ensures
        count_marked_from(clue.update(j, x), guess, c, i) == count_marked_from(clue, guess, c, i),
    decreases clue.len() - i,
{
    if 0 <= i < clue.len() {
        lemma_count_marked_from_update_below(clue, guess, c, i + 1, j, x);
    }
}

/// The second pass changes the clue only at or after its start position.
proof fn lemma_mark_present_frame(goal: Seq<char>, guess: Seq<char>, clue: Seq<char>, i: int)
    requires
        clue.len() == guess.len(),
    ensures
        mark_present(goal, guess, clue, i).0.len() == clue.len(),
        mark_present(goal, guess, clue, i).1.len() == goal.len(),
        forall|k: int|
            0 <= k < clue.len() && k < i ==> mark_present(goal, guess, clue, i).0[k] == clue[k],
    decreases guess.len() - i,
{
    if 0 <= i < guess.len() {
        if clue[i] == ' ' {
            let j = find_first(goal, guess[i]);
            if j >= 0 {
                lemma_find_from(goal, guess[i], 0);
                let goal1 = goal.update(j, ' ');
                let clue1 = clue.update(i, 'Y');
                lemma_mark_present_frame(goal1, guess, clue1, i + 1);
                assert forall|k: int| 0 <= k < clue.len() && k < i implies mark_present(
                    goal,
                    guess,
                    clue,
                    i,
                ).0[k] == clue[k] by {
                    assert(mark_present(goal1, guess, clue1, i + 1).0[k] == clue1[k]);
                }
            } else {
                lemma_mark_present_frame(goal, guess, clue, i + 1);
                assert forall|k: int| 0 <= k < clue.len() && k < i implies mark_present(
                    goal,
                    guess,
                    clue,
                    i,
                ).0[k] == clue[k] by {
                    assert(mark_present(goal, guess, clue, i + 1).0[k] == clue[k]);
                }
            }
        } else {
            lemma_mark_present_frame(goal, guess, clue, i + 1);
            assert forall|k: int| 0 <= k < clue.len() && k < i implies mark_present(
                goal,
                guess,
                clue,
                i,
            ).0[k] == clue[k] by {
                assert(mark_present(goal, guess, clue, i + 1).0[k] == clue[k]);
            }
        }
    }
}

/// Each present-mark of the second pass consumes one matching unconsumed
/// goal character, so marks plus remaining occurrences never grow.
proof fn lemma_mark_present_conserves(
    goal: Seq<char>,
    guess: Seq<char>,
    clue: Seq<char>,
    i: int,
    c: char,
)
    requires
        c != ' ',
        clue.len() == guess.len(),
        i >= 0,
    ensures
        count_marked_from(mark_present(goal, guess, clue, i).0, guess, c, i) + count_occ(
            mark_present(goal, guess, clue, i).1,
            c,
        ) <= count_marked_from(clue, guess, c, i) + count_occ(goal, c),
    decreases guess.len() - i,
{
    if 0 <= i < guess.len() {
        let (fc, fg) = mark_present(goal, guess, clue, i);
        if clue[i] == ' ' {
            let j = find_first(goal, guess[i]);
            lemma_find_from(goal, guess[i], 0);
            if j >= 0 {
                let goal1 = goal.update(j, ' ');
                let clue1 = clue.update(i, 'Y');
                lemma_mark_present_conserves(goal1, guess, clue1, i + 1, c);
                lemma_mark_present_frame(goal1, guess, clue1, i + 1);
                lemma_count_marked_from_update_below(clue, guess, c, i + 1, i, 'Y');
                assert(count_marked_from(clue1, guess, c, i + 1) == count_marked_from(
                    clue,
                    guess,
                    c,
                    i + 1,
                ));
                lemma_count_occ_from_update(goal, c, 0, j, ' ');
                // The final clue keeps the 'Y' just written at position i.
                assert(fc == mark_present(goal1, guess, clue1, i + 1).0);
                assert(mark_present(goal1, guess, clue1, i + 1).0[i] == clue1[i]);
                assert(fc[i] == 'Y');
            } else {
                lemma_mark_present_conserves(goal, guess, clue, i + 1, c);
                lemma_mark_present_frame(goal, guess, clue, i + 1);
            }
        } else {
            lemma_mark_present_conserves(goal, guess, clue, i + 1, c);
            lemma_mark_present_frame(goal, guess, clue, i + 1);
        }
    }
}

/// The first pass consumes exactly the goal characters it marks.
proof fn lemma_exact_pass_conserves(goal: Seq<char>, guess: Seq<char>, c: char, i: int)
    requires
        goal.len() == guess.len(),
        c != ' ',
        i >= 0,
    ensures
        count_marked_from(exact_clue(goal, guess), guess, c, i) + count_occ_from(
            exact_goal(goal, guess),
            c,
            i,
        ) == count_occ_from(goal, c, i),
    decreases goal.len() - i,
{
    if 0 <= i < goal.len() {
        lemma_exact_pass_conserves(goal, guess, c, i + 1);
    }
}

proof fn lemma_marked_le_guess(clue: Seq<char>, guess: Seq<char>, c: char, i: int)
    requires
        i >= 0,
        clue.len() == guess.len(),
    ensures
        count_marked_from(clue, guess, c, i) <= count_occ_from(guess, c, i),
    decreases clue.len() - i,
{
    if 0 <= i < clue.len() {
        lemma_marked_le_guess(clue, guess, c, i + 1);
    }
}

/// Law: for every character other than the consumption sentinel, the number
/// of positions the clue marks exact or present for that character never
/// exceeds its occurrences in the goal, nor its occurrences in the guess.
pub proof fn lemma_clue_respects_multiplicity(goal: Seq<char>, guess: Seq<char>, c: char)
    requires
        goal.len() == guess.len(),
        c != ' ',
    ensures
        count_marked(clue_spec(goal, guess), guess, c) <= count_occ(goal, c),
        count_marked(clue_spec(goal, guess), guess, c) <= count_occ(guess, c),
{
    let clue0 = exact_clue(goal, guess);
    let goal0 = exact_goal(goal, guess);
    lemma_exact_pass_conserves(goal, guess, c, 0);
    lemma_mark_present_conserves(goal0, guess, clue0, 0, c);
    lemma_mark_present_frame(goal0, guess, clue0, 0);
    lemma_marked_le_guess(clue_spec(goal, guess), guess, c, 0);
}

/// Law: a goal guessed against itself earns the all-exact clue.
pub proof fn lemma_compare_self(g: Seq<char>)
    ensures
        clue_spec(g, g) == Seq::new(g.len(), |i: int| 'G'),
{
    assert(exact_clue(g, g) =~= Seq::new(g.len(), |i: int| 'G'));
    lemma_mark_present_no_blank(exact_goal(g, g), g, exact_clue(g, g), 0);
}

} // verus!
