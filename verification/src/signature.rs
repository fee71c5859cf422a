//! Computing the per-letter feedback signature of a guess against a
//! solution, with duplicate-letter accounting.
//!
//! A position is `Green` when guess and solution agree there.  A
//! non-green position is `Yellow` when the solution still has an unused
//! non-green occurrence of that letter left for it, scanning the guess
//! left to right; otherwise it is `Grey`.  Equivalently (and this is the
//! form the specification takes): position `i` is `Yellow` exactly when
//! the number of earlier non-green guess positions holding the same
//! letter is smaller than the number of non-green solution positions
//! holding that letter.

use vstd::prelude::*;

use crate::states::PatternState;

verus! {

/// How many of the first `n` positions of `s` hold the letter `c`.
pub open spec fn eq_count(s: Seq<u8>, c: u8, n: int) -> nat
    decreases n,
{
    if n <= 0 {
        0
    } else {
        eq_count(s, c, n - 1) + (if 0 <= n - 1 < s.len() && s[n - 1] == c {
            1nat
        } else {
            0nat
        })
    }
}

/// How many of the first `n` positions are non-green and hold the letter
/// `c` in the guess.
pub open spec fn nongreen_guess_count(g: Seq<u8>, s: Seq<u8>, c: u8, n: int) -> nat
    decreases n,
{
    if n <= 0 {
        0
    } else {
        nongreen_guess_count(g, s, c, n - 1) + (if 0 <= n - 1 < g.len() && 0 <= n - 1 < s.len()
            && g[n - 1] == c && g[n - 1] != s[n - 1] {
            1nat
        } else {
            0nat
        })
    }
}

/// How many of the first `n` positions are non-green and hold the letter
/// `c` in the solution.
pub open spec fn nongreen_solution_count(g: Seq<u8>, s: Seq<u8>, c: u8, n: int) -> nat
    decreases n,
{
    if n <= 0 {
        0
    } else {
        nongreen_solution_count(g, s, c, n - 1) + (if 0 <= n - 1 < g.len() && 0 <= n - 1 < s.len()
            && s[n - 1] == c && g[n - 1] != s[n - 1] {
            1nat
        } else {
            0nat
        })
    }
}

/// The feedback state of position `i` of the guess `g` against the
/// solution `s`.
pub open spec fn feedback_at(g: Seq<u8>, s: Seq<u8>, i: int) -> PatternState {
    if g[i] == s[i] {
        PatternState::Green
    } else if nongreen_guess_count(g, s, g[i], i) < nongreen_solution_count(
        g,
        s,
        g[i],
        s.len() as int,
    ) {
        PatternState::Yellow
    } else {
        PatternState::Grey
    }
}

/// The full feedback signature of a guess against a solution of the same
/// length.
pub open spec fn signature_of(g: Seq<u8>, s: Seq<u8>) -> Seq<PatternState> {
    Seq::new(s.len(), |i: int| feedback_at(g, s, i))
}

/// Counts the non-green positions before `n` where the guess holds `c`.
fn count_nongreen_guess(guess: &Vec<u8>, solution: &Vec<u8>, c: u8, n: usize) -> (r: usize)
    requires
        guess@.len() == solution@.len(),
        n <= guess@.len(),
    ensures
        r == nongreen_guess_count(guess@, solution@, c, n as int),
        r <= n,
{
    let mut r: usize = 0;
    let mut i: usize = 0;
    while i < n
        invariant
            i <= n <= guess@.len(),
            guess@.len() == solution@.len(),
            r == nongreen_guess_count(guess@, solution@, c, i as int),
            r <= i,
        decreases n - i,
    {
        if guess[i] == c && guess[i] != solution[i] {
            r = r + 1;
        }
        i = i + 1;
    }
    r
}

/// Counts the non-green positions where the solution holds `c`.
fn count_nongreen_solution(guess: &Vec<u8>, solution: &Vec<u8>, c: u8) -> (r: usize)
    requires
        guess@.len() == solution@.len(),
    ensures
        r == nongreen_solution_count(guess@, solution@, c, solution@.len() as int),
{
    let mut r: usize = 0;
    let mut i: usize = 0;
    while i < solution.len()
        invariant
            i <= solution@.len(),
            guess@.len() == solution@.len(),
            r == nongreen_solution_count(guess@, solution@, c, i as int),
            r <= i,
        decreases solution@.len() - i,
    {
        if solution[i] == c && guess[i] != solution[i] {
            r = r + 1;
        }
        i = i + 1;
    }
    r
}

/// Calculates the feedback signature for a given guess and solution of
/// equal length: green where the letters agree, and yellow on as many
/// remaining guess positions of each letter as the solution has
/// remaining occurrences of it, assigned left to right.
pub fn calculate_pattern(guess: &Vec<u8>, solution: &Vec<u8>) -> (r: Vec<PatternState>)
    requires
        guess@.len() == solution@.len(),
    ensures
        r@ == signature_of(guess@, solution@),
{
    let n = solution.len();
    let mut r: Vec<PatternState> = Vec::new();
    let mut i: usize = 0;
    while i < n
        invariant
            i <= n == solution@.len(),
            guess@.len() == solution@.len(),
            r@.len() == i,
            forall|j: int| 0 <= j < i ==> r@[j] == feedback_at(guess@, solution@, j),
        decreases n - i,
    {
        if guess[i] == solution[i] {
            r.push(PatternState::Green);
        } else {
            let earlier = count_nongreen_guess(guess, solution, guess[i], i);
            let available = count_nongreen_solution(guess, solution, guess[i]);
            if earlier < available {
                r.push(PatternState::Yellow);
            } else {
                r.push(PatternState::Grey);
            }
        }
        i = i + 1;
    }
    assert(r@ =~= signature_of(guess@, solution@));
    r
}

/// How many of the first `n` positions hold `c` in the guess and are
/// marked `Green`.
pub open spec fn green_count(g: Seq<u8>, s: Seq<u8>, c: u8, n: int) -> nat
    decreases n,
{
    if n <= 0 {
        0
    } else {
        green_count(g, s, c, n - 1) + (if 0 <= n - 1 < g.len() && 0 <= n - 1 < s.len()
            && g[n - 1] == c && g[n - 1] == s[n - 1] {
            1nat
        } else {
            0nat
        })
    }
}

/// How many of the first `n` positions hold `c` in the guess and are
/// marked `Yellow`.
pub open spec fn yellow_count(g: Seq<u8>, s: Seq<u8>, c: u8, n: int) -> nat
    decreases n,
{
    if n <= 0 {
        0
    } else {
        yellow_count(g, s, c, n - 1) + (if 0 <= n - 1 < g.len() && 0 <= n - 1 < s.len()
            && g[n - 1] == c && feedback_at(g, s, n - 1) == PatternState::Yellow {
            1nat
        } else {
            0nat
        })
    }
}

/// How many of the first `n` positions hold `c` in the guess and are
/// marked `Green` or `Yellow`.
pub open spec fn marked_count(g: Seq<u8>, s: Seq<u8>, c: u8, n: int) -> nat
    decreases n,
{
    if n <= 0 {
        0
    } else {
        marked_count(g, s, c, n - 1) + (if 0 <= n - 1 < g.len() && 0 <= n - 1 < s.len()
            && g[n - 1] == c && feedback_at(g, s, n - 1) != PatternState::Grey {
            1nat
        } else {
            0nat
        })
    }
}

/// A marked position is marked either green or yellow.
proof fn lemma_marked_split(g: Seq<u8>, s: Seq<u8>, c: u8, n: int)
    requires
        g.len() == s.len(),
        n <= g.len(),
    ensures
        marked_count(g, s, c, n) == green_count(g, s, c, n) + yellow_count(g, s, c, n),
    decreases n,
{
    if n > 0 {
        lemma_marked_split(g, s, c, n - 1);
    }
}

/// The yellow markings of a letter among the first `n` positions number
/// exactly the smaller of the letter's non-green guess occurrences there
/// and its non-green solution occurrences overall.
proof fn lemma_yellow_min(g: Seq<u8>, s: Seq<u8>, c: u8, n: int)
    requires
        g.len() == s.len(),
        n <= g.len(),
    ensures
        yellow_count(g, s, c, n) == if nongreen_guess_count(g, s, c, n)
            <= nongreen_solution_count(g, s, c, s.len() as int) {
            nongreen_guess_count(g, s, c, n)
        } else {
            nongreen_solution_count(g, s, c, s.len() as int)
        },
    decreases n,
{
    if n > 0 {
        lemma_yellow_min(g, s, c, n - 1);
    }
}

/// The solution's occurrences of a letter split into green ones and
/// non-green ones.
proof fn lemma_green_plus_nongreen(g: Seq<u8>, s: Seq<u8>, c: u8, n: int)
    requires
        g.len() == s.len(),
        n <= g.len(),
    ensures
        eq_count(s, c, n) == green_count(g, s, c, n) + nongreen_solution_count(g, s, c, n),
    decreases n,
{
    if n > 0 {
        lemma_green_plus_nongreen(g, s, c, n - 1);
    }
}

/// Duplicate-letter law: a signature never marks more green-or-yellow
/// occurrences of a letter in the guess than the solution holds of that
/// letter.
pub proof fn lemma_letter_budget(g: Seq<u8>, s: Seq<u8>, c: u8)
    requires
        g.len() == s.len(),
    ensures
        marked_count(g, s, c, g.len() as int) <= eq_count(s, c, s.len() as int),
{
    let n = g.len() as int;
    lemma_marked_split(g, s, c, n);
    lemma_yellow_min(g, s, c, n);
    lemma_green_plus_nongreen(g, s, c, n);
}

/// A word compared against itself is green everywhere.
pub proof fn lemma_signature_reflexive(s: Seq<u8>)
    ensures
        signature_of(s, s) =~= Seq::new(s.len(), |i: int| PatternState::Green),
{
}

} // verus!
