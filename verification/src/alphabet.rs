use vstd::prelude::*;

verus! {

/// The ordered alphabet of the puzzle: the ten digits followed by the four
/// arithmetic operators. Index `i` of the base-14 counter maps to this symbol.
pub open spec fn nerdle_char(i: int) -> char {
    if i == 0 {
        '0'
    } else if i == 1 {
        '1'
    } else if i == 2 {
        '2'
    } else if i == 3 {
        '3'
    } else if i == 4 {
        '4'
    } else if i == 5 {
        '5'
    } else if i == 6 {
        '6'
    } else if i == 7 {
        '7'
    } else if i == 8 {
        '8'
    } else if i == 9 {
        '9'
    } else if i == 10 {
        '+'
    } else if i == 11 {
        '-'
    } else if i == 12 {
        '*'
    } else if i == 13 {
        '/'
    } else {
        ' '
    }
}

/// Position of a symbol in the alphabet, or -1 for a symbol outside it.
pub open spec fn char_index(c: char) -> int {
    if c == '0' {
        0
    } else if c == '1' {
        1
    } else if c == '2' {
        2
    } else if c == '3' {
        3
    } else if c == '4' {
        4
    } else if c == '5' {
        5
    } else if c == '6' {
        6
    } else if c == '7' {
        7
    } else if c == '8' {
        8
    } else if c == '9' {
        9
    } else if c == '+' {
        10
    } else if c == '-' {
        11
    } else if c == '*' {
        12
    } else if c == '/' {
        13
    } else {
        -1
    }
}

pub open spec fn is_nerdle_char(c: char) -> bool {
    char_index(c) >= 0
}

pub open spec fn is_operator(c: char) -> bool {
    c == '+' || c == '-' || c == '*' || c == '/'
}

/// The digits occupy the first ten alphabet positions.
pub open spec fn is_digit_char(c: char) -> bool {
    0 <= char_index(c) <= 9
}

pub open spec fn all_digit_chars(s: Seq<char>) -> bool {
    forall|i: int| 0 <= i < s.len() ==> is_digit_char(#[trigger] s[i])
}

pub proof fn lemma_char_index_roundtrip(c: char)
    requires
        is_nerdle_char(c),
    ensures
        nerdle_char(char_index(c)) == c,
        0 <= char_index(c) < 14,
{
}

pub proof fn lemma_nerdle_char_roundtrip(i: int)
    requires
        0 <= i < 14,
    ensures
        char_index(nerdle_char(i)) == i,
        is_nerdle_char(nerdle_char(i)),
{
}

/// Executable lookup of the alphabet symbol at a counter position.
pub fn nerdle_char_at(i: usize) -> (c: char)
    requires
        i < 14,
    ensures
        c == nerdle_char(i as int),
{
    if i == 0 {
        '0'
    } else if i == 1 {
        '1'
    } else if i == 2 {
        '2'
    } else if i == 3 {
        '3'
    } else if i == 4 {
        '4'
    } else if i == 5 {
        '5'
    } else if i == 6 {
        '6'
    } else if i == 7 {
        '7'
    } else if i == 8 {
        '8'
    } else if i == 9 {
        '9'
    } else if i == 10 {
        '+'
    } else if i == 11 {
        '-'
    } else if i == 12 {
        '*'
    } else {
        '/'
    }
}

/// Executable test for a digit symbol, used when checking a rendered
/// right-hand side.
pub fn is_digit_char_exec(c: char) -> (r: bool)
    ensures
        r == is_digit_char(c),
{
    c == '0' || c == '1' || c == '2' || c == '3' || c == '4' || c == '5' || c == '6' || c == '7'
        || c == '8' || c == '9'
}

} // verus!
