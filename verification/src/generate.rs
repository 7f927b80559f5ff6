//! Random secrets for entries that the user does not want to choose.
//!
//! A generated secret draws from four classes of characters, leaves out
//! the ones that are easily mistaken for each other, and holds at least
//! one character of every class.

use crate::database::text::string_of;
use rand::seq::SliceRandom;
use vstd::prelude::*;
use vstd::seq_lib::{to_multiset_contains, to_multiset_len};

verus! {

/// A lower-case letter other than `l`.
pub open spec fn is_lower_choice(c: char) -> bool {
    'a' <= c && c <= 'z' && c != 'l'
}

/// An upper-case letter other than `I` and `O`.
pub open spec fn is_upper_choice(c: char) -> bool {
    'A' <= c && c <= 'Z' && c != 'I' && c != 'O'
}

/// A digit other than `0` and `1`.
pub open spec fn is_digit_choice(c: char) -> bool {
    '2' <= c && c <= '9'
}

/// One of the twelve symbols `!@#$^&*()-_+`.
pub open spec fn is_symbol_choice(c: char) -> bool {
    c == '!' || c == '@' || c == '#' || c == '$' || c == '^' || c == '&' || c == '*' || c == '('
        || c == ')' || c == '-' || c == '_' || c == '+'
}

/// A character that a generated secret may hold.
pub open spec fn is_secret_char(c: char) -> bool {
    is_lower_choice(c) || is_upper_choice(c) || is_digit_choice(c) || is_symbol_choice(c)
}

/// Whether some character of `text` passes `test`.
pub open spec fn holds_some(text: Seq<char>, test: spec_fn(char) -> bool) -> bool {
    exists|i: int| 0 <= i < text.len() && test(#[trigger] text[i])
}

/// What every generated secret is: as long as asked for, but never
/// shorter than four; made of the allowed characters; with a character
/// of each class.
pub open spec fn is_generated_secret(text: Seq<char>, length: usize) -> bool {
    &&& text.len() == if length < 4 { 4 } else { length as int }
    &&& forall|i: int| 0 <= i < text.len() ==> is_secret_char(#[trigger] text[i])
    &&& holds_some(text, |c: char| is_lower_choice(c))
    &&& holds_some(text, |c: char| is_upper_choice(c))
    &&& holds_some(text, |c: char| is_digit_choice(c))
    &&& holds_some(text, |c: char| is_symbol_choice(c))
}

/// Calls `SliceRandom::choose` with the thread's generator. Trusted: a
/// pool that is not empty yields one of its own characters. Nothing is
/// claimed of which one.
#[verifier::external_body]
fn pick(pool: &Vec<char>) -> (picked: Option<char>)
    ensures
        pool@.len() > 0 ==> picked is Some,
        picked matches Some(c) ==> pool@.contains(c),
{
    pool.choose(&mut rand::thread_rng()).copied()
}

/// Calls `SliceRandom::shuffle` with the thread's generator. Trusted: the
/// characters afterwards are the characters before, in some order.
#[verifier::external_body]
fn shuffle(chars: &mut Vec<char>)
    ensures
        final(chars)@.to_multiset() == old(chars)@.to_multiset(),
{
    chars.shuffle(&mut rand::thread_rng());
}

/// One character of a pool, drawn at random.
fn draw(pool: &Vec<char>) -> (c: char)
    requires
        pool@.len() > 0,
    ensures
        pool@.contains(c),
{
    match pick(pool) {
        Some(c) => c,
        None => pool[0],
    }
}

/// The lower-case letters to draw from.
fn lower_pool() -> (pool: Vec<char>)
    ensures
        pool@.len() == 25,
        forall|i: int| 0 <= i < pool@.len() ==> is_lower_choice(#[trigger] pool@[i]),
{
    vec![
        'a', 'b', 'c', 'd', 'e', 'f', 'g', 'h', 'i', 'j', 'k', 'm', 'n', 'o', 'p', 'q', 'r', 's',
        't', 'u', 'v', 'w', 'x', 'y', 'z',
    ]
}

/// The upper-case letters to draw from.
fn upper_pool() -> (pool: Vec<char>)
    ensures
        pool@.len() == 24,
        forall|i: int| 0 <= i < pool@.len() ==> is_upper_choice(#[trigger] pool@[i]),
{
    vec![
        'A', 'B', 'C', 'D', 'E', 'F', 'G', 'H', 'J', 'K', 'L', 'M', 'N', 'P', 'Q', 'R', 'S', 'T',
        'U', 'V', 'W', 'X', 'Y', 'Z',
    ]
}

/// The digits to draw from.
fn digit_pool() -> (pool: Vec<char>)
    ensures
        pool@.len() == 8,
        forall|i: int| 0 <= i < pool@.len() ==> is_digit_choice(#[trigger] pool@[i]),
{
    vec!['2', '3', '4', '5', '6', '7', '8', '9']
}

/// The symbols to draw from.
fn symbol_pool() -> (pool: Vec<char>)
    ensures
        pool@.len() == 12,
        forall|i: int| 0 <= i < pool@.len() ==> is_symbol_choice(#[trigger] pool@[i]),
{
    vec!['!', '@', '#', '$', '^', '&', '*', '(', ')', '-', '_', '+']
}

/// Appends the characters of `more` to `pool`.
fn extend_pool(pool: &mut Vec<char>, more: &Vec<char>)
    ensures
        final(pool)@ == old(pool)@ + more@,
{
    let mut i: usize = 0;
    while i < more.len()
        invariant
            i <= more@.len(),
            pool@ == old(pool)@ + more@.take(i as int),
        decreases more@.len() - i,
    {
        pool.push(more[i]);
        assert(more@.take(i + 1) =~= more@.take(i as int).push(more@[i as int]));
        i += 1;
    }
    assert(more@.take(i as int) =~= more@);
}

/// A random secret of `length` characters, or of four where `length` is
/// less: one character of each class, the rest from all classes
/// together, and the whole shuffled.
pub fn generate_password(length: usize) -> (password: String)
    ensures
        is_generated_secret(password@, length),
{
    let lower = lower_pool();
    let upper = upper_pool();
    let digits = digit_pool();
    let symbols = symbol_pool();
    let mut all: Vec<char> = Vec::new();
    extend_pool(&mut all, &lower);
    extend_pool(&mut all, &upper);
    extend_pool(&mut all, &digits);
    extend_pool(&mut all, &symbols);
    assert(forall|i: int| 0 <= i < all@.len() ==> is_secret_char(#[trigger] all@[i]));

    let mut chars: Vec<char> = Vec::new();
    chars.push(draw(&lower));
    chars.push(draw(&upper));
    chars.push(draw(&digits));
    chars.push(draw(&symbols));
    while chars.len() < length
        invariant
            all@.len() == 69,
            forall|i: int| 0 <= i < all@.len() ==> is_secret_char(#[trigger] all@[i]),
            4 <= chars@.len(),
            chars@.len() <= length || chars@.len() == 4,
            forall|i: int| 0 <= i < chars@.len() ==> is_secret_char(#[trigger] chars@[i]),
            is_lower_choice(chars@[0]),
            is_upper_choice(chars@[1]),
            is_digit_choice(chars@[2]),
            is_symbol_choice(chars@[3]),
        decreases length - chars@.len(),
    {
        chars.push(draw(&all));
    }
    let ghost drawn = chars@;
    shuffle(&mut chars);
    proof {
        to_multiset_len(drawn);
        to_multiset_len(chars@);
        assert forall|c: char| drawn.contains(c) <==> chars@.contains(c) by {
            to_multiset_contains(drawn, c);
            to_multiset_contains(chars@, c);
        }
        assert forall|i: int| 0 <= i < chars@.len() implies is_secret_char(
            #[trigger] chars@[i],
        ) by {
            let c = chars@[i];
            assert(chars@.contains(c));
            assert(drawn.contains(c));
            let j = choose|j: int| 0 <= j < drawn.len() && drawn[j] == c;
            assert(is_secret_char(drawn[j]));
        }
        assert(drawn.contains(drawn[0]) && drawn.contains(drawn[1]) && drawn.contains(drawn[2])
            && drawn.contains(drawn[3]));
        assert(chars@.contains(drawn[0]) && chars@.contains(drawn[1]) && chars@.contains(drawn[2])
            && chars@.contains(drawn[3]));
    }
    string_of(chars.as_slice())
}

} // verus!
