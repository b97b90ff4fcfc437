//! The menu's decision logic: turning one line of user input into a
//! dispatch. The surrounding application owns the console loop itself.

use vstd::prelude::*;

use crate::parse::parse_spec;

verus! {

/// What one line of menu input asks for.
#[derive(Clone, Copy, Debug, PartialEq, Eq, Structural)]
pub enum MenuChoice {
    /// Run the prime sieve.
    Primes,
    /// Run the pi estimator.
    Pi,
    /// Leave the menu; the program ends.
    Exit,
    /// Anything else: report an invalid option and show the menu again.
    Invalid,
}

/// The dispatch a given input line calls for: selector 1 is the sieve, 2 the
/// pi estimator, 3 the exit; any other number or non-numeric text is invalid.
pub open spec fn choice_of(s: Seq<u8>) -> MenuChoice {
    match parse_spec(s) {
        Some(v) => if v == 1 {
            MenuChoice::Primes
        } else if v == 2 {
            MenuChoice::Pi
        } else if v == 3 {
            MenuChoice::Exit
        } else {
            MenuChoice::Invalid
        },
        None => MenuChoice::Invalid,
    }
}

/// Read a menu selection from one line of input.
pub fn select_option(s: &[u8]) -> (choice: MenuChoice)
    ensures
        choice == choice_of(s@),
{
    match crate::parse::parse_u64(s) {
        Some(1) => MenuChoice::Primes,
        Some(2) => MenuChoice::Pi,
        Some(3) => MenuChoice::Exit,
        _ => MenuChoice::Invalid,
    }
}

} // verus!
