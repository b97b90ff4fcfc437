use menu_numerics::menu::select_option;
use menu_numerics::menu::MenuChoice;

#[test]
fn selector_one_routes_to_the_sieve() {
    assert_eq!(select_option(b"1"), MenuChoice::Primes);
    assert_eq!(select_option(b" 1 \n"), MenuChoice::Primes);
}

#[test]
fn selector_two_routes_to_the_pi_estimator() {
    assert_eq!(select_option(b"2"), MenuChoice::Pi);
    assert_eq!(select_option(b"+2"), MenuChoice::Pi);
}

#[test]
fn selector_three_exits() {
    assert_eq!(select_option(b"3"), MenuChoice::Exit);
    assert_eq!(select_option(b"3\n"), MenuChoice::Exit);
}

#[test]
fn other_selectors_are_invalid() {
    assert_eq!(select_option(b"0"), MenuChoice::Invalid);
    assert_eq!(select_option(b"99"), MenuChoice::Invalid);
    assert_eq!(select_option(b"foo"), MenuChoice::Invalid);
    assert_eq!(select_option(b""), MenuChoice::Invalid);
    assert_eq!(select_option(b"-1"), MenuChoice::Invalid);
    assert_eq!(select_option(b"4294967296"), MenuChoice::Invalid);
}
