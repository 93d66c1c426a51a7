use cs50::caesar::caesar;
use cs50::cash::{calculate_dimes, calculate_nickels, calculate_pennies, calculate_quarters, coins_for_change, total_coins};
use cs50::credit::{credit_card_type, luhn, CreditCardType};
use cs50::jar::{CookieJar, JarError};
use cs50::plurality::{CandidateNotFoundError, CandidateTable};
use cs50::readability::letters_sentences_words;
use cs50::runoff::{tabulate, Candidate, RunoffTabulationResult};
use cs50::scrabble::PointsTable;
use cs50::substitution::substitution_cipher;

#[test]
fn coins_for_change_takes_value_off() {
    let mut cents = 67;
    assert_eq!(coins_for_change(&mut cents, 25), 2);
    assert_eq!(cents, 17);
    let mut negative = -3;
    assert_eq!(coins_for_change(&mut negative, 5), 0);
    assert_eq!(negative, -3);
}

#[test]
fn change_for_41_cents() {
    let mut c = 41;
    assert_eq!(calculate_quarters(&mut c), 1);
    assert_eq!(calculate_dimes(&mut c), 1);
    assert_eq!(calculate_nickels(&mut c), 1);
    assert_eq!(calculate_pennies(&mut c), 1);
    assert_eq!(c, 0);
    assert_eq!(total_coins(41), 4);
    assert_eq!(total_coins(0), 0);
}

#[test]
fn card_issuers() {
    assert_eq!(credit_card_type(4003600000000014), CreditCardType::Visa);
    assert_eq!(credit_card_type(4222222222222), CreditCardType::Visa);
    assert_eq!(credit_card_type(5555555555554444), CreditCardType::MasterCard);
    assert_eq!(credit_card_type(378282246310005), CreditCardType::Amex);
    assert_eq!(credit_card_type(6176292929), CreditCardType::Invalid);
    assert_eq!(credit_card_type(-4003600000000014), CreditCardType::Invalid);
}

#[test]
fn luhn_checksums() {
    assert!(luhn(4003600000000014));
    assert!(luhn(378282246310005));
    assert!(luhn(5555555555554444));
    assert!(!luhn(4003600000000015));
    assert!(!luhn(1234567890));
}

#[test]
fn scrabble_points() {
    let table = PointsTable::new();
    assert_eq!(table.get('q'), 10);
    assert_eq!(table.get('Q'), 10);
    assert_eq!(table.get('!'), 0);
    assert_eq!(table.get_points("Question?"), 17);
    assert_eq!(table.get_points("Code"), 7);
    assert_eq!(table.get_points(""), 0);
}

#[test]
fn readability_counts() {
    assert_eq!(letters_sentences_words("One fish. Two fish!"), (14, 2, 4));
    assert_eq!(letters_sentences_words(""), (0, 0, 0));
    assert_eq!(letters_sentences_words("It's 4pm, ok?"), (7, 1, 3));
}

#[test]
fn caesar_shifts_letters() {
    assert_eq!(caesar("Hello, World!", 13), "Uryyb, Jbeyq!");
    assert_eq!(caesar("xyz", 3), "abc");
    assert_eq!(caesar("abc", 27), "bcd");
    assert_eq!(caesar("", 5), "");
}

#[test]
fn substitution_with_valid_key() {
    let r = substitution_cipher("Hello, world", "VCHPRZGJNTLSKFBDQWAXEUYMOI");
    assert_eq!(r, Ok("Jrssb, ybwsp".to_string()));
}

#[test]
fn substitution_rejects_bad_keys() {
    assert_eq!(substitution_cipher("abc", "ABC"), Err("Invalid Key".to_string()));
    assert_eq!(substitution_cipher("abc", "VCHPRZGJNTLSKFBDQWAXEUYM1I"), Err("Invalid Key".to_string()));
}

#[test]
fn cookie_jar_bounds() {
    let mut jar = CookieJar::new(10);
    assert_eq!(jar.capacity(), 10);
    assert!(jar.deposit(7).is_ok());
    assert_eq!(jar.size(), 7);
    assert_eq!(jar.deposit(4), Err(JarError::Overflow));
    assert_eq!(jar.size(), 7);
    assert_eq!(jar.withdraw(8), Err(JarError::Underflow));
    assert!(jar.withdraw(7).is_ok());
    assert_eq!(jar.size(), 0);
    assert!(jar.deposit(10).is_ok());
    assert_eq!(jar.as_string().chars().count(), 10);
    assert_eq!(jar.deposit(u32::MAX), Err(JarError::Overflow));
}

#[test]
fn plurality_counts_votes() {
    let names: Vec<String> = ["Alice", "Bob", "Alice", "Carol"].iter().map(|s| s.to_string()).collect();
    let mut table = CandidateTable::new(&names);
    assert!(table.vote("Bob").is_ok());
    assert!(table.vote("Carol").is_ok());
    assert!(table.vote("Bob").is_ok());
    assert_eq!(table.vote("bob"), Err(CandidateNotFoundError));
    assert_eq!(table.winner(), Ok(("Bob", 2)));
}

#[test]
fn plurality_tie_goes_to_first() {
    let names: Vec<String> = ["A", "B"].iter().map(|s| s.to_string()).collect();
    let mut table = CandidateTable::new(&names);
    assert!(table.vote("B").is_ok());
    assert!(table.vote("A").is_ok());
    assert_eq!(table.winner(), Ok(("A", 1)));
    let empty = CandidateTable::new(&[]);
    assert_eq!(empty.winner(), Err(CandidateNotFoundError));
}

#[test]
fn runoff_rounds() {
    let mut candidates = vec![
        Candidate::new("A".to_string()),
        Candidate::new("B".to_string()),
        Candidate::new("C".to_string()),
    ];
    let votes = vec![vec![0, 1, 2], vec![1, 0, 2], vec![2, 1, 0], vec![1, 2, 0], vec![0, 2, 1]];
    assert_eq!(tabulate(&votes, &mut candidates), RunoffTabulationResult::Elimination(2));
    assert_eq!(candidates[0].votes, 2);
    assert_eq!(candidates[1].votes, 2);
    assert_eq!(candidates[2].votes, 1);
    candidates[2].eliminated = true;
    assert_eq!(tabulate(&votes, &mut candidates), RunoffTabulationResult::Win(1));
    assert_eq!(candidates[1].votes, 3);
}

#[test]
fn runoff_tie() {
    let mut candidates = vec![Candidate::new("A".to_string()), Candidate::new("B".to_string())];
    let votes = vec![vec![0, 1], vec![1, 0]];
    assert_eq!(tabulate(&votes, &mut candidates), RunoffTabulationResult::Tie);
}

#[test]
fn sortable_vectors() {
    let mut a = vec![3, -1, 2, 2];
    cs50::sort::Sortable::selection_sort(&mut a);
    assert_eq!(a, vec![-1, 2, 2, 3]);
    let mut b = vec![5, 4, 3];
    cs50::sort::Sortable::bubble_sort(&mut b);
    assert_eq!(b, vec![3, 4, 5]);
    let mut c = vec![1, 0];
    cs50::sort::Sortable::merge_sort(&mut c);
    assert_eq!(c, vec![0, 1]);
}
