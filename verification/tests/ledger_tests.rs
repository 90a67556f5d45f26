use pioneerfs::StorageError;
use pioneerfs::ERC20;

fn fresh() -> ERC20 {
    ERC20::new("PioDollar".to_string(), "PIO".to_string(), 1_000_000_000)
}

#[test]
fn test_mint_and_balance() {
    let mut token = fresh();
    assert_eq!(token.balance_of(42), 0);
    token.mint(42, 500);
    assert_eq!(token.balance_of(42), 500);
    assert_eq!(token.total_supply, 1_000_000_500);
    token.mint(42, 250);
    assert_eq!(token.balance_of(42), 750);
    assert_eq!(token.balance_of(43), 0);
}

#[test]
fn test_transfer_moves_funds_atomically() {
    let mut token = fresh();
    token.mint(1, 100);
    token.mint(2, 10);

    assert!(token.transfer(1, 2, 40).is_ok());
    assert_eq!(token.balance_of(1), 60);
    assert_eq!(token.balance_of(2), 50);

    // An uncovered transfer fails and moves nothing.
    assert_eq!(token.transfer(1, 2, 61), Err(StorageError::InsufficientBalance));
    assert_eq!(token.balance_of(1), 60);
    assert_eq!(token.balance_of(2), 50);

    // A transfer to oneself is a no-op.
    assert!(token.transfer(1, 1, 60).is_ok());
    assert_eq!(token.balance_of(1), 60);
}

#[test]
fn test_burn_shrinks_supply() {
    let mut token = fresh();
    token.mint(5, 100);
    assert!(token.burn(5, 30).is_ok());
    assert_eq!(token.balance_of(5), 70);
    assert_eq!(token.total_supply, 1_000_000_070);
    assert_eq!(token.burn(5, 71), Err(StorageError::InsufficientBalance));
    assert_eq!(token.balance_of(5), 70);
}

#[test]
fn test_allowances() {
    let mut token = fresh();
    token.mint(1, 100);

    assert_eq!(token.allowance(1, 2), 0);
    assert!(token.approve(1, 2, 40));
    assert_eq!(token.allowance(1, 2), 40);

    // Spending within the allowance decrements it and moves the funds.
    assert!(token.transfer_from(2, 1, 3, 25).is_ok());
    assert_eq!(token.allowance(1, 2), 15);
    assert_eq!(token.balance_of(1), 75);
    assert_eq!(token.balance_of(3), 25);

    // Beyond the allowance: refused before any balance check.
    assert_eq!(token.transfer_from(2, 1, 3, 16), Err(StorageError::InsufficientAllowance));
    assert_eq!(token.balance_of(1), 75);

    // Within the allowance but beyond the balance.
    assert!(token.approve(1, 2, 1000));
    assert_eq!(token.transfer_from(2, 1, 3, 76), Err(StorageError::InsufficientBalance));
    assert_eq!(token.allowance(1, 2), 1000);
    assert_eq!(token.balance_of(1), 75);

    // Approving overwrites rather than accumulates.
    assert!(token.approve(1, 2, 7));
    assert_eq!(token.allowance(1, 2), 7);
}

#[test]
fn test_set_debug_only_flips_flag() {
    let mut token = fresh();
    token.mint(9, 12);
    token.set_debug(true);
    assert!(token.debug);
    assert_eq!(token.balance_of(9), 12);
    assert_eq!(token.total_supply, 1_000_000_012);
}
