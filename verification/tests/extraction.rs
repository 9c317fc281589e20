use cycle_cost::extract::extract_required_cycles;
use cycle_cost::extract::ExtractError;

#[test]
fn plain_requires_message() {
    assert_eq!(
        extract_required_cycles("requires 50000000 cycles to proceed"),
        Ok(50000000)
    );
}

#[test]
fn first_match_wins() {
    assert_eq!(
        extract_required_cycles(
            "available: 10 cycles, required: 9999999999999999999999999999999999 cycles"
        ),
        Ok(10)
    );
}

#[test]
fn singular_cycle_word() {
    assert_eq!(extract_required_cycles("needs 1 cycle to proceed"), Ok(1));
}

#[test]
fn no_pattern_at_all() {
    assert_eq!(
        extract_required_cycles("..."),
        Err(ExtractError::PatternNotFound)
    );
}

#[test]
fn empty_message() {
    assert_eq!(extract_required_cycles(""), Err(ExtractError::PatternNotFound));
}

#[test]
fn digits_without_cycle_word() {
    assert_eq!(
        extract_required_cycles("only 42 bytes were sent"),
        Err(ExtractError::PatternNotFound)
    );
}

#[test]
fn cycle_word_without_digits() {
    assert_eq!(
        extract_required_cycles("more cycles are needed"),
        Err(ExtractError::PatternNotFound)
    );
}

#[test]
fn no_space_between_digits_and_word() {
    assert_eq!(
        extract_required_cycles("send 5cycles now"),
        Err(ExtractError::PatternNotFound)
    );
}

#[test]
fn two_spaces_do_not_match() {
    assert_eq!(
        extract_required_cycles("send 12  cycles now"),
        Err(ExtractError::PatternNotFound)
    );
}

#[test]
fn earlier_unmatched_run_is_skipped() {
    assert_eq!(
        extract_required_cycles("code 7 error: needs 99 cycles"),
        Ok(99)
    );
}

#[test]
fn run_is_taken_whole() {
    assert_eq!(extract_required_cycles("x1999 cycles"), Ok(1999));
}

#[test]
fn leading_zeros_are_part_of_the_run() {
    assert_eq!(extract_required_cycles("pay 000123 cycles"), Ok(123));
}

#[test]
fn plural_suffix_and_trailing_text() {
    assert_eq!(extract_required_cycles("2 cyclescounted"), Ok(2));
    assert_eq!(extract_required_cycles("2 cycle."), Ok(2));
}

#[test]
fn largest_value_fits() {
    assert_eq!(
        extract_required_cycles("340282366920938463463374607431768211455 cycles"),
        Ok(u128::MAX)
    );
}

#[test]
fn value_above_u128_is_too_large() {
    assert_eq!(
        extract_required_cycles("340282366920938463463374607431768211456 cycles"),
        Err(ExtractError::NumberTooLarge)
    );
}

#[test]
fn forty_nines_are_too_large() {
    assert_eq!(
        extract_required_cycles("9999999999999999999999999999999999999999 cycles"),
        Err(ExtractError::NumberTooLarge)
    );
}

#[test]
fn repeated_calls_are_identical() {
    let msg = "requires 50000000 cycles to proceed";
    assert_eq!(extract_required_cycles(msg), extract_required_cycles(msg));
    let none = "nothing here";
    assert_eq!(extract_required_cycles(none), extract_required_cycles(none));
}
