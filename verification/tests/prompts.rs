use rust_exercises::warehouse::prompts::{
    maplidator_amount, maplidator_date, maplidator_identifier, maplidator_identity_trim, maplidator_int_index_limit,
    maplidator_int_index_limit_zero, maplidator_yes_or_no,
};

#[test]
fn yes_or_no() {
    assert_eq!(maplidator_yes_or_no(" y\n".to_string()), Ok(true));
    assert_eq!(maplidator_yes_or_no("n".to_string()), Ok(false));
    assert_eq!(maplidator_yes_or_no("yes".to_string()), Err("Use y or n to specify command"));
}

#[test]
fn identity_trim() {
    assert_eq!(maplidator_identity_trim("  milk \n".to_string()), Ok("milk".to_string()));
}

#[test]
fn index_limits() {
    assert_eq!(maplidator_int_index_limit(11, "3\n".to_string()), Ok(3));
    assert_eq!(maplidator_int_index_limit(11, "0".to_string()), Err("Not a valid number in context"));
    assert_eq!(maplidator_int_index_limit(11, "12".to_string()), Err("Not a valid number in context"));
    assert_eq!(maplidator_int_index_limit(11, "x".to_string()), Err("Failed to parse into number"));
    assert_eq!(maplidator_int_index_limit_zero(3, "0".to_string()), Ok(0));
    assert_eq!(maplidator_int_index_limit_zero(3, "3".to_string()), Err("Not a valid number in context"));
}

#[test]
fn numbers() {
    assert_eq!(maplidator_identifier(" -5 ".to_string()), Ok(-5));
    assert_eq!(maplidator_identifier("5x".to_string()), Err("Failed to parse into number"));
    assert_eq!(maplidator_amount("18446744073709551615".to_string()), Ok(u64::MAX));
    assert_eq!(maplidator_amount("-1".to_string()), Err("Failed to parse into number"));
}

#[test]
fn dates() {
    assert_eq!(maplidator_date("2000-01-01".to_string()), Ok(2451545));
    assert_eq!(maplidator_date("2000-01-02\n".to_string()), Ok(2451546));
    assert_eq!(maplidator_date("2024-02-30".to_string()), Err("Invalid date"));
    assert_eq!(maplidator_date("2024-13-01".to_string()), Err("Invalid month"));
    assert_eq!(maplidator_date("2024".to_string()), Err("Could not find a valid month"));
    assert_eq!(maplidator_date("2024-02".to_string()), Err("Could not find a valid day"));
    assert_eq!(maplidator_date("x-02-01".to_string()), Err("Could not find a valid year"));
    assert_eq!(maplidator_date("2024-02-01-5".to_string()), Err("Extra data found during parsing"));
}

#[test]
fn dates_count_days_from_the_julian_epoch() {
    assert_eq!(maplidator_date("-4713-11-24".to_string()), Err("Could not find a valid year"));
    assert_eq!(maplidator_date("0001-01-01".to_string()), Ok(1721426));
    assert_eq!(maplidator_date("2019-12-31".to_string()), Ok(2458849));
    assert_eq!(maplidator_date("9999-12-31".to_string()), Ok(5373484));
    assert_eq!(maplidator_date("2024-02-29".to_string()), Ok(2460370));
    assert_eq!(maplidator_date("1900-02-29".to_string()), Err("Invalid date"));
}
