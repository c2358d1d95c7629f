use lights_solver::{Lights, SolverError, MAX_LIGHTS};

#[test]
fn parse_and_render_round_trip() {
    for text in ["0", "1", "1101", "101010", "11001001000", "1111111111111111111111111"] {
        let lights = Lights::from_str(text).unwrap();
        assert_eq!(lights.render(), text);
        let reparsed = Lights::from_str(&lights.render()).unwrap();
        assert!(lights.equals(&reparsed));
    }
}

#[test]
fn parse_drops_stray_characters() {
    let noisy = Lights::from_str("1a0_1 1x").unwrap();
    let clean = Lights::from_str("1011").unwrap();
    assert!(noisy.equals(&clean));
    assert_eq!(noisy.render(), "1011");
}

#[test]
fn parse_empty_input_fails() {
    assert_eq!(Lights::from_str(""), Err(SolverError::NoLight));
}

#[test]
fn parse_nothing_meaningful_fails() {
    assert_eq!(Lights::from_str("abc def"), Err(SolverError::NoLight));
}

#[test]
fn parse_too_long_input_fails() {
    let long = "10".repeat(MAX_LIGHTS);
    assert_eq!(Lights::from_str(&long), Err(SolverError::TooManyLights));
    let noisy_but_short = format!("{}{}", "x".repeat(2 * MAX_LIGHTS), "101");
    assert!(Lights::from_str(&noisy_but_short).is_ok());
}

#[test]
fn flip_toggles_one_light() {
    let mut lights = Lights::from_str("1010").unwrap();
    assert_eq!(lights.flip(1), Ok(()));
    assert_eq!(lights.render(), "1110");
    assert_eq!(lights.flip(0), Ok(()));
    assert_eq!(lights.render(), "0110");
}

#[test]
fn flip_out_of_bounds_fails() {
    let mut lights = Lights::from_str("1010").unwrap();
    assert_eq!(lights.flip(4), Err(SolverError::IndexOutOfBounds));
    assert_eq!(lights.render(), "1010");
}

#[test]
fn eligibility_boundary() {
    // The last position is always eligible.
    for text in ["0", "1", "10", "01", "111", "000"] {
        let lights = Lights::from_str(text).unwrap();
        assert!(lights.could_be_flipped(text.len() - 1));
    }
    // The second-to-last position is eligible exactly when the last is lit.
    let last_lit = Lights::from_str("0001").unwrap();
    assert!(last_lit.is_lit(3));
    assert!(last_lit.could_be_flipped(2));
    let last_unlit = Lights::from_str("0110").unwrap();
    assert!(!last_unlit.is_lit(3));
    assert!(!last_unlit.could_be_flipped(2));
}

#[test]
fn eligibility_inner_positions() {
    // Eligible: the right neighbour is lit and everything past it is unlit.
    let lights = Lights::from_str("00100").unwrap();
    assert!(lights.could_be_flipped(1));
    // Not eligible: the right neighbour is unlit.
    assert!(!lights.could_be_flipped(3));
    // Not eligible: a light past the right neighbour is lit.
    assert!(!lights.could_be_flipped(0));
}

#[test]
fn first_different_index_scans_from_start() {
    let a = Lights::from_str("1101").unwrap();
    let b = Lights::from_str("0100").unwrap();
    assert_eq!(a.get_first_different_index(&b, 0), Some(0));
    assert_eq!(a.get_first_different_index(&b, 1), Some(3));
    assert_eq!(a.get_first_different_index(&a, 0), None);
    assert_eq!(a.get_first_different_index(&b, 4), None);
}

#[test]
fn prerequisite_for_ineligible_positions() {
    // Already eligible: no prerequisite.
    let lights = Lights::from_str("0100").unwrap();
    assert_eq!(lights.need_light_to_flip(0), None);
    // Right neighbour unlit: it is the prerequisite.
    assert_eq!(lights.need_light_to_flip(2), Some(3));
    // Right neighbour lit but a later light lit too: that light must clear.
    let busy = Lights::from_str("01010").unwrap();
    assert_eq!(busy.need_light_to_flip(0), Some(3));
}

#[test]
fn error_messages_name_the_failure() {
    assert_eq!(SolverError::IndexOutOfBounds.message(), "index out of bounds");
    assert_eq!(SolverError::NoLight.message(), "not enough lights to process");
    assert_eq!(
        SolverError::TooManyLights.message(),
        "too much lights to process (max is 25)"
    );
}
