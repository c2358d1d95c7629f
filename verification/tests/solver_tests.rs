use lights_solver::{get_min_steps, Lights};

fn parse(text: &str) -> Lights {
    Lights::from_str(text).unwrap()
}

#[test]
fn examples_tests() {
    let lights = [
        ("1101", "0100"),
        ("101010", "010101"),
        ("11001001000", "10000110011"),
    ];
    let expected_outputs = [2, 26, 877];
    for index in 0..3 {
        let (start_lights, target_lights) = lights[index];
        let expected_output = expected_outputs[index];
        let start = Lights::from_str(start_lights);
        if start.is_err() {
            panic!(
                "Error when parsing the start from {}, due to {}",
                start_lights,
                start.unwrap_err().message()
            );
        }
        let target = Lights::from_str(target_lights);
        if target.is_err() {
            panic!(
                "Error when parsing the target from {}, due to {}",
                target_lights,
                target.unwrap_err().message()
            );
        }
        let nb_steps = get_min_steps(start.unwrap(), target.unwrap(), None);
        match nb_steps {
            Some(nb_steps) => assert_eq!(nb_steps, expected_output),
            None => panic!("Error: received None from get_min_steps..."),
        }
    }
}

#[test]
fn equal_rows_cost_nothing() {
    assert_eq!(get_min_steps(parse("0"), parse("0"), None), Some(0));
    assert_eq!(get_min_steps(parse("1101"), parse("1101"), Some(10)), Some(0));
    assert_eq!(get_min_steps(parse("101010"), parse("101010"), Some(0)), Some(0));
}

#[test]
fn mismatched_lengths_have_no_solution() {
    assert_eq!(get_min_steps(parse("10"), parse("101"), None), None);
    assert_eq!(get_min_steps(parse("11111"), parse("1"), Some(3)), None);
}

#[test]
fn repeated_calls_agree() {
    let first = get_min_steps(parse("11001001000"), parse("10000110011"), None);
    let second = get_min_steps(parse("11001001000"), parse("10000110011"), None);
    assert_eq!(first, second);
    let limited_first = get_min_steps(parse("101010"), parse("010101"), Some(7));
    let limited_second = get_min_steps(parse("101010"), parse("010101"), Some(7));
    assert_eq!(limited_first, limited_second);
}

#[test]
fn two_light_swap_baseline() {
    // Regression baseline: swapping "01" into "10" takes two flips.
    assert_eq!(get_min_steps(parse("01"), parse("10"), None), Some(2));
}

#[test]
fn single_light_costs_one_flip() {
    // The last (here: only) position is always eligible.
    assert_eq!(get_min_steps(parse("0"), parse("1"), None), Some(1));
    assert_eq!(get_min_steps(parse("1"), parse("0"), None), Some(1));
}

#[test]
fn limit_at_or_past_solution_changes_nothing() {
    assert_eq!(get_min_steps(parse("1101"), parse("0100"), Some(2)), Some(2));
    assert_eq!(get_min_steps(parse("1101"), parse("0100"), Some(1000)), Some(2));
    assert_eq!(get_min_steps(parse("101010"), parse("010101"), Some(26)), Some(26));
}

#[test]
fn limit_below_solution_stops_at_limit() {
    // A limit of zero stops the pass before any flip, even on unequal rows.
    assert_eq!(get_min_steps(parse("01"), parse("10"), Some(0)), Some(0));
    let capped = get_min_steps(parse("1101"), parse("0100"), Some(1)).unwrap();
    assert!(capped <= 1);
    assert_eq!(capped, 1);
    assert_eq!(get_min_steps(parse("101010"), parse("010101"), Some(25)), Some(25));
    assert_eq!(get_min_steps(parse("11001001000"), parse("10000110011"), Some(100)), Some(100));
}
