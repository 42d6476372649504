use kowito_json::Scratchpad;

#[test]
fn test_scratchpad_initialization() {
    let mut pad = Scratchpad::new(10);
    assert_eq!(pad.get_mut_tape().len(), 10);
    assert!(pad.get_mut_tape().iter().all(|&x| x == 0));
}

#[test]
fn test_scratchpad_mutation() {
    let mut pad = Scratchpad::new(5);
    let tape = pad.get_mut_tape();
    tape[0] = 42;
    tape[4] = 99;
    assert_eq!(pad.get_mut_tape()[0], 42);
    assert_eq!(pad.get_mut_tape()[4], 99);
}

#[test]
fn scratchpad_empty_capacity() {
    let mut pad = Scratchpad::new(0);
    assert!(pad.get_mut_tape().is_empty());
}
