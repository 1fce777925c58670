use automaters::State;

#[test]
fn state_creation_partial_eq_copy() {
    let string_one: String = String::from("state");
    let string_two: String = String::from("");

    let state_one: State = State::new(string_one.clone());
    let state_one_bis: State = State::from_str(string_one.clone().as_str());
    let state_two: State = State::new(string_two);

    assert_eq!(state_one, state_one_bis);
    assert_eq!(state_one == state_two, false);
    assert_eq!(state_one.get_name(), &(string_one));
}
