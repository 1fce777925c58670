use automaters::Symbol;

#[test]
fn symbol_creation_partial_eq_copy() {
    let string_one: String = String::from("Symbol");
    let string_two: String = String::from("Symbol two");

    let symbol_one: Symbol = Symbol::new(string_one.clone());
    let symbol_one_bis: Symbol = Symbol::from_str(string_one.clone().as_str());
    let symbol_two: Symbol = Symbol::new(string_two);

    assert_eq!(symbol_one, symbol_one_bis);
    assert_eq!(symbol_one == symbol_two, false);
    assert_eq!(symbol_one.get_value(), &(string_one));
}
