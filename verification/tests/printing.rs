use project_s::types::printing::variable_letters;

#[test]
fn letters() {
    assert_eq!(variable_letters(0), "'a");
    assert_eq!(variable_letters(25), "'z");
    assert_eq!(variable_letters(26), "'a2");
    assert_eq!(variable_letters(27), "'b2");
    assert_eq!(variable_letters(28), "'c2");
    assert_eq!(variable_letters(29), "'d2");
    assert_eq!(variable_letters(30), "'e2");
    assert_eq!(variable_letters(31), "'f2");
    assert_eq!(variable_letters(51), "'z2");
    assert_eq!(variable_letters(52), "'a3");
    assert_eq!(variable_letters(53), "'b3");
    assert_eq!(variable_letters(54), "'c3");
    assert_eq!(variable_letters(55), "'d3");
    assert_eq!(variable_letters(56), "'e3");
    assert_eq!(variable_letters(57), "'f3");
}

#[test]
fn letters_past_ten_rounds() {
    assert_eq!(variable_letters(26 * 9), "'a10");
    assert_eq!(variable_letters(26 * 9 + 25), "'z10");
}
