use martian_sand::element::find_element;

#[test]
fn find_element_gives_the_first_match() {
    let names = vec![String::from("Sand"), String::from("Water"), String::from("Sand")];
    assert_eq!(find_element(&names, &String::from("Sand")), Some(0));
    assert_eq!(find_element(&names, &String::from("Water")), Some(1));
}

#[test]
fn find_element_reports_a_missing_name() {
    let names = vec![String::from("Sand")];
    assert_eq!(find_element(&names, &String::from("sand")), None);
    assert_eq!(find_element(&vec![], &String::from("Sand")), None);
}
