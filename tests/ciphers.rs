use the_algorithms_rust::theoretical_rot13;

#[test]
fn test_single_letter() {
    assert_eq!("n", theoretical_rot13("a"));
}

#[test]
fn test_bunch_of_letters() {
    assert_eq!("nop", theoretical_rot13("abc"));
}

#[test]
fn test_non_ascii() {
    assert_eq!("😀ab", theoretical_rot13("😀no"));
}

#[test]
fn test_twice() {
    assert_eq!("abcd", theoretical_rot13(&theoretical_rot13("abcd")));
}

#[test]
fn rot13_leaves_uppercase_digits_and_punctuation() {
    assert_eq!("Hryyb, Wbeyq 42!", theoretical_rot13("Hello, World 42!"));
    assert_eq!("ABC xyz", theoretical_rot13("ABC klm"));
    assert_eq!("", theoretical_rot13(""));
}

#[test]
fn rot13_wraps_around_the_alphabet() {
    assert_eq!("nopqrstuvwxyzabcdefghijklm", theoretical_rot13("abcdefghijklmnopqrstuvwxyz"));
}
