use rust_notes::bigger_module::submodule::submodule_function;
use rust_notes::modules;
use rust_notes::ownership::{
    append, calculate_length, calculate_length_take_ownership, check_length, gives_ownership,
    takes_and_gives_back, takes_ownership,
};
use rust_notes::slices::{first_word, slices};

#[test]
fn length_of_borrowed_string() {
    let s = String::from("hello");
    assert_eq!(calculate_length(&s), 5);
    assert_eq!(s, "hello");
    assert_eq!(calculate_length(&String::new()), 0);
    assert_eq!(calculate_length(&String::from("héllo")), 6);
}

#[test]
fn length_with_ownership_handed_back() {
    let (s, len) = calculate_length_take_ownership(String::from("hello, world!"));
    assert_eq!(s, "hello, world!");
    assert_eq!(len, 13);
}

#[test]
fn string_comes_back_unchanged() {
    assert_eq!(takes_and_gives_back(String::from("yours")), "yours");
}

#[test]
fn nonempty_string_is_taken() {
    takes_ownership(String::from("x"));
}

#[test]
fn owned_string_text() {
    assert_eq!(gives_ownership(), "I own this, but not for long...");
}

#[test]
fn length_check() {
    let s = String::from("hello");
    assert!(check_length(&s, 5));
    assert!(!check_length(&s, 4));
}

#[test]
fn append_to_string() {
    let mut s = String::from("hello");
    append(&mut s, String::from(" world"));
    assert_eq!(s, "hello world");
    append(&mut s, String::new());
    assert_eq!(s, "hello world");
}

#[test]
fn first_word_cases() {
    assert_eq!(first_word("some string literal"), "some");
    assert_eq!(first_word("hello"), "hello");
    assert_eq!(first_word(""), "");
    assert_eq!(first_word(" leading"), "");
    assert_eq!(first_word("héllo wörld"), "héllo");
    let s = String::from("some string literal");
    assert_eq!(first_word(&s), "some");
}

#[test]
fn slices_run() {
    slices();
}

#[test]
fn modules_run() {
    submodule_function();
    modules();
}
