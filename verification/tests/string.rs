use euler::string::is_palindrome;

#[test]
fn test_is_palindrome() {
    assert_eq!(true, is_palindrome(""));
    assert_eq!(false, is_palindrome("not a palindrome"));
    assert_eq!(true, is_palindrome("())("));
    assert_eq!(true, is_palindrome("a"));
    assert_eq!(true, is_palindrome("✅"));
    assert_eq!(true, is_palindrome("✅❌✅"));
    assert_eq!(false, is_palindrome("✅❌"));
}

#[test]
fn is_palindrome_compares_whole_characters() {
    assert_eq!(true, is_palindrome("abba"));
    assert_eq!(true, is_palindrome("abcba"));
    assert_eq!(false, is_palindrome("abca"));
    assert_eq!(false, is_palindrome("ab"));
    assert_eq!(true, is_palindrome("9009"));
    assert_eq!(false, is_palindrome("9019"));
    assert_eq!(true, is_palindrome("\u{e9}a\u{e9}"));
    assert_eq!(false, is_palindrome("a\u{e9}"));
}
