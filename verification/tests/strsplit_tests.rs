use my_redis::strsplit::StrSplit;
use my_redis::until_char;

fn pieces<'a>(haystack: &'a str, delimiter: &str) -> Vec<&'a str> {
    let mut letters = StrSplit::new(haystack, delimiter);
    let mut got: Vec<&str> = Vec::new();
    while let Some(piece) = letters.next() {
        got.push(piece);
    }
    got
}

#[test]
fn test_until_char() {
    assert_eq!(until_char("hello world", 'o'), "hell");
}

#[test]
fn it_works() {
    let haystack = "a b c d e";
    assert!(pieces(haystack, " ") == vec!["a", "b", "c", "d", "e"]);
}

#[test]
fn it_works_tail() {
    let haystack = "a b c d ";
    assert!(pieces(haystack, " ") == vec!["a", "b", "c", "d", ""]);
}

#[test]
fn it_works_head() {
    let haystack = " b c d e";
    assert!(pieces(haystack, " ") == vec!["", "b", "c", "d", "e"]);
}
