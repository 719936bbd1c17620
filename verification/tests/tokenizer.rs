use arff::text::{chars_of, split_char, string_of};
use arff::tokenize::{collect_tokens, next_quoted};

fn tokens(line: &str, sep: char) -> Vec<String> {
    let cs = chars_of(line);
    let frags = split_char(&cs, sep);
    let toks = collect_tokens(&frags, 0, sep);
    let mut out: Vec<String> = Vec::new();
    for t in &toks {
        out.push(string_of(t));
    }
    out
}

#[test]
fn quoted_token_rejoined_across_fragments() {
    assert_eq!(tokens("'a,b',c", ','), vec!["a,b".to_string(), "c".to_string()]);
}

#[test]
fn plain_tokens_returned_verbatim() {
    assert_eq!(tokens("plain,text", ','), vec!["plain".to_string(), "text".to_string()]);
}

#[test]
fn empty_fragments_are_skipped() {
    assert_eq!(tokens(",,a,,b,", ','), vec!["a".to_string(), "b".to_string()]);
}

#[test]
fn self_contained_quoted_token_is_unquoted() {
    assert_eq!(tokens("'abc',d", ','), vec!["abc".to_string(), "d".to_string()]);
}

#[test]
fn unterminated_quote_yields_no_token() {
    let cs = chars_of("'never closed");
    let frags = split_char(&cs, ' ');
    assert!(next_quoted(&frags, 0, ' ').is_none());
    assert!(tokens("a,'open", ',') == vec!["a".to_string()]);
}

#[test]
fn lone_quote_consumes_rest_without_underflow() {
    assert_eq!(tokens("',x'", ','), vec![",x".to_string()]);
    assert!(tokens("'", ',').is_empty());
}

#[test]
fn next_quoted_reports_resume_index() {
    let cs = chars_of("a b c");
    let frags = split_char(&cs, ' ');
    let (tok, next) = next_quoted(&frags, 0, ' ').unwrap();
    assert_eq!(string_of(&tok), "a");
    assert_eq!(next, 1);
    let (tok2, next2) = next_quoted(&frags, next, ' ').unwrap();
    assert_eq!(string_of(&tok2), "b");
    assert_eq!(next2, 2);
}
