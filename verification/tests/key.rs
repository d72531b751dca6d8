use worterbuch::error::WorterbuchError;
use worterbuch::key::{
    contains_char, join, parse_key, parse_pattern, parse_segments, split_str, KeySegment, Syntax,
};

fn reg(s: &str) -> KeySegment {
    KeySegment::Regular(s.to_owned())
}

#[test]
fn a_key_is_split_at_every_separator() {
    assert_eq!(vec!["a", "b", "c"], parse_segments("a/b/c").unwrap());
    assert_eq!(vec!["$SYS", "uptime"], parse_segments("$SYS/uptime").unwrap());
    assert_eq!(vec!["häl/lo"], parse_key("häl/lo", &Syntax { separator: '.', wildcard: '?', multi_wildcard: '#' }).unwrap());
    assert_eq!(vec!["", "a", "", "b", ""], split_str("/a//b/", '/'));
    assert_eq!(vec![""], split_str("", '/'));
    assert!(contains_char("a?b", '?'));
    assert!(!contains_char("ab", '?'));
}

#[test]
fn join_puts_one_separator_between_segments() {
    assert_eq!("a/b/c", join(&vec!["a".to_owned(), "b".to_owned(), "c".to_owned()], '/'));
    assert_eq!("a", join(&vec!["a".to_owned()], '/'));
    assert_eq!("", join(&vec![], '/'));
}

#[test]
fn a_key_with_a_wildcard_is_refused() {
    assert_eq!(
        Err(WorterbuchError::IllegalWildcard("a/?/c".to_owned())),
        parse_segments("a/?/c")
    );
    assert_eq!(
        Err(WorterbuchError::IllegalWildcard("a/b?/c".to_owned())),
        parse_segments("a/b?/c")
    );
    assert_eq!(
        Err(WorterbuchError::IllegalMultiWildcard("a/#".to_owned())),
        parse_segments("a/#")
    );
    assert_eq!(
        Err(WorterbuchError::IllegalMultiWildcard("a/#/?".to_owned())),
        parse_segments("a/#/?")
    );
    assert_eq!(
        Err(WorterbuchError::IllegalWildcard("a/#?".to_owned())),
        parse_segments("a/#?")
    );
}

#[test]
fn an_empty_segment_is_refused() {
    for key in ["", "/a", "a/", "a//b"] {
        assert_eq!(
            Err(WorterbuchError::Other(
                "empty key segment".to_owned(),
                key.to_owned()
            )),
            parse_segments(key)
        );
        assert_eq!(
            Err(WorterbuchError::Other(
                "empty key segment".to_owned(),
                key.to_owned()
            )),
            parse_pattern(key, &Syntax::default())
        );
    }
}

#[test]
fn a_pattern_is_classified_segment_by_segment() {
    assert_eq!(
        vec![reg("test"), KeySegment::Wildcard, reg("b"), KeySegment::MultiWildcard],
        KeySegment::parse("test/?/b/#")
    );
    assert_eq!(
        Ok(vec![reg("test"), KeySegment::Wildcard, reg("b"), KeySegment::MultiWildcard]),
        parse_pattern("test/?/b/#", &Syntax::default())
    );
    assert_eq!(Ok(vec![KeySegment::MultiWildcard]), parse_pattern("#", &Syntax::default()));
    let dots = Syntax { separator: '.', wildcard: '*', multi_wildcard: '>' };
    assert_eq!(
        Ok(vec![reg("a/?"), KeySegment::Wildcard, KeySegment::MultiWildcard]),
        parse_pattern("a/?.*.>", &dots)
    );
}

#[test]
fn a_multi_wildcard_must_be_the_last_segment() {
    assert_eq!(
        Err(WorterbuchError::MultiWildcardAtIllegalPosition("a/#/b".to_owned())),
        parse_pattern("a/#/b", &Syntax::default())
    );
    assert_eq!(
        Err(WorterbuchError::MultiWildcardAtIllegalPosition("#/#".to_owned())),
        parse_pattern("#/#", &Syntax::default())
    );
    assert_eq!(
        Err(WorterbuchError::IllegalWildcard("a/b?".to_owned())),
        parse_pattern("a/b?", &Syntax::default())
    );
    assert_eq!(
        Err(WorterbuchError::IllegalMultiWildcard("a/b#".to_owned())),
        parse_pattern("a/b#", &Syntax::default())
    );
}
