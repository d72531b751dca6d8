//! Keys and patterns.
//!
//! A key is a path of regular segments joined by the separator. A pattern is
//! a path in which a segment may also be the wildcard, which stands for
//! exactly one segment, or, as its last segment, the multi-wildcard, which
//! stands for one or more segments.

use crate::error::{ErrorView, WorterbuchError};
use crate::text::{char_string, push_char};
use vstd::prelude::*;

verus! {

pub type RegularKeySegment = String;

/// The three characters that give keys and patterns their structure.
#[derive(Debug, Clone, Copy, PartialEq, Eq, Structural)]
pub struct Syntax {
    pub separator: char,
    pub wildcard: char,
    pub multi_wildcard: char,
}

pub const SEPARATOR: char = '/';

pub const WILDCARD: char = '?';

pub const MULTI_WILDCARD: char = '#';

/// One segment of a pattern.
#[derive(Debug, Clone, PartialEq, Eq, Hash)]
pub enum KeySegment {
    Regular(RegularKeySegment),
    Wildcard,
    MultiWildcard,
}

/// One segment of a pattern, as a mathematical value.
pub enum SegmentView {
    Regular(Seq<char>),
    Wildcard,
    MultiWildcard,
}

impl View for KeySegment {
    type V = SegmentView;

    open spec fn view(&self) -> SegmentView {
        match self {
            KeySegment::Regular(s) => SegmentView::Regular(s@),
            KeySegment::Wildcard => SegmentView::Wildcard,
            KeySegment::MultiWildcard => SegmentView::MultiWildcard,
        }
    }
}

/// A path of segments as a sequence of character sequences.
pub open spec fn path_view(path: Seq<String>) -> Seq<Seq<char>> {
    path.map_values(|s: String| s@)
}

/// A pattern as a sequence of segment values.
pub open spec fn pattern_view(pattern: Seq<KeySegment>) -> Seq<SegmentView> {
    pattern.map_values(|s: KeySegment| s@)
}

/// The pieces of `s` between the occurrences of `separator`. There is always
/// at least one piece; a piece is empty where `s` starts or ends with the
/// separator or holds two in a row.
pub open spec fn split(s: Seq<char>, separator: char) -> Seq<Seq<char>>
    decreases s.len(),
{
    if s.len() == 0 {
        seq![Seq::empty()]
    } else if s.last() == separator {
        split(s.drop_last(), separator).push(Seq::empty())
    } else {
        let pieces = split(s.drop_last(), separator);
        pieces.drop_last().push(pieces.last().push(s.last()))
    }
}

/// The pieces joined again, with one separator between neighbours.
pub open spec fn joined(path: Seq<Seq<char>>, separator: char) -> Seq<char>
    decreases path.len(),
{
    if path.len() == 0 {
        Seq::empty()
    } else if path.len() == 1 {
        path[0]
    } else {
        joined(path.drop_last(), separator).push(separator) + path.last()
    }
}

/// A regular segment is not empty and holds none of the three structural
/// characters.
pub open spec fn is_regular(segment: Seq<char>, syntax: Syntax) -> bool {
    &&& segment.len() > 0
    &&& !segment.contains(syntax.separator)
    &&& !segment.contains(syntax.wildcard)
    &&& !segment.contains(syntax.multi_wildcard)
}

/// A key is a path of regular segments; it has at least one.
pub open spec fn is_key(path: Seq<Seq<char>>, syntax: Syntax) -> bool {
    &&& path.len() > 0
    &&& forall|i: int| 0 <= i < path.len() ==> is_regular(#[trigger] path[i], syntax)
}

/// The segment-by-segment match of a pattern against a path.
///
/// A regular segment matches the equal segment, the wildcard matches any one
/// segment, and the multi-wildcard, where it is the last segment of the
/// pattern, matches any one or more segments. A multi-wildcard before the end
/// of a pattern matches nothing.
pub open spec fn pattern_matches(pattern: Seq<SegmentView>, path: Seq<Seq<char>>) -> bool
    decreases pattern.len(),
{
    if pattern.len() == 0 {
        path.len() == 0
    } else {
        match pattern[0] {
            SegmentView::MultiWildcard => pattern.len() == 1 && path.len() >= 1,
            SegmentView::Wildcard => path.len() >= 1 && pattern_matches(
                pattern.drop_first(),
                path.drop_first(),
            ),
            SegmentView::Regular(s) => path.len() >= 1 && path[0] == s && pattern_matches(
                pattern.drop_first(),
                path.drop_first(),
            ),
        }
    }
}

/// What is wrong with a piece of a key, if anything: it is empty, or it
/// holds the wildcard, or it holds the multi-wildcard. The first of these
/// that applies is reported.
pub open spec fn key_piece_error(piece: Seq<char>, key: Seq<char>, syntax: Syntax) -> Option<
    ErrorView,
> {
    if piece.len() == 0 {
        Some(ErrorView::Other(empty_segment_cause(), key))
    } else if piece.contains(syntax.wildcard) {
        Some(ErrorView::IllegalWildcard(key))
    } else if piece.contains(syntax.multi_wildcard) {
        Some(ErrorView::IllegalMultiWildcard(key))
    } else {
        None
    }
}

/// What is wrong with the piece at `index` of a pattern, if anything. A piece
/// that is exactly the multi-wildcard must be the last one. A piece that
/// holds a wildcard character among others is no segment at all.
pub open spec fn pattern_piece_error(
    pieces: Seq<Seq<char>>,
    index: int,
    pattern: Seq<char>,
    syntax: Syntax,
) -> Option<ErrorView> {
    let piece = pieces[index];
    if piece.len() == 0 {
        Some(ErrorView::Other(empty_segment_cause(), pattern))
    } else if piece == seq![syntax.wildcard] {
        None
    } else if piece == seq![syntax.multi_wildcard] {
        if index + 1 < pieces.len() {
            Some(ErrorView::MultiWildcardAtIllegalPosition(pattern))
        } else {
            None
        }
    } else if piece.contains(syntax.wildcard) {
        Some(ErrorView::IllegalWildcard(pattern))
    } else if piece.contains(syntax.multi_wildcard) {
        Some(ErrorView::IllegalMultiWildcard(pattern))
    } else {
        None
    }
}

/// The cause that is reported for an empty segment.
pub open spec fn empty_segment_cause() -> Seq<char> {
    "empty key segment"@
}

/// The error of the first piece of a key that has one.
pub open spec fn key_error(key: Seq<char>, syntax: Syntax) -> Option<ErrorView> {
    let pieces = split(key, syntax.separator);
    if exists|i: int| 0 <= i < pieces.len() && key_piece_error(pieces[i], key, syntax) is Some {
        let first = choose|i: int|
            0 <= i < pieces.len() && key_piece_error(pieces[i], key, syntax) is Some && forall|j: int|
                0 <= j < i ==> key_piece_error(pieces[j], key, syntax) is None;
        key_piece_error(pieces[first], key, syntax)
    } else {
        None
    }
}

/// The error of the first piece of a pattern that has one.
pub open spec fn pattern_error(pattern: Seq<char>, syntax: Syntax) -> Option<ErrorView> {
    let pieces = split(pattern, syntax.separator);
    if exists|i: int|
        0 <= i < pieces.len() && pattern_piece_error(pieces, i, pattern, syntax) is Some {
        let first = choose|i: int|
            0 <= i < pieces.len() && pattern_piece_error(pieces, i, pattern, syntax) is Some
                && forall|j: int|
                0 <= j < i ==> pattern_piece_error(pieces, j, pattern, syntax) is None;
        pattern_piece_error(pieces, first, pattern, syntax)
    } else {
        None
    }
}

/// The segment that a piece of a pattern stands for.
pub open spec fn classify(piece: Seq<char>, syntax: Syntax) -> SegmentView {
    if piece == seq![syntax.wildcard] {
        SegmentView::Wildcard
    } else if piece == seq![syntax.multi_wildcard] {
        SegmentView::MultiWildcard
    } else {
        SegmentView::Regular(piece)
    }
}

/// The segments that the pieces of a pattern stand for.
pub open spec fn classified(pieces: Seq<Seq<char>>, syntax: Syntax) -> Seq<SegmentView> {
    pieces.map_values(|p: Seq<char>| classify(p, syntax))
}

impl Syntax {
    /// The three characters differ.
    pub open spec fn wf(self) -> bool {
        &&& self.separator != self.wildcard
        &&& self.separator != self.multi_wildcard
        &&& self.wildcard != self.multi_wildcard
    }

    /// `/` separates, `?` is the wildcard and `#` the multi-wildcard.
    pub open spec fn standard() -> Syntax {
        Syntax { separator: '/', wildcard: '?', multi_wildcard: '#' }
    }
}

impl Default for Syntax {
    fn default() -> (syntax: Self)
        ensures
            syntax == Syntax::standard(),
            syntax.wf(),
    {
        Syntax { separator: SEPARATOR, wildcard: WILDCARD, multi_wildcard: MULTI_WILDCARD }
    }
}

/// Whether `c` occurs in `s`.
pub fn contains_char(s: &str, c: char) -> (found: bool)
    ensures
        found == s@.contains(c),
{
    for x in it: s.chars()
        invariant
            it.seq() == s@,
            forall|j: int| 0 <= j < it.index() ==> s@[j] != c,
    {
        if x == c {
            return true;
        }
    }
    false
}

/// Whether `s` is the one character `c`.
pub fn is_char(s: &str, c: char) -> (same: bool)
    ensures
        same == (s@ == seq![c]),
{
    let n = s.unicode_len();
    if n == 1 {
        let same = s.get_char(0) == c;
        assert(same == (s@ =~= seq![c]));
        same
    } else {
        false
    }
}

/// Cuts `s` at every separator.
pub fn split_str(s: &str, separator: char) -> (pieces: Vec<String>)
    ensures
        path_view(pieces@) == split(s@, separator),
        pieces@.len() >= 1,
{
    let mut pieces: Vec<String> = Vec::new();
    let mut current = String::new();
    proof {
        assert(s@.subrange(0, 0) =~= Seq::<char>::empty());
        assert(path_view(pieces@).push(current@) =~= split(s@.subrange(0, 0), separator));
    }
    for c in it: s.chars()
        invariant
            it.seq() == s@,
            path_view(pieces@).push(current@) == split(
                s@.subrange(0, it.index() as int),
                separator,
            ),
    {
        let ghost done = path_view(pieces@);
        let ghost before = current@;
        proof {
            let upto = s@.subrange(0, it.index() + 1);
            assert(upto.drop_last() =~= s@.subrange(0, it.index() as int));
            assert(upto.last() == c);
            assert(done.push(before).drop_last() =~= done);
        }
        if c == separator {
            pieces.push(current);
            current = String::new();
            proof {
                assert(path_view(pieces@) =~= done.push(before));
            }
        } else {
            push_char(&mut current, c);
        }
    }
    let ghost done = path_view(pieces@);
    let ghost last = current@;
    pieces.push(current);
    proof {
        assert(path_view(pieces@) =~= done.push(last));
        assert(s@.subrange(0, s@.len() as int) =~= s@);
    }
    pieces
}

/// Joins the segments of a path with the separator.
pub fn join(path: &Vec<String>, separator: char) -> (key: String)
    ensures
        key@ == joined(path_view(path@), separator),
{
    let mut key = String::new();
    let mut i: usize = 0;
    let sep = char_string(separator);
    while i < path.len()
        invariant
            i <= path.len(),
            sep@ == seq![separator],
            key@ == joined(path_view(path@).subrange(0, i as int), separator),
        decreases path.len() - i,
    {
        proof {
            let upto = path_view(path@).subrange(0, i + 1);
            assert(upto.drop_last() =~= path_view(path@).subrange(0, i as int));
            assert(upto.last() == path[i as int]@);
        }
        if i > 0 {
            key = key.concat(sep.as_str());
            key = key.concat(path[i].as_str());
            proof {
                let before = joined(path_view(path@).subrange(0, i as int), separator);
                assert(before + seq![separator] + path[i as int]@ =~= before.push(separator)
                    + path[i as int]@);
            }
        } else {
            key = key.concat(path[i].as_str());
            assert(key@ =~= path[i as int]@);
        }
        i += 1;
    }
    assert(path_view(path@).subrange(0, i as int) =~= path_view(path@));
    key
}

/// The segments of a key.
///
/// Fails where a piece of the key is not a regular segment; the error is
/// that of the first such piece.
pub fn parse_key(key: &str, syntax: &Syntax) -> (r: Result<Vec<RegularKeySegment>, WorterbuchError>)
    requires
        syntax.wf(),
    ensures
        match r {
            Ok(path) => key_error(key@, *syntax) is None && path_view(path@) == split(
                key@,
                syntax.separator,
            ) && is_key(path_view(path@), *syntax),
            Err(e) => key_error(key@, *syntax) == Some(e@),
        },
{
    let pieces = split_str(key, syntax.separator);
    let mut i: usize = 0;
    while i < pieces.len()
        invariant
            i <= pieces.len(),
            syntax.wf(),
            path_view(pieces@) == split(key@, syntax.separator),
            forall|j: int|
                0 <= j < i ==> key_piece_error(#[trigger] path_view(pieces@)[j], key@, *syntax)
                    is None,
        decreases pieces.len() - i,
    {
        let piece = pieces[i].as_str();
        assert(piece@ == path_view(pieces@)[i as int]);
        let error = if piece.is_empty() {
            proof {
                reveal_strlit("empty key segment");
            }
            Some(WorterbuchError::Other("empty key segment".to_owned(), key.to_owned()))
        } else if contains_char(piece, syntax.wildcard) {
            Some(WorterbuchError::IllegalWildcard(key.to_owned()))
        } else if contains_char(piece, syntax.multi_wildcard) {
            Some(WorterbuchError::IllegalMultiWildcard(key.to_owned()))
        } else {
            None
        };
        if let Some(e) = error {
            assert(key_piece_error(path_view(pieces@)[i as int], key@, *syntax) == Some(e@));
            return Err(e);
        }
        i += 1;
    }
    proof {
        let path = path_view(pieces@);
        assert forall|j: int| 0 <= j < path.len() implies is_regular(
            #[trigger] path[j],
            *syntax,
        ) by {
            assert(key_piece_error(path[j], key@, *syntax) is None);
            lemma_piece_has_no_separator(key@, syntax.separator, j);
        }
    }
    Ok(pieces)
}

/// No piece of a split string holds the separator.
pub proof fn lemma_piece_has_no_separator(s: Seq<char>, separator: char, index: int)
    requires
        0 <= index < split(s, separator).len(),
    ensures
        !split(s, separator)[index].contains(separator),
    decreases s.len(),
{
    if s.len() == 0 {
    } else {
        let before = split(s.drop_last(), separator);
        lemma_split_len(s.drop_last(), separator);
        if s.last() == separator {
            if index < before.len() {
                lemma_piece_has_no_separator(s.drop_last(), separator, index);
            }
        } else {
            if index < before.len() - 1 {
                lemma_piece_has_no_separator(s.drop_last(), separator, index);
            } else {
                lemma_piece_has_no_separator(s.drop_last(), separator, before.len() - 1);
                let piece = before.last().push(s.last());
                assert forall|k: int| 0 <= k < piece.len() implies piece[k] != separator by {
                    if k < before.last().len() {
                        assert(before.last()[k] == piece[k]);
                    }
                }
            }
        }
    }
}

/// A split string has at least one piece.
pub proof fn lemma_split_len(s: Seq<char>, separator: char)
    ensures
        split(s, separator).len() >= 1,
    decreases s.len(),
{
    if s.len() > 0 {
        lemma_split_len(s.drop_last(), separator);
    }
}

/// The segments of a key written with `/`, `?` and `#`.
pub fn parse_segments(key: &str) -> (r: Result<Vec<RegularKeySegment>, WorterbuchError>)
    ensures
        match r {
            Ok(path) => key_error(key@, Syntax::standard()) is None && path_view(path@) == split(
                key@,
                '/',
            ) && is_key(path_view(path@), Syntax::standard()),
            Err(e) => key_error(key@, Syntax::standard()) == Some(e@),
        },
{
    let syntax = Syntax::default();
    parse_key(key, &syntax)
}

/// The segments of a pattern.
///
/// Fails where a piece of the pattern is no segment, or where the
/// multi-wildcard stands before the last segment; the error is that of the
/// first such piece.
pub fn parse_pattern(pattern: &str, syntax: &Syntax) -> (r: Result<Vec<KeySegment>, WorterbuchError>)
    requires
        syntax.wf(),
    ensures
        match r {
            Ok(segments) => pattern_error(pattern@, *syntax) is None && pattern_view(segments@)
                == classified(split(pattern@, syntax.separator), *syntax),
            Err(e) => pattern_error(pattern@, *syntax) == Some(e@),
        },
{
    let pieces = split_str(pattern, syntax.separator);
    let mut segments: Vec<KeySegment> = Vec::new();
    let mut i: usize = 0;
    while i < pieces.len()
        invariant
            i <= pieces.len(),
            syntax.wf(),
            path_view(pieces@) == split(pattern@, syntax.separator),
            forall|j: int|
                0 <= j < i ==> (#[trigger] pattern_piece_error(
                    path_view(pieces@),
                    j,
                    pattern@,
                    *syntax,
                )) is None,
            pattern_view(segments@) == classified(path_view(pieces@).subrange(0, i as int), *syntax),
        decreases pieces.len() - i,
    {
        let piece = pieces[i].as_str();
        assert(piece@ == path_view(pieces@)[i as int]);
        let ghost before = pattern_view(segments@);
        if piece.is_empty() {
            proof {
                reveal_strlit("empty key segment");
            }
            let e = WorterbuchError::Other("empty key segment".to_owned(), pattern.to_owned());
            assert(pattern_piece_error(path_view(pieces@), i as int, pattern@, *syntax) == Some(
                e@,
            ));
            return Err(e);
        } else if is_char(piece, syntax.wildcard) {
            segments.push(KeySegment::Wildcard);
        } else if is_char(piece, syntax.multi_wildcard) {
            if i + 1 < pieces.len() {
                let e = WorterbuchError::MultiWildcardAtIllegalPosition(pattern.to_owned());
                assert(pattern_piece_error(path_view(pieces@), i as int, pattern@, *syntax)
                    == Some(e@));
                return Err(e);
            }
            segments.push(KeySegment::MultiWildcard);
        } else if contains_char(piece, syntax.wildcard) {
            let e = WorterbuchError::IllegalWildcard(pattern.to_owned());
            assert(pattern_piece_error(path_view(pieces@), i as int, pattern@, *syntax) == Some(
                e@,
            ));
            return Err(e);
        } else if contains_char(piece, syntax.multi_wildcard) {
            let e = WorterbuchError::IllegalMultiWildcard(pattern.to_owned());
            assert(pattern_piece_error(path_view(pieces@), i as int, pattern@, *syntax) == Some(
                e@,
            ));
            return Err(e);
        } else {
            segments.push(KeySegment::Regular(piece.to_owned()));
        }
        proof {
            let upto = path_view(pieces@).subrange(0, i + 1);
            assert(pattern_piece_error(path_view(pieces@), i as int, pattern@, *syntax) is None);
            assert(pattern_view(segments@) =~= before.push(classify(piece@, *syntax)));
            assert(classified(upto, *syntax) =~= classified(
                path_view(pieces@).subrange(0, i as int),
                *syntax,
            ).push(classify(piece@, *syntax)));
        }
        i += 1;
    }
    assert(path_view(pieces@).subrange(0, i as int) =~= path_view(pieces@));
    Ok(segments)
}

impl KeySegment {
    /// The segments that the pieces of `pattern` stand for, piece by piece
    /// and without any check, for a pattern written with `/`, `?` and `#`.
    pub fn parse(pattern: &str) -> (segments: Vec<KeySegment>)
        ensures
            pattern_view(segments@) == classified(split(pattern@, '/'), Syntax::standard()),
    {
        let syntax = Syntax::default();
        let pieces = split_str(pattern, syntax.separator);
        let mut segments: Vec<KeySegment> = Vec::new();
        let mut i: usize = 0;
        while i < pieces.len()
            invariant
                i <= pieces.len(),
                syntax == Syntax::standard(),
                pattern_view(segments@) == classified(
                    path_view(pieces@).subrange(0, i as int),
                    syntax,
                ),
            decreases pieces.len() - i,
        {
            let piece = pieces[i].as_str();
            assert(piece@ == path_view(pieces@)[i as int]);
            let ghost before = pattern_view(segments@);
            if is_char(piece, syntax.wildcard) {
                segments.push(KeySegment::Wildcard);
            } else if is_char(piece, syntax.multi_wildcard) {
                segments.push(KeySegment::MultiWildcard);
            } else {
                segments.push(KeySegment::Regular(piece.to_owned()));
            }
            proof {
                let upto = path_view(pieces@).subrange(0, i + 1);
                assert(pattern_view(segments@) =~= before.push(classify(piece@, syntax)));
                assert(classified(upto, syntax) =~= classified(
                    path_view(pieces@).subrange(0, i as int),
                    syntax,
                ).push(classify(piece@, syntax)));
            }
            i += 1;
        }
        assert(path_view(pieces@).subrange(0, i as int) =~= path_view(pieces@));
        segments
    }
}

} // verus!
