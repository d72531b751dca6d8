//! Authorization: what the claims of a client allow.
//!
//! The claims hold rules, each a privilege with a list of patterns. A
//! request for a key or pattern is allowed where a rule of the privilege that
//! the request needs holds a pattern that covers it: one that matches every
//! key that the request can touch.

use crate::error::{AuthorizationError, AuthorizationErrorView, AuthorizationResult, Privilege};
use crate::key::{pattern_matches, pattern_view, split, classified, KeySegment, SegmentView, Syntax};
use vstd::prelude::*;

verus! {

pub type RequestPattern = String;

/// The patterns that one privilege extends to.
#[derive(Debug, Clone, PartialEq, Eq)]
pub struct Rule {
    pub privilege: Privilege,
    pub patterns: Vec<RequestPattern>,
}

/// What a token says of its bearer.
#[derive(Debug, Clone, PartialEq, Eq)]
pub struct JwtClaims {
    pub sub: String,
    pub name: String,
    pub exp: u64,
    pub worterbuch_privileges: Vec<Rule>,
}

/// Whether the pattern `rule` covers the pattern `request`, segment by
/// segment: a regular segment covers the same segment, the wildcard covers
/// a regular segment and the wildcard, and the multi-wildcard at the end of
/// the rule covers whatever is left of the request, which must be at least
/// one segment.
pub open spec fn covers(rule: Seq<SegmentView>, request: Seq<SegmentView>) -> bool
    decreases rule.len(),
{
    if rule.len() == 0 {
        request.len() == 0
    } else if request.len() == 0 {
        false
    } else {
        match rule[0] {
            SegmentView::MultiWildcard => rule.len() == 1,
            SegmentView::Wildcard => request[0] != SegmentView::MultiWildcard && covers(
                rule.drop_first(),
                request.drop_first(),
            ),
            SegmentView::Regular(s) => request[0] == SegmentView::Regular(s) && covers(
                rule.drop_first(),
                request.drop_first(),
            ),
        }
    }
}

/// A rule that covers a request matches every key that the request matches.
pub proof fn lemma_covers_sound(
    rule: Seq<SegmentView>,
    request: Seq<SegmentView>,
    key: Seq<Seq<char>>,
)
    requires
        covers(rule, request),
        pattern_matches(request, key),
    ensures
        pattern_matches(rule, key),
    decreases rule.len(),
{
    if rule.len() > 0 && request.len() > 0 {
        match rule[0] {
            SegmentView::MultiWildcard => {},
            _ => {
                lemma_covers_sound(rule.drop_first(), request.drop_first(), key.drop_first());
            },
        }
    }
}

/// The multi-wildcard stands nowhere but at the end of the pattern.
pub open spec fn well_formed(pattern: Seq<SegmentView>) -> bool {
    forall|i: int| 0 <= i < pattern.len() - 1 ==> pattern[i] != SegmentView::MultiWildcard
}

/// A segment other than `s`.
pub open spec fn other_than(s: Seq<char>) -> Seq<char> {
    if s == seq!['x'] {
        seq!['y']
    } else {
        seq!['x']
    }
}

/// `other_than(s)` differs from `s`.
pub proof fn lemma_other_than(s: Seq<char>)
    ensures
        other_than(s) != s,
{
    if s == seq!['x'] {
        assert(seq!['y'][0] != seq!['x'][0]);
    }
}

/// A path that a well-formed pattern matches.
pub open spec fn instance(pattern: Seq<SegmentView>) -> Seq<Seq<char>>
    decreases pattern.len(),
{
    if pattern.len() == 0 {
        Seq::empty()
    } else {
        match pattern[0] {
            SegmentView::Regular(s) => seq![s] + instance(pattern.drop_first()),
            SegmentView::Wildcard => seq![seq!['x']] + instance(pattern.drop_first()),
            SegmentView::MultiWildcard => seq![seq!['x']],
        }
    }
}

/// A well-formed pattern matches its instance.
pub proof fn lemma_instance(pattern: Seq<SegmentView>)
    requires
        well_formed(pattern),
    ensures
        pattern_matches(pattern, instance(pattern)),
        pattern.len() > 0 ==> instance(pattern).len() > 0,
    decreases pattern.len(),
{
    if pattern.len() > 0 {
        let rest = pattern.drop_first();
        assert forall|i: int| 0 <= i < rest.len() - 1 implies rest[i]
            != SegmentView::MultiWildcard by {
            assert(rest[i] == pattern[i + 1]);
        }
        lemma_instance(rest);
        match pattern[0] {
            SegmentView::MultiWildcard => {
                if pattern.len() > 1 {
                    assert(pattern[0] != SegmentView::MultiWildcard);
                }
            },
            SegmentView::Regular(s) => {
                assert((seq![s] + instance(rest)).drop_first() =~= instance(rest));
            },
            SegmentView::Wildcard => {
                assert((seq![seq!['x']] + instance(rest)).drop_first() =~= instance(rest));
            },
        }
    }
}

/// A rule that does not cover a well-formed request misses a key that the
/// request matches. The result is such a key.
pub proof fn lemma_covers_complete(rule: Seq<SegmentView>, request: Seq<SegmentView>) -> (key: Seq<
    Seq<char>,
>)
    requires
        well_formed(request),
        !covers(rule, request),
    ensures
        pattern_matches(request, key),
        !pattern_matches(rule, key),
    decreases rule.len(),
{
    lemma_instance(request);
    if rule.len() == 0 || request.len() == 0 {
        instance(request)
    } else {
        let rule_rest = rule.drop_first();
        let request_rest = request.drop_first();
        assert forall|i: int| 0 <= i < request_rest.len() - 1 implies request_rest[i]
            != SegmentView::MultiWildcard by {
            assert(request_rest[i] == request[i + 1]);
        }
        lemma_instance(request_rest);
        if request[0] == SegmentView::MultiWildcard && request.len() > 1 {
            assert(request[0] != SegmentView::MultiWildcard);
        }
        match rule[0] {
            SegmentView::MultiWildcard => instance(request),
            SegmentView::Wildcard => {
                match request[0] {
                    SegmentView::MultiWildcard => {
                        if rule_rest.len() == 0 {
                            let key = seq![seq!['x'], seq!['x']];
                            assert(key.drop_first().len() == 1);
                            assert(!pattern_matches(rule_rest, key.drop_first()));
                            key
                        } else {
                            let key = seq![seq!['x']];
                            assert(key.drop_first().len() == 0);
                            assert(!pattern_matches(rule_rest, key.drop_first()));
                            key
                        }
                    },
                    SegmentView::Wildcard => {
                        let below = lemma_covers_complete(rule_rest, request_rest);
                        let key = seq![seq!['x']] + below;
                        assert(key.drop_first() =~= below);
                        key
                    },
                    SegmentView::Regular(t) => {
                        let below = lemma_covers_complete(rule_rest, request_rest);
                        let key = seq![t] + below;
                        assert(key.drop_first() =~= below);
                        key
                    },
                }
            },
            SegmentView::Regular(s) => {
                match request[0] {
                    SegmentView::MultiWildcard => {
                        let key = seq![other_than(s)];
                        lemma_other_than(s);
                        key
                    },
                    SegmentView::Wildcard => {
                        let key = seq![other_than(s)] + instance(request_rest);
                        lemma_other_than(s);
                        assert(key.drop_first() =~= instance(request_rest));
                        key
                    },
                    SegmentView::Regular(t) => {
                        if t == s {
                            let below = lemma_covers_complete(rule_rest, request_rest);
                            let key = seq![t] + below;
                            assert(key.drop_first() =~= below);
                            key
                        } else {
                            instance(request)
                        }
                    },
                }
            },
        }
    }
}

/// A rule covers a well-formed request exactly where it matches every key
/// that the request matches.
pub proof fn law_covers(rule: Seq<SegmentView>, request: Seq<SegmentView>)
    requires
        well_formed(request),
    ensures
        covers(rule, request) <==> forall|key: Seq<Seq<char>>|
            pattern_matches(request, key) ==> pattern_matches(rule, key),
{
    if covers(rule, request) {
        assert forall|key: Seq<Seq<char>>| pattern_matches(request, key) implies pattern_matches(
            rule,
            key,
        ) by {
            lemma_covers_sound(rule, request, key);
        }
    } else {
        let key = lemma_covers_complete(rule, request);
        assert(pattern_matches(request, key) && !pattern_matches(rule, key));
    }
}

/// The segments that a pattern written with `/`, `?` and `#` stands for.
pub open spec fn segments_of(pattern: Seq<char>) -> Seq<SegmentView> {
    classified(split(pattern, '/'), Syntax::standard())
}

/// A pattern of the list covers the request.
pub open spec fn any_covers(patterns: Seq<String>, request: Seq<char>) -> bool {
    exists|i: int|
        0 <= i < patterns.len() && covers(
            segments_of((#[trigger] patterns[i])@),
            segments_of(request),
        )
}

/// A rule of the privilege holds a pattern that covers the request.
pub open spec fn allows(rules: Seq<Rule>, privilege: Privilege, request: Seq<char>) -> bool {
    exists|i: int|
        0 <= i < rules.len() && (#[trigger] rules[i]).privilege == privilege && any_covers(
            rules[i].patterns@,
            request,
        )
}

/// Whether `rule` covers `request`.
pub fn pattern_covers(rule: &Vec<KeySegment>, request: &Vec<KeySegment>) -> (covered: bool)
    ensures
        covered == covers(pattern_view(rule@), pattern_view(request@)),
{
    let ghost r = pattern_view(rule@);
    let ghost q = pattern_view(request@);
    let mut i: usize = 0;
    assert(r.skip(0) =~= r && q.skip(0) =~= q);
    while i < rule.len()
        invariant
            i <= rule.len(),
            i <= request.len(),
            r == pattern_view(rule@),
            q == pattern_view(request@),
            covers(r, q) == covers(r.skip(i as int), q.skip(i as int)),
        decreases rule.len() - i,
    {
        proof {
            assert(r.skip(i as int)[0] == rule[i as int]@);
            assert(r.skip(i as int).drop_first() =~= r.skip(i + 1));
        }
        if i == request.len() {
            return false;
        }
        proof {
            assert(q.skip(i as int)[0] == request[i as int]@);
            assert(q.skip(i as int).drop_first() =~= q.skip(i + 1));
        }
        match &rule[i] {
            KeySegment::MultiWildcard => {
                return i + 1 == rule.len();
            },
            KeySegment::Wildcard => {
                match &request[i] {
                    KeySegment::MultiWildcard => {
                        return false;
                    },
                    _ => {},
                }
            },
            KeySegment::Regular(s) => {
                match &request[i] {
                    KeySegment::Regular(t) => {
                        if *s != *t {
                            return false;
                        }
                    },
                    _ => {
                        return false;
                    },
                }
            },
        }
        i += 1;
    }
    i == request.len()
}

impl JwtClaims {
    /// Allows a request that needs `privilege` for `pattern`, or says that
    /// the privileges do not suffice.
    pub fn authorize(&self, privilege: &Privilege, pattern: &str) -> (r: AuthorizationResult<()>)
        ensures
            match r {
                Ok(_) => allows(self.worterbuch_privileges@, *privilege, pattern@),
                Err(e) => !allows(self.worterbuch_privileges@, *privilege, pattern@) && e@
                    == AuthorizationErrorView::InsufficientPrivileges(*privilege, pattern@),
            },
    {
        let request = KeySegment::parse(pattern);
        let mut i: usize = 0;
        while i < self.worterbuch_privileges.len()
            invariant
                i <= self.worterbuch_privileges.len(),
                pattern_view(request@) == segments_of(pattern@),
                forall|k: int|
                    0 <= k < i ==> !((#[trigger] self.worterbuch_privileges[k]).privilege
                        == *privilege && any_covers(
                        self.worterbuch_privileges[k].patterns@,
                        pattern@,
                    )),
            decreases self.worterbuch_privileges.len() - i,
        {
            let rule = &self.worterbuch_privileges[i];
            if same_privilege(&rule.privilege, privilege) {
                let mut j: usize = 0;
                while j < rule.patterns.len()
                    invariant
                        j <= rule.patterns.len(),
                        i < self.worterbuch_privileges.len(),
                        *rule == self.worterbuch_privileges[i as int],
                        rule.privilege == *privilege,
                        pattern_view(request@) == segments_of(pattern@),
                        forall|k: int|
                            0 <= k < j ==> !covers(
                                segments_of((#[trigger] rule.patterns[k])@),
                                segments_of(pattern@),
                            ),
                    decreases rule.patterns.len() - j,
                {
                    let allowed = KeySegment::parse(rule.patterns[j].as_str());
                    if pattern_covers(&allowed, &request) {
                        assert(any_covers(rule.patterns@, pattern@));
                        return Ok(());
                    }
                    j += 1;
                }
            }
            i += 1;
        }
        Err(AuthorizationError::InsufficientPrivileges(*privilege, pattern.to_owned()))
    }
}

/// Whether two privileges are the same.
pub fn same_privilege(a: &Privilege, b: &Privilege) -> (same: bool)
    ensures
        same == (*a == *b),
{
    match (a, b) {
        (Privilege::Read, Privilege::Read) => true,
        (Privilege::Write, Privilege::Write) => true,
        (Privilege::Delete, Privilege::Delete) => true,
        _ => false,
    }
}

} // verus!
