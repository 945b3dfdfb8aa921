//! Namespaced identifiers used as block keys.
//!
//! An identifier is two colon-separated lowercase segments drawn from a small
//! character set, or a single segment that implies the fixed default
//! namespace `minecraft`.

use vstd::prelude::*;

verus! {

/// Characters allowed in a namespace segment.
pub open spec fn is_namespace_char(c: char) -> bool {
    ('0' <= c && c <= '9') || ('a' <= c && c <= 'z') || c == '-' || c == '_' || c == '.'
}

/// Characters allowed in a location segment.
pub open spec fn is_location_char(c: char) -> bool {
    is_namespace_char(c) || c == '/'
}

/// Length of the longest prefix of `s` whose characters all satisfy `p`.
pub open spec fn run_len(s: Seq<char>, p: spec_fn(char) -> bool) -> int
    decreases s.len(),
{
    if s.len() == 0 || !p(s[0]) {
        0
    } else {
        1 + run_len(s.drop_first(), p)
    }
}

proof fn lemma_run_len(s: Seq<char>, p: spec_fn(char) -> bool)
    ensures
        0 <= run_len(s, p) <= s.len(),
        forall|j: int| 0 <= j < run_len(s, p) ==> p(#[trigger] s[j]),
        run_len(s, p) < s.len() ==> !p(s[run_len(s, p)]),
    decreases s.len(),
{
    if s.len() > 0 && p(s[0]) {
        lemma_run_len(s.drop_first(), p);
        assert(forall|j: int|
            1 <= j < run_len(s, p) ==> p(#[trigger] s[j]) == p(s.drop_first()[j - 1]));
    }
}

/// How `s` reads as an identifier: the two segments on success, or the number
/// of location characters consumed before the first offending one.
pub open spec fn identifier_parse(s: Seq<char>) -> Result<(Seq<char>, Seq<char>), int> {
    let n = run_len(s, |c: char| is_namespace_char(c));
    if n < s.len() && s[n] == ':' {
        let rest = s.subrange(n + 1, s.len() as int);
        let m = run_len(rest, |c: char| is_location_char(c));
        if m == rest.len() {
            Ok((s.subrange(0, n), rest))
        } else {
            Err(m)
        }
    } else {
        let m = run_len(s, |c: char| is_location_char(c));
        if m == s.len() {
            Ok(("minecraft"@, s))
        } else {
            Err(m)
        }
    }
}

/// The two segments of an identifier, as character sequences.
pub struct IdentifierView {
    pub namespace: Seq<char>,
    pub location: Seq<char>,
}

/// A namespaced block key, such as `minecraft:stone`.
#[derive(Debug)]
pub struct Identifier {
    namespace: String,
    location: String,
}

impl View for Identifier {
    type V = IdentifierView;

    closed spec fn view(&self) -> IdentifierView {
        IdentifierView { namespace: self.namespace@, location: self.location@ }
    }
}

fn namespace_char_at(s: &str, i: usize) -> (r: bool)
    requires
        i < s@.len(),
    ensures
        r == is_namespace_char(s@[i as int]),
{
    let c = s.get_char(i);
    ('0' <= c && c <= '9') || ('a' <= c && c <= 'z') || c == '-' || c == '_' || c == '.'
}

fn location_char_at(s: &str, i: usize) -> (r: bool)
    requires
        i < s@.len(),
    ensures
        r == is_location_char(s@[i as int]),
{
    let c = s.get_char(i);
    ('0' <= c && c <= '9') || ('a' <= c && c <= 'z') || c == '-' || c == '_' || c == '.'
        || c == '/'
}

impl Identifier {
    /// Builds an identifier from both segments.
    pub fn from_full(namespace: &str, location: &str) -> (r: Identifier)
        ensures
            r@.namespace == namespace@,
            r@.location == location@,
    {
        Identifier { namespace: namespace.to_owned(), location: location.to_owned() }
    }

    /// Builds an identifier in the default namespace.
    pub fn from_location(location: &str) -> (r: Identifier)
        ensures
            r@.namespace == "minecraft"@,
            r@.location == location@,
    {
        Identifier { namespace: String::from_str("minecraft"), location: location.to_owned() }
    }

    /// The namespace segment.
    pub fn namespace(&self) -> (r: &str)
        ensures
            r@ == self@.namespace,
    {
        self.namespace.as_str()
    }

    /// The location segment.
    pub fn location(&self) -> (r: &str)
        ensures
            r@ == self@.location,
    {
        self.location.as_str()
    }

    /// A copy of this identifier.
    pub fn duplicate(&self) -> (r: Identifier)
        ensures
            r@ == self@,
    {
        Identifier { namespace: self.namespace.clone(), location: self.location.clone() }
    }

    /// Whether the two identifiers name the same block.
    pub fn matches(&self, other: &Identifier) -> (r: bool)
        ensures
            r == (self@ == other@),
    {
        self.namespace.eq(&other.namespace) && self.location.eq(&other.location)
    }

    /// Reads an identifier from text, as `identifier_parse` states: either
    /// `namespace:location` or a bare location in the default namespace. The
    /// error carries the number of location characters read before the first
    /// character that cannot extend the identifier.
    pub fn parse(s: &str) -> (r: Result<Identifier, usize>)
        ensures
            r is Ok <==> identifier_parse(s@) is Ok,
            r matches Ok(id) ==> {
                &&& id@.namespace == identifier_parse(s@)->Ok_0.0
                &&& id@.location == identifier_parse(s@)->Ok_0.1
            },
            r matches Err(p) ==> p as int == identifier_parse(s@)->Err_0,
    {
        proof {
            lemma_run_len(s@, |c: char| is_namespace_char(c));
            lemma_run_len(s@, |c: char| is_location_char(c));
        }
        let len = s.unicode_len();
        let mut n: usize = 0;
        while n < len && namespace_char_at(s, n)
            invariant
                0 <= n <= len,
                len == s@.len(),
                forall|j: int| 0 <= j < n ==> is_namespace_char(#[trigger] s@[j]),
            decreases len - n,
        {
            n = n + 1;
        }
        proof {
            assert(n as int == run_len(s@, |c: char| is_namespace_char(c)));
        }
        if n < len && s.get_char(n) == ':' {
            let ghost rest = s@.subrange(n + 1, s@.len() as int);
            proof {
                lemma_run_len(rest, |c: char| is_location_char(c));
            }
            let mut m: usize = 0;
            while n + 1 + m < len && location_char_at(s, n + 1 + m)
                invariant
                    0 <= m,
                    n + 1 + m <= len,
                    n + 1 <= len,
                    len == s@.len(),
                    rest == s@.subrange(n as int + 1, s@.len() as int),
                    forall|j: int| 0 <= j < m ==> is_location_char(#[trigger] rest[j]),
                decreases len - n - 1 - m,
            {
                proof {
                    assert(rest[m as int] == s@[n + 1 + m as int]);
                }
                m = m + 1;
            }
            proof {
                if (m as int) < rest.len() {
                    assert(rest[m as int] == s@[n + 1 + m as int]);
                }
                assert(m as int == run_len(rest, |c: char| is_location_char(c)));
            }
            if n + 1 + m == len {
                let namespace = s.substring_char(0, n).to_owned();
                let location = s.substring_char(n + 1, len).to_owned();
                Ok(Identifier { namespace, location })
            } else {
                Err(m)
            }
        } else {
            let mut m: usize = 0;
            while m < len && location_char_at(s, m)
                invariant
                    0 <= m <= len,
                    len == s@.len(),
                    forall|j: int| 0 <= j < m ==> is_location_char(#[trigger] s@[j]),
                decreases len - m,
            {
                m = m + 1;
            }
            proof {
                assert(m as int == run_len(s@, |c: char| is_location_char(c)));
            }
            if m == len {
                Ok(Identifier {
                    namespace: String::from_str("minecraft"),
                    location: s.to_owned(),
                })
            } else {
                Err(m)
            }
        }
    }
}

} // verus!
