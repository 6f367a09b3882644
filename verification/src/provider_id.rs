//! Provider identifiers: `<ProviderName>://<ProviderSpecificNodeID>`.
//!
//! An identifier holds exactly one `://`, with text on both sides of it. What
//! stands before it is the provider, what follows is the node id, and the
//! node id falls into segments at every `/`.

use vstd::prelude::*;
use vstd::string::*;
use crate::text::{
    chars_of,
    free_of,
    join,
    lemma_join_split,
    lemma_split_len,
    split,
    split_str,
    string_of,
    texts,
};

verus! {

/// Why a provider identifier was refused.
#[derive(Clone, Copy, Debug, PartialEq, Eq)]
pub enum ProviderIDError {
    /// The identifier has no characters.
    Empty,
    /// The identifier does not hold exactly one `://`, or nothing stands
    /// before it, or nothing follows it.
    Invalid,
}

/// `://` stands in `s` at position `i`.
pub open spec fn separator_at(s: Seq<char>, i: int) -> bool {
    0 <= i && i + 3 <= s.len() && s[i] == ':' && s[i + 1] == '/' && s[i + 2] == '/'
}

/// `://` stands in `s` at position `i` and nowhere else, and text stands on
/// both sides of it.
pub open spec fn divides(s: Seq<char>, i: int) -> bool {
    &&& separator_at(s, i)
    &&& forall|j: int| separator_at(s, j) ==> j == i
    &&& 0 < i
    &&& i + 3 < s.len()
}

/// `s` has the shape of a provider identifier.
pub open spec fn well_formed(s: Seq<char>) -> bool {
    exists|i: int| divides(s, i)
}

/// Where `://` stands in `s`. In a well-formed identifier there is one such
/// position only.
pub open spec fn separator_index(s: Seq<char>) -> int {
    choose|i: int| separator_at(s, i)
}

/// The provider: what stands before `://`.
pub open spec fn provider_of(s: Seq<char>) -> Seq<char> {
    s.subrange(0, separator_index(s))
}

/// The node id: what follows `://`.
pub open spec fn node_id_of(s: Seq<char>) -> Seq<char> {
    s.subrange(separator_index(s) + 3, s.len() as int)
}

/// What a provider identifier holds: its text, the parts that the text falls
/// into, and the name of the node that carries it.
pub struct IdentifierView {
    /// The identifier as it was given.
    pub text: Seq<char>,
    /// What stands before `://`.
    pub provider: Seq<char>,
    /// What follows `://`.
    pub node_id: Seq<char>,
    /// The parts of the node id between its `/`. There is always at least
    /// one.
    pub segments: Seq<Seq<char>>,
    /// The name of the node.
    pub node_name: Seq<char>,
}

impl IdentifierView {
    /// The segment at position `n`, counted from 0.
    pub open spec fn segment(self, n: int) -> Option<Seq<char>> {
        if 0 <= n < self.segments.len() {
            Some(self.segments[n])
        } else {
            None
        }
    }

    /// The last segment; the whole node id should there be no segments.
    pub open spec fn last(self) -> Seq<char> {
        if self.segments.len() > 0 {
            self.segments.last()
        } else {
            self.node_id
        }
    }
}

/// What taking `s` apart gives for the node `name`: the identifier, or why
/// `s` is none.
pub open spec fn parse_identifier(name: Seq<char>, s: Seq<char>) -> Result<
    IdentifierView,
    ProviderIDError,
> {
    if s.len() == 0 {
        Err(ProviderIDError::Empty)
    } else if !well_formed(s) {
        Err(ProviderIDError::Invalid)
    } else {
        Ok(
            IdentifierView {
                text: s,
                provider: provider_of(s),
                node_id: node_id_of(s),
                segments: split(node_id_of(s), '/'),
                node_name: name,
            },
        )
    }
}

impl ProviderIDError {
    /// The error in words.
    pub open spec fn message(self) -> Seq<char> {
        match self {
            ProviderIDError::Empty => "provider id is empty"@,
            ProviderIDError::Invalid =>
                "provider id must be in the format: <ProviderName>://<ProviderSpecificNodeID>"@,
        }
    }

    /// The error in words.
    pub fn to_string(&self) -> (r: String)
        ensures
            r@ == self.message(),
    {
        match self {
            ProviderIDError::Empty => "provider id is empty".to_owned(),
            ProviderIDError::Invalid =>
                "provider id must be in the format: <ProviderName>://<ProviderSpecificNodeID>"
                    .to_owned(),
        }
    }
}

/// The text `://`.
pub open spec fn separator() -> Seq<char> {
    seq![':', '/', '/']
}

/// An identifier is its provider, `://`, and its segments with `/` between
/// them. Where `provider://seg0/seg1/.../segN` is well formed and no segment
/// holds a `/`, taking it apart gives back `provider` as the provider,
/// `seg0/seg1/.../segN` as the node id and `seg0` to `segN` as the segments:
/// the first is `seg0`, the last is `segN`, there is none past position N,
/// and the text is the one that was given.
pub proof fn lemma_identifier_parts(
    name: Seq<char>,
    provider: Seq<char>,
    segments: Seq<Seq<char>>,
)
    requires
        segments.len() >= 1,
        forall|i: int| 0 <= i < segments.len() ==> free_of(#[trigger] segments[i], '/'),
        well_formed(provider + separator() + join(segments, '/')),
    ensures
        parse_identifier(name, provider + separator() + join(segments, '/')) == Ok::<
            IdentifierView,
            ProviderIDError,
        >(
            IdentifierView {
                text: provider + separator() + join(segments, '/'),
                provider: provider,
                node_id: join(segments, '/'),
                segments: segments,
                node_name: name,
            },
        ),
        ({
            let id = parse_identifier(name, provider + separator() + join(segments, '/'))->Ok_0;
            &&& id.segment(0) == Some(segments[0])
            &&& id.last() == segments.last()
            &&& forall|n: int| n >= segments.len() ==> id.segment(n) is None
            &&& forall|n: int| 0 <= n < segments.len() ==> id.segment(n) == Some(segments[n])
        }),
{
    let node_id = join(segments, '/');
    let s = provider + separator() + node_id;
    let k = provider.len() as int;
    assert(separator_at(s, k));
    let i = choose|i: int| divides(s, i);
    assert(divides(s, i));
    assert(separator_index(s) == k);
    assert(s.subrange(0, k) == provider);
    assert(s.subrange(k + 3, s.len() as int) == node_id);
    lemma_join_split(segments, '/');
}

/// The position of the first `://` in `v` at or after `from`, or `v.len()`
/// when there is none.
fn find_separator(v: &Vec<char>, from: usize) -> (k: usize)
    requires
        from <= v.len(),
    ensures
        from <= k <= v.len(),
        k < v.len() ==> separator_at(v@, k as int),
        forall|j: int| from <= j < k ==> !separator_at(v@, j),
        k == v.len() ==> forall|j: int| from <= j ==> !separator_at(v@, j),
{
    let n = v.len();
    let mut k: usize = from;
    while k < n
        invariant
            n == v.len(),
            from <= k <= n,
            forall|j: int| from <= j < k ==> !separator_at(v@, j),
        decreases n - k,
    {
        if n - k >= 3 && v[k] == ':' && v[k + 1] == '/' && v[k + 2] == '/' {
            return k;
        }
        k += 1;
    }
    k
}

/// A provider identifier, taken apart once when it is made, together with
/// the name of the node that carries it.
#[derive(Debug)]
pub struct ProviderID {
    provider_id: String,
    provider: String,
    node_id: String,
    id_parts: Vec<String>,
    node_name: String,
}

impl View for ProviderID {
    type V = IdentifierView;

    closed spec fn view(&self) -> IdentifierView {
        IdentifierView {
            text: self.provider_id@,
            provider: self.provider@,
            node_id: self.node_id@,
            segments: texts(self.id_parts@),
            node_name: self.node_name@,
        }
    }
}

impl ProviderID {
    #[verifier::type_invariant]
    spec fn valid(&self) -> bool {
        parse_identifier(self.node_name@, self.provider_id@) == Ok::<
            IdentifierView,
            ProviderIDError,
        >(self@)
    }

    /// Takes `provider_id` apart. It is refused as `Empty` when it has no
    /// characters, and as `Invalid` when it is not of the form
    /// `<ProviderName>://<ProviderSpecificNodeID>`.
    pub fn new(name: &str, provider_id: &str) -> (r: Result<ProviderID, ProviderIDError>)
        ensures
            match r {
                Ok(id) => parse_identifier(name@, provider_id@) == Ok::<
                    IdentifierView,
                    ProviderIDError,
                >(id@),
                Err(e) => parse_identifier(name@, provider_id@) == Err::<
                    IdentifierView,
                    ProviderIDError,
                >(e),
            },
    {
        let v = chars_of(provider_id);
        let n = v.len();
        if n == 0 {
            return Err(ProviderIDError::Empty);
        }
        let at = find_separator(&v, 0);
        if at == n {
            return Err(ProviderIDError::Invalid);
        }
        let again = find_separator(&v, at + 1);
        if again < n {
            return Err(ProviderIDError::Invalid);
        }
        if at == 0 || at + 3 == n {
            return Err(ProviderIDError::Invalid);
        }
        assert(divides(v@, at as int));
        assert(separator_index(v@) == at);
        let provider = string_of(&v, 0, at);
        let node_id = string_of(&v, at + 3, n);
        let id_parts = split_str(node_id.as_str(), '/');
        Ok(
            ProviderID {
                provider_id: provider_id.to_owned(),
                provider,
                node_id,
                id_parts,
                node_name: name.to_owned(),
            },
        )
    }

    /// The provider: what stands before `://`.
    pub fn provider(&self) -> (r: String)
        ensures
            r@ == self@.provider,
    {
        self.provider.clone()
    }

    /// The name of the node, as it was given to `new`.
    pub fn node_name(&self) -> (r: String)
        ensures
            r@ == self@.node_name,
    {
        self.node_name.clone()
    }

    /// The node id: what follows `://`.
    pub fn node_id(&self) -> (r: String)
        ensures
            r@ == self@.node_id,
    {
        self.node_id.clone()
    }

    /// The last segment of the node id; the whole node id where it holds no `/`.
    pub fn last(&self) -> (r: String)
        ensures
            self@.segments.len() > 0,
            r@ == self@.last(),
    {
        proof {
            use_type_invariant(self);
            assert(texts(self.id_parts@).len() == self.id_parts@.len());
            lemma_split_len(node_id_of(self@.text), '/');
        }
        let n = self.id_parts.len();
        assert(texts(self.id_parts@)[n - 1] == self.id_parts@[n - 1]@);
        self.id_parts[n - 1].clone()
    }

    /// The segment at position `n`, counted from 0; `None` past the last one.
    pub fn nth(&self, n: usize) -> (r: Option<String>)
        ensures
            match r {
                Some(segment) => self@.segment(n as int) == Some(segment@),
                None => self@.segment(n as int) is None,
            },
    {
        proof {
            assert(texts(self.id_parts@).len() == self.id_parts@.len());
        }
        if n < self.id_parts.len() {
            assert(texts(self.id_parts@)[n as int] == self.id_parts@[n as int]@);
            Some(self.id_parts[n].clone())
        } else {
            None
        }
    }

    /// The identifier as it was given, not put together again from its
    /// parts. Taken apart again, it gives this identifier.
    pub fn to_string(&self) -> (r: String)
        ensures
            r@ == self@.text,
            parse_identifier(self@.node_name, r@) == Ok::<IdentifierView, ProviderIDError>(
                self@,
            ),
    {
        proof {
            use_type_invariant(self);
        }
        self.provider_id.clone()
    }
}

} // verus!
