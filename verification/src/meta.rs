//! Metadata keys: a name, optionally behind a DNS-subdomain prefix.
//!
//! A key is `name` or `prefix/name`. The name is validated before the
//! prefix. A name and each DNS label of a prefix are held to the same rules
//! in the same order: the length, then the first and the last character, then
//! every character. The first rule that fails is the one reported.

use vstd::prelude::*;
use vstd::string::*;
use crate::text::{
    alphanumeric,
    chars_of,
    describe_invalid_character,
    free_of,
    invalid_character,
    is_alphanumeric,
    join,
    lemma_first_from_is,
    lemma_split_join,
    split,
    split_str,
    texts,
};

verus! {

/// Why a name was refused.
#[derive(Clone, Copy, Debug, PartialEq, Eq)]
pub enum NameFault {
    /// More than 63 characters.
    TooLong,
    /// The first or the last character is not alphanumeric (or there is none).
    Edges,
    /// A character that is not alphanumeric, `-`, `_` or `.`.
    Character(char),
}

/// Why a prefix was refused.
#[derive(Clone, Copy, Debug, PartialEq, Eq)]
pub enum PrefixFault {
    /// More than 253 characters in all.
    TooLong,
    /// A DNS label without characters.
    LabelEmpty,
    /// A DNS label of more than 63 characters.
    LabelTooLong,
    /// A character in a DNS label that is not alphanumeric, `-` or `_`.
    Character(char),
    /// A DNS label whose first or last character is not alphanumeric.
    Edges,
}

/// Why a metadata key was refused.
#[derive(Clone, Copy, Debug, PartialEq, Eq)]
pub enum KeyError {
    /// More than one `/`.
    InvalidKeyShape,
    /// The name breaks a rule.
    InvalidName(NameFault),
    /// The prefix breaks a rule.
    InvalidPrefix(PrefixFault),
}

impl NameFault {
    /// The fault in words.
    pub open spec fn message(self) -> Seq<char> {
        match self {
            NameFault::TooLong => "> 63 characters"@,
            NameFault::Edges => "must start and end with an alphanumeric character"@,
            NameFault::Character(c) => invalid_character(c),
        }
    }

    /// The fault in words.
    pub fn to_string(&self) -> (r: String)
        ensures
            r@ == self.message(),
    {
        match self {
            NameFault::TooLong => "> 63 characters".to_owned(),
            NameFault::Edges => "must start and end with an alphanumeric character".to_owned(),
            NameFault::Character(c) => describe_invalid_character(*c),
        }
    }
}

impl PrefixFault {
    /// The fault in words.
    pub open spec fn message(self) -> Seq<char> {
        match self {
            PrefixFault::TooLong => "> 253 characters"@,
            PrefixFault::LabelEmpty => "dns label < 1 character"@,
            PrefixFault::LabelTooLong => "dns label > 63 characters"@,
            PrefixFault::Character(c) => invalid_character(c),
            PrefixFault::Edges => "must start and end with an alphanumeric character"@,
        }
    }

    /// The fault in words.
    pub fn to_string(&self) -> (r: String)
        ensures
            r@ == self.message(),
    {
        match self {
            PrefixFault::TooLong => "> 253 characters".to_owned(),
            PrefixFault::LabelEmpty => "dns label < 1 character".to_owned(),
            PrefixFault::LabelTooLong => "dns label > 63 characters".to_owned(),
            PrefixFault::Character(c) => describe_invalid_character(*c),
            PrefixFault::Edges => "must start and end with an alphanumeric character".to_owned(),
        }
    }
}

impl KeyError {
    /// The error in words: which part is at fault, and why.
    pub open spec fn message(self) -> Seq<char> {
        match self {
            KeyError::InvalidKeyShape => "invalid key"@,
            KeyError::InvalidName(fault) => "invalid name ("@ + fault.message() + ")"@,
            KeyError::InvalidPrefix(fault) => "invalid prefix ("@ + fault.message() + ")"@,
        }
    }

    /// The error in words: which part is at fault, and why.
    pub fn to_string(&self) -> (r: String)
        ensures
            r@ == self.message(),
    {
        match self {
            KeyError::InvalidKeyShape => "invalid key".to_owned(),
            KeyError::InvalidName(fault) => {
                let mut r = "invalid name (".to_owned();
                r.append(fault.to_string().as_str());
                r.append(")");
                r
            },
            KeyError::InvalidPrefix(fault) => {
                let mut r = "invalid prefix (".to_owned();
                r.append(fault.to_string().as_str());
                r.append(")");
                r
            },
        }
    }
}

/// The longest name, and the longest DNS label of a prefix.
pub const MAX_NAME_LEN: usize = 63;

/// The longest prefix.
pub const MAX_PREFIX_LEN: usize = 253;

/// The characters of a name (`dot`) or of a DNS label (no `dot`).
pub open spec fn is_key_char(c: char, dot: bool) -> bool {
    is_alphanumeric(c) || c == '-' || c == '_' || (dot && c == '.')
}

/// `s` begins and ends with an alphanumeric character.
pub open spec fn alphanumeric_ends(s: Seq<char>) -> bool {
    s.len() > 0 && is_alphanumeric(s.first()) && is_alphanumeric(s.last())
}

/// The first character of `s`, at or after `from`, that `is_key_char` refuses.
pub open spec fn first_foreign(s: Seq<char>, dot: bool, from: int) -> Option<char>
    decreases s.len() - from,
{
    if from < 0 || from >= s.len() {
        None
    } else if !is_key_char(s[from], dot) {
        Some(s[from])
    } else {
        first_foreign(s, dot, from + 1)
    }
}

/// The first rule that `s` breaks as a name.
pub open spec fn name_fault(s: Seq<char>) -> Option<NameFault> {
    if s.len() > MAX_NAME_LEN {
        Some(NameFault::TooLong)
    } else if !alphanumeric_ends(s) {
        Some(NameFault::Edges)
    } else {
        match first_foreign(s, true, 0) {
            Some(c) => Some(NameFault::Character(c)),
            None => None,
        }
    }
}

/// The first rule that `label` breaks as a DNS label.
pub open spec fn label_fault(label: Seq<char>) -> Option<PrefixFault> {
    if label.len() < 1 {
        Some(PrefixFault::LabelEmpty)
    } else if label.len() > MAX_NAME_LEN {
        Some(PrefixFault::LabelTooLong)
    } else if !alphanumeric_ends(label) {
        Some(PrefixFault::Edges)
    } else {
        match first_foreign(label, false, 0) {
            Some(c) => Some(PrefixFault::Character(c)),
            None => None,
        }
    }
}

/// The fault of the first faulty label at or after `from`.
pub open spec fn labels_fault(labels: Seq<Seq<char>>, from: int) -> Option<PrefixFault>
    decreases labels.len() - from,
{
    if from < 0 || from >= labels.len() {
        None
    } else {
        match label_fault(labels[from]) {
            Some(f) => Some(f),
            None => labels_fault(labels, from + 1),
        }
    }
}

/// The first rule that `s` breaks as a prefix.
pub open spec fn prefix_fault(s: Seq<char>) -> Option<PrefixFault> {
    if s.len() > MAX_PREFIX_LEN {
        Some(PrefixFault::TooLong)
    } else {
        labels_fault(split(s, '.'), 0)
    }
}

/// Why `s` is no metadata key; `None` when it is one.
pub open spec fn key_fault(s: Seq<char>) -> Option<KeyError> {
    let parts = split(s, '/');
    if parts.len() == 1 {
        match name_fault(parts[0]) {
            Some(f) => Some(KeyError::InvalidName(f)),
            None => None,
        }
    } else if parts.len() == 2 {
        match name_fault(parts[1]) {
            Some(f) => Some(KeyError::InvalidName(f)),
            None => match prefix_fault(parts[0]) {
                Some(f) => Some(KeyError::InvalidPrefix(f)),
                None => None,
            },
        }
    } else {
        Some(KeyError::InvalidKeyShape)
    }
}

/// What a metadata key holds: its text, and the parts that the text falls
/// into.
pub struct KeyView {
    /// The key as it was given.
    pub text: Seq<char>,
    /// What stands before the `/`, if there is one.
    pub prefix: Option<Seq<char>>,
    /// What follows the `/`, or the whole text where there is none.
    pub name: Seq<char>,
}

/// What parsing `s` as a metadata key gives: the key, or why it is none.
pub open spec fn parse_key(s: Seq<char>) -> Result<KeyView, KeyError> {
    match key_fault(s) {
        Some(e) => Err(e),
        None => Ok(KeyView { text: s, prefix: key_prefix(s), name: key_name(s) }),
    }
}

/// The prefix that the key `s` names, if it names one.
pub open spec fn key_prefix(s: Seq<char>) -> Option<Seq<char>> {
    if split(s, '/').len() == 2 {
        Some(split(s, '/')[0])
    } else {
        None
    }
}

/// The name that the key `s` gives: what follows its `/`, or all of it.
pub open spec fn key_name(s: Seq<char>) -> Seq<char> {
    split(s, '/').last()
}

/// Every character of `s` is one of a name (`dot`) or of a DNS label (no
/// `dot`).
pub open spec fn all_key_chars(s: Seq<char>, dot: bool) -> bool {
    forall|j: int| 0 <= j < s.len() ==> is_key_char(#[trigger] s[j], dot)
}

/// `first_foreign` finds nothing exactly where every character is allowed.
pub proof fn lemma_first_foreign(s: Seq<char>, dot: bool, from: int)
    requires
        0 <= from,
    ensures
        first_foreign(s, dot, from) is None <==> forall|j: int|
            from <= j < s.len() ==> is_key_char(#[trigger] s[j], dot),
    decreases s.len() - from,
{
    if from < s.len() {
        lemma_first_foreign(s, dot, from + 1);
        if is_key_char(s[from], dot) {
            assert forall|j: int|
                first_foreign(s, dot, from) is None && from <= j < s.len() implies is_key_char(
                #[trigger] s[j],
                dot,
            ) by {
                if j > from {
                }
            }
        }
    }
}

/// The limits of a name. More than 63 characters are too many, whatever
/// they are. Up to 63 characters are a name where both ends are
/// alphanumeric and every character is allowed; where an end is not
/// alphanumeric (a `-`, say) they are refused for that.
pub proof fn lemma_name_limits(s: Seq<char>)
    ensures
        s.len() > 63 ==> name_fault(s) == Some(NameFault::TooLong),
        s.len() <= 63 && !alphanumeric_ends(s) ==> name_fault(s) == Some(NameFault::Edges),
        s.len() <= 63 && alphanumeric_ends(s) && all_key_chars(s, true) ==> name_fault(s) is None,
        name_fault(s) is None ==> s.len() <= 63 && alphanumeric_ends(s) && all_key_chars(s, true),
{
    lemma_first_foreign(s, true, 0);
}

/// The limits of a DNS label. More than 63 characters are too many,
/// whatever they are. From 1 to 63 characters are a label where both ends
/// are alphanumeric and every character is allowed; where an end is not
/// alphanumeric (a `-`, say) they are refused for that, whatever stands
/// between the ends.
pub proof fn lemma_label_limits(label: Seq<char>)
    ensures
        label.len() > 63 ==> label_fault(label) == Some(PrefixFault::LabelTooLong),
        1 <= label.len() <= 63 && !alphanumeric_ends(label) ==> label_fault(label) == Some(
            PrefixFault::Edges,
        ),
        1 <= label.len() <= 63 && all_key_chars(label, false) && alphanumeric_ends(label)
            ==> label_fault(label) is None,
        label_fault(label) is None ==> 1 <= label.len() <= 63 && all_key_chars(label, false)
            && alphanumeric_ends(label),
{
    lemma_first_foreign(label, false, 0);
}

/// From `from` on, no label is faulty exactly where each one is a DNS label.
proof fn lemma_labels_fault(labels: Seq<Seq<char>>, from: int)
    requires
        0 <= from,
    ensures
        labels_fault(labels, from) is None <==> forall|i: int|
            from <= i < labels.len() ==> label_fault(#[trigger] labels[i]) is None,
    decreases labels.len() - from,
{
    if from < labels.len() {
        lemma_labels_fault(labels, from + 1);
        if label_fault(labels[from]) is None {
            assert forall|i: int|
                labels_fault(labels, from) is None && from <= i < labels.len() implies label_fault(
                #[trigger] labels[i],
            ) is None by {
                if i > from {
                }
            }
        }
    }
}

/// A prefix is valid exactly where it has at most 253 characters and each
/// of the parts between its dots is a DNS label.
pub proof fn lemma_prefix_valid(s: Seq<char>)
    ensures
        prefix_fault(s) is None <==> s.len() <= 253 && forall|i: int|
            0 <= i < split(s, '.').len() ==> label_fault(#[trigger] split(s, '.')[i]) is None,
{
    lemma_labels_fault(split(s, '.'), 0);
}

/// A prefix without a dot is one DNS label, and is judged as that label.
pub proof fn lemma_prefix_of_one_label(label: Seq<char>)
    requires
        free_of(label, '.'),
        label.len() <= 253,
    ensures
        prefix_fault(label) == label_fault(label),
{
    lemma_first_from_is(label, '.', 0, label.len() as int);
    assert(label.subrange(0, label.len() as int) == label);
    assert(split(label, '.') == seq![label]);
    assert(labels_fault(split(label, '.'), 1) is None);
}

/// The text of a key as its parts give it: the name, behind the prefix and
/// a `/` where there is a prefix.
pub open spec fn key_text(prefix: Option<Seq<char>>, name: Seq<char>) -> Seq<char> {
    match prefix {
        Some(prefix) => prefix + seq!['/'] + name,
        None => name,
    }
}

/// Round trip. A text that parses as a metadata key is the text of the key
/// that it gives, letter for letter. The key is made of its parts and
/// nothing else: put together again they give the same text, and taken for
/// themselves they are a valid name and, where there is one, a valid prefix.
pub proof fn lemma_key_round_trip(s: Seq<char>)
    requires
        parse_key(s) is Ok,
    ensures
        parse_key(s)->Ok_0.text == s,
        key_text(parse_key(s)->Ok_0.prefix, parse_key(s)->Ok_0.name) == s,
        name_fault(parse_key(s)->Ok_0.name) is None,
        parse_key(s)->Ok_0.prefix matches Some(prefix) ==> prefix_fault(prefix) is None,
{
    let parts = split(s, '/');
    lemma_split_join(s, '/');
    if parts.len() == 2 {
        assert(parts.skip(1)[0] == parts[1]);
        assert(join(parts.skip(1), '/') == parts[1]);
    }
}

/// The first character of `v` that `is_key_char` refuses.
fn find_foreign(v: &Vec<char>, dot: bool) -> (r: Option<char>)
    ensures
        r == first_foreign(v@, dot, 0),
{
    let mut i: usize = 0;
    while i < v.len()
        invariant
            i <= v.len(),
            first_foreign(v@, dot, 0) == first_foreign(v@, dot, i as int),
        decreases v.len() - i,
    {
        let c = v[i];
        if !(alphanumeric(c) || c == '-' || c == '_' || (dot && c == '.')) {
            return Some(c);
        }
        i += 1;
    }
    None
}

/// Whether `v` begins and ends with an alphanumeric character.
fn has_alphanumeric_ends(v: &Vec<char>) -> (r: bool)
    ensures
        r == alphanumeric_ends(v@),
{
    v.len() > 0 && alphanumeric(v[0]) && alphanumeric(v[v.len() - 1])
}

/// Checks one DNS label of a prefix.
fn check_label(label: &str) -> (r: Result<(), PrefixFault>)
    ensures
        match r {
            Ok(_) => label_fault(label@) is None,
            Err(f) => label_fault(label@) == Some(f),
        },
{
    let v = chars_of(label);
    let len = v.len();
    if len < 1 {
        return Err(PrefixFault::LabelEmpty);
    }
    if len > MAX_NAME_LEN {
        return Err(PrefixFault::LabelTooLong);
    }
    if !has_alphanumeric_ends(&v) {
        return Err(PrefixFault::Edges);
    }
    match find_foreign(&v, false) {
        Some(c) => Err(PrefixFault::Character(c)),
        None => Ok(()),
    }
}

/// The name of a metadata key: at most 63 characters, alphanumeric at both
/// ends, and alphanumerics, `-`, `_` and `.` between.
#[derive(Debug, PartialEq)]
pub struct Name(String);

impl Clone for Name {
    fn clone(&self) -> (r: Self)
        ensures
            r@ == self@,
    {
        proof {
            use_type_invariant(self);
        }
        Name(self.0.clone())
    }
}

impl View for Name {
    type V = Seq<char>;

    closed spec fn view(&self) -> Seq<char> {
        self.0@
    }
}

impl Name {
    #[verifier::type_invariant]
    spec fn valid(&self) -> bool {
        name_fault(self.0@) is None
    }

    /// Says which rule `s` breaks as a name, if any.
    pub fn validate(s: &str) -> (r: Result<(), NameFault>)
        ensures
            match r {
                Ok(_) => name_fault(s@) is None,
                Err(f) => name_fault(s@) == Some(f),
            },
    {
        let v = chars_of(s);
        if v.len() > MAX_NAME_LEN {
            return Err(NameFault::TooLong);
        }
        if !has_alphanumeric_ends(&v) {
            return Err(NameFault::Edges);
        }
        match find_foreign(&v, true) {
            Some(c) => Err(NameFault::Character(c)),
            None => Ok(()),
        }
    }

    /// Takes `s` as a name if it is one.
    pub fn from_str(s: &str) -> (r: Result<Name, KeyError>)
        ensures
            match r {
                Ok(name) => name_fault(s@) is None && name@ == s@,
                Err(e) => name_fault(s@) matches Some(f) && e == KeyError::InvalidName(f),
            },
    {
        match Name::validate(s) {
            Ok(_) => Ok(Name(s.to_owned())),
            Err(f) => Err(KeyError::InvalidName(f)),
        }
    }

    /// The name as it was given. It breaks no rule for names.
    pub fn to_string(&self) -> (r: String)
        ensures
            r@ == self@,
            name_fault(self@) is None,
    {
        proof {
            use_type_invariant(self);
        }
        self.0.clone()
    }
}

impl std::str::FromStr for Name {
    type Err = KeyError;

    /// Takes `s` as a name if it is one, as `Name::from_str` does.
    fn from_str(s: &str) -> (r: Result<Name, KeyError>)
        ensures
            match r {
                Ok(name) => name_fault(s@) is None && name@ == s@,
                Err(e) => name_fault(s@) matches Some(f) && e == KeyError::InvalidName(f),
            },
    {
        Name::from_str(s)
    }
}

/// The prefix of a metadata key: a DNS subdomain of at most 253 characters,
/// made of labels separated by dots.
#[derive(Debug, PartialEq)]
pub struct Prefix(String);

impl Clone for Prefix {
    fn clone(&self) -> (r: Self)
        ensures
            r@ == self@,
    {
        proof {
            use_type_invariant(self);
        }
        Prefix(self.0.clone())
    }
}

impl View for Prefix {
    type V = Seq<char>;

    closed spec fn view(&self) -> Seq<char> {
        self.0@
    }
}

impl Prefix {
    #[verifier::type_invariant]
    spec fn valid(&self) -> bool {
        prefix_fault(self.0@) is None
    }

    /// Says which rule `s` breaks as a prefix, if any. The labels are taken
    /// from left to right, and the first faulty one decides.
    pub fn validate(s: &str) -> (r: Result<(), PrefixFault>)
        ensures
            match r {
                Ok(_) => prefix_fault(s@) is None,
                Err(f) => prefix_fault(s@) == Some(f),
            },
    {
        if s.unicode_len() > MAX_PREFIX_LEN {
            return Err(PrefixFault::TooLong);
        }
        let labels = split_str(s, '.');
        let mut i: usize = 0;
        while i < labels.len()
            invariant
                i <= labels.len(),
                s@.len() <= MAX_PREFIX_LEN,
                texts(labels@) == split(s@, '.'),
                labels_fault(split(s@, '.'), 0) == labels_fault(split(s@, '.'), i as int),
            decreases labels.len() - i,
        {
            assert(split(s@, '.')[i as int] == labels@[i as int]@);
            assert(labels_fault(split(s@, '.'), i as int) == match label_fault(
                split(s@, '.')[i as int],
            ) {
                Some(f) => Some(f),
                None => labels_fault(split(s@, '.'), i + 1),
            });
            match check_label(labels[i].as_str()) {
                Ok(_) => {},
                Err(f) => {
                    return Err(f);
                },
            }
            i += 1;
        }
        Ok(())
    }

    /// Takes `s` as a prefix if it is one.
    pub fn from_str(s: &str) -> (r: Result<Prefix, KeyError>)
        ensures
            match r {
                Ok(prefix) => prefix_fault(s@) is None && prefix@ == s@,
                Err(e) => prefix_fault(s@) matches Some(f) && e == KeyError::InvalidPrefix(f),
            },
    {
        match Prefix::validate(s) {
            Ok(_) => Ok(Prefix(s.to_owned())),
            Err(f) => Err(KeyError::InvalidPrefix(f)),
        }
    }

    /// The prefix as it was given. It breaks no rule for prefixes.
    pub fn to_string(&self) -> (r: String)
        ensures
            r@ == self@,
            prefix_fault(self@) is None,
    {
        proof {
            use_type_invariant(self);
        }
        self.0.clone()
    }
}

impl std::str::FromStr for Prefix {
    type Err = KeyError;

    /// Takes `s` as a prefix if it is one, as `Prefix::from_str` does.
    fn from_str(s: &str) -> (r: Result<Prefix, KeyError>)
        ensures
            match r {
                Ok(prefix) => prefix_fault(s@) is None && prefix@ == s@,
                Err(e) => prefix_fault(s@) matches Some(f) && e == KeyError::InvalidPrefix(f),
            },
    {
        Prefix::from_str(s)
    }
}

/// A validated metadata key.
#[derive(Debug, PartialEq)]
pub struct MetadataKey {
    prefix: Option<Prefix>,
    name: Name,
    key: String,
}

impl Clone for MetadataKey {
    fn clone(&self) -> (r: Self)
        ensures
            r@ == self@,
    {
        proof {
            use_type_invariant(self);
        }
        let prefix = match &self.prefix {
            Some(p) => Some(p.clone()),
            None => None,
        };
        MetadataKey { prefix, name: self.name.clone(), key: self.key.clone() }
    }
}

impl View for MetadataKey {
    type V = KeyView;

    closed spec fn view(&self) -> KeyView {
        KeyView {
            text: self.key@,
            prefix: match self.prefix {
                Some(p) => Some(p@),
                None => None,
            },
            name: self.name@,
        }
    }
}

impl MetadataKey {
    #[verifier::type_invariant]
    spec fn valid(&self) -> bool {
        parse_key(self.key@) == Ok::<KeyView, KeyError>(self@)
    }

    /// Parses `name` or `prefix/name`. More than one `/` is refused before
    /// anything is checked; with a prefix, the name is checked first.
    pub fn from_str(s: &str) -> (r: Result<MetadataKey, KeyError>)
        ensures
            match r {
                Ok(key) => parse_key(s@) == Ok::<KeyView, KeyError>(key@),
                Err(e) => parse_key(s@) == Err::<KeyView, KeyError>(e),
            },
    {
        let parts = split_str(s, '/');
        assert(texts(parts@).len() == parts@.len());
        if parts.len() == 1 {
            assert(texts(parts@)[0] == parts@[0]@);
            let name = Name::from_str(parts[0].as_str())?;
            Ok(MetadataKey { prefix: None, name, key: s.to_owned() })
        } else if parts.len() == 2 {
            assert(texts(parts@)[0] == parts@[0]@);
            assert(texts(parts@)[1] == parts@[1]@);
            let name = Name::from_str(parts[1].as_str())?;
            let prefix = Prefix::from_str(parts[0].as_str())?;
            Ok(MetadataKey { prefix: Some(prefix), name, key: s.to_owned() })
        } else {
            Err(KeyError::InvalidKeyShape)
        }
    }

    /// The key as it was given, not put together again from its parts.
    /// Parsed again, it gives this key.
    pub fn to_string(&self) -> (r: String)
        ensures
            r@ == self@.text,
            parse_key(r@) == Ok::<KeyView, KeyError>(self@),
    {
        proof {
            use_type_invariant(self);
        }
        self.key.clone()
    }

    /// The name: what follows the `/`, or the whole key where there is none.
    pub fn name(&self) -> (r: &Name)
        ensures
            r@ == self@.name,
    {
        &self.name
    }

    /// The prefix: what stands before the `/`, if there is one.
    pub fn prefix(&self) -> (r: &Option<Prefix>)
        ensures
            match *r {
                Some(p) => self@.prefix == Some(p@),
                None => self@.prefix is None,
            },
    {
        &self.prefix
    }
}

impl std::str::FromStr for MetadataKey {
    type Err = KeyError;

    /// Parses `name` or `prefix/name`, as `MetadataKey::from_str` does.
    fn from_str(s: &str) -> (r: Result<MetadataKey, KeyError>)
        ensures
            match r {
                Ok(key) => parse_key(s@) == Ok::<KeyView, KeyError>(key@),
                Err(e) => parse_key(s@) == Err::<KeyView, KeyError>(e),
            },
    {
        MetadataKey::from_str(s)
    }
}

} // verus!
