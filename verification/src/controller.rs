//! Renderers and the comparison of what they give with what a node carries.
//!
//! A renderer is a metadata key with the template for its value, written
//! `key` or `key=template`. Rendering a list of them for an identifier gives
//! the metadata that a node should carry. That is held against what the node
//! carries under the same keys: where the two agree, nothing is to be done.

use vstd::prelude::*;
use vstd::string::*;
use crate::Error;
use crate::meta::{first_foreign, is_key_char, key_fault, MetadataKey};
use crate::pairs::MetadataPairs;
use crate::provider_id::{parse_identifier, IdentifierView, ProviderID};
use crate::template::{
    placeholder,
    token_at,
    tokens,
    tokens_from,
    value,
    AnnotationTemplate,
    Context,
    LabelTemplate,
    Template,
    TemplateError,
    Token,
};
use crate::text::{chars_of, find_char, first_from, lemma_first_from_is, split, string_of};

verus! {

/// The key of the label that is written when nothing is configured.
pub const DEFAULT_KEY_NAME: &'static str = "provider-id";

/// The template of a renderer that names none.
pub const DEFAULT_TEMPLATE: &'static str = "{:last}";

/// The key that the configuration `s` names: what stands before its first
/// `=`, and the default key where `s` is empty.
pub open spec fn config_key(s: Seq<char>) -> Seq<char> {
    if s.len() == 0 {
        DEFAULT_KEY_NAME@
    } else {
        s.subrange(0, first_from(s, '=', 0))
    }
}

/// The template that the configuration `s` names: what follows its first
/// `=`, and the default template where it has none.
pub open spec fn config_template(s: Seq<char>) -> Seq<char> {
    if first_from(s, '=', 0) >= s.len() {
        DEFAULT_TEMPLATE@
    } else {
        s.subrange(first_from(s, '=', 0) + 1, s.len() as int)
    }
}

/// Why `s` configures no renderer for `context`: the fault of its key, or
/// else that of its template.
pub open spec fn config_fault(s: Seq<char>, context: Context) -> Option<Error> {
    match key_fault(config_key(s)) {
        Some(e) => Some(Error::MetadataKey(e)),
        None => match tokens(config_template(s), context) {
            Err(e) => Some(Error::TemplateParser(e)),
            Ok(_) => None,
        },
    }
}

/// The fault of the first faulty configuration at or after `from`.
pub open spec fn configs_fault(list: Seq<String>, context: Context, from: int) -> Option<Error>
    decreases list.len() - from,
{
    if from < 0 || from >= list.len() {
        None
    } else {
        match config_fault(list[from]@, context) {
            Some(e) => Some(e),
            None => configs_fault(list, context, from + 1),
        }
    }
}

/// The fault of the first faulty configuration of a list that may be
/// missing.
pub open spec fn lists_fault(list: Option<Vec<String>>, context: Context) -> Option<Error> {
    match list {
        Some(list) => configs_fault(list@, context, 0),
        None => None,
    }
}

/// The default key is a metadata key.
pub proof fn lemma_default_key()
    ensures
        key_fault(DEFAULT_KEY_NAME@) is None,
{
    reveal_strlit("provider-id");
    let s = DEFAULT_KEY_NAME@;
    assert forall|j: int| 0 <= j < 11 implies s[j] != '/' && is_key_char(s[j], true) by {
        if j == 0 {
        } else if j == 1 {
        } else if j == 2 {
        } else if j == 3 {
        } else if j == 4 {
        } else if j == 5 {
        } else if j == 6 {
        } else if j == 7 {
        } else if j == 8 {
        } else if j == 9 {
        } else {
        }
    }
    lemma_first_from_is(s, '/', 0, 11);
    assert(s.subrange(0, 11) == s);
    assert(split(s, '/') == seq![s]);
    assert(first_foreign(s, true, 0) is None) by {
        reveal_with_fuel(first_foreign, 12);
    }
}

/// The default template compiles in both contexts, to the one token `{:last}`.
pub proof fn lemma_default_template(context: Context)
    ensures
        tokens(DEFAULT_TEMPLATE@, context) == Ok::<Seq<Token>, TemplateError>(seq![Token::Last]),
{
    reveal_strlit("{:last}");
    reveal_strlit("last");
    let s = DEFAULT_TEMPLATE@;
    assert forall|j: int| 1 <= j < 6 implies s[j] != '}' by {
        if j == 1 {
        } else if j == 2 {
        } else if j == 3 {
        } else if j == 4 {
        } else {
        }
    }
    lemma_first_from_is(s, '}', 1, 6);
    let body = s.subrange(1, 6);
    assert(body.skip(1) == "last"@);
    assert(placeholder(body) == Ok::<Token, TemplateError>(Token::Last));
    assert(token_at(s, 0, context) == Ok::<(Token, int), TemplateError>((Token::Last, 7)));
    assert(tokens_from(s, 7, context) == Ok::<Seq<Token>, TemplateError>(Seq::empty()));
    assert(seq![Token::Last] + Seq::<Token>::empty() == seq![Token::Last]);
}

/// A metadata key and the template that gives its value.
#[derive(Debug)]
pub struct Renderer<T: Template> {
    key: MetadataKey,
    template: T,
}

/// What a renderer holds: the text of its key and the text of its template.
pub struct RendererView {
    /// The key that the value is written under.
    pub key: Seq<char>,
    /// The template that gives the value.
    pub format: Seq<char>,
}

impl<T: Template> View for Renderer<T> {
    type V = RendererView;

    closed spec fn view(&self) -> RendererView {
        RendererView { key: self.key@.text, format: self.template.format() }
    }
}

impl<T: Template> Renderer<T> {
    /// The value for the identifier `id`.
    pub open spec fn value(&self, id: IdentifierView) -> Result<Seq<char>, Error> {
        value(self@.format, T::context(), id)
    }

    /// Reads `key` or `key=template`. Only the first `=` divides, so that a
    /// template may hold more of them. Without `=` the template is the
    /// default one, and the empty configuration stands for the default
    /// renderer. The key is checked before the template.
    pub fn from_str(s: &str) -> (r: Result<Self, Error>)
        ensures
            match r {
                Ok(renderer) => config_fault(s@, T::context()) is None && renderer@
                    == (RendererView { key: config_key(s@), format: config_template(s@) }),
                Err(e) => config_fault(s@, T::context()) == Some(e),
            },
    {
        let v = chars_of(s);
        if v.len() == 0 {
            proof {
                lemma_default_key();
                lemma_default_template(T::context());
            }
            return Ok(Self::default());
        }
        let at = find_char(&v, '=', 0);
        let key_text = string_of(&v, 0, at);
        let key = match MetadataKey::from_str(key_text.as_str()) {
            Ok(key) => key,
            Err(e) => {
                return Err(Error::MetadataKey(e));
            },
        };
        let template = if at < v.len() {
            let template_text = string_of(&v, at + 1, v.len());
            T::from_str(template_text.as_str())?
        } else {
            T::from_str(DEFAULT_TEMPLATE)?
        };
        Ok(Renderer { key, template })
    }

    /// Renders the value for `provider_id`.
    pub fn render(&self, provider_id: &ProviderID) -> (r: Result<String, Error>)
        ensures
            match r {
                Ok(text) => self.value(provider_id@) == Ok::<Seq<char>, Error>(text@),
                Err(e) => self.value(provider_id@) == Err::<Seq<char>, Error>(e),
            },
    {
        self.template.render(provider_id)
    }

    /// The key that the value is written under.
    pub fn key(&self) -> (r: &MetadataKey)
        ensures
            r@.text == self@.key,
    {
        &self.key
    }

    /// The template that gives the value.
    pub fn template(&self) -> (r: &T)
        ensures
            r.format() == self@.format,
    {
        &self.template
    }
}

impl<T: Template> Default for Renderer<T> {
    /// The renderer that is used when nothing is configured: the key
    /// `provider-id` with the template `{:last}`.
    fn default() -> (r: Self)
        ensures
            r@ == (RendererView { key: DEFAULT_KEY_NAME@, format: DEFAULT_TEMPLATE@ }),
    {
        proof {
            lemma_default_key();
            lemma_default_template(T::context());
        }
        let key = MetadataKey::from_str(DEFAULT_KEY_NAME).unwrap();
        let template = T::from_str(DEFAULT_TEMPLATE).unwrap();
        Renderer { key, template }
    }
}

/// The configured renderers; none where nothing is configured.
pub open spec fn renderers_of<T: Template>(renderers: Option<Vec<Renderer<T>>>) -> Seq<
    Renderer<T>,
> {
    match renderers {
        Some(list) => list@,
        None => Seq::empty(),
    }
}

/// The metadata that a node carries; none where it has no such map.
pub open spec fn pairs_of(current: Option<MetadataPairs>) -> Map<Seq<char>, Seq<char>> {
    match current {
        Some(pairs) => pairs@,
        None => Map::empty(),
    }
}

/// The metadata that `renderers` give for the identifier `id`: the value of
/// each under its key, a later renderer winning over an earlier one with the
/// same key. The first value that cannot be rendered makes the whole fail.
pub open spec fn desired<T: Template>(renderers: Seq<Renderer<T>>, id: IdentifierView) -> Result<
    Map<Seq<char>, Seq<char>>,
    Error,
>
    decreases renderers.len(),
{
    if renderers.len() == 0 {
        Ok(Map::empty())
    } else {
        match desired(renderers.drop_last(), id) {
            Err(e) => Err(e),
            Ok(pairs) => match renderers.last().value(id) {
                Err(e) => Err(e),
                Ok(text) => Ok(pairs.insert(renderers.last()@.key, text)),
            },
        }
    }
}

/// `current` already holds all of `wanted`: under the keys of `wanted` it
/// has the same values.
pub open spec fn converged(
    current: Map<Seq<char>, Seq<char>>,
    wanted: Map<Seq<char>, Seq<char>>,
) -> bool {
    current.restrict(wanted.dom()) == wanted
}

/// What is to be written to a node with the identifier `id` that carries
/// `labels` and `annotations`: nothing where both have converged, else all
/// that the renderers give.
pub open spec fn update<L: Template, A: Template>(
    id: IdentifierView,
    labels: Map<Seq<char>, Seq<char>>,
    annotations: Map<Seq<char>, Seq<char>>,
    label_renderers: Seq<Renderer<L>>,
    annotation_renderers: Seq<Renderer<A>>,
) -> Result<Option<(Map<Seq<char>, Seq<char>>, Map<Seq<char>, Seq<char>>)>, Error> {
    match desired(label_renderers, id) {
        Err(e) => Err(e),
        Ok(new_labels) => match desired(annotation_renderers, id) {
            Err(e) => Err(e),
            Ok(new_annotations) => if converged(labels, new_labels) && converged(
                annotations,
                new_annotations,
            ) {
                Ok(None)
            } else {
                Ok(Some((new_labels, new_annotations)))
            },
        },
    }
}

/// A node has converged exactly where it carries every wanted key with the
/// wanted value. What it carries under other keys takes no part; one wanted
/// key that it lacks or holds with another value is enough for a difference.
pub proof fn lemma_converged(
    current: Map<Seq<char>, Seq<char>>,
    wanted: Map<Seq<char>, Seq<char>>,
)
    ensures
        converged(current, wanted) <==> forall|k: Seq<char>| #[trigger]
            wanted.contains_key(k) ==> current.contains_key(k) && current[k] == wanted[k],
{
    let held = current.restrict(wanted.dom());
    if forall|k: Seq<char>| #[trigger]
        wanted.contains_key(k) ==> current.contains_key(k) && current[k] == wanted[k] {
        assert(held =~= wanted);
    }
    if held == wanted {
        assert forall|k: Seq<char>| #[trigger] wanted.contains_key(k) implies current.contains_key(
            k,
        ) && current[k] == wanted[k] by {
            assert(held.contains_key(k));
        }
    }
}

/// The keys of the wanted metadata are the keys of the renderers.
pub proof fn lemma_desired_keys<T: Template>(renderers: Seq<Renderer<T>>, id: IdentifierView)
    requires
        desired(renderers, id) is Ok,
    ensures
        forall|k: Seq<char>|
            desired(renderers, id)->Ok_0.contains_key(k) <==> exists|i: int|
                0 <= i < renderers.len() && (#[trigger] renderers[i])@.key == k,
    decreases renderers.len(),
{
    if renderers.len() > 0 {
        let front = renderers.drop_last();
        lemma_desired_keys(front, id);
        let pairs = desired(renderers, id)->Ok_0;
        assert forall|k: Seq<char>| pairs.contains_key(k) implies exists|i: int|
            0 <= i < renderers.len() && (#[trigger] renderers[i])@.key == k by {
            if k == renderers.last()@.key {
                assert(renderers[renderers.len() - 1]@.key == k);
            } else {
                let i = choose|i: int| 0 <= i < front.len() && (#[trigger] front[i])@.key == k;
                assert(renderers[i]@.key == k);
            }
        }
        assert forall|k: Seq<char>|
            (exists|i: int|
                0 <= i < renderers.len() && (#[trigger] renderers[i])@.key
                    == k) implies pairs.contains_key(k) by {
            let i = choose|i: int| 0 <= i < renderers.len() && (#[trigger] renderers[i])@.key == k;
            if i < renderers.len() - 1 {
                assert(front[i]@.key == k);
            }
        }
    }
}

/// Without renderers nothing is ever to be written, whatever the node
/// carries.
pub proof fn lemma_no_renderers<L: Template, A: Template>(
    id: IdentifierView,
    labels: Map<Seq<char>, Seq<char>>,
    annotations: Map<Seq<char>, Seq<char>>,
)
    ensures
        update::<L, A>(id, labels, annotations, Seq::empty(), Seq::empty()) == Ok::<
            Option<(Map<Seq<char>, Seq<char>>, Map<Seq<char>, Seq<char>>)>,
            Error,
        >(None),
{
    let nothing = Map::<Seq<char>, Seq<char>>::empty();
    assert(labels.restrict(nothing.dom()) =~= nothing);
    assert(annotations.restrict(nothing.dom()) =~= nothing);
}

/// What is written is all or nothing. Where the labels and the annotations
/// can be rendered: nothing is written exactly where the node carries every
/// rendered key with its rendered value, and else all rendered labels and
/// annotations are.
pub proof fn lemma_update<L: Template, A: Template>(
    id: IdentifierView,
    labels: Map<Seq<char>, Seq<char>>,
    annotations: Map<Seq<char>, Seq<char>>,
    label_renderers: Seq<Renderer<L>>,
    annotation_renderers: Seq<Renderer<A>>,
)
    requires
        desired(label_renderers, id) is Ok,
        desired(annotation_renderers, id) is Ok,
    ensures
        ({
            let new_labels = desired(label_renderers, id)->Ok_0;
            let new_annotations = desired(annotation_renderers, id)->Ok_0;
            let same = (forall|k: Seq<char>| #[trigger]
                new_labels.contains_key(k) ==> labels.contains_key(k) && labels[k]
                    == new_labels[k]) && (forall|k: Seq<char>| #[trigger]
                new_annotations.contains_key(k) ==> annotations.contains_key(k) && annotations[k]
                    == new_annotations[k]);
            update(id, labels, annotations, label_renderers, annotation_renderers) == Ok::<
                Option<(Map<Seq<char>, Seq<char>>, Map<Seq<char>, Seq<char>>)>,
                Error,
            >(
                if same {
                    None
                } else {
                    Some((new_labels, new_annotations))
                },
            )
        }),
{
    lemma_converged(labels, desired(label_renderers, id)->Ok_0);
    lemma_converged(annotations, desired(annotation_renderers, id)->Ok_0);
}

/// `renderers` are what the configurations in `list` say, one for one.
pub open spec fn configured<T: Template>(list: Seq<String>, renderers: Seq<Renderer<T>>) -> bool {
    &&& renderers.len() == list.len()
    &&& forall|i: int|
        0 <= i < list.len() ==> (#[trigger] renderers[i])@ == (RendererView {
            key: config_key(list[i]@),
            format: config_template(list[i]@),
        })
}

/// Renders `renderers` for `provider_id`, and picks from `current` what it
/// holds under the keys rendered. The first map is what the node should
/// carry; the second is what it carries there now. Where they are equal the
/// node needs no update.
///
/// Without renderers both maps are empty, whatever `current` holds.
pub fn calculate_metadata_pairs<T: Template>(
    current: Option<MetadataPairs>,
    renderers: &Option<Vec<Renderer<T>>>,
    provider_id: &ProviderID,
) -> (r: Result<(MetadataPairs, MetadataPairs), Error>)
    ensures
        match r {
            Ok((new, old)) => desired(renderers_of(*renderers), provider_id@) == Ok::<
                Map<Seq<char>, Seq<char>>,
                Error,
            >(new@) && old@ == pairs_of(current).restrict(new@.dom()),
            Err(e) => desired(renderers_of(*renderers), provider_id@) == Err::<
                Map<Seq<char>, Seq<char>>,
                Error,
            >(e),
        },
        renderers_of(*renderers).len() == 0 ==> (r matches Ok((new, old)) && new@ == Map::<
            Seq<char>,
            Seq<char>,
        >::empty() && old@ == new@),
{
    let ghost id = provider_id@;
    let ghost held = pairs_of(current);
    let current = match current {
        Some(pairs) => pairs,
        None => MetadataPairs::new(),
    };
    let mut old = MetadataPairs::new();
    let mut new = MetadataPairs::new();
    assert(old@ == held.restrict(new@.dom()));
    if let Some(list) = renderers {
        let mut i: usize = 0;
        while i < list.len()
            invariant
                i <= list.len(),
                id == provider_id@,
                held == current@,
                renderers_of(*renderers) == list@,
                desired(list@.take(i as int), id) == Ok::<Map<Seq<char>, Seq<char>>, Error>(
                    new@,
                ),
                old@ == held.restrict(new@.dom()),
            decreases list.len() - i,
        {
            proof {
                assert(list@.take(i + 1).drop_last() == list@.take(i as int));
                assert(list@.take(i + 1).last() == list@[i as int]);
            }
            let r = &list[i];
            let key = r.key().to_string();
            let value = match r.render(provider_id) {
                Ok(value) => value,
                Err(e) => {
                    proof {
                        lemma_desired_prefix(list@, id, i + 1);
                    }
                    return Err(e);
                },
            };
            if let Some(v) = current.get(key.as_str()) {
                old.insert(key.clone(), v.clone());
            }
            new.insert(key, value);
            assert(old@ == held.restrict(new@.dom()));
            i += 1;
        }
        assert(list@.take(i as int) == list@);
    }
    Ok((new, old))
}

/// A failure among the first renderers is a failure of them all, and the
/// same one.
pub proof fn lemma_desired_prefix<T: Template>(renderers: Seq<Renderer<T>>, id: IdentifierView, k: int)
    requires
        0 <= k <= renderers.len(),
        desired(renderers.take(k), id) is Err,
    ensures
        desired(renderers, id) == desired(renderers.take(k), id),
    decreases renderers.len(),
{
    if k < renderers.len() {
        assert(renderers.drop_last().take(k) == renderers.take(k));
        lemma_desired_prefix(renderers.drop_last(), id, k);
    } else {
        assert(renderers.take(k) == renderers);
    }
}

/// Reads a list of configurations, each `key` or `key=template`. The first
/// faulty one makes the whole fail.
pub fn parse_renderers<T: Template>(args: Option<Vec<String>>) -> (r: Result<
    Option<Vec<Renderer<T>>>,
    Error,
>)
    ensures
        match r {
            Ok(None) => args is None,
            Ok(Some(renderers)) => lists_fault(args, T::context()) is None && (args matches Some(
                list,
            ) && configured(list@, renderers@)),
            Err(e) => lists_fault(args, T::context()) == Some(e),
        },
{
    match args {
        None => Ok(None),
        Some(list) => {
            let mut renderers: Vec<Renderer<T>> = Vec::new();
            let mut i: usize = 0;
            while i < list.len()
                invariant
                    i <= list.len(),
                    args == Some(list),
                    configs_fault(list@, T::context(), 0) == configs_fault(
                        list@,
                        T::context(),
                        i as int,
                    ),
                    configured(list@.take(i as int), renderers@),
                decreases list.len() - i,
            {
                assert(configs_fault(list@, T::context(), i as int) == match config_fault(
                    list@[i as int]@,
                    T::context(),
                ) {
                    Some(e) => Some(e),
                    None => configs_fault(list@, T::context(), i + 1),
                });
                let renderer = Renderer::<T>::from_str(list[i].as_str())?;
                let ghost before = renderers@;
                renderers.push(renderer);
                assert forall|j: int| 0 <= j < i + 1 implies (#[trigger] renderers@[j])@ == (
                RendererView {
                    key: config_key(list@.take(i + 1)[j]@),
                    format: config_template(list@.take(i + 1)[j]@),
                }) by {
                    if j < i {
                        assert(renderers@[j] == before[j]);
                        assert(list@.take(i as int)[j] == list@.take(i + 1)[j]);
                    }
                }
                i += 1;
            }
            assert(list@.take(i as int) == list@);
            Ok(Some(renderers))
        },
    }
}

/// Reads the configured labels and annotations, labels first. Where neither
/// is configured, the default renderer is the one label.
pub fn configure(
    label_templates: Option<Vec<String>>,
    annotation_templates: Option<Vec<String>>,
) -> (r: Result<
    (Option<Vec<Renderer<LabelTemplate>>>, Option<Vec<Renderer<AnnotationTemplate>>>),
    Error,
>)
    ensures
        match r {
            Ok((labels, annotations)) => {
                &&& lists_fault(label_templates, Context::Label) is None
                &&& lists_fault(annotation_templates, Context::Annotation) is None
                &&& match label_templates {
                    Some(list) => labels matches Some(renderers) && configured(
                        list@,
                        renderers@,
                    ),
                    None => if annotation_templates is None {
                        labels matches Some(renderers) && renderers@.len() == 1
                            && renderers@[0]@ == (RendererView {
                            key: DEFAULT_KEY_NAME@,
                            format: DEFAULT_TEMPLATE@,
                        })
                    } else {
                        labels is None
                    },
                }
                &&& match annotation_templates {
                    Some(list) => annotations matches Some(renderers) && configured(
                        list@,
                        renderers@,
                    ),
                    None => annotations is None,
                }
            },
            Err(e) => if lists_fault(label_templates, Context::Label) is Some {
                lists_fault(label_templates, Context::Label) == Some(e)
            } else {
                lists_fault(annotation_templates, Context::Annotation) == Some(e)
            },
        },
{
    let labels = parse_renderers::<LabelTemplate>(label_templates)?;
    let annotations = parse_renderers::<AnnotationTemplate>(annotation_templates)?;
    if annotations.is_none() && labels.is_none() {
        let mut list: Vec<Renderer<LabelTemplate>> = Vec::new();
        list.push(Renderer::default());
        return Ok((Some(list), annotations));
    }
    Ok((labels, annotations))
}

/// Decides what is to be written to a node. Without a provider identifier
/// nothing is; a provider identifier that cannot be read is an error. Else
/// the labels and the annotations are rendered and held against what the
/// node carries: where both have converged nothing is to be written, and
/// where either differs all rendered labels and annotations are.
pub fn reconcile<L: Template, A: Template>(
    node_name: &str,
    provider_id: Option<&str>,
    labels: Option<MetadataPairs>,
    annotations: Option<MetadataPairs>,
    label_renderers: &Option<Vec<Renderer<L>>>,
    annotation_renderers: &Option<Vec<Renderer<A>>>,
) -> (r: Result<Option<(MetadataPairs, MetadataPairs)>, Error>)
    ensures
        match provider_id {
            None => r matches Ok(None),
            Some(text) => match parse_identifier(node_name@, text@) {
                Err(e) => r matches Err(Error::ProviderID(fault)) && fault == e,
                Ok(id) => match r {
                    Ok(None) => update(
                        id,
                        pairs_of(labels),
                        pairs_of(annotations),
                        renderers_of(*label_renderers),
                        renderers_of(*annotation_renderers),
                    ) == Ok::<
                        Option<(Map<Seq<char>, Seq<char>>, Map<Seq<char>, Seq<char>>)>,
                        Error,
                    >(None),
                    Ok(Some((new_labels, new_annotations))) => update(
                        id,
                        pairs_of(labels),
                        pairs_of(annotations),
                        renderers_of(*label_renderers),
                        renderers_of(*annotation_renderers),
                    ) == Ok::<
                        Option<(Map<Seq<char>, Seq<char>>, Map<Seq<char>, Seq<char>>)>,
                        Error,
                    >(Some((new_labels@, new_annotations@))),
                    Err(e) => update(
                        id,
                        pairs_of(labels),
                        pairs_of(annotations),
                        renderers_of(*label_renderers),
                        renderers_of(*annotation_renderers),
                    ) == Err::<
                        Option<(Map<Seq<char>, Seq<char>>, Map<Seq<char>, Seq<char>>)>,
                        Error,
                    >(e),
                },
            },
        },
{
    let text = match provider_id {
        Some(text) => text,
        None => {
            return Ok(None);
        },
    };
    let provider_id = match ProviderID::new(node_name, text) {
        Ok(id) => id,
        Err(e) => {
            return Err(Error::ProviderID(e));
        },
    };
    let (new_labels, old_labels) = calculate_metadata_pairs(labels, label_renderers, &provider_id)?;
    let (new_annotations, old_annotations) = calculate_metadata_pairs(
        annotations,
        annotation_renderers,
        &provider_id,
    )?;
    if new_labels == old_labels && new_annotations == old_annotations {
        return Ok(None);
    }
    Ok(Some((new_labels, new_annotations)))
}

} // verus!
