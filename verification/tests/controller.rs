use node_provider_labeler::controller::{
    calculate_metadata_pairs, configure, parse_renderers, reconcile, Renderer, DEFAULT_KEY_NAME,
    DEFAULT_TEMPLATE,
};
use node_provider_labeler::meta::{KeyError, NameFault, PrefixFault};
use node_provider_labeler::pairs::MetadataPairs;
use node_provider_labeler::provider_id::{ProviderID, ProviderIDError};
use node_provider_labeler::template::{AnnotationTemplate, LabelTemplate, TemplateError};
use node_provider_labeler::Error;

#[test]
fn test_calculate_metadata_pairs() {
    let provider_id = ProviderID::new("my-node-name", "fake://region/instance").unwrap();

    {
        // no renderers
        let renderers: Option<Vec<Renderer<LabelTemplate>>> = None;
        let current = Some(MetadataPairs::new());
        let (old, new) = calculate_metadata_pairs(current, &renderers, &provider_id).unwrap();
        assert_eq!(old, new);
        assert!(new.is_empty());
    }

    {
        // new node with single default renderer
        let renderer: Renderer<LabelTemplate> = Renderer::default();
        let renderers = Some(vec![renderer]);
        let current = Some(MetadataPairs::new());
        let (new, old) = calculate_metadata_pairs(current, &renderers, &provider_id).unwrap();
        assert_ne!(new, old);
        assert!(!new.is_empty());
        assert_eq!("instance", new.get("provider-id").unwrap());
    }

    {
        // already reconciled node
        let renderers: Option<Vec<Renderer<AnnotationTemplate>>> = Some(vec![
            Renderer::from_str("some={:last}").unwrap(),
            Renderer::from_str("other={:first}").unwrap(),
        ]);
        let mut current = MetadataPairs::new();
        current.insert("some".to_string(), "instance".to_string());
        current.insert("other".to_string(), "region".to_string());
        let (new, old) =
            calculate_metadata_pairs(Some(current), &renderers, &provider_id).unwrap();
        assert_eq!(new, old);
        assert!(!new.is_empty());
        assert_eq!("instance", new.get("some").unwrap());
        assert_eq!("region", new.get("other").unwrap());
    }

    {
        // node with one key missing
        let renderers: Option<Vec<Renderer<AnnotationTemplate>>> = Some(vec![
            Renderer::from_str("some={:last}").unwrap(),
            Renderer::from_str("other={:first}").unwrap(),
        ]);
        let mut current = MetadataPairs::new();
        current.insert("some".to_string(), "instance".to_string());
        let (new, old) =
            calculate_metadata_pairs(Some(current), &renderers, &provider_id).unwrap();
        assert_ne!(new, old);
        assert!(!new.is_empty());
        assert_eq!("instance", new.get("some").unwrap());
        assert_eq!("region", new.get("other").unwrap());
    }

    {
        // node with one different value
        let renderers: Option<Vec<Renderer<AnnotationTemplate>>> = Some(vec![
            Renderer::from_str("some={:last}").unwrap(),
            Renderer::from_str("other={:first}").unwrap(),
        ]);
        let mut current = MetadataPairs::new();
        current.insert("some".to_string(), "instance".to_string());
        current.insert("other".to_string(), "notregion".to_string());
        let (new, old) =
            calculate_metadata_pairs(Some(current), &renderers, &provider_id).unwrap();
        assert_ne!(new, old);
        assert!(!new.is_empty());
        assert_eq!("instance", new.get("some").unwrap());
        assert_eq!("region", new.get("other").unwrap());
    }
}

fn fake() -> ProviderID {
    ProviderID::new("node", "fake://region/instance").unwrap()
}

fn pairs(list: &[(&str, &str)]) -> MetadataPairs {
    let mut m = MetadataPairs::new();
    for (k, v) in list {
        m.insert(k.to_string(), v.to_string());
    }
    m
}

#[test]
fn default_constants() {
    assert_eq!(DEFAULT_KEY_NAME, "provider-id");
    assert_eq!(DEFAULT_TEMPLATE, "{:last}");
}

#[test]
fn renderer_default_is_provider_id_with_last() {
    let id = fake();
    let label: Renderer<LabelTemplate> = Renderer::default();
    assert_eq!(label.key().to_string(), "provider-id");
    assert_eq!(label.render(&id), Ok("instance".to_string()));
    let annotation: Renderer<AnnotationTemplate> = Renderer::default();
    assert_eq!(annotation.key().to_string(), "provider-id");
    assert_eq!(annotation.render(&id), Ok("instance".to_string()));
}

#[test]
fn renderer_from_str_forms() {
    let id = fake();

    // the empty configuration is the default renderer
    let r: Renderer<LabelTemplate> = Renderer::from_str("").unwrap();
    assert_eq!(r.key().to_string(), "provider-id");
    assert_eq!(r.render(&id), Ok("instance".to_string()));

    // a key alone takes the default template
    let r: Renderer<LabelTemplate> = Renderer::from_str("example.com/zone").unwrap();
    assert_eq!(r.key().to_string(), "example.com/zone");
    assert_eq!(r.render(&id), Ok("instance".to_string()));

    // key=template
    let r: Renderer<LabelTemplate> = Renderer::from_str("zone={:first}").unwrap();
    assert_eq!(r.key().to_string(), "zone");
    assert_eq!(r.render(&id), Ok("region".to_string()));

    // an empty template after the `=`
    let r: Renderer<AnnotationTemplate> = Renderer::from_str("zone=").unwrap();
    assert_eq!(r.key().to_string(), "zone");
    assert_eq!(r.render(&id), Ok(String::new()));

    // only the first `=` divides
    let r: Renderer<AnnotationTemplate> = Renderer::from_str("zone=a={:first}=b").unwrap();
    assert_eq!(r.key().to_string(), "zone");
    assert_eq!(r.render(&id), Ok("a=region=b".to_string()));

    // context decides what the value looks like
    let r: Renderer<LabelTemplate> = Renderer::from_str("id={:url}").unwrap();
    assert_eq!(r.render(&id), Ok("fake_region_instance".to_string()));
    let r: Renderer<AnnotationTemplate> = Renderer::from_str("id={:url}").unwrap();
    assert_eq!(r.render(&id), Ok("fake://region/instance".to_string()));
}

#[test]
fn renderer_from_str_faults() {
    assert_eq!(
        Renderer::<LabelTemplate>::from_str("=x").unwrap_err(),
        Error::MetadataKey(KeyError::InvalidName(NameFault::Edges))
    );
    assert_eq!(
        Renderer::<LabelTemplate>::from_str("a/b/c={:last}").unwrap_err(),
        Error::MetadataKey(KeyError::InvalidKeyShape)
    );
    assert_eq!(
        Renderer::<LabelTemplate>::from_str("-a.com/b").unwrap_err(),
        Error::MetadataKey(KeyError::InvalidPrefix(PrefixFault::Edges))
    );
    assert_eq!(
        Renderer::<LabelTemplate>::from_str("zone={:nope}").unwrap_err(),
        Error::TemplateParser(TemplateError::UnknownPlaceholder)
    );
    assert_eq!(
        Renderer::<LabelTemplate>::from_str("zone=a=b").unwrap_err(),
        Error::TemplateParser(TemplateError::InvalidCharacter('='))
    );
    assert_eq!(
        Renderer::<AnnotationTemplate>::from_str("zone={").unwrap_err(),
        Error::TemplateParser(TemplateError::MalformedTemplate)
    );
    // the key is judged before the template
    assert_eq!(
        Renderer::<LabelTemplate>::from_str("zo~ne={:nope}").unwrap_err(),
        Error::MetadataKey(KeyError::InvalidName(NameFault::Character('~')))
    );
    assert_eq!(
        Error::MetadataKey(KeyError::InvalidKeyShape).to_string(),
        "MetadataKeyError: invalid key"
    );
}

#[test]
fn parse_renderers_reads_every_configuration() {
    let id = fake();
    let none = parse_renderers::<LabelTemplate>(None).unwrap();
    assert!(none.is_none());

    let empty = parse_renderers::<LabelTemplate>(Some(vec![])).unwrap().unwrap();
    assert!(empty.is_empty());

    let list = parse_renderers::<LabelTemplate>(Some(vec![
        "a".to_string(),
        "b={:first}".to_string(),
        "c.d/e=x-{:provider}".to_string(),
    ]))
    .unwrap()
    .unwrap();
    assert_eq!(list.len(), 3);
    assert_eq!(list[0].key().to_string(), "a");
    assert_eq!(list[0].render(&id), Ok("instance".to_string()));
    assert_eq!(list[1].key().to_string(), "b");
    assert_eq!(list[1].render(&id), Ok("region".to_string()));
    assert_eq!(list[2].key().to_string(), "c.d/e");
    assert_eq!(list[2].render(&id), Ok("x-fake".to_string()));

    // the first faulty configuration decides
    let err = parse_renderers::<LabelTemplate>(Some(vec![
        "a".to_string(),
        "b={:nope}".to_string(),
        "~".to_string(),
    ]))
    .unwrap_err();
    assert_eq!(err, Error::TemplateParser(TemplateError::UnknownPlaceholder));
}

#[test]
fn configure_falls_back_to_the_default_label() {
    let id = fake();
    let (labels, annotations) = configure(None, None).unwrap();
    let labels = labels.unwrap();
    assert!(annotations.is_none());
    assert_eq!(labels.len(), 1);
    assert_eq!(labels[0].key().to_string(), "provider-id");
    assert_eq!(labels[0].render(&id), Ok("instance".to_string()));

    // anything configured, even an empty list, switches the default off
    let (labels, annotations) = configure(None, Some(vec![])).unwrap();
    assert!(labels.is_none());
    assert!(annotations.unwrap().is_empty());

    let (labels, annotations) = configure(Some(vec![]), None).unwrap();
    assert!(labels.unwrap().is_empty());
    assert!(annotations.is_none());

    let (labels, annotations) = configure(
        Some(vec!["zone={:first}".to_string()]),
        Some(vec!["id={:url}".to_string()]),
    )
    .unwrap();
    assert_eq!(labels.unwrap()[0].key().to_string(), "zone");
    assert_eq!(
        annotations.unwrap()[0].render(&id),
        Ok("fake://region/instance".to_string())
    );
}

#[test]
fn configure_reports_labels_before_annotations() {
    let err = configure(
        Some(vec!["a/b/c".to_string()]),
        Some(vec!["x={".to_string()]),
    )
    .unwrap_err();
    assert_eq!(err, Error::MetadataKey(KeyError::InvalidKeyShape));

    let err = configure(Some(vec!["a".to_string()]), Some(vec!["x={".to_string()])).unwrap_err();
    assert_eq!(err, Error::TemplateParser(TemplateError::MalformedTemplate));

    // `/` is literal text in an annotation, not in a label
    assert!(configure(None, Some(vec!["x=a/b".to_string()])).is_ok());
    assert_eq!(
        configure(Some(vec!["x=a/b".to_string()]), None).unwrap_err(),
        Error::TemplateParser(TemplateError::InvalidCharacter('/'))
    );
}

#[test]
fn calculate_without_renderers_is_empty_whatever_the_node_carries() {
    let id = fake();
    let current = pairs(&[("a", "1"), ("provider-id", "instance")]);
    let none: Option<Vec<Renderer<LabelTemplate>>> = None;
    let (new, old) = calculate_metadata_pairs(Some(current.clone()), &none, &id).unwrap();
    assert!(new.is_empty());
    assert!(old.is_empty());
    assert_eq!(new, old);

    let empty: Option<Vec<Renderer<LabelTemplate>>> = Some(vec![]);
    let (new, old) = calculate_metadata_pairs(Some(current), &empty, &id).unwrap();
    assert!(new.is_empty());
    assert!(old.is_empty());

    let (new, old) = calculate_metadata_pairs(None, &empty, &id).unwrap();
    assert!(new.is_empty());
    assert!(old.is_empty());
}

#[test]
fn calculate_looks_at_managed_keys_only() {
    let id = fake();
    let renderers: Option<Vec<Renderer<LabelTemplate>>> = Some(vec![
        Renderer::from_str("some={:last}").unwrap(),
        Renderer::from_str("other={:first}").unwrap(),
    ]);
    let current = pairs(&[
        ("unrelated", "x"),
        ("other", "region"),
        ("some", "instance"),
        ("more", "y"),
    ]);
    let (new, old) = calculate_metadata_pairs(Some(current), &renderers, &id).unwrap();
    assert_eq!(new, old);
    assert_eq!(new, pairs(&[("some", "instance"), ("other", "region")]));
    assert_eq!(old.get("unrelated"), None);
    assert_eq!(old.get("more"), None);

    // a node without the map is a node with an empty one
    let (new, old) = calculate_metadata_pairs(None, &renderers, &id).unwrap();
    assert_eq!(new, pairs(&[("other", "region"), ("some", "instance")]));
    assert!(old.is_empty());
}

#[test]
fn calculate_lets_the_later_renderer_win() {
    let id = fake();
    let renderers: Option<Vec<Renderer<AnnotationTemplate>>> = Some(vec![
        Renderer::from_str("k={:first}").unwrap(),
        Renderer::from_str("k={:last}").unwrap(),
    ]);
    let (new, old) =
        calculate_metadata_pairs(Some(pairs(&[("k", "region")])), &renderers, &id).unwrap();
    assert_eq!(new, pairs(&[("k", "instance")]));
    assert_eq!(old, pairs(&[("k", "region")]));
}

#[test]
fn calculate_fails_where_a_value_cannot_be_rendered() {
    let id = fake();
    let renderers: Option<Vec<Renderer<AnnotationTemplate>>> = Some(vec![
        Renderer::from_str("a={:first}").unwrap(),
        Renderer::from_str("b={2}").unwrap(),
    ]);
    assert_eq!(
        calculate_metadata_pairs(None, &renderers, &id).unwrap_err(),
        Error::SegmentOutOfRange
    );
}

#[test]
fn reconcile_decides_whether_to_write() {
    let (labels, annotations) = configure(
        Some(vec!["zone={:first}".to_string()]),
        Some(vec!["id={:url}".to_string()]),
    )
    .unwrap();

    // no provider id: nothing to do
    assert_eq!(
        reconcile("node", None, None, None, &labels, &annotations),
        Ok(None)
    );

    // a new node: everything is written
    let plan = reconcile(
        "node",
        Some("fake://region/instance"),
        None,
        None,
        &labels,
        &annotations,
    )
    .unwrap();
    let (new_labels, new_annotations) = plan.unwrap();
    assert_eq!(new_labels, pairs(&[("zone", "region")]));
    assert_eq!(
        new_annotations,
        pairs(&[("id", "fake://region/instance")])
    );

    // a converged node, carrying more than is managed
    assert_eq!(
        reconcile(
            "node",
            Some("fake://region/instance"),
            Some(pairs(&[("zone", "region"), ("kubernetes.io/os", "linux")])),
            Some(pairs(&[("id", "fake://region/instance"), ("note", "x")])),
            &labels,
            &annotations,
        ),
        Ok(None)
    );

    // labels converged, annotation differs: both are written in full
    let plan = reconcile(
        "node",
        Some("fake://region/instance"),
        Some(pairs(&[("zone", "region")])),
        Some(pairs(&[("id", "old")])),
        &labels,
        &annotations,
    )
    .unwrap();
    let (new_labels, new_annotations) = plan.unwrap();
    assert_eq!(new_labels, pairs(&[("zone", "region")]));
    assert_eq!(
        new_annotations,
        pairs(&[("id", "fake://region/instance")])
    );

    // annotations converged, label missing
    let plan = reconcile(
        "node",
        Some("fake://region/instance"),
        Some(pairs(&[("other", "region")])),
        Some(pairs(&[("id", "fake://region/instance")])),
        &labels,
        &annotations,
    )
    .unwrap();
    assert!(plan.is_some());
}

#[test]
fn reconcile_without_renderers_never_writes() {
    let none_l: Option<Vec<Renderer<LabelTemplate>>> = None;
    let none_a: Option<Vec<Renderer<AnnotationTemplate>>> = Some(vec![]);
    assert_eq!(
        reconcile(
            "node",
            Some("fake://region/instance"),
            Some(pairs(&[("a", "b")])),
            None,
            &none_l,
            &none_a,
        ),
        Ok(None)
    );
}

#[test]
fn reconcile_reports_errors() {
    let (labels, annotations) = configure(
        Some(vec!["zone={1}".to_string()]),
        Some(vec!["id={2}".to_string()]),
    )
    .unwrap();
    assert_eq!(
        reconcile("node", Some(""), None, None, &labels, &annotations),
        Err(Error::ProviderID(ProviderIDError::Empty))
    );
    assert_eq!(
        reconcile("node", Some("nothing"), None, None, &labels, &annotations),
        Err(Error::ProviderID(ProviderIDError::Invalid))
    );
    assert_eq!(
        reconcile(
            "node",
            Some("fake://region/instance"),
            None,
            None,
            &labels,
            &annotations
        ),
        Err(Error::SegmentOutOfRange)
    );
    assert_eq!(
        reconcile("node", Some("fake://region"), None, None, &labels, &annotations),
        Err(Error::SegmentOutOfRange)
    );
    assert_eq!(
        Error::ProviderID(ProviderIDError::Empty).to_string(),
        "ProviderIDError: provider id is empty"
    );
}
