use node_provider_labeler::meta::{
    KeyError, MetadataKey, Name, NameFault, Prefix, PrefixFault,
};
use std::str::FromStr;

#[test]
fn meta_name_fromstr() {
    struct TestCase<'a> {
        input: &'a str,
        output: Option<Name>,
        error: Option<&'a str>,
    }

    let cases = vec![
        TestCase {
            input: "test",
            output: Some(Name::from_str("test").unwrap()),
            error: None,
        },
        TestCase {
            input: "x--------------------------------------------------------------x",
            output: None,
            error: Some("invalid name (> 63 characters)"),
        },
        TestCase {
            input: "-test",
            output: None,
            error: Some("invalid name (must start and end with an alphanumeric character)"),
        },
        TestCase {
            input: "test-",
            output: None,
            error: Some("invalid name (must start and end with an alphanumeric character)"),
        },
        TestCase {
            input: "te~t",
            output: None,
            error: Some("invalid name (invalid character '~')"),
        },
    ];

    for case in cases {
        let result = case.input.parse::<Name>();

        if let Err(err) = result {
            assert_eq!(
                case.error.expect("error occurred but expected None"),
                err.to_string(),
            );
        } else {
            let expected = case.output;

            assert!(
                expected.is_some(),
                "success but output is None. input: {}",
                case.input
            );

            let expected = expected.unwrap();
            let actual = result.unwrap();
            assert_eq!(expected, actual);
            assert_eq!(actual.to_string(), case.input);
        }
    }
}

#[test]
fn meta_prefix_fromstr() {
    struct TestCase<'a> {
        input: &'a str,
        output: Option<Prefix>,
        error: Option<&'a str>,
    }

    let cases = vec![
        TestCase {
            input: "test",
            output: Some(Prefix::from_str("test").unwrap()),
            error: None,
        },
        TestCase {
            input: "x----------------------------------------------------------------------------------------------------------------------------------------------------------------------------------------------------------------------------------------------------------------------x",
            output: None,
            error: Some("invalid prefix (> 253 characters)"),
        },
        TestCase {
            input: "test.xxxxxxxxxxxxxxxxxxxxxxxxxxxxxxxxxxxxxxxxxxxxxxxxxxxxxxxxxxxxxxxx.test",
            output: None,
            error: Some("invalid prefix (dns label > 63 characters)"),
        },
        TestCase {
            input: "",
            output: None,
            error: Some("invalid prefix (dns label < 1 character)"),
        },
        TestCase {
            input: "-test",
            output: None,
            error: Some(
                "invalid prefix (must start and end with an alphanumeric character)",
            ),
        },
        TestCase {
            input: "test-",
            output: None,
            error: Some(
                "invalid prefix (must start and end with an alphanumeric character)",
            ),
        },
        TestCase {
            input: "te~t",
            output: None,
            error: Some("invalid prefix (invalid character '~')"),
        },
        TestCase {
            input: "test.test",
            output: Some(Prefix::from_str("test.test").unwrap()),
            error: None,
        },
        TestCase {
            input: "test.test.test",
            output: Some(Prefix::from_str("test.test.test").unwrap()),
            error: None,
        },
    ];

    for case in cases {
        let result = case.input.parse::<Prefix>();

        if let Err(err) = result {
            assert_eq!(
                case.error.expect("error occurred but expected None"),
                err.to_string(),
            );
        } else {
            let expected = case.output;

            assert!(
                expected.is_some(),
                "success but output is None. input: {}",
                case.input
            );

            let expected = expected.unwrap();
            let actual = result.unwrap();
            assert_eq!(expected, actual);
            assert_eq!(actual.to_string(), case.input);
        }
    }
}

#[test]
fn metadata_key_fromstr() {
    struct Parts<'a> {
        key: &'a str,
        name: Name,
        prefix: Option<Prefix>,
    }

    struct TestCase<'a> {
        input: &'a str,
        output: Option<Parts<'a>>,
        error: Option<&'a str>,
    }

    let cases = vec![
        TestCase {
            input: "app",
            output: Some(Parts {
                key: "app",
                name: "app".parse().unwrap(),
                prefix: None,
            }),
            error: None,
        },
        TestCase {
            input: "app=test=test2",
            output: None,
            error: Some("invalid name (invalid character '=')"),
        },
        TestCase {
            input: "domain.com/app/v1",
            output: None,
            error: Some("invalid key"),
        },
        TestCase {
            input: "domain.com/app",
            output: Some(Parts {
                key: "domain.com/app",
                name: "app".parse().unwrap(),
                prefix: Some("domain.com".parse().unwrap()),
            }),
            error: None,
        },
        TestCase {
            input: "x.------------------------------------------------------------.x=test2",
            output: None,
            error: Some("invalid name (> 63 characters)"),
        },
        TestCase {
            input: "-app",
            output: None,
            error: Some(
                "invalid name (must start and end with an alphanumeric character)",
            ),
        },
        TestCase {
            input: "app~1",
            output: None,
            error: Some("invalid name (invalid character '~')"),
        },
        TestCase {
            input: "domai~n.com/app=test2",
            output: None,
            error: Some("invalid name (invalid character '=')"),
        },
        TestCase {
            input: "domain.x--------------------------------------------------------------x.com/app",
            output: None,
            error: Some("invalid prefix (dns label > 63 characters)"),
        },
        TestCase {
            input: "domain..com/app",
            output: None,
            error: Some("invalid prefix (dns label < 1 character)"),
        },
        TestCase {
            input: "domain.-x.com/app",
            output: None,
            error: Some("invalid prefix (must start and end with an alphanumeric character)"),
        },
        TestCase {
            input: "domain.xxxxxxxxxxxxxxxxxxxxxxxxxxxxxxxxxxxxxxxxxxxxxxxxxxxxxxxxxxxxxxxxxxxxxxxxxxxxxxxxxxxxxxxxxxxxxxxxxxxxxxxxxxxxxxxxxxxxxxxxxxxxxxxxxxxxxxxxxxxxxxxxxxxxxxxxxxxxxxxxxxxxxxxxxxxxxxxxxxxxxxxxxxxxxxxxxxxxxxxxxxxxxxxxxxxxxxxxxxxxxxxxxxxxxxxxxxxxxxxxxxx.com/app=test2",
            output: None,
            error: Some("invalid name (invalid character '=')"),
        },
        TestCase {
            input: "sub.domain.com/app",
            output: Some(Parts {
                prefix: Some("sub.domain.com".parse().unwrap()),
                name: "app".parse().unwrap(),
                key: "sub.domain.com/app",
            }),
            error: None,
        },
    ];

    for case in cases {
        let result = case.input.parse::<MetadataKey>();

        if let Err(err) = result {
            assert_eq!(
                case.error.expect("error occurred but expected None"),
                err.to_string(),
            );
        } else {
            let expected = case.output;

            assert!(
                expected.is_some(),
                "success but output is None. input: {}",
                case.input
            );

            let expected = expected.unwrap();
            let actual = result.unwrap();
            assert_eq!(expected.key, actual.to_string());
            assert_eq!(&expected.prefix, actual.prefix());
            assert_eq!(&expected.name, actual.name());
        }
    }
}

fn repeat(c: char, n: usize) -> String {
    std::iter::repeat(c).take(n).collect()
}

#[test]
fn name_length_boundary() {
    let ok = repeat('a', 63);
    assert_eq!(Name::validate(&ok), Ok(()));
    assert_eq!(Name::from_str(&ok).unwrap().to_string(), ok);

    let long = repeat('a', 64);
    assert_eq!(Name::validate(&long), Err(NameFault::TooLong));
    assert_eq!(
        Name::from_str(&long).unwrap_err().to_string(),
        "invalid name (> 63 characters)"
    );

    // length is judged before anything else
    let long_and_bad = repeat('~', 64);
    assert_eq!(Name::validate(&long_and_bad), Err(NameFault::TooLong));
}

#[test]
fn name_rules_in_order() {
    assert_eq!(Name::validate(""), Err(NameFault::Edges));
    assert_eq!(Name::validate("-"), Err(NameFault::Edges));
    assert_eq!(Name::validate("-a"), Err(NameFault::Edges));
    assert_eq!(Name::validate("a-"), Err(NameFault::Edges));
    assert_eq!(Name::validate(".a"), Err(NameFault::Edges));
    assert_eq!(Name::validate("a_"), Err(NameFault::Edges));
    // the ends are judged before the characters between them
    assert_eq!(Name::validate("~a~b"), Err(NameFault::Edges));
    assert_eq!(Name::validate("a~b"), Err(NameFault::Character('~')));
    // the first foreign character is the one reported
    assert_eq!(Name::validate("a/b~c"), Err(NameFault::Character('/')));
    assert_eq!(Name::validate("a b"), Err(NameFault::Character(' ')));
    assert_eq!(Name::validate("aéb"), Err(NameFault::Character('é')));
    assert_eq!(Name::validate("é"), Err(NameFault::Edges));
    assert_eq!(Name::validate("a"), Ok(()));
    assert_eq!(Name::validate("Z"), Ok(()));
    assert_eq!(Name::validate("0"), Ok(()));
    assert_eq!(Name::validate("a-_.b"), Ok(()));
    assert_eq!(Name::validate("A.b_c-9"), Ok(()));
}

#[test]
fn prefix_length_boundaries() {
    let label63 = repeat('a', 63);
    let label64 = repeat('a', 64);
    assert_eq!(Prefix::validate(&label63), Ok(()));
    assert_eq!(Prefix::validate(&label64), Err(PrefixFault::LabelTooLong));
    assert_eq!(
        Prefix::from_str(&label64).unwrap_err().to_string(),
        "invalid prefix (dns label > 63 characters)"
    );

    // 63 + 1 + 63 + 1 + 63 + 1 + 61 = 253
    let p253 = format!("{}.{}.{}.{}", label63, label63, label63, repeat('b', 61));
    assert_eq!(p253.chars().count(), 253);
    assert_eq!(Prefix::validate(&p253), Ok(()));
    let p254 = format!("{}.{}.{}.{}", label63, label63, label63, repeat('b', 62));
    assert_eq!(Prefix::validate(&p254), Err(PrefixFault::TooLong));
    assert_eq!(
        Prefix::from_str(&p254).unwrap_err().to_string(),
        "invalid prefix (> 253 characters)"
    );
}

#[test]
fn prefix_rules_in_order() {
    assert_eq!(Prefix::validate(""), Err(PrefixFault::LabelEmpty));
    assert_eq!(Prefix::validate("."), Err(PrefixFault::LabelEmpty));
    assert_eq!(Prefix::validate("a."), Err(PrefixFault::LabelEmpty));
    assert_eq!(Prefix::validate(".a"), Err(PrefixFault::LabelEmpty));
    assert_eq!(Prefix::validate("a..b"), Err(PrefixFault::LabelEmpty));
    assert_eq!(Prefix::validate("-a"), Err(PrefixFault::Edges));
    assert_eq!(Prefix::validate("a-"), Err(PrefixFault::Edges));
    assert_eq!(Prefix::validate("a.b-"), Err(PrefixFault::Edges));
    assert_eq!(Prefix::validate("a._b"), Err(PrefixFault::Edges));
    // inside a label the ends are judged before the characters between them
    assert_eq!(Prefix::validate("-te~t"), Err(PrefixFault::Edges));
    assert_eq!(Prefix::validate("-a~"), Err(PrefixFault::Edges));
    assert_eq!(Prefix::validate("~a~b"), Err(PrefixFault::Edges));
    assert_eq!(Prefix::validate("a~b"), Err(PrefixFault::Character('~')));
    // the first foreign character of a label is the one reported
    assert_eq!(Prefix::validate("a/b~c"), Err(PrefixFault::Character('/')));
    // the first faulty label decides
    assert_eq!(Prefix::validate("a-.b~c"), Err(PrefixFault::Edges));
    assert_eq!(Prefix::validate("a~b.-c"), Err(PrefixFault::Character('~')));
    assert_eq!(Prefix::validate("ab.-c.d~e"), Err(PrefixFault::Edges));
    assert_eq!(
        Prefix::from_str("-te~t").unwrap_err().to_string(),
        "invalid prefix (must start and end with an alphanumeric character)"
    );
    assert_eq!(Prefix::validate("a.b"), Ok(()));
    assert_eq!(Prefix::validate("a-b.c_d.E9"), Ok(()));
}

#[test]
fn metadata_key_shapes() {
    assert_eq!(
        MetadataKey::from_str("a/b/c").unwrap_err(),
        KeyError::InvalidKeyShape
    );
    assert_eq!(
        MetadataKey::from_str("//").unwrap_err(),
        KeyError::InvalidKeyShape
    );
    assert_eq!(
        MetadataKey::from_str("").unwrap_err(),
        KeyError::InvalidName(NameFault::Edges)
    );
    assert_eq!(
        MetadataKey::from_str("/").unwrap_err(),
        KeyError::InvalidName(NameFault::Edges)
    );
    assert_eq!(
        MetadataKey::from_str("a/").unwrap_err(),
        KeyError::InvalidName(NameFault::Edges)
    );
    assert_eq!(
        MetadataKey::from_str("/a").unwrap_err(),
        KeyError::InvalidPrefix(PrefixFault::LabelEmpty)
    );
    // the name is judged before the prefix
    assert_eq!(
        MetadataKey::from_str("a~b/c=d").unwrap_err(),
        KeyError::InvalidName(NameFault::Character('='))
    );
    assert_eq!(
        MetadataKey::from_str("domai~n.com/app=test2")
            .unwrap_err()
            .to_string(),
        "invalid name (invalid character '=')"
    );
    assert_eq!(
        MetadataKey::from_str("a/b~c").unwrap_err(),
        KeyError::InvalidName(NameFault::Character('~'))
    );
    // the prefix is judged once the name has passed
    assert_eq!(
        MetadataKey::from_str("a~b/cd").unwrap_err(),
        KeyError::InvalidPrefix(PrefixFault::Character('~'))
    );
    assert_eq!(
        MetadataKey::from_str("domai~n.com/app").unwrap_err().to_string(),
        "invalid prefix (invalid character '~')"
    );
    let long_prefix = format!("domain.{}.com/app", repeat('x', 250));
    assert_eq!(
        MetadataKey::from_str(&long_prefix).unwrap_err().to_string(),
        "invalid prefix (> 253 characters)"
    );
}

#[test]
fn metadata_key_round_trip() {
    for text in [
        "app",
        "a",
        "provider-id",
        "domain.com/app",
        "sub.domain.com/app.kubernetes.io_name-1",
        "x/y",
    ] {
        let key = MetadataKey::from_str(text).unwrap();
        assert_eq!(key.to_string(), text);
        let again = MetadataKey::from_str(&key.to_string()).unwrap();
        assert_eq!(again, key);
        let rebuilt = match key.prefix() {
            Some(prefix) => format!("{}/{}", prefix.to_string(), key.name().to_string()),
            None => key.name().to_string(),
        };
        assert_eq!(rebuilt, text);
        assert_eq!(key.clone(), key);
    }
}

#[test]
fn key_error_messages() {
    assert_eq!(KeyError::InvalidKeyShape.to_string(), "invalid key");
    assert_eq!(NameFault::TooLong.to_string(), "> 63 characters");
    assert_eq!(
        NameFault::Edges.to_string(),
        "must start and end with an alphanumeric character"
    );
    assert_eq!(
        NameFault::Character('#').to_string(),
        "invalid character '#'"
    );
    assert_eq!(PrefixFault::TooLong.to_string(), "> 253 characters");
    assert_eq!(PrefixFault::LabelEmpty.to_string(), "dns label < 1 character");
    assert_eq!(
        PrefixFault::LabelTooLong.to_string(),
        "dns label > 63 characters"
    );
    assert_eq!(
        PrefixFault::Character('é').to_string(),
        "invalid character 'é'"
    );
    assert_eq!(
        PrefixFault::Edges.to_string(),
        "must start and end with an alphanumeric character"
    );
    assert_eq!(
        KeyError::InvalidPrefix(PrefixFault::LabelEmpty).to_string(),
        "invalid prefix (dns label < 1 character)"
    );
    assert_eq!(
        KeyError::InvalidName(NameFault::Character('=')).to_string(),
        "invalid name (invalid character '=')"
    );
}
