use ecs::optic::Optic;
use ecs::optic::OpticComponent;
use ecs::optic::OpticError;
use ecs::optic::OpticStorage;
use ecs::optic::Token;

fn field_path(name: usize) -> OpticStorage {
    OpticStorage::Field { name, optic: Box::new(OpticStorage::Identity) }
}

#[test]
fn parse_plain_field() {
    let r = Optic::parse(&vec![Token::Ident(0)]);
    assert_eq!(
        r,
        Ok(Optic::Access { storage: field_path(0), component: OpticComponent::Identity })
    );
}

#[test]
fn parse_nested_storage_path() {
    let r = Optic::parse(&vec![Token::Ident(1), Token::Ident(0)]);
    assert_eq!(
        r,
        Ok(Optic::Access {
            storage: OpticStorage::Field { name: 1, optic: Box::new(field_path(0)) },
            component: OpticComponent::Identity,
        })
    );
}

#[test]
fn parse_fetch_and_filter() {
    let r = Optic::parse(&vec![Token::Ident(2), Token::KwGet, Token::KwSome]);
    assert_eq!(
        r,
        Ok(Optic::Access {
            storage: field_path(2),
            component: OpticComponent::Filter(Box::new(OpticComponent::Identity)),
        })
    );
}

#[test]
fn parse_id_alone() {
    assert_eq!(Optic::parse(&vec![Token::KwId]), Ok(Optic::GetId));
}

#[test]
fn parse_id_combined_is_an_error() {
    assert_eq!(
        Optic::parse(&vec![Token::KwId, Token::Ident(0)]),
        Err(OpticError::IdNotAlone)
    );
    assert_eq!(
        Optic::parse(&vec![Token::KwId, Token::KwGet, Token::KwSome]),
        Err(OpticError::IdNotAlone)
    );
}

#[test]
fn parse_filter_before_fetch_is_an_error() {
    assert_eq!(
        Optic::parse(&vec![Token::KwSome, Token::KwGet]),
        Err(OpticError::FilterBeforeFetch)
    );
    assert_eq!(
        Optic::parse(&vec![Token::Ident(0), Token::KwSome]),
        Err(OpticError::FilterBeforeFetch)
    );
}

#[test]
fn parse_two_fetches_is_an_error() {
    assert_eq!(
        Optic::parse(&vec![Token::Ident(0), Token::KwGet, Token::KwGet]),
        Err(OpticError::TwoFetches)
    );
}

#[test]
fn compose_identity_is_a_unit() {
    let id1 = Optic::identity();
    let id2 = Optic::identity();
    let field = Optic::field(3);
    assert_eq!(id1.compose(field), Ok(Optic::field(3)));
    let field = Optic::field(3);
    assert_eq!(field.compose(id2), Ok(Optic::field(3)));
}

#[test]
fn compose_field_fetch_filter_field_collapses() {
    // field -> fetch -> filter -> field: one access, doubly optional
    let built = Optic::field(0)
        .compose(Optic::fetch())
        .unwrap()
        .compose(Optic::filter_some())
        .unwrap()
        .compose(Optic::field(1))
        .unwrap();
    assert_eq!(
        built,
        Optic::Access {
            storage: field_path(0),
            component: OpticComponent::Filter(Box::new(OpticComponent::Field {
                name: 1,
                optic: Box::new(OpticComponent::Identity),
            })),
        }
    );
    assert!(built.is_optional());
    assert!(built.is_doubly_optional());
}

#[test]
fn compose_rejects_two_fetches_and_early_filters() {
    assert_eq!(
        Optic::fetch().compose(Optic::fetch()),
        Err(OpticError::TwoFetches)
    );
    assert_eq!(
        Optic::field(0).compose(Optic::filter_some()),
        Err(OpticError::FilterBeforeFetch)
    );
    assert_eq!(
        Optic::filter_some().compose(Optic::fetch()),
        Err(OpticError::FilterBeforeFetch)
    );
    assert_eq!(
        Optic::GetId.compose(Optic::field(0)),
        Err(OpticError::IdNotAlone)
    );
}

#[test]
fn optionality_classes() {
    let plain = Optic::parse(&vec![Token::Ident(0)]).unwrap();
    assert!(plain.is_optional());
    assert!(!plain.is_doubly_optional());
    let id = Optic::parse(&vec![Token::KwId]).unwrap();
    assert!(!id.is_optional());
    assert!(!id.is_doubly_optional());
    let filtered = Optic::parse(&vec![Token::Ident(0), Token::KwGet, Token::KwSome]).unwrap();
    assert!(filtered.is_optional());
    assert!(filtered.is_doubly_optional());
}

#[test]
fn component_classifiers() {
    let identity = OpticComponent::Identity;
    assert!(identity.is_identity());
    assert!(!identity.is_prism());
    let filter = OpticComponent::Filter(Box::new(OpticComponent::Identity));
    assert!(!filter.is_identity());
    assert!(filter.is_prism());
    let through_field = OpticComponent::Field {
        name: 0,
        optic: Box::new(OpticComponent::Filter(Box::new(OpticComponent::Identity))),
    };
    assert!(through_field.is_prism());
}
