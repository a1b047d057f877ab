use bgg::details::Details;
use bgg::error::Error;
use bgg::game::Game;
use bgg::search_result::SearchResult;
use bgg::xml::{
    attribute, attribute_u32, get_id, get_name, get_num_plays, has_attribute, node, node_text,
    node_with_attr, XmlAttr, XmlElement, XmlError,
};

fn elem(tag: &str, attrs: &[(&str, &str)], text: Option<&str>, children: Vec<XmlElement>) -> XmlElement {
    XmlElement {
        tag: tag.to_string(),
        attrs: attrs
            .iter()
            .map(|(n, v)| XmlAttr { name: n.to_string(), value: v.to_string() })
            .collect(),
        text: text.map(|t| t.to_string()),
        children,
    }
}

fn detail_elem(rank_value: &str) -> XmlElement {
    elem(
        "item",
        &[("id", "174430")],
        None,
        vec![
            elem("name", &[("type", "primary"), ("value", "Gloomhaven")], None, vec![]),
            elem(
                "statistics",
                &[],
                None,
                vec![elem(
                    "ratings",
                    &[],
                    None,
                    vec![
                        elem("average", &[("value", "8.7")], None, vec![]),
                        elem(
                            "ranks",
                            &[],
                            None,
                            vec![
                                elem(
                                    "rank",
                                    &[("name", "rpgitem"), ("value", "7")],
                                    None,
                                    vec![],
                                ),
                                elem(
                                    "rank",
                                    &[("name", "boardgame"), ("value", rank_value)],
                                    None,
                                    vec![],
                                ),
                            ],
                        ),
                    ],
                )],
            ),
            elem("link", &[("type", "boardgamecategory"), ("value", "Adventure")], None, vec![]),
            elem(
                "link",
                &[("type", "boardgamemechanic"), ("value", "Cooperative Game")],
                None,
                vec![],
            ),
            elem(
                "link",
                &[("type", "boardgamemechanic"), ("value", "Hand Management")],
                None,
                vec![],
            ),
        ],
    )
}

#[test]
fn details_from_element_reads_every_field() {
    let d = Details::from_element(&detail_elem("1")).unwrap();
    assert_eq!(d.id, 174430);
    assert_eq!(d.name, "Gloomhaven");
    assert_eq!(d.rating, 870000);
    assert_eq!(d.rank, Some(1));
    assert_eq!(d.categories, vec!["Adventure".to_string()]);
    assert_eq!(
        d.mechanics,
        vec!["Cooperative Game".to_string(), "Hand Management".to_string()]
    );
}

#[test]
fn not_ranked_sentinel_gives_no_rank() {
    let d = Details::from_element(&detail_elem("Not Ranked")).unwrap();
    assert_eq!(d.rank, None);
}

#[test]
fn numeric_rank_gives_parsed_value() {
    let d = Details::from_element(&detail_elem("412")).unwrap();
    assert_eq!(d.rank, Some(412));
}

#[test]
fn unreadable_rank_degrades_to_none() {
    let d = Details::from_element(&detail_elem("soon")).unwrap();
    assert_eq!(d.rank, None);
}

#[test]
fn absent_statistics_default_rating_and_rank() {
    let e = elem(
        "item",
        &[("id", "7")],
        None,
        vec![elem("name", &[("value", "Ra")], None, vec![])],
    );
    let d = Details::from_element(&e).unwrap();
    assert_eq!(d.rating, 0);
    assert_eq!(d.rank, None);
    assert!(d.categories.is_empty());
    assert!(d.mechanics.is_empty());
}

#[test]
fn details_without_identity_is_field_mapping_failure() {
    let e = elem("item", &[], None, vec![elem("name", &[("value", "Ra")], None, vec![])]);
    match Details::from_element(&e) {
        Err(Error::FieldMappingFailure { .. }) => {}
        other => panic!("expected a field mapping failure, got {:?}", other),
    }
}

#[test]
fn game_from_collection_element() {
    let e = elem(
        "item",
        &[("objectid", "13")],
        None,
        vec![
            elem("name", &[], Some("Catan"), vec![]),
            elem("numplays", &[], Some("5"), vec![]),
        ],
    );
    let g = Game::from_element(&e).unwrap();
    assert_eq!(g.id, 13);
    assert_eq!(g.name, "Catan");
    assert_eq!(g.plays, 5);
    assert!(g.details.is_none());
}

#[test]
fn missing_numplays_defaults_to_zero() {
    let e = elem(
        "item",
        &[("objectid", "188")],
        None,
        vec![elem("name", &[], Some("Go"), vec![])],
    );
    let g = Game::from_element(&e).unwrap();
    assert_eq!(g.plays, 0);
}

#[test]
fn unreadable_numplays_defaults_to_zero() {
    let e = elem(
        "item",
        &[("objectid", "188")],
        None,
        vec![
            elem("name", &[], Some("Go"), vec![]),
            elem("numplays", &[], Some("many"), vec![]),
        ],
    );
    let g = Game::from_element(&e).unwrap();
    assert_eq!(g.plays, 0);
}

#[test]
fn identity_falls_back_from_objectid_to_id() {
    let e = elem(
        "item",
        &[("id", "42")],
        None,
        vec![elem("name", &[], Some("Azul"), vec![])],
    );
    assert_eq!(get_id(&e).unwrap(), 42);
    let e2 = elem(
        "item",
        &[("objectid", "junk"), ("id", "42")],
        None,
        vec![elem("name", &[], Some("Azul"), vec![])],
    );
    assert_eq!(get_id(&e2).unwrap(), 42);
}

#[test]
fn zero_identity_is_rejected() {
    let e = elem(
        "item",
        &[("objectid", "0")],
        None,
        vec![elem("name", &[], Some("Azul"), vec![])],
    );
    let g = Game::from_element(&e);
    assert!(matches!(g, Err(Error::FieldMappingFailure { .. })));
}

#[test]
fn name_falls_back_from_text_to_value_attribute() {
    let e = elem(
        "item",
        &[("id", "3")],
        None,
        vec![elem("name", &[("value", "Samurai")], None, vec![])],
    );
    assert_eq!(get_name(&e).unwrap(), "Samurai");
    let e2 = elem(
        "item",
        &[("id", "3")],
        None,
        vec![elem("name", &[("value", "Ignored")], Some("Samurai"), vec![])],
    );
    assert_eq!(get_name(&e2).unwrap(), "Samurai");
}

#[test]
fn accessors_find_children_attributes_and_text() {
    let child = elem("status", &[("own", "1")], None, vec![]);
    let e = elem(
        "item",
        &[("id", "9")],
        None,
        vec![child, elem("numplays", &[], Some("4"), vec![])],
    );
    assert!(node(&e, "status").is_ok());
    assert!(matches!(node(&e, "missing"), Err(XmlError::NotFound { .. })));
    assert!(has_attribute(node(&e, "status").unwrap(), "own", "1"));
    assert!(!has_attribute(node(&e, "status").unwrap(), "own", "0"));
    assert_eq!(node_text(&e, "numplays").unwrap(), "4");
    assert!(matches!(node_text(&e, "status"), Err(XmlError::NotFound { .. })));
    assert_eq!(attribute(&e, "id").unwrap(), "9");
    assert!(matches!(attribute(&e, "nope"), Err(XmlError::AttributeMissing { .. })));
    assert_eq!(attribute_u32(&e, "id").unwrap(), 9);
    assert!(matches!(
        attribute_u32(node(&e, "numplays").unwrap(), "id"),
        Err(XmlError::AttributeMissing { .. })
    ));
    assert!(matches!(
        attribute_u32(node(&e, "status").unwrap(), "own"),
        Ok(1)
    ));
    let bad = elem("item", &[("id", "x1")], None, vec![]);
    assert!(matches!(attribute_u32(&bad, "id"), Err(XmlError::ParseFailure { .. })));
    assert_eq!(get_num_plays(&e), 4);
}

#[test]
fn node_with_attr_picks_the_matching_child() {
    let e = elem(
        "ranks",
        &[],
        None,
        vec![
            elem("rank", &[("name", "rpgitem"), ("value", "7")], None, vec![]),
            elem("rank", &[("name", "boardgame"), ("value", "3")], None, vec![]),
        ],
    );
    let r = node_with_attr(&e, "rank", "name", "boardgame").unwrap();
    assert_eq!(attribute(r, "value").unwrap(), "3");
    assert!(node_with_attr(&e, "rank", "name", "videogame").is_err());
}

#[test]
fn search_result_from_element() {
    let e = elem(
        "item",
        &[("id", "822")],
        None,
        vec![elem("name", &[("value", "Carcassonne")], None, vec![])],
    );
    let s = SearchResult::from_element(&e).unwrap();
    assert_eq!(s.id, 822);
    assert_eq!(s.name, "Carcassonne");
    let g = s.into_game();
    assert_eq!(g.id, 822);
    assert_eq!(g.name, "Carcassonne");
    assert_eq!(g.plays, 0);
    assert!(g.details.is_none());
}

#[test]
fn search_result_needs_value_attribute() {
    let e = elem(
        "item",
        &[("id", "822")],
        None,
        vec![elem("name", &[], Some("Carcassonne"), vec![])],
    );
    assert!(matches!(
        SearchResult::from_element(&e),
        Err(Error::FieldMappingFailure { .. })
    ));
}
