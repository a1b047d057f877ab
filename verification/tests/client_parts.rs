use bgg::bgg_api::{
    attach_details, classify_response, collection_games, collection_params, detail_games,
    detail_params, join_ids, parse_document, partition_batches, search_params, search_results,
    service_url, MalformedItemPolicy,
};
use bgg::details::Details;
use bgg::error::Error;
use bgg::game::Game;
use bgg::text::{parse_rating, parse_u32, str_eq, str_le, u32_to_string};

const COLLECTION_BODY: &str = "<items>\
<item objectid=\"13\"><status own=\"1\"/><name>Catan</name><numplays>5</numplays></item>\
<item objectid=\"188\"><status own=\"1\"/><name>Go</name></item>\
<item objectid=\"171\"><status own=\"0\"/><name>Chess</name><numplays>2</numplays></item>\
</items>";

#[test]
fn collection_end_to_end_keeps_owned_items_only() {
    let root = parse_document(COLLECTION_BODY).unwrap();
    let games = collection_games(&root, true, MalformedItemPolicy::Drop).unwrap();
    assert_eq!(games.len(), 2);
    assert_eq!(games[0].name, "Catan");
    assert_eq!(games[0].id, 13);
    assert_eq!(games[0].plays, 5);
    assert_eq!(games[1].name, "Go");
    assert_eq!(games[1].id, 188);
    assert_eq!(games[1].plays, 0);
    assert!(games.iter().all(|g| g.details.is_none()));
}

#[test]
fn collection_unowned_selection() {
    let root = parse_document(COLLECTION_BODY).unwrap();
    let games = collection_games(&root, false, MalformedItemPolicy::Drop).unwrap();
    assert_eq!(games.len(), 1);
    assert_eq!(games[0].name, "Chess");
}

#[test]
fn malformed_item_is_dropped_or_aborts_by_policy() {
    let body = "<items>\
<item objectid=\"13\"><status own=\"1\"/><name>Catan</name></item>\
<item><status own=\"1\"/><name>NoId</name></item>\
</items>";
    let root = parse_document(body).unwrap();
    let dropped = collection_games(&root, true, MalformedItemPolicy::Drop).unwrap();
    assert_eq!(dropped.len(), 1);
    assert_eq!(dropped[0].name, "Catan");
    assert!(matches!(
        collection_games(&root, true, MalformedItemPolicy::Abort),
        Err(Error::FieldMappingFailure { .. })
    ));
}

#[test]
fn malformed_document_is_reported() {
    assert!(matches!(
        parse_document("<items><item></items>"),
        Err(Error::MalformedDocument { .. })
    ));
}

#[test]
fn detail_document_maps_every_element() {
    let body = "<items>\
<item id=\"174430\"><name type=\"primary\" value=\"Gloomhaven\"/>\
<statistics><ratings><average value=\"8.7\"/>\
<ranks><rank name=\"boardgame\" value=\"1\"/></ranks></ratings></statistics>\
<link type=\"boardgamemechanic\" value=\"Hand Management\"/></item>\
<item id=\"822\"><name value=\"Carcassonne\"/>\
<statistics><ratings><average value=\"7.41\"/>\
<ranks><rank name=\"boardgame\" value=\"Not Ranked\"/></ranks></ratings></statistics></item>\
</items>";
    let root = parse_document(body).unwrap();
    let games = detail_games(&root).unwrap();
    assert_eq!(games.len(), 2);
    let d0 = games[0].details.as_ref().unwrap();
    assert_eq!(games[0].name, "Gloomhaven");
    assert_eq!(d0.rating, 870000);
    assert_eq!(d0.rank, Some(1));
    assert_eq!(d0.mechanics, vec!["Hand Management".to_string()]);
    let d1 = games[1].details.as_ref().unwrap();
    assert_eq!(d1.rating, 741000);
    assert_eq!(d1.rank, None);
}

#[test]
fn detail_document_aborts_on_a_bad_element() {
    let body = "<items><item id=\"1\"><name value=\"Ok\"/></item><item><name value=\"Bad\"/></item></items>";
    let root = parse_document(body).unwrap();
    assert!(matches!(detail_games(&root), Err(Error::FieldMappingFailure { .. })));
}

#[test]
fn search_document_maps_results() {
    let body = "<items>\
<item id=\"822\"><name value=\"Carcassonne\"/></item>\
<item id=\"823\"><name value=\"Carcassonne: Expansion\"/></item>\
</items>";
    let root = parse_document(body).unwrap();
    let rs = search_results(&root).unwrap();
    assert_eq!(rs.len(), 2);
    assert_eq!(rs[0].id, 822);
    assert_eq!(rs[1].name, "Carcassonne: Expansion");
}

#[test]
fn batches_of_one_hundred() {
    let ids: Vec<u32> = (1..=250).collect();
    let batches = partition_batches(&ids, 100);
    assert_eq!(batches.len(), 3);
    assert_eq!(batches[0].len(), 100);
    assert_eq!(batches[1].len(), 100);
    assert_eq!(batches[2].len(), 50);
    let flat: Vec<u32> = batches.concat();
    assert_eq!(flat, ids);

    assert_eq!(partition_batches(&vec![], 100).len(), 0);
    assert_eq!(partition_batches(&(1..=100).collect(), 100).len(), 1);
    assert_eq!(partition_batches(&(1..=101).collect(), 100).len(), 2);
}

fn details_for(id: u32, name: &str) -> Details {
    Details {
        id,
        name: name.to_string(),
        rating: 0,
        rank: None,
        categories: vec![],
        mechanics: vec![],
    }
}

#[test]
fn attach_details_joins_by_identity_and_keeps_unmatched_bare() {
    let games = vec![
        Game { id: 13, name: "Catan".to_string(), plays: 5, details: None },
        Game { id: 188, name: "Go".to_string(), plays: 0, details: None },
    ];
    let found = vec![
        (13, details_for(13, "Old")),
        (999, details_for(999, "Other")),
        (13, details_for(13, "Catan (details)")),
    ];
    let enriched = attach_details(games, &found);
    assert_eq!(enriched.len(), 2);
    let d = enriched[0].details.as_ref().unwrap();
    assert_eq!(d.name, "Catan (details)");
    assert!(enriched[1].details.is_none());
    assert_eq!(enriched[0].plays, 5);
}

#[test]
fn join_ids_writes_decimal_comma_separated() {
    assert_eq!(join_ids(&vec![]), "");
    assert_eq!(join_ids(&vec![7]), "7");
    assert_eq!(join_ids(&vec![13, 188, 100000]), "13,188,100000");
    assert_eq!(u32_to_string(0), "0");
    assert_eq!(u32_to_string(4294967295), "4294967295");
}

#[test]
fn service_url_builds_and_encodes_the_query() {
    let params = vec![
        ("username".to_string(), "bob".to_string()),
        ("excludesubtype".to_string(), "boardgameexpansion".to_string()),
    ];
    let url = service_url("collection", &params).unwrap();
    assert_eq!(
        url,
        "https://boardgamegeek.com/xmlapi2/collection?username=bob&excludesubtype=boardgameexpansion"
    );
    let spaced = vec![("query".to_string(), "war of".to_string())];
    let url2 = service_url("search", &spaced).unwrap();
    assert_eq!(url2, "https://boardgamegeek.com/xmlapi2/search?query=war+of");
}

#[test]
fn classify_response_splits_on_success_status() {
    assert_eq!(classify_response(200, "ok".to_string()), Ok("ok".to_string()));
    assert_eq!(classify_response(299, "ok".to_string()), Ok("ok".to_string()));
    assert!(matches!(
        classify_response(404, "gone".to_string()),
        Err(bgg::error::Error::RemoteStatusFailure { status: 404 })
    ));
    assert!(matches!(
        classify_response(199, String::new()),
        Err(bgg::error::Error::RemoteStatusFailure { status: 199 })
    ));
}

#[test]
fn request_params_name_the_documented_pairs() {
    assert_eq!(
        collection_params("bob"),
        vec![
            ("username".to_string(), "bob".to_string()),
            ("excludesubtype".to_string(), "boardgameexpansion".to_string()),
        ]
    );
    assert_eq!(
        detail_params(&vec![13, 188]),
        vec![
            ("id".to_string(), "13,188".to_string()),
            ("stats".to_string(), "1".to_string()),
        ]
    );
    assert_eq!(
        search_params("war of"),
        vec![
            ("query".to_string(), "war of".to_string()),
            ("type".to_string(), "boardgame".to_string()),
        ]
    );
}

#[test]
fn parse_u32_accepts_digit_strings_only() {
    assert_eq!(parse_u32("0"), Some(0));
    assert_eq!(parse_u32("4294967295"), Some(4294967295));
    assert_eq!(parse_u32("4294967296"), None);
    assert_eq!(parse_u32(""), None);
    assert_eq!(parse_u32("12a"), None);
    assert_eq!(parse_u32("-1"), None);
    assert_eq!(parse_u32("007"), Some(7));
}

#[test]
fn parse_rating_reads_fixed_point_hundred_thousandths() {
    assert_eq!(parse_rating("7.53421"), Some(753421));
    assert_eq!(parse_rating("8.7"), Some(870000));
    assert_eq!(parse_rating("8"), Some(800000));
    assert_eq!(parse_rating("0"), Some(0));
    assert_eq!(parse_rating("0.123456"), Some(12345));
    assert_eq!(parse_rating("5."), Some(500000));
    assert_eq!(parse_rating(".5"), None);
    assert_eq!(parse_rating("1.2.3"), None);
    assert_eq!(parse_rating("abc"), None);
}

#[test]
fn string_comparisons_match_their_specs() {
    assert!(str_eq("abc", "abc"));
    assert!(!str_eq("abc", "abd"));
    assert!(!str_eq("abc", "ab"));
    assert!(str_le("abc", "abd"));
    assert!(str_le("ab", "abc"));
    assert!(str_le("abc", "abc"));
    assert!(!str_le("b", "azzz"));
}
