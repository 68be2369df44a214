use musee::audio::TrackMetadata;
use musee::genre::{
    best_genre_in_release_group, build_query, choose_genre, escape_query_value, looks_like_genre,
    normalize_genre_name, normalized_count, optional_count, optional_score, rate_limit_delay,
    title_case, AlbumLookupKey, CountValue, GenreLookup, GenreTag, LookupStep, ReleaseGroup,
    ReleaseGroupSearchResponse, ScoreValue,
};
use serde_json::Value;

fn score_value(value: Option<&Value>) -> Option<ScoreValue> {
    match value {
        None | Some(Value::Null) => None,
        Some(Value::String(text)) => Some(ScoreValue::Text(text.clone())),
        Some(value) => Some(ScoreValue::Number(
            u32::try_from(value.as_u64().expect("unsigned score")).expect("score of 32 bits"),
        )),
    }
}

fn count_value(value: Option<&Value>) -> Option<CountValue> {
    match value {
        None | Some(Value::Null) => None,
        Some(Value::String(text)) => Some(CountValue::Text(text.clone())),
        Some(value) => {
            let number = value.as_i64().expect("whole count");
            Some(match i32::try_from(number) {
                Ok(number) => CountValue::Signed(number),
                Err(_) => CountValue::Unsigned(u32::try_from(number).expect("count of 32 bits")),
            })
        }
    }
}

fn tags(value: Option<&Value>) -> Vec<GenreTag> {
    let mut out = Vec::new();
    if let Some(list) = value {
        for item in list.as_array().expect("list of tags") {
            out.push(GenreTag {
                count: optional_count(count_value(item.get("count"))).expect("valid count"),
                name: item.get("name").and_then(Value::as_str).expect("name").to_string(),
            });
        }
    }
    out
}

fn response(text: &str) -> ReleaseGroupSearchResponse {
    let value: Value = serde_json::from_str(text).expect("valid response");
    let mut release_groups = Vec::new();
    for item in value.get("release-groups").and_then(Value::as_array).expect("list of albums") {
        release_groups.push(ReleaseGroup {
            score: optional_score(score_value(item.get("score"))).expect("valid score"),
            genres: tags(item.get("genres")),
            tags: tags(item.get("tags")),
        });
    }
    ReleaseGroupSearchResponse { release_groups }
}

fn tag(name: &str, count: Option<i32>) -> GenreTag {
    GenreTag { count, name: name.to_string() }
}

fn track(albumartist: &str, album: &str) -> TrackMetadata {
    TrackMetadata {
        albumartist: albumartist.to_string(),
        artist: albumartist.to_string(),
        album: album.to_string(),
        title: "Title".to_string(),
        tracknumber: None,
    }
}

#[test]
fn builds_album_query() {
    let key = AlbumLookupKey { artist: "Artist".to_string(), album: "Album".to_string() };
    assert_eq!(build_query(&key), "releasegroup:\"Album\" AND artist:\"Artist\"");
}

#[test]
fn normalizes_common_genres() {
    assert_eq!(normalize_genre_name("hip hop"), "Hip Hop");
    assert_eq!(normalize_genre_name("R&B"), "R&B");
}

#[test]
fn parses_score_from_string() {
    let response = response(
        r#"{"release-groups":[{"score":"100","genres":[{"name":"hip hop","count":5}]}]}"#,
    );
    assert_eq!(choose_genre(&response), Some("hip hop".to_string()));
}

#[test]
fn skips_hits_without_genre_and_uses_later_match() {
    let response = response(
        r#"{
            "release-groups":[
                {"score":"100","genres":[],"tags":[]},
                {"score":"90","genres":[{"name":"jazz","count":7}],"tags":[]}
            ]
        }"#,
    );
    assert_eq!(choose_genre(&response), Some("jazz".to_string()));
}

#[test]
fn tolerates_negative_count_values() {
    let response = response(
        r#"{
            "release-groups":[
                {"score":"100","genres":[{"name":"rock","count":-1}]}
            ]
        }"#,
    );
    assert_eq!(choose_genre(&response), Some("rock".to_string()));
}

#[test]
fn queries_escape_quotes_and_backslashes() {
    assert_eq!(escape_query_value(r#"a"b\c"#), r#"a\"b\\c"#);
    assert_eq!(escape_query_value(r#"\""#), r#"\\\""#);
    assert_eq!(escape_query_value(""), "");
    assert_ne!(escape_query_value("\\\""), escape_query_value("\\\\\""));
}

#[test]
fn genre_names_are_spelled_with_capitals() {
    assert_eq!(normalize_genre_name("IDM"), "IDM");
    assert_eq!(normalize_genre_name("Drum And Bass"), "Drum and Bass");
    assert_eq!(normalize_genre_name("post-punk / new WAVE"), "Post-Punk / New Wave");
    assert_eq!(normalize_genre_name("  "), "");
    assert_eq!(normalize_genre_name("unknown"), "Unknown");
    assert_eq!(title_case("\u{df}x \u{c9}T\u{c9}"), "SSx \u{c9}t\u{e9}");
    assert_eq!(title_case(""), "");
}

#[test]
fn idle_tags_are_no_genres() {
    assert!(!looks_like_genre(" Seen Live "));
    assert!(!looks_like_genre("my favorites"));
    assert!(!looks_like_genre(" \t"));
    assert!(looks_like_genre("live jazz"));
}

#[test]
fn tags_stand_in_for_missing_genres() {
    let group = ReleaseGroup {
        score: None,
        genres: Vec::new(),
        tags: vec![tag("favorites", Some(99)), tag("soul", Some(2)), tag("funk", Some(1))],
    };
    assert_eq!(best_genre_in_release_group(&group).map(|tag| tag.name.as_str()), Some("soul"));
    let genres = ReleaseGroup {
        score: None,
        genres: vec![tag("live", None)],
        tags: vec![tag("soul", Some(2))],
    };
    assert_eq!(best_genre_in_release_group(&genres).map(|tag| tag.name.as_str()), Some("live"));
    let none = ReleaseGroup { score: None, genres: Vec::new(), tags: vec![tag("live", Some(1))] };
    assert!(best_genre_in_release_group(&none).is_none());
}

#[test]
fn votes_then_length_then_place_decide_the_genre() {
    let group = ReleaseGroup {
        score: None,
        genres: vec![
            tag("pop", Some(3)),
            tag("rock", Some(3)),
            tag("folk", Some(3)),
            tag("electronic", Some(2)),
        ],
        tags: Vec::new(),
    };
    assert_eq!(best_genre_in_release_group(&group).map(|tag| tag.name.as_str()), Some("folk"));
}

#[test]
fn the_score_outweighs_the_votes() {
    let group = |score: Option<u32>, name: &str, count: i32| ReleaseGroup {
        score,
        genres: vec![tag(name, Some(count))],
        tags: Vec::new(),
    };
    let response = ReleaseGroupSearchResponse {
        release_groups: vec![
            group(Some(90), "a", 999),
            group(Some(91), "b", 0),
            group(Some(90), "c", 1000),
            group(None, "d", 1),
        ],
    };
    assert_eq!(choose_genre(&response), Some("b".to_string()));
    let even = ReleaseGroupSearchResponse {
        release_groups: vec![group(Some(90), "c", 1000), group(Some(91), "b", 0)],
    };
    assert_eq!(choose_genre(&even), Some("c".to_string()));
    let none = ReleaseGroupSearchResponse { release_groups: Vec::new() };
    assert_eq!(choose_genre(&none), None);
}

#[test]
fn scores_and_counts_are_read() {
    assert_eq!(optional_score(None), Ok(None));
    assert_eq!(optional_score(Some(ScoreValue::Number(7))), Ok(Some(7)));
    assert_eq!(optional_score(Some(ScoreValue::Text("+4294967295".to_string()))), Ok(Some(u32::MAX)));
    assert!(optional_score(Some(ScoreValue::Text("4294967296".to_string()))).is_err());
    assert!(optional_score(Some(ScoreValue::Text(" 1".to_string()))).is_err());
    assert_eq!(optional_count(None), Ok(None));
    assert_eq!(optional_count(Some(CountValue::Signed(-3))), Ok(Some(-3)));
    assert_eq!(optional_count(Some(CountValue::Unsigned(3_000_000_000))), Ok(Some(i32::MAX)));
    assert_eq!(
        optional_count(Some(CountValue::Text("-2147483648".to_string()))),
        Ok(Some(i32::MIN))
    );
    assert!(optional_count(Some(CountValue::Text("2147483648".to_string()))).is_err());
    assert_eq!(normalized_count(Some(-1)), 0);
    assert_eq!(normalized_count(Some(5)), 5);
    assert_eq!(normalized_count(None), 0);
}

#[test]
fn an_album_is_looked_up_once() {
    let mut lookup = GenreLookup::new();
    let first = track("Artist feat. Guest", "Album_");
    let key = match lookup.genre_for_album(&first) {
        LookupStep::Ask(key, query) => {
            assert_eq!(query, "releasegroup:\"Album\" AND artist:\"Artist\"");
            key
        }
        LookupStep::Known(_) => panic!("the album is not known yet"),
    };
    let answer = ReleaseGroupSearchResponse {
        release_groups: vec![ReleaseGroup {
            score: Some(100),
            genres: vec![tag("hip hop", Some(1))],
            tags: Vec::new(),
        }],
    };
    assert_eq!(lookup.record(key, &answer), Some("Hip Hop".to_string()));
    assert!(matches!(
        lookup.genre_for_album(&track("Artist", " Album ")),
        LookupStep::Known(Some(genre)) if genre == "Hip Hop"
    ));
    assert!(matches!(lookup.genre_for_album(&track("Artist", "Other")), LookupStep::Ask(_, _)));
    assert!(matches!(lookup.genre_for_album(&track("Artist", " ")), LookupStep::Known(None)));
}

#[test]
fn an_answer_without_a_genre_is_remembered() {
    let mut lookup = GenreLookup::new();
    let key = AlbumLookupKey { artist: "Artist".to_string(), album: "Album".to_string() };
    let blank = ReleaseGroupSearchResponse {
        release_groups: vec![ReleaseGroup {
            score: None,
            genres: vec![tag(" . ", Some(1))],
            tags: Vec::new(),
        }],
    };
    assert_eq!(lookup.record(key.clone(), &blank), None);
    let other = AlbumLookupKey { artist: "Artist".to_string(), album: "Other".to_string() };
    let soul = ReleaseGroupSearchResponse {
        release_groups: vec![ReleaseGroup {
            score: None,
            genres: vec![tag("soul", Some(1))],
            tags: Vec::new(),
        }],
    };
    assert_eq!(lookup.record(other, &soul), Some("Soul".to_string()));
    assert!(matches!(lookup.genre_for_album(&track("Artist", "Album")), LookupStep::Known(None)));
}

#[test]
fn requests_are_spaced_out() {
    assert_eq!(rate_limit_delay(None), 0);
    assert_eq!(rate_limit_delay(Some(100_000_000)), 1_000_000_000);
    assert_eq!(rate_limit_delay(Some(1_100_000_000)), 0);
    assert_eq!(rate_limit_delay(Some(u128::MAX)), 0);
}
