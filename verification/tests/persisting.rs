use loago::LoadError;
use loago::Tasks;
use loago::Timestamp;

fn pair(name: &str, text: &str) -> (String, String) {
    (String::from(name), String::from(text))
}

#[test]
fn texts_are_read_as_timestamps() {
    let tasks = Tasks::from_persistable(vec![
        pair("dust", "2023-03-20T00:00:00"),
        pair("vacuum", "1970-01-01T00:00:59.5"),
        pair("leap", "2015-06-30T23:59:60.500"),
        pair("early", "1969-12-31T23:59:59.000000001"),
    ])
    .unwrap();
    assert_eq!(tasks.len(), 4);
    assert_eq!(tasks.get("dust"), Timestamp::new(1_679_270_400, 0));
    assert_eq!(tasks.get("vacuum"), Timestamp::new(59, 500_000_000));
    assert_eq!(tasks.get("leap"), Timestamp::new(1_435_708_799, 1_500_000_000));
    assert_eq!(tasks.get("early"), Timestamp::new(-1, 1));
}

#[test]
fn timestamps_are_written_as_texts() {
    let tasks = Tasks::from_entries(vec![
        (String::from("dust"), Timestamp::new(1_679_270_400, 0).unwrap()),
        (String::from("milli"), Timestamp::new(59, 500_000_000).unwrap()),
        (String::from("micro"), Timestamp::new(59, 500_000).unwrap()),
        (String::from("nano"), Timestamp::new(-1, 1).unwrap()),
        (String::from("leap"), Timestamp::new(1_435_708_799, 1_500_000_000).unwrap()),
        (String::from("first"), Timestamp::new(-8_334_601_228_800, 0).unwrap()),
        (String::from("last"), Timestamp::new(8_210_266_876_799, 1_999_999_999).unwrap()),
    ]);
    assert_eq!(
        tasks.into_persistable(),
        vec![
            pair("dust", "2023-03-20T00:00:00"),
            pair("milli", "1970-01-01T00:00:59.500"),
            pair("micro", "1970-01-01T00:00:59.000500"),
            pair("nano", "1969-12-31T23:59:59.000000001"),
            pair("leap", "2015-06-30T23:59:60.500"),
            pair("first", "-262143-01-01T00:00:00"),
            pair("last", "+262142-12-31T23:59:60.999999999"),
        ]
    );
}

#[test]
fn written_texts_are_read_back_as_the_same_store() {
    let moments = [
        (0, 0),
        (0, 1),
        (59, 1_000_000_000),
        (59, 1_999_999_999),
        (-1, 999_999_999),
        (-1, 1_000_000_000),
        (1_679_270_400, 123_456_789),
        (1_679_270_400, 123_456_000),
        (1_679_270_400, 123_000_000),
        (253_402_300_799, 999_999_999),
        (253_402_300_800, 0),
        (-62_167_219_200, 0),
        (-62_167_219_201, 0),
        (-8_334_601_228_800, 0),
        (8_210_266_876_799, 1_999_999_999),
    ];
    let mut entries = Vec::new();
    for (place, (seconds, nanos)) in moments.iter().enumerate() {
        entries.push((format!("task {place}"), Timestamp::new(*seconds, *nanos).unwrap()));
    }
    let tasks = Tasks::from_entries(entries.clone());
    let texts = tasks.into_persistable();
    assert_eq!(texts.len(), moments.len());
    let back = Tasks::from_persistable(texts.clone()).unwrap();
    assert_eq!(back.len(), moments.len());
    for (name, moment) in &entries {
        assert_eq!(back.get(name), Some(*moment), "{name}");
    }
    assert_eq!(back.into_persistable(), texts);
}

#[test]
fn one_bad_text_refuses_the_whole() {
    let loaded = Tasks::from_persistable(vec![pair("t", "not-a-date")]);
    match loaded {
        Err(LoadError::Timestamp { name, cause }) => {
            assert_eq!(name, "t");
            assert_eq!(cause.kind(), chrono::format::ParseErrorKind::Invalid);
        }
        other => panic!("{other:?}"),
    }
}

#[test]
fn the_first_bad_text_is_named() {
    let loaded = Tasks::from_persistable(vec![
        pair("good", "2023-03-20T00:00:00"),
        pair("short", "2023-03-20T00:00"),
        pair("bad", "not-a-date"),
    ]);
    match loaded {
        Err(LoadError::Timestamp { name, cause }) => {
            assert_eq!(name, "short");
            assert_eq!(cause.kind(), chrono::format::ParseErrorKind::TooShort);
        }
        other => panic!("{other:?}"),
    }
}

#[test]
fn texts_out_of_the_calendar_are_refused() {
    for text in [
        "",
        "2023-03-20",
        "2023-13-20T00:00:00",
        "2023-02-30T00:00:00",
        "2023-03-20T24:00:00",
        "2023-03-20T00:00:61",
        "2023-03-20 00:00:00",
        "2023-03-20T00:00:00Z",
        "+262143-01-01T00:00:00",
        "-262144-12-31T23:59:59",
    ] {
        assert!(Tasks::from_persistable(vec![pair("t", text)]).is_err(), "{text}");
    }
}

#[test]
fn no_texts_make_an_empty_store() {
    let tasks = Tasks::from_persistable(Vec::new()).unwrap();
    assert_eq!(tasks.len(), 0);
    assert_eq!(tasks.into_persistable(), Vec::new());
}

#[test]
fn a_later_text_of_a_name_replaces_the_earlier() {
    let tasks = Tasks::from_persistable(vec![
        pair("dust", "2023-01-20T00:00:00"),
        pair("vacuum", "2023-02-20T00:00:00"),
        pair("dust", "2023-03-20T00:00:00"),
    ])
    .unwrap();
    assert_eq!(
        tasks.into_persistable(),
        vec![pair("dust", "2023-03-20T00:00:00"), pair("vacuum", "2023-02-20T00:00:00")]
    );
}

#[test]
fn json_is_read_by_ascending_name() {
    let tasks = Tasks::from_json(
        "{\"vacuum\": \"2023-02-20T00:00:00\", \"dust\": \"2023-01-20T00:00:00.25\"}",
    )
    .unwrap();
    assert_eq!(
        tasks.into_persistable(),
        vec![pair("dust", "2023-01-20T00:00:00.250"), pair("vacuum", "2023-02-20T00:00:00")]
    );
    assert_eq!(Tasks::from_json("{}").unwrap().len(), 0);
}

#[test]
fn json_is_written_by_ascending_name() {
    let tasks = Tasks::from_entries(vec![
        (String::from("vacuum"), Timestamp::new(1_676_851_200, 0).unwrap()),
        (String::from("dust"), Timestamp::new(1_674_172_800, 250_000_000).unwrap()),
    ]);
    assert_eq!(
        tasks.into_json().unwrap(),
        "{\n  \"dust\": \"2023-01-20T00:00:00.250\",\n  \"vacuum\": \"2023-02-20T00:00:00\"\n}"
    );
    assert_eq!(Tasks::new().into_json().unwrap(), "{}");
}

#[test]
fn written_json_is_read_back_as_the_same_tasks() {
    let tasks = Tasks::from_entries(vec![
        (String::from("vacuum"), Timestamp::new(1_676_851_200, 1).unwrap()),
        (String::from("dust \"twice\"\n"), Timestamp::new(1_674_172_800, 0).unwrap()),
        (String::from("übung"), Timestamp::new(59, 1_000_000_000).unwrap()),
    ]);
    let back = Tasks::from_json(&tasks.clone().into_json().unwrap()).unwrap();
    assert_eq!(back.len(), 3);
    assert_eq!(back.get("vacuum"), tasks.get("vacuum"));
    assert_eq!(back.get("dust \"twice\"\n"), tasks.get("dust \"twice\"\n"));
    assert_eq!(back.get("übung"), tasks.get("übung"));
}

#[test]
fn text_that_is_no_json_object_of_strings_is_refused() {
    for content in ["", "{", "[]", "null", "{\"dust\": 3}", "{\"dust\": null}", "{} {}"] {
        match Tasks::from_json(content) {
            Err(LoadError::Json(_)) => {}
            other => panic!("{content}: {other:?}"),
        }
    }
}

#[test]
fn json_with_a_bad_timestamp_is_refused() {
    match Tasks::from_json("{\"t\": \"not-a-date\", \"a\": \"2023-01-20T00:00:00\"}") {
        Err(LoadError::Timestamp { name, .. }) => assert_eq!(name, "t"),
        other => panic!("{other:?}"),
    }
}

#[test]
fn every_store_can_be_written() {
    let tasks = Tasks::from_entries(vec![
        (String::new(), Timestamp::new(-8_334_601_228_800, 0).unwrap()),
        (String::from("\u{0}\u{1f}\\\"/\t"), Timestamp::new(8_210_266_876_799, 1_999_999_999).unwrap()),
        (String::from("日本語 \u{1f600}"), Timestamp::new(0, 0).unwrap()),
    ]);
    let content = tasks.clone().into_json();
    assert!(content.is_ok());
    let back = Tasks::from_json(&content.unwrap()).unwrap();
    assert_eq!(back.len(), 3);
    assert_eq!(back.get(""), tasks.get(""));
    assert_eq!(back.get("\u{0}\u{1f}\\\"/\t"), tasks.get("\u{0}\u{1f}\\\"/\t"));
    assert_eq!(back.get("日本語 \u{1f600}"), tasks.get("日本語 \u{1f600}"));
}
