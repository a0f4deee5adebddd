use meanapi::json::{numbers_are_readable, JsonValue};
use meanapi::paths::data::{
    authentication, backup_file_name, can_tally, data_directory, pits_fields, pits_rows,
    scouting_body_rows, scouting_form_table, scouting_rows, scouting_table, submission_table,
    submission_text, tally_scouting_data, DataError, PitsField,
};
use meanapi::paths::graphs::{
    line_graph_values, parse_i32, pie_graph_from_csv, pie_graph_slices, pie_slices,
};

fn s(t: &str) -> String {
    t.to_string()
}

fn field(content: &str, category: &str) -> JsonValue {
    JsonValue::Object(vec![
        (s("category"), JsonValue::Str(s(category))),
        (s("content"), JsonValue::Str(s(content))),
    ])
}

fn member<'a>(es: &'a [(String, JsonValue)], k: &str) -> Option<&'a JsonValue> {
    es.iter().find(|(n, _)| n == k).map(|(_, v)| v)
}

fn data_of(v: &JsonValue) -> &Vec<(String, JsonValue)> {
    match v {
        JsonValue::Object(es) => match member(es, "data") {
            Some(JsonValue::Object(d)) => d,
            _ => panic!("no data object"),
        },
        _ => panic!("not an object"),
    }
}

fn count(d: &[(String, JsonValue)], k: &str) -> u64 {
    match member(d, k) {
        Some(JsonValue::UInt(n)) => *n,
        _ => panic!("no counter {}", k),
    }
}

fn passwords() -> Vec<String> {
    vec![s("ChangeMe!"), s("AnotherPassword!")]
}

#[test]
fn scouting_post() {
    assert_eq!(authentication(&passwords(), s("ChangeMe!")), Ok(s("It worked!")));
    let submission = JsonValue::Object(vec![(
        s("data"),
        JsonValue::Object(vec![
            (s("category"), field("test", "category")),
            (s("content"), field("test", "content")),
            (s("match"), field("1", "match")),
            (s("team"), field("1234", "team")),
        ]),
    )]);
    assert!(can_tally(&submission));
    let tallied = tally_scouting_data(submission);
    let d = data_of(&tallied);
    assert_eq!(d.len(), 4 + 11);
    for k in [
        "teleop-scored-in-amp",
        "teleop-missed-in-amp",
        "teleop-scored-in-non-amplified",
        "teleop-scored-in-amplified",
        "teleop-missed-in-speaker",
        "teleop-scored-in-trap",
        "teleop-missed-in-trap",
        "auto-scored-in-amp",
        "auto-missed-in-amp",
        "auto-scored-in-speaker",
        "auto-missed-in-speaker",
    ] {
        assert_eq!(count(d, k), 0);
    }
    assert_eq!(member(d, "team"), Some(&field("1234", "team")));
}

#[test]
fn scouting_post_wrong_password() {
    let r = authentication(&passwords(), s("ThisWillNeverBeThePassword"));
    assert!(r.is_err());
    assert_eq!(r.unwrap_err().code, 401);
}

#[test]
fn pits_post_wrong_password() {
    let r = authentication(&passwords(), s("ThisWillNeverBeThePassword"));
    assert_eq!(r.unwrap_err().code, 401);
}

#[test]
fn authentication_accepts_any_configured_password() {
    assert_eq!(authentication(&passwords(), s("AnotherPassword!")), Ok(s("It worked!")));
    assert!(authentication(&Vec::new(), s("ChangeMe!")).is_err());
    assert!(authentication(&passwords(), s("changeme!")).is_err());
}

#[test]
fn tally_counts_codes() {
    let list = |codes: &[&str]| JsonValue::Array(codes.iter().map(|c| JsonValue::Str(s(c))).collect());
    let submission = JsonValue::Object(vec![
        (s("scouter"), JsonValue::Str(s("ann"))),
        (
            s("data"),
            JsonValue::Object(vec![
                (s("teleop-scoring-2024"), list(&["as", "as", "sm", "tm", "tm ", "ts", "xx"])),
                (s("auto-scoring-2024"), list(&["ss", "ss", "am", "sa"])),
                (s("teleop-scored-in-amp"), JsonValue::UInt(99)),
                (s("team"), JsonValue::Int(-5)),
            ]),
        ),
    ]);
    let tallied = tally_scouting_data(submission);
    let d = data_of(&tallied);
    assert_eq!(count(d, "teleop-scored-in-amp"), 2);
    assert_eq!(count(d, "teleop-missed-in-speaker"), 1);
    assert_eq!(count(d, "teleop-missed-in-trap"), 1);
    assert_eq!(count(d, "teleop-scored-in-trap"), 1);
    assert_eq!(count(d, "teleop-scored-in-amplified"), 0);
    assert_eq!(count(d, "auto-scored-in-speaker"), 2);
    assert_eq!(count(d, "auto-missed-in-amp"), 1);
    assert_eq!(count(d, "auto-scored-in-amp"), 0);
    assert!(member(d, "teleop-scoring-2024").is_none());
    assert!(member(d, "auto-scoring-2024").is_none());
    assert_eq!(member(d, "team"), Some(&JsonValue::Int(-5)));
    match &tallied {
        JsonValue::Object(es) => {
            assert_eq!(es.len(), 2);
            assert_eq!(member(es, "scouter"), Some(&JsonValue::Str(s("ann"))));
        }
        _ => panic!("not an object"),
    }
}

#[test]
fn tally_of_null_and_missing_data() {
    let t = tally_scouting_data(JsonValue::Null);
    assert_eq!(data_of(&t).len(), 11);
    let t = tally_scouting_data(JsonValue::Object(vec![(s("x"), JsonValue::Bool(true))]));
    assert_eq!(data_of(&t).len(), 11);
    let t = tally_scouting_data(JsonValue::Object(vec![(s("data"), JsonValue::Null)]));
    assert_eq!(data_of(&t).len(), 11);
}

#[test]
fn tally_applies_only_to_objects_and_null() {
    assert!(can_tally(&JsonValue::Null));
    assert!(!can_tally(&JsonValue::Array(vec![])));
    assert!(!can_tally(&JsonValue::Str(s("x"))));
    assert!(!can_tally(&JsonValue::Object(vec![(s("data"), JsonValue::UInt(3))])));
    assert!(can_tally(&JsonValue::Object(vec![(s("other"), JsonValue::UInt(3))])));
}

#[test]
fn scouting_table_and_rows() {
    let json = br#"{"data":{"team":{"category":"team","content":"1234"}}}"#;
    let table = scouting_table(json).unwrap();
    assert_eq!(
        String::from_utf8(table.clone()).unwrap(),
        "data.team.category,data.team.content\nteam,1234\n"
    );
    assert_eq!(
        String::from_utf8(scouting_rows(&table, true)).unwrap(),
        "data.team.category,data.team.content\nteam,1234"
    );
    assert_eq!(String::from_utf8(scouting_rows(&table, false)).unwrap(), "team,1234");
}

#[test]
fn scouting_table_rejects_bad_json() {
    assert_eq!(scouting_table(b"{not json").unwrap_err(), DataError::CsvConversion);
}

#[test]
fn scouting_rows_edge_cases() {
    assert_eq!(scouting_rows(&Vec::new(), true), Vec::<u8>::new());
    assert_eq!(scouting_rows(&Vec::new(), false), Vec::<u8>::new());
    assert_eq!(scouting_rows(&b"h\r\na\r\nb".to_vec(), false), b"ab".to_vec());
    assert_eq!(scouting_rows(&b"h\r\na\r\nb\r".to_vec(), true), b"h\na\nb\r".to_vec());
    assert_eq!(scouting_rows(&b"only\n".to_vec(), false), Vec::<u8>::new());
    assert_eq!(scouting_rows(&b"a\n\nb\n".to_vec(), true), b"a\n\nb".to_vec());
}

#[test]
fn empty_file_gets_the_table() {
    let table = b"h1,h2\nx,y\n".to_vec();
    let mut appended = scouting_rows(&table, true);
    appended.push(b'\n');
    assert_eq!(appended, table);
}

#[test]
fn pits_post() {
    // The members of the test form, in the order a JSON map yields them.
    let fields = vec![
        PitsField { key: s("category"), category: Some(s("category")), content: s("\"test\"") },
        PitsField { key: s("content"), category: Some(s("content")), content: s("\"test\"") },
        PitsField {
            key: s("name"),
            category: Some(s("name")),
            content: s("\"Clearly, just a name\""),
        },
        PitsField { key: s("team"), category: Some(s("team")), content: s("\"1234\"") },
    ];
    let r = pits_rows(&fields, true);
    assert_eq!(r.order, vec![0, 1, 2, 3]);
    assert_eq!(r.header, Some(s("category,content,name,team,")));
    assert_eq!(r.row, "\"test\", \"test\", \"Clearly just a name\", \"1234\", ");
    let r = pits_rows(&fields, false);
    assert_eq!(r.header, None);
}

#[test]
fn pits_rows_sort_stably_by_category() {
    let f = |k: &str, c: &str, v: &str| PitsField {
        key: s(k),
        category: Some(s(c)),
        content: s(v),
    };
    let fields = vec![f("a", "z", "1"), f("b", "m", "2,3"), f("c", "z", "4"), f("d", "", "5"), f("e", "m", "6")];
    let r = pits_rows(&fields, true);
    assert_eq!(r.order, vec![3, 1, 4, 0, 2]);
    assert_eq!(r.header, Some(s("d,b,e,a,c,")));
    assert_eq!(r.row, "5, 23, 6, 1, 4, ");
}

#[test]
fn pits_rows_single_field_without_category() {
    let fields = vec![PitsField { key: s("team"), category: None, content: s("12") }];
    let r = pits_rows(&fields, true);
    assert_eq!(r.order, vec![0]);
    assert_eq!(r.header, Some(s("team,")));
    assert_eq!(r.row, "12, ");
}

#[test]
fn data_directory_and_backup_name() {
    assert_eq!(data_directory(true, s("test.csv"), s("data.csv")), "test.csv");
    assert_eq!(data_directory(false, s("test.csv"), s("data.csv")), "data.csv");
    assert_eq!(backup_file_name("2024-03-01-10-20-30"), "backup-2024-03-01-10-20-30.json");
}

#[test]
fn file_exists_on_disk() {
    assert!(meanapi::data_utils::file_exists("/"));
    assert!(!meanapi::data_utils::file_exists("/no/such/place/for/scouting/data.csv"));
    assert!(meanapi::csvstuff::file_exists("/"));
    assert!(!meanapi::csvstuff::file_exists("/no/such/place/for/scouting/data.csv"));
}

fn text_of(r: Result<Vec<u8>, DataError>) -> String {
    String::from_utf8(r.expect("text")).expect("utf-8")
}

#[test]
fn submission_text_is_serde_json_text() {
    let v = JsonValue::Object(vec![
        (s("b"), JsonValue::UInt(1)),
        (s("a"), JsonValue::Str(s("x\"y"))),
        (
            s("c"),
            JsonValue::Array(vec![
                JsonValue::Null,
                JsonValue::Bool(true),
                JsonValue::Int(-5),
                JsonValue::Decimal(s("1.5")),
            ]),
        ),
    ]);
    assert_eq!(submission_text(&v).unwrap(), "{\"a\":\"x\\\"y\",\"b\":1,\"c\":[null,true,-5,1.5]}");
    assert_eq!(submission_text(&JsonValue::Null).unwrap(), "null");
    assert_eq!(submission_text(&JsonValue::Object(vec![])).unwrap(), "{}");
    assert_eq!(submission_text(&JsonValue::Str(s("é"))).unwrap(), "\"é\"");
}

#[test]
fn unreadable_numbers_are_refused() {
    assert!(numbers_are_readable(&JsonValue::Decimal(s("2.5e3"))));
    assert!(!numbers_are_readable(&JsonValue::Decimal(s("abc"))));
    let nested = JsonValue::Object(vec![(
        s("data"),
        JsonValue::Array(vec![JsonValue::UInt(1), JsonValue::Decimal(s("1.2.3"))]),
    )]);
    assert!(!numbers_are_readable(&nested));
    assert!(numbers_are_readable(&JsonValue::Array(vec![JsonValue::Str(s("abc"))])));
    assert_eq!(submission_text(&nested), Err(DataError::UnreadableNumber));
    assert_eq!(submission_table(&nested), Err(DataError::UnreadableNumber));
}

#[test]
fn submission_table_of_a_form() {
    let form = JsonValue::Object(vec![(
        s("data"),
        JsonValue::Object(vec![(s("team"), field("1234", "team"))]),
    )]);
    assert_eq!(
        text_of(submission_table(&form)),
        "data.team.category,data.team.content\nteam,1234\n"
    );
}

#[test]
fn scouting_form_table_counts_then_converts() {
    let form = JsonValue::Object(vec![(
        s("data"),
        JsonValue::Object(vec![
            (s("team"), field("1234", "team")),
            (
                s("teleop-scoring-2024"),
                JsonValue::Array(vec![JsonValue::Str(s("as")), JsonValue::Str(s("as"))]),
            ),
        ]),
    )]);
    let (tallied, table) = scouting_form_table(form);
    assert_eq!(count(data_of(&tallied), "teleop-scored-in-amp"), 2);
    let expected = [
        "data.auto-missed-in-amp,data.auto-missed-in-speaker,data.auto-scored-in-amp,",
        "data.auto-scored-in-speaker,data.team.category,data.team.content,",
        "data.teleop-missed-in-amp,data.teleop-missed-in-speaker,data.teleop-missed-in-trap,",
        "data.teleop-scored-in-amp,data.teleop-scored-in-amplified,",
        "data.teleop-scored-in-non-amplified,data.teleop-scored-in-trap\n",
        "0,0,0,0,team,1234,0,0,0,2,0,0,0\n",
    ]
    .concat();
    assert_eq!(text_of(table), expected);
}

#[test]
fn scouting_form_table_with_unreadable_number() {
    let form = JsonValue::Object(vec![(
        s("data"),
        JsonValue::Object(vec![(s("weight"), JsonValue::Decimal(s("heavy")))]),
    )]);
    let (tallied, table) = scouting_form_table(form);
    assert_eq!(data_of(&tallied).len(), 12);
    assert_eq!(table, Err(DataError::UnreadableNumber));
}

#[test]
fn pie_slices_keep_order_and_filter_teams() {
    let rec = |a: &str, b: &str| vec![s(a), s(b)];
    let records = vec![rec(" \"3\" ", "\"4198\""), rec("5", "2471"), rec("7", " 4198 ")];
    assert_eq!(
        pie_slices(&records, None, 0, 1),
        vec![(s("3"), s("4198")), (s("5"), s("2471")), (s("7"), s("4198"))]
    );
    let teams = vec![s("4198")];
    assert_eq!(
        pie_slices(&records, Some(&teams), 0, 1),
        vec![(s("3"), s("4198")), (s("7"), s("4198"))]
    );
    let none: Vec<String> = vec![s("9999")];
    assert_eq!(pie_slices(&records, Some(&none), 0, 1), Vec::<(String, String)>::new());
    assert_eq!(pie_slices(&vec![], None, 3, 4), Vec::<(String, String)>::new());
}

#[test]
fn scouting_body_rows_from_request_text() {
    let body = r#"{"data":{"team":{"category":"team","content":"1234"},"teleop-scoring-2024":["ts","tm "]}}"#;
    let (counted, rows) = scouting_body_rows(body, false).unwrap();
    assert_eq!(count(data_of(&counted), "teleop-scored-in-trap"), 1);
    assert_eq!(count(data_of(&counted), "teleop-missed-in-trap"), 1);
    assert_eq!(String::from_utf8(rows).unwrap(), "0,0,0,0,team,1234,0,0,1,0,0,0,1");
    let (_, rows) = scouting_body_rows(body, true).unwrap();
    let rows = String::from_utf8(rows).unwrap();
    assert!(rows.starts_with("data.auto-missed-in-amp,"));
    assert!(rows.ends_with("\n0,0,0,0,team,1234,0,0,1,0,0,0,1"));
}

#[test]
fn scouting_body_rows_errors() {
    assert_eq!(scouting_body_rows("{not json", true).unwrap_err(), DataError::NotJson);
    assert_eq!(scouting_body_rows("", false).unwrap_err(), DataError::NotJson);
    assert_eq!(scouting_body_rows("[1, 2]", false).unwrap_err(), DataError::NotCountable);
    assert_eq!(scouting_body_rows(r#"{"data": 3}"#, false).unwrap_err(), DataError::NotCountable);
    let (counted, rows) = scouting_body_rows("null", false).unwrap();
    assert_eq!(data_of(&counted).len(), 11);
    assert_eq!(String::from_utf8(rows).unwrap(), "0,0,0,0,0,0,0,0,0,0,0");
}

#[test]
fn scouting_body_with_repeated_name_keeps_the_last() {
    // serde_json keeps the last of two members with one name, so the counted form has one.
    let body = r#"{"data":{"teleop-scored-in-amp":5,"teleop-scored-in-amp":7,"teleop-scoring-2024":["as"]}}"#;
    let (counted, rows) = scouting_body_rows(body, false).unwrap();
    assert_eq!(count(data_of(&counted), "teleop-scored-in-amp"), 1);
    assert_eq!(data_of(&counted).len(), 11);
    assert_eq!(String::from_utf8(rows).unwrap(), "0,0,0,0,0,0,0,1,0,0,0");
}

fn object(members: Vec<(&str, JsonValue)>) -> JsonValue {
    JsonValue::Object(members.into_iter().map(|(k, v)| (s(k), v)).collect())
}

#[test]
fn pits_fields_of_a_form() {
    let members = vec![
        (s("name"), object(vec![("category", JsonValue::Str(s("b"))), ("content", JsonValue::Str(s("x, y")))])),
        (s("team"), object(vec![("content", JsonValue::UInt(1234)), ("category", JsonValue::Str(s("a")))])),
    ];
    let fields = pits_fields(&members).unwrap();
    assert_eq!(fields.len(), 2);
    assert_eq!(fields[0].key, "name");
    assert_eq!(fields[0].category, Some(s("b")));
    assert_eq!(fields[0].content, "\"x, y\"");
    assert_eq!(fields[1].content, "1234");
    let r = pits_rows(&fields, true);
    assert_eq!(r.header, Some(s("team,name,")));
    assert_eq!(r.row, "1234, \"x y\", ");
}

#[test]
fn pits_fields_refused() {
    let no_category = vec![
        (s("a"), object(vec![("content", JsonValue::UInt(1))])),
        (s("b"), object(vec![("content", JsonValue::UInt(2)), ("category", JsonValue::Str(s("c")))])),
    ];
    assert!(pits_fields(&no_category).is_none());
    let number_category = vec![
        (s("a"), object(vec![("content", JsonValue::UInt(1)), ("category", JsonValue::UInt(3))])),
        (s("b"), object(vec![("content", JsonValue::UInt(2)), ("category", JsonValue::Str(s("c")))])),
    ];
    assert!(pits_fields(&number_category).is_none());
    assert!(pits_fields(&vec![(s("a"), JsonValue::UInt(1))]).is_none());
    assert!(pits_fields(&vec![(s("a"), object(vec![("category", JsonValue::Str(s("c")))]))]).is_none());
    assert!(pits_fields(&vec![(s("a"), object(vec![("content", JsonValue::Decimal(s("x")))]))]).is_none());
    let single = pits_fields(&vec![(s("a"), object(vec![("content", JsonValue::Null)]))]).unwrap();
    assert_eq!(single[0].category, None);
    assert_eq!(single[0].content, "null");
    assert_eq!(pits_fields(&vec![]).map(|f| f.len()), Some(0));
}

#[test]
fn parse_i32_as_str_parse() {
    for text in ["0", "42", "-42", "+7", "007", "2147483647", "-2147483648", "2147483648",
        "-2147483649", "", "-", "+", "1 ", " 1", "1.0", "--1", "+-1", "99999999999999999999", "١"]
    {
        assert_eq!(parse_i32(text), text.parse::<i32>().ok(), "text {:?}", text);
    }
}

#[test]
fn pie_graph_slices_read_amounts() {
    let rec = |a: &str, b: &str| vec![s(a), s(b)];
    let records = vec![rec(" \"3\" ", "4198"), rec("5", "2471"), rec("-7", "\"1114\"")];
    assert_eq!(
        pie_graph_slices(&records, None, 0, 1),
        Some(vec![(3, s("4198")), (5, s("2471")), (-7, s("1114"))])
    );
    assert_eq!(
        pie_graph_slices(&records, Some("1114,4198"), 0, 1),
        Some(vec![(3, s("4198")), (-7, s("1114"))])
    );
    let bad = vec![rec("3", "4198"), rec("x", "2471")];
    assert_eq!(pie_graph_slices(&bad, None, 0, 1), None);
    assert_eq!(pie_graph_slices(&bad, Some("4198"), 0, 1), Some(vec![(3, s("4198"))]));
}

#[test]
fn pie_graph_from_csv_text() {
    let text = b"match,team,score\n1,\"4198\", 12\n2,2471,7\n3, 4198 ,-3\n";
    assert_eq!(
        pie_graph_from_csv(text, Some("score"), None),
        Some(vec![(12, s("4198")), (7, s("2471")), (-3, s("4198"))])
    );
    assert_eq!(
        pie_graph_from_csv(text, Some("score"), Some("4198")),
        Some(vec![(12, s("4198")), (-3, s("4198"))])
    );
    // Without a datapoint the team column is the amount too.
    assert_eq!(
        pie_graph_from_csv(text, None, Some("2471")),
        Some(vec![(2471, s("2471"))])
    );
    // A datapoint no header has reads column 0.
    assert_eq!(
        pie_graph_from_csv(text, Some("nope"), None),
        Some(vec![(1, s("4198")), (2, s("2471")), (3, s("4198"))])
    );
    assert_eq!(pie_graph_from_csv(b"team,score\n", Some("score"), None), Some(vec![]));
}

#[test]
fn pie_graph_from_csv_refusals() {
    // Records of different lengths are not CSV to the csv crate's default reader.
    assert_eq!(pie_graph_from_csv(b"team,score\n1,2\n3\n", Some("score"), None), None);
    // Invalid UTF-8.
    assert_eq!(pie_graph_from_csv(b"team,score\n1,\xff\n", Some("score"), None), None);
    // An amount that is not an i32.
    assert_eq!(pie_graph_from_csv(b"team,score\n1,x\n", Some("score"), None), None);
    // A record that is filtered out may hold anything.
    assert_eq!(
        pie_graph_from_csv(b"team,score\n1,x\n2,5\n", Some("score"), Some("2")),
        Some(vec![(5, s("2"))])
    );
}

#[test]
fn line_graph_values_from_csv_text() {
    let header: Vec<String> = (0..22).map(|i| format!("h{}", i)).collect();
    let row = |v: &str| {
        let mut fields: Vec<String> = (0..22).map(|i| i.to_string()).collect();
        fields[20] = v.to_string();
        fields.join(",")
    };
    let text = format!("{}\n{}\n{}\n", header.join(","), row(" 5 "), row("-12"));
    assert_eq!(line_graph_values(text.as_bytes()), Some(vec![5, -12]));
    let bad = format!("{}\n{}\n", header.join(","), row("5.5"));
    assert_eq!(line_graph_values(bad.as_bytes()), None);
    assert_eq!(line_graph_values(b"a,b\n1,2\n"), None);
    assert_eq!(line_graph_values(b"a,b\n"), Some(vec![]));
    assert_eq!(line_graph_values(b""), Some(vec![]));
}
