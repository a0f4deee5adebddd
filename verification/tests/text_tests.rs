use meanapi::catchers::{bad_request, content_too_large, default_catcher, im_a_teapot, not_found};
use meanapi::config::{dataset_metrics, metrics_file, MetricItem};
use meanapi::paths::graphs::{
    column_position, pie_columns, record_has_team, slice_amount_text, slice_name, split_teams,
    trim_text,
};
use meanapi::paths::logs::render_logs;
use meanapi::sorting::stable_sort_order;
use meanapi::text::{chars_of, remove_char, string_from_chars, text_eq};

fn s(t: &str) -> String {
    t.to_string()
}

const HEAD: &str = "\n    <html>\n        <body style=\"background-color: #1e1e2e; color: #cdd6f4\">\n            ";
const TAIL: &str = "\n        </body>\n    </html>\n    ";

#[test]
fn get_logs() {
    let page = render_logs("2024 INFO started\r\nDEBUG x ERROR y\nplain SUCCESS");
    let expected = format!(
        "{}{}{}{}{}",
        HEAD,
        "<div>2024 <span style=\"color: yellow;\">INFO</span> started</div>",
        "<div><span style=\"color: #7289da;\">DEBUG</span> x <span style=\"color: red;\">ERROR</span> y</div>",
        "<div>plain <span style=\"color: green;\">SUCCESS</span></div>",
        TAIL
    );
    assert_eq!(page, expected);
}

#[test]
fn logs_of_empty_file_and_blank_lines() {
    assert_eq!(render_logs(""), format!("{}{}", HEAD, TAIL));
    assert_eq!(render_logs("a\n\nb\n"), format!("{}<div>a</div><div></div><div>b</div>{}", HEAD, TAIL));
    assert_eq!(render_logs("INFOINFO"), format!(
        "{}<div><span style=\"color: yellow;\">INFO</span><span style=\"color: yellow;\">INFO</span></div>{}",
        HEAD, TAIL
    ));
}

#[test]
fn catcher_messages() {
    assert_eq!(
        default_catcher("/x"),
        "Something sure happened when you went to '/x'. Try something else?"
    );
    assert_eq!(bad_request("/y"), "Bad request to '/y, try again later or change data'");
    assert_eq!(not_found("/does-not-exist"), "I couldn't find '/does-not-exist'. Try something else?");
    assert_eq!(content_too_large(), "hehe");
    assert_eq!(im_a_teapot(), "I don't know how you did this.");
}

#[test]
fn metrics_file_text() {
    let items = vec![
        MetricItem::Single { name: s("team"), type_json: s("\"number\"") },
        MetricItem::Group {
            group: s("auto"),
            members: vec![(s("moved"), s("\"toggle\"")), (s("scored"), s("3"))],
        },
        MetricItem::Group { group: s("empty"), members: vec![] },
    ];
    let expected = [
        "{\n\"metrics\": [\n\n",
        "  {\"name\": \"team\", \"type\": \"number\"},\n",
        "  {\"name\": \"moved\", \"type\": \"toggle\", \"group\": \"auto\"},\n",
        "  {\"name\": \"scored\", \"type\": 3}",
        "\n",
        "\n]\n}\n",
    ]
    .concat();
    assert_eq!(metrics_file(&items), expected);
    assert_eq!(metrics_file(&vec![]), "{\n\"metrics\": [\n\n\n]\n}\n");
}

#[test]
fn metrics_file_is_json() {
    let single = vec![MetricItem::Single { name: s("team"), type_json: s("\"number\"") }];
    let text = metrics_file(&single);
    assert_eq!(text, "{\n\"metrics\": [\n\n  {\"name\": \"team\", \"type\": \"number\"}\n\n]\n}\n");
    let parsed: serde_json::Value = serde_json::from_str(&text).expect("metrics file parses");
    let metrics = parsed.get("metrics").and_then(|m| m.as_array()).expect("metrics array");
    assert_eq!(metrics.len(), 1);
    assert_eq!(metrics[0].get("name").and_then(|v| v.as_str()), Some("team"));
    assert_eq!(metrics[0].get("type").and_then(|v| v.as_str()), Some("number"));

    let items = vec![
        MetricItem::Single { name: s("team"), type_json: s("\"number\"") },
        MetricItem::Group { group: s("empty"), members: vec![] },
        MetricItem::Group {
            group: s("auto"),
            members: vec![(s("moved"), s("\"toggle\"")), (s("scored"), s("3"))],
        },
    ];
    let parsed: serde_json::Value =
        serde_json::from_str(&metrics_file(&items)).expect("metrics file parses");
    let metrics = parsed.get("metrics").and_then(|m| m.as_array()).expect("metrics array");
    assert_eq!(metrics.len(), 3);
    assert_eq!(metrics[1].get("group").and_then(|v| v.as_str()), Some("auto"));
    assert_eq!(metrics[2].get("type").and_then(|v| v.as_u64()), Some(3));

    let empty: serde_json::Value =
        serde_json::from_str(&metrics_file(&vec![])).expect("empty metrics file parses");
    assert_eq!(empty.get("metrics").and_then(|m| m.as_array()).map(|a| a.len()), Some(0));
}

#[test]
fn graph_columns() {
    let headers = vec![s("match"), s("team"), s("score"), s("team")];
    assert_eq!(column_position(&headers, "team"), 1);
    assert_eq!(column_position(&headers, "missing"), 0);
    assert_eq!(pie_columns(&headers, None), (1, 1));
    assert_eq!(pie_columns(&headers, Some("score")), (1, 2));
    assert_eq!(pie_columns(&headers, Some("nope")), (1, 0));
    assert_eq!(pie_columns(&vec![s("a")], None), (0, 0));
}

#[test]
fn graph_teams() {
    assert_eq!(split_teams("4198,2471"), vec![s("4198"), s("2471")]);
    assert_eq!(split_teams(""), vec![s("")]);
    assert_eq!(split_teams("a,,b,"), vec![s("a"), s(""), s("b"), s("")]);
    let teams = vec![s("4198"), s("2471")];
    assert!(record_has_team(&vec![s("1"), s(" \"4198\" ")], &teams));
    assert!(!record_has_team(&vec![s("1"), s("41 98")], &teams));
    assert!(!record_has_team(&vec![], &teams));
    assert_eq!(slice_amount_text(" \" 12\" "), "12");
    assert_eq!(slice_name(" \"4198\"\t"), "4198");
    assert_eq!(slice_name("\" 4198 \""), " 4198 ");
}

#[test]
fn trimming() {
    assert_eq!(trim_text("  a b \t\n"), "a b");
    assert_eq!(trim_text("\u{3000}x\u{2003}"), "x");
    assert_eq!(trim_text("   "), "");
    assert_eq!(trim_text(""), "");
    assert_eq!(trim_text("\u{200B}x"), "\u{200B}x");
}

#[test]
fn text_helpers() {
    assert_eq!(chars_of("añb"), vec!['a', 'ñ', 'b']);
    assert_eq!(string_from_chars(&vec!['x', 'é']), "xé");
    assert!(text_eq("abc", "abc"));
    assert!(!text_eq("abc", "abd"));
    assert!(!text_eq("ab", "abc"));
    assert_eq!(remove_char("a,b,,c", ','), "abc");
}

#[test]
fn stable_sort_keeps_ties_in_order() {
    let keys = vec![chars_of("b"), chars_of("a"), chars_of("b"), chars_of("ab"), chars_of("a")];
    assert_eq!(stable_sort_order(&keys), vec![1, 4, 3, 0, 2]);
    assert_eq!(stable_sort_order(&vec![]), Vec::<usize>::new());
}

#[test]
fn metrics_from_config_text() {
    let config = r#"{"datasets": {"match": {"team": "number", "auto": {"moved": "toggle", "scored": 3}},
        "pits": {"name": "text"}, "skipped": 5}, "other": 1}"#;
    let files = dataset_metrics(config).unwrap();
    assert_eq!(files.len(), 2);
    assert_eq!(files[0].0, "match");
    assert_eq!(
        files[0].1,
        [
            "{\n\"metrics\": [\n\n",
            "  {\"name\": \"moved\", \"type\": \"toggle\", \"group\": \"auto\"},\n",
            "  {\"name\": \"scored\", \"type\": 3},\n",
            "  {\"name\": \"team\", \"type\": \"number\"}",
            "\n\n]\n}\n",
        ]
        .concat()
    );
    assert_eq!(files[1].0, "pits");
    let parsed: serde_json::Value = serde_json::from_str(&files[1].1).expect("metrics file parses");
    assert_eq!(parsed.get("metrics").and_then(|m| m.as_array()).map(|a| a.len()), Some(1));
}

#[test]
fn metrics_from_bad_config() {
    assert!(dataset_metrics("not json").is_none());
    assert!(dataset_metrics("[1]").is_none());
    assert!(dataset_metrics(r#"{"sets": {}}"#).is_none());
    assert!(dataset_metrics(r#"{"datasets": [1]}"#).is_none());
    assert_eq!(dataset_metrics(r#"{"datasets": {}}"#).map(|f| f.len()), Some(0));
}
