use vstd::prelude::*;
use crate::json::{
    all_names_unique, entries_model, find_member, items_model, json_parse, json_text,
    json_value_text, key_pos, lemma_key_pos, lemma_member_names_unique, lemma_member_with,
    lemma_member_without, member, names_unique, numbers_are_readable, numbers_readable,
    parse_json_text, remove_member, set_member, with_member, without_member, Json, JsonValue,
};
use crate::rows::{
    concat_from, concat_lines, join_lines, join_with, lemma_line_end, lemma_split_join, line_end,
    lines_of, split_lines, strip_cr, views,
};
use crate::sorting::{is_stable_order, key_views, stable_order, stable_sort_order};
use crate::text::{
    chars_of, lemma_without_absent_char, lemma_without_char_filter, push_text, remove_char, text_eq,
    without_char,
};
use json_objects_to_csv::flatten_json_object::{ArrayFormatting, Flattener};
use json_objects_to_csv::Json2Csv;

verus! {

/// How many items of `items` are the string `code`.
pub open spec fn count_code(items: Seq<Json>, code: Seq<char>) -> nat
    decreases items.len(),
{
    if items.len() == 0 {
        0
    } else {
        count_code(items.drop_last(), code) + if items.last() == Json::Str(code) {
            1nat
        } else {
            0nat
        }
    }
}

/// How many times `code` occurs in the array member `list` of `data` (0 when that member is
/// missing or not an array).
pub open spec fn code_count(data: Seq<(Seq<char>, Json)>, list: Seq<char>, code: Seq<char>) -> nat {
    match member(data, list) {
        Some(Json::Array(items)) => count_code(items, code),
        _ => 0,
    }
}

/// The counter that `code` gets from the array member `list` of `data`.
pub open spec fn counter(data: Seq<(Seq<char>, Json)>, list: Seq<char>, code: Seq<char>) -> Json {
    Json::Int(code_count(data, list, code) as int)
}

/// The teleop counters of `src`, set in `d`.
pub open spec fn with_teleop_counts(
    d: Seq<(Seq<char>, Json)>,
    src: Seq<(Seq<char>, Json)>,
) -> Seq<(Seq<char>, Json)> {
    let l = "teleop-scoring-2024"@;
    let d = with_member(d, "teleop-scored-in-amp"@, counter(src, l, "as"@));
    let d = with_member(d, "teleop-missed-in-amp"@, counter(src, l, "am"@));
    let d = with_member(d, "teleop-scored-in-non-amplified"@, counter(src, l, "ss"@));
    let d = with_member(d, "teleop-scored-in-amplified"@, counter(src, l, "sa"@));
    let d = with_member(d, "teleop-missed-in-speaker"@, counter(src, l, "sm"@));
    let d = with_member(d, "teleop-scored-in-trap"@, counter(src, l, "ts"@));
    with_member(d, "teleop-missed-in-trap"@, counter(src, l, "tm "@))
}

/// The autonomous counters of `src`, set in `d`.
pub open spec fn with_auto_counts(
    d: Seq<(Seq<char>, Json)>,
    src: Seq<(Seq<char>, Json)>,
) -> Seq<(Seq<char>, Json)> {
    let l = "auto-scoring-2024"@;
    let d = with_member(d, "auto-scored-in-amp"@, counter(src, l, "as"@));
    let d = with_member(d, "auto-missed-in-amp"@, counter(src, l, "am"@));
    let d = with_member(d, "auto-scored-in-speaker"@, counter(src, l, "ss"@));
    with_member(d, "auto-missed-in-speaker"@, counter(src, l, "sm"@))
}

/// The members of a scouting form once its scoring lists are counted: every counter is set to
/// the number of times its code occurs in its list, and both lists are dropped.
pub open spec fn tallied_data(d: Seq<(Seq<char>, Json)>) -> Seq<(Seq<char>, Json)> {
    without_member(
        without_member(with_auto_counts(with_teleop_counts(d, d), d), "teleop-scoring-2024"@),
        "auto-scoring-2024"@,
    )
}

/// A submission can be counted: it is `null` or an object whose `data` member is missing,
/// `null` or an object.
pub open spec fn tally_applies(v: Json) -> bool {
    match v {
        Json::Null => true,
        Json::Object(es) => match member(es, "data"@) {
            None => true,
            Some(Json::Null) => true,
            Some(Json::Object(_)) => true,
            _ => false,
        },
        _ => false,
    }
}

/// The members of the submission's `data` object (none when it is missing or `null`).
pub open spec fn data_members(v: Json) -> Seq<(Seq<char>, Json)> {
    match v {
        Json::Object(es) => match member(es, "data"@) {
            Some(Json::Object(d)) => d,
            _ => Seq::empty(),
        },
        _ => Seq::empty(),
    }
}

/// The submission with its `data` object counted.
pub open spec fn tallied_submission(v: Json) -> Json {
    let root = match v {
        Json::Object(es) => es,
        _ => Seq::empty(),
    };
    Json::Object(with_member(root, "data"@, Json::Object(tallied_data(data_members(v)))))
}

/// What counting the scoring lists leaves under each name: the lists are gone, each counter
/// holds the number of times its code occurs in its list, and every other member is as it was;
/// members whose names were all different still have different names.
pub proof fn lemma_tallied_member(d: Seq<(Seq<char>, Json)>, k: Seq<char>)
    ensures
        member(tallied_data(d), k) == if k == "auto-scoring-2024"@ {
            None
        } else if k == "teleop-scoring-2024"@ {
            None
        } else if k == "auto-missed-in-speaker"@ {
            Some(counter(d, "auto-scoring-2024"@, "sm"@))
        } else if k == "auto-scored-in-speaker"@ {
            Some(counter(d, "auto-scoring-2024"@, "ss"@))
        } else if k == "auto-missed-in-amp"@ {
            Some(counter(d, "auto-scoring-2024"@, "am"@))
        } else if k == "auto-scored-in-amp"@ {
            Some(counter(d, "auto-scoring-2024"@, "as"@))
        } else if k == "teleop-missed-in-trap"@ {
            Some(counter(d, "teleop-scoring-2024"@, "tm "@))
        } else if k == "teleop-scored-in-trap"@ {
            Some(counter(d, "teleop-scoring-2024"@, "ts"@))
        } else if k == "teleop-missed-in-speaker"@ {
            Some(counter(d, "teleop-scoring-2024"@, "sm"@))
        } else if k == "teleop-scored-in-amplified"@ {
            Some(counter(d, "teleop-scoring-2024"@, "sa"@))
        } else if k == "teleop-scored-in-non-amplified"@ {
            Some(counter(d, "teleop-scoring-2024"@, "ss"@))
        } else if k == "teleop-missed-in-amp"@ {
            Some(counter(d, "teleop-scoring-2024"@, "am"@))
        } else if k == "teleop-scored-in-amp"@ {
            Some(counter(d, "teleop-scoring-2024"@, "as"@))
        } else {
            member(d, k)
        },
        names_unique(d) ==> names_unique(tallied_data(d)),
{
    let tl = "teleop-scoring-2024"@;
    let al = "auto-scoring-2024"@;
    let d1 = with_member(d, "teleop-scored-in-amp"@, counter(d, tl, "as"@));
    let d2 = with_member(d1, "teleop-missed-in-amp"@, counter(d, tl, "am"@));
    let d3 = with_member(d2, "teleop-scored-in-non-amplified"@, counter(d, tl, "ss"@));
    let d4 = with_member(d3, "teleop-scored-in-amplified"@, counter(d, tl, "sa"@));
    let d5 = with_member(d4, "teleop-missed-in-speaker"@, counter(d, tl, "sm"@));
    let d6 = with_member(d5, "teleop-scored-in-trap"@, counter(d, tl, "ts"@));
    let d7 = with_member(d6, "teleop-missed-in-trap"@, counter(d, tl, "tm "@));
    assert(d7 == with_teleop_counts(d, d));
    let e1 = with_member(d7, "auto-scored-in-amp"@, counter(d, al, "as"@));
    let e2 = with_member(e1, "auto-missed-in-amp"@, counter(d, al, "am"@));
    let e3 = with_member(e2, "auto-scored-in-speaker"@, counter(d, al, "ss"@));
    let e4 = with_member(e3, "auto-missed-in-speaker"@, counter(d, al, "sm"@));
    assert(e4 == with_auto_counts(d7, d));
    let f1 = without_member(e4, tl);
    lemma_member_with(d, "teleop-scored-in-amp"@, counter(d, tl, "as"@), k);
    lemma_member_with(d1, "teleop-missed-in-amp"@, counter(d, tl, "am"@), k);
    lemma_member_with(d2, "teleop-scored-in-non-amplified"@, counter(d, tl, "ss"@), k);
    lemma_member_with(d3, "teleop-scored-in-amplified"@, counter(d, tl, "sa"@), k);
    lemma_member_with(d4, "teleop-missed-in-speaker"@, counter(d, tl, "sm"@), k);
    lemma_member_with(d5, "teleop-scored-in-trap"@, counter(d, tl, "ts"@), k);
    lemma_member_with(d6, "teleop-missed-in-trap"@, counter(d, tl, "tm "@), k);
    lemma_member_with(d7, "auto-scored-in-amp"@, counter(d, al, "as"@), k);
    lemma_member_with(e1, "auto-missed-in-amp"@, counter(d, al, "am"@), k);
    lemma_member_with(e2, "auto-scored-in-speaker"@, counter(d, al, "ss"@), k);
    lemma_member_with(e3, "auto-missed-in-speaker"@, counter(d, al, "sm"@), k);
    lemma_member_without(e4, tl, k);
    lemma_member_without(f1, al, k);
    if names_unique(d) {
        lemma_with_unique(d, "teleop-scored-in-amp"@, counter(d, tl, "as"@));
        lemma_with_unique(d1, "teleop-missed-in-amp"@, counter(d, tl, "am"@));
        lemma_with_unique(d2, "teleop-scored-in-non-amplified"@, counter(d, tl, "ss"@));
        lemma_with_unique(d3, "teleop-scored-in-amplified"@, counter(d, tl, "sa"@));
        lemma_with_unique(d4, "teleop-missed-in-speaker"@, counter(d, tl, "sm"@));
        lemma_with_unique(d5, "teleop-scored-in-trap"@, counter(d, tl, "ts"@));
        lemma_with_unique(d6, "teleop-missed-in-trap"@, counter(d, tl, "tm "@));
        lemma_with_unique(d7, "auto-scored-in-amp"@, counter(d, al, "as"@));
        lemma_with_unique(e1, "auto-missed-in-amp"@, counter(d, al, "am"@));
        lemma_with_unique(e2, "auto-scored-in-speaker"@, counter(d, al, "ss"@));
        lemma_with_unique(e3, "auto-missed-in-speaker"@, counter(d, al, "sm"@));
        lemma_without_unique(e4, tl);
        lemma_without_unique(f1, al);
    }
}

/// No two members of the form, nor of its `data` object, share a name.
pub open spec fn form_names_unique(v: Json) -> bool {
    match v {
        Json::Object(es) => names_unique(es) && match member(es, "data"@) {
            Some(Json::Object(d)) => names_unique(d),
            _ => true,
        },
        _ => true,
    }
}

/// A value with no repeated names anywhere is a form without repeated names.
proof fn lemma_names_unique_form(v: Json)
    requires
        all_names_unique(v),
    ensures
        form_names_unique(v),
{
    if let Json::Object(es) = v {
        lemma_key_pos(es, "data"@);
        let p = key_pos(es, "data"@);
        if p < es.len() {
            lemma_member_names_unique(es, p);
        }
    }
}

/// A name held by some member is found by `member`.
proof fn lemma_name_found(es: Seq<(Seq<char>, Json)>, i: int)
    requires
        0 <= i < es.len(),
    ensures
        member(es, es[i].0) is Some,
{
    lemma_key_pos(es, es[i].0);
}

/// Setting a member keeps the names unique.
proof fn lemma_with_unique(es: Seq<(Seq<char>, Json)>, k: Seq<char>, v: Json)
    requires
        names_unique(es),
    ensures
        names_unique(with_member(es, k, v)),
{
    lemma_key_pos(es, k);
    let w = with_member(es, k, v);
    assert forall|i: int, j: int| 0 <= i < j < w.len() implies #[trigger] w[i].0 != #[trigger] w[j].0 by {
        if j == es.len() {
            assert(w[i] == es[i]);
        } else {
            assert(w[i].0 == es[i].0);
            assert(w[j].0 == es[j].0);
        }
    }
}

/// Dropping a name keeps the names unique.
proof fn lemma_without_unique(es: Seq<(Seq<char>, Json)>, k: Seq<char>)
    requires
        names_unique(es),
    ensures
        names_unique(without_member(es, k)),
    decreases es.len(),
{
    if es.len() > 0 {
        let d = es.drop_last();
        assert(names_unique(d)) by {
            assert forall|i: int, j: int| 0 <= i < j < d.len() implies #[trigger] d[i].0 != #[trigger] d[j].0 by {
                assert(d[i] == es[i] && d[j] == es[j]);
            }
        }
        lemma_without_unique(d, k);
        let w = without_member(d, k);
        let e = es.last();
        if e.0 != k {
            assert forall|i: int| 0 <= i < w.len() implies #[trigger] w[i].0 != e.0 by {
                if w[i].0 == e.0 {
                    lemma_name_found(w, i);
                    lemma_member_without(d, k, e.0);
                    lemma_key_pos(d, e.0);
                    let q = key_pos(d, e.0);
                    assert(d[q] == es[q]);
                    assert(es[q].0 == es[es.len() - 1].0);
                }
            }
            let w2 = w.push(e);
            assert forall|i: int, j: int| 0 <= i < j < w2.len() implies #[trigger] w2[i].0 != #[trigger] w2[j].0 by {
                assert(w2[i] == w[i]);
                if j < w.len() {
                    assert(w2[j] == w[j]);
                }
            }
        }
    }
}

/// Counting keeps the form's names unique.
proof fn lemma_tallied_unique(v: Json)
    requires
        form_names_unique(v),
    ensures
        form_names_unique(tallied_submission(v)),
{
    let root = match v {
        Json::Object(es) => es,
        _ => Seq::empty(),
    };
    let d = data_members(v);
    assert(names_unique(d));
    lemma_tallied_member(d, "data"@);
    let td = Json::Object(tallied_data(d));
    assert(names_unique(root));
    lemma_with_unique(root, "data"@, td);
    lemma_member_with(root, "data"@, td, "data"@);
}

/// How many items of `items` are the string `code`.
fn count_in(items: &Vec<JsonValue>, code: &str) -> (r: u64)
    ensures
        r == count_code(items_model(items@), code@),
{
    let ghost m = items_model(items@);
    let mut c: usize = 0;
    for i in 0..items.len()
        invariant
            m == items_model(items@),
            c <= i,
            c == count_code(m.take(i as int), code@),
    {
        assert(m.take(i + 1).drop_last() =~= m.take(i as int));
        let hit = match &items[i] {
            JsonValue::Str(s) => text_eq(s.as_str(), code),
            _ => false,
        };
        assert(hit == (m[i as int] == Json::Str(code@)));
        if hit {
            c = c + 1;
        }
    }
    assert(m.take(items@.len() as int) =~= m);
    c as u64
}

/// How many times `code` occurs in the array member `list` of `d`.
fn list_count(d: &Vec<(String, JsonValue)>, list: &str, code: &str) -> (r: u64)
    ensures
        r == code_count(entries_model(d@), list@, code@),
{
    let p = find_member(d, list);
    if p < d.len() {
        match &d[p].1 {
            JsonValue::Array(items) => count_in(items, code),
            _ => 0,
        }
    } else {
        0
    }
}

/// Counts the scoring lists of a scouting form's members, as `tallied_data` says.
fn tally_data(d: Vec<(String, JsonValue)>) -> (r: Vec<(String, JsonValue)>)
    ensures
        entries_model(r@) == tallied_data(entries_model(d@)),
{
    let ghost src = entries_model(d@);
    let tl = "teleop-scoring-2024";
    let al = "auto-scoring-2024";
    let t_as = list_count(&d, tl, "as");
    let t_am = list_count(&d, tl, "am");
    let t_ss = list_count(&d, tl, "ss");
    let t_sa = list_count(&d, tl, "sa");
    let t_sm = list_count(&d, tl, "sm");
    let t_ts = list_count(&d, tl, "ts");
    let t_tm = list_count(&d, tl, "tm ");
    let a_as = list_count(&d, al, "as");
    let a_am = list_count(&d, al, "am");
    let a_ss = list_count(&d, al, "ss");
    let a_sm = list_count(&d, al, "sm");
    let mut d = d;
    set_member(&mut d, "teleop-scored-in-amp".to_owned(), JsonValue::UInt(t_as));
    set_member(&mut d, "teleop-missed-in-amp".to_owned(), JsonValue::UInt(t_am));
    set_member(&mut d, "teleop-scored-in-non-amplified".to_owned(), JsonValue::UInt(t_ss));
    set_member(&mut d, "teleop-scored-in-amplified".to_owned(), JsonValue::UInt(t_sa));
    set_member(&mut d, "teleop-missed-in-speaker".to_owned(), JsonValue::UInt(t_sm));
    set_member(&mut d, "teleop-scored-in-trap".to_owned(), JsonValue::UInt(t_ts));
    set_member(&mut d, "teleop-missed-in-trap".to_owned(), JsonValue::UInt(t_tm));
    assert(entries_model(d@) == with_teleop_counts(src, src));
    set_member(&mut d, "auto-scored-in-amp".to_owned(), JsonValue::UInt(a_as));
    set_member(&mut d, "auto-missed-in-amp".to_owned(), JsonValue::UInt(a_am));
    set_member(&mut d, "auto-scored-in-speaker".to_owned(), JsonValue::UInt(a_ss));
    set_member(&mut d, "auto-missed-in-speaker".to_owned(), JsonValue::UInt(a_sm));
    assert(entries_model(d@) == with_auto_counts(with_teleop_counts(src, src), src));
    let d = remove_member(d, tl);
    remove_member(d, al)
}

/// Whether `tally_scouting_data` can take this submission (elsewhere the handler gives up).
pub fn can_tally(submission: &JsonValue) -> (b: bool)
    ensures
        b == tally_applies(submission.model()),
{
    match submission {
        JsonValue::Null => true,
        JsonValue::Object(es) => {
            let p = find_member(es, "data");
            if p < es.len() {
                match &es[p].1 {
                    JsonValue::Null => true,
                    JsonValue::Object(_) => true,
                    _ => false,
                }
            } else {
                true
            }
        },
        _ => false,
    }
}

/// Turns the scoring lists of a scouting submission into counters: each counter member of
/// `data` is set to the number of times its code occurs in `teleop-scoring-2024` or
/// `auto-scoring-2024`, and both lists are removed.
pub fn tally_scouting_data(submission: JsonValue) -> (r: JsonValue)
    requires
        tally_applies(submission.model()),
        form_names_unique(submission.model()),
    ensures
        r.model() == tallied_submission(submission.model()),
        form_names_unique(r.model()),
{
    let ghost sm = submission.model();
    proof {
        lemma_tallied_unique(sm);
    }
    match submission {
        JsonValue::Object(es) => {
            let mut es = es;
            let ghost m = entries_model(es@);
            proof {
                lemma_key_pos(m, "data"@);
            }
            let p = find_member(&es, "data");
            if p < es.len() {
                let (k, v) = es.remove(p);
                let d = match v {
                    JsonValue::Object(d) => d,
                    _ => Vec::new(),
                };
                assert(entries_model(d@) == data_members(sm));
                let nd = tally_data(d);
                es.insert(p, (k, JsonValue::Object(nd)));
                assert(entries_model(es@) =~= with_member(m, "data"@, Json::Object(tallied_data(data_members(sm)))));
                JsonValue::Object(es)
            } else {
                let empty: Vec<(String, JsonValue)> = Vec::new();
                assert(entries_model(empty@) =~= data_members(sm));
                let nd = tally_data(empty);
                es.push(("data".to_owned(), JsonValue::Object(nd)));
                assert(entries_model(es@) =~= with_member(m, "data"@, Json::Object(tallied_data(data_members(sm)))));
                JsonValue::Object(es)
            }
        },
        _ => {
            let empty: Vec<(String, JsonValue)> = Vec::new();
            assert(entries_model(empty@) =~= data_members(sm));
            let nd = tally_data(empty);
            let mut es: Vec<(String, JsonValue)> = Vec::new();
            es.push(("data".to_owned(), JsonValue::Object(nd)));
            assert(entries_model(es@) =~= with_member(Seq::empty(), "data"@, Json::Object(tallied_data(data_members(sm)))));
            JsonValue::Object(es)
        },
    }
}

/// An HTTP status code that a handler answers with.
#[derive(Clone, Copy, Debug, PartialEq, Eq, Structural)]
pub struct StatusCode {
    pub code: u16,
}

/// Why a submission could not be stored.
#[derive(Clone, Copy, Debug, PartialEq, Eq, Structural)]
pub enum DataError {
    /// The JSON could not be turned into CSV.
    CsvConversion,
    /// A number kept as text in the form is not one serde_json reads.
    UnreadableNumber,
    /// The text is not JSON.
    NotJson,
    /// The form is not `null` or an object whose `data` member is missing, `null` or an object.
    NotCountable,
}

/// Whether `password` is one of `passwords`.
pub open spec fn password_accepted(passwords: Seq<String>, password: Seq<char>) -> bool {
    exists|i: int| 0 <= i < passwords.len() && passwords[i]@ == password
}

/// Checks a password against the configured ones: `Ok("It worked!")` when it is one of them,
/// otherwise `Err` with 401 (unauthorized).
pub fn authentication(passwords: &Vec<String>, password: String) -> (r: Result<String, StatusCode>)
    ensures
        r is Ok <==> password_accepted(passwords@, password@),
        r matches Ok(s) ==> s@ == "It worked!"@,
        r matches Err(e) ==> e.code == 401,
{
    for i in 0..passwords.len()
        invariant
            forall|j: int| 0 <= j < i ==> passwords@[j]@ != password@,
    {
        if passwords[i] == password {
            return Ok("It worked!".to_owned());
        }
    }
    Err(StatusCode { code: 401 })
}

/// The file a submission goes to: the test file when the request is marked as a test.
pub fn data_directory(is_test: bool, test_dir: String, data_dir: String) -> (r: String)
    ensures
        r == (if is_test { test_dir } else { data_dir }),
{
    if is_test {
        test_dir
    } else {
        data_dir
    }
}

/// The name of the backup file of a submission made at `stamp`.
pub fn backup_file_name(stamp: &str) -> (r: String)
    ensures
        r@ == "backup-"@ + stamp@ + ".json"@,
{
    let mut r = "backup-".to_owned();
    push_text(&mut r, stamp);
    push_text(&mut r, ".json");
    r
}

/// The CSV table that json-objects-to-csv makes of `input` with the given layout, or `None`
/// when it refuses the input (text that is not a stream of JSON values, a value that is not an
/// object, or two keys that flatten alike); it is a function of the input bytes and the layout
/// alone.
pub uninterp spec fn json_to_csv_table(
    input: Seq<u8>,
    key_separator: Seq<char>,
    array_start: Seq<char>,
    array_end: Seq<char>,
    preserve_empty_arrays: bool,
    preserve_empty_objects: bool,
    delimiter: u8,
    has_headers: bool,
) -> Option<Seq<u8>>;

#[verifier::external_type_specification]
#[verifier::external_body]
pub struct ExJson2CsvError(json_objects_to_csv::Error);

/// Reads the JSON values of `input` one after the other, flattens them (`Flattener` with the
/// given key separator, array brackets and empty-value settings) and writes them as CSV rows,
/// headers first (`Json2Csv::convert_from_array` into a `csv::Writer` over a byte buffer, which
/// cannot fail to take the bytes). Claimed: it succeeds exactly when `json_to_csv_table` of its
/// arguments is a table, and then the bytes written are that table.
#[verifier::external_body]
fn json_objects_to_csv_table(
    input: &[u8],
    key_separator: &str,
    array_start: &str,
    array_end: &str,
    preserve_empty_arrays: bool,
    preserve_empty_objects: bool,
    delimiter: u8,
    has_headers: bool,
) -> (r: Result<Vec<u8>, json_objects_to_csv::Error>)
    ensures
        match r {
            Ok(t) => json_to_csv_table(
                input@,
                key_separator@,
                array_start@,
                array_end@,
                preserve_empty_arrays,
                preserve_empty_objects,
                delimiter,
                has_headers,
            ) == Some(t@),
            Err(_) => json_to_csv_table(
                input@,
                key_separator@,
                array_start@,
                array_end@,
                preserve_empty_arrays,
                preserve_empty_objects,
                delimiter,
                has_headers,
            ) is None,
        },
{
    let objects = serde_json::Deserializer::from_slice(input).into_iter().collect::<Result<Vec<_>, _>>()?;
    let start = array_start.to_string();
    let end = array_end.to_string();
    let flattener = Flattener::new().set_key_separator(key_separator).set_array_formatting(
        ArrayFormatting::Surrounded { start, end },
    ).set_preserve_empty_arrays(preserve_empty_arrays).set_preserve_empty_objects(
        preserve_empty_objects,
    );
    let mut output = Vec::<u8>::new();
    let writer = csv::WriterBuilder::new().delimiter(delimiter).has_headers(has_headers).from_writer(
        &mut output,
    );
    Json2Csv::new(flattener).convert_from_array(&objects, writer)?;
    Ok(output)
}

/// The CSV table of a scouting submission in JSON: keys joined with `.`, array positions in
/// brackets, empty arrays and objects kept, fields separated by commas; `CsvConversion` when
/// json-objects-to-csv refuses the text.
pub fn scouting_table(json_text: &[u8]) -> (r: Result<Vec<u8>, DataError>)
    ensures
        match r {
            Ok(t) => json_to_csv_table(json_text@, "."@, "["@, "]"@, true, true, 44u8, false)
                == Some(t@),
            Err(e) => e == DataError::CsvConversion && json_to_csv_table(
                json_text@,
                "."@,
                "["@,
                "]"@,
                true,
                true,
                44u8,
                false,
            ) is None,
        },
{
    match json_objects_to_csv_table(json_text, ".", "[", "]", true, true, 44u8, false) {
        Ok(t) => Ok(t),
        Err(_) => Err(DataError::CsvConversion),
    }
}

/// The JSON text of a form, as serde_json writes it; there is none when a number kept as text
/// in the form is not one serde_json reads.
pub fn submission_text(submission: &JsonValue) -> (r: Result<String, DataError>)
    ensures
        r is Ok <==> numbers_readable(submission.model()),
        r matches Ok(t) ==> t@ == json_text(submission.model()),
        r matches Err(e) ==> e == DataError::UnreadableNumber,
{
    if numbers_are_readable(submission) {
        Ok(json_value_text(submission))
    } else {
        Err(DataError::UnreadableNumber)
    }
}

/// The CSV table of a form in JSON text, as `scouting_table` makes it (`None` when
/// json-objects-to-csv refuses it).
pub open spec fn form_table(form: Json) -> Option<Seq<u8>> {
    json_to_csv_table(vstd::utf8::encode_utf8(json_text(form)), "."@, "["@, "]"@, true, true, 44u8, false)
}

/// What making the CSV table of a form gives: `UnreadableNumber` when a number kept as text is
/// not one serde_json reads, else the table of its JSON text, or `CsvConversion` when
/// json-objects-to-csv refuses that text.
pub open spec fn table_outcome(form: Json) -> Result<Seq<u8>, DataError> {
    if !numbers_readable(form) {
        Err(DataError::UnreadableNumber)
    } else {
        match form_table(form) {
            Some(t) => Ok(t),
            None => Err(DataError::CsvConversion),
        }
    }
}

/// The bytes of a table result.
pub open spec fn table_view(r: Result<Vec<u8>, DataError>) -> Result<Seq<u8>, DataError> {
    match r {
        Ok(t) => Ok(t@),
        Err(e) => Err(e),
    }
}

/// The CSV table of a (counted) scouting form: the form written as JSON text (UTF-8), then
/// turned into CSV as `scouting_table` does.
pub fn submission_table(submission: &JsonValue) -> (r: Result<Vec<u8>, DataError>)
    ensures
        table_view(r) == table_outcome(submission.model()),
        r matches Ok(t) ==> form_table(submission.model()) == Some(t@),
        r matches Err(e) ==> (e == DataError::UnreadableNumber <==> !numbers_readable(
            submission.model(),
        )),
        r matches Err(e) ==> e == DataError::UnreadableNumber || e == DataError::CsvConversion,
        !numbers_readable(submission.model()) ==> r is Err,
{
    match submission_text(submission) {
        Ok(text) => scouting_table(text.as_str().as_bytes()),
        Err(e) => Err(e),
    }
}

/// Counts a scouting form's scoring lists and makes the CSV table of the counted form: the
/// counted form comes back with the table.
pub fn scouting_form_table(submission: JsonValue) -> (r: (JsonValue, Result<Vec<u8>, DataError>))
    requires
        tally_applies(submission.model()),
        form_names_unique(submission.model()),
    ensures
        r.0.model() == tallied_submission(submission.model()),
        table_view(r.1) == table_outcome(tallied_submission(submission.model())),
        r.1 matches Ok(t) ==> form_table(tallied_submission(submission.model())) == Some(t@),
        r.1 matches Err(e) ==> (e == DataError::UnreadableNumber <==> !numbers_readable(
            tallied_submission(submission.model()),
        )),
        r.1 matches Err(e) ==> e == DataError::UnreadableNumber || e == DataError::CsvConversion,
        !numbers_readable(tallied_submission(submission.model())) ==> r.1 is Err,
{
    let tallied = tally_scouting_data(submission);
    let table = submission_table(&tallied);
    (tallied, table)
}

/// What a scouting request body gives: `NotJson` when it is not JSON, `NotCountable` when its
/// form cannot be counted, else the table outcome of the counted form, a table being cut into
/// the rows to append.
pub open spec fn body_outcome(body: Seq<char>, file_empty: bool) -> Result<Seq<u8>, DataError> {
    match json_parse(body) {
        None => Err(DataError::NotJson),
        Some(v) => if !tally_applies(v) {
            Err(DataError::NotCountable)
        } else {
            match table_outcome(tallied_submission(v)) {
                Ok(t) => Ok(rows_to_append(t, file_empty)),
                Err(e) => Err(e),
            }
        },
    }
}

/// The rows that a scouting request body adds to the data file: the body read as JSON, its
/// scoring lists counted, the counted form made a CSV table, and the table cut into the rows
/// to append. The counted form comes back with the rows.
pub fn scouting_body_rows(body: &str, file_empty: bool) -> (r: Result<(JsonValue, Vec<u8>), DataError>)
    ensures
        match r {
            Ok((form, rows)) => body_outcome(body@, file_empty) == Ok::<Seq<u8>, DataError>(rows@)
                && (json_parse(body@) matches Some(v) && form.model() == tallied_submission(v)),
            Err(e) => body_outcome(body@, file_empty) == Err::<Seq<u8>, DataError>(e),
        },
        r == Err::<(JsonValue, Vec<u8>), DataError>(DataError::NotJson) <==> json_parse(body@) is None,
        r == Err::<(JsonValue, Vec<u8>), DataError>(DataError::NotCountable) <==> (json_parse(body@) matches Some(v)
            && !tally_applies(v)),
        r == Err::<(JsonValue, Vec<u8>), DataError>(DataError::UnreadableNumber) <==> (json_parse(body@) matches Some(v)
            && tally_applies(v) && !numbers_readable(tallied_submission(v))),
        r == Err::<(JsonValue, Vec<u8>), DataError>(DataError::CsvConversion) <==> (json_parse(body@) matches Some(v)
            && tally_applies(v) && numbers_readable(tallied_submission(v)) && form_table(
            tallied_submission(v),
        ) is None),
        r matches Ok((form, rows)) ==> (json_parse(body@) matches Some(v) && tally_applies(v)
            && form.model() == tallied_submission(v) && form_table(tallied_submission(v)) is Some
            && rows@ == rows_to_append(form_table(tallied_submission(v))->0, file_empty)),
{
    match parse_json_text(body) {
        None => Err(DataError::NotJson),
        Some(v) => {
            if !can_tally(&v) {
                return Err(DataError::NotCountable);
            }
            proof {
                lemma_names_unique_form(v.model());
            }
            let (form, table) = scouting_form_table(v);
            match table {
                Ok(t) => {
                    let rows = scouting_rows(&t, file_empty);
                    Ok((form, rows))
                },
                Err(e) => Err(e),
            }
        },
    }
}

/// What is appended to the data file for a CSV table: all its lines joined with `\n` when the
/// file is empty, else every line but the first (the headers) written one after the other.
pub open spec fn rows_to_append(table: Seq<u8>, file_empty: bool) -> Seq<u8> {
    let ls = split_lines(table);
    if file_empty {
        join_lines(ls, seq![10u8])
    } else if ls.len() == 0 {
        Seq::empty()
    } else {
        concat_lines(ls.drop_first())
    }
}

/// On an empty data file, what is appended for a CSV table that ends with a newline and holds
/// no carriage return is the table itself (the append adds the final newline).
pub proof fn lemma_empty_file_gets_table(table: Seq<u8>)
    requires
        table.len() > 0,
        table.last() == 10u8,
        forall|i: int| 0 <= i < table.len() ==> table[i] != 13u8,
    ensures
        rows_to_append(table, true) + seq![10u8] == table,
{
    lemma_split_join(table);
}

/// For a table of a header line and one data line, a data file that already has content gets
/// the data line alone, and an empty one gets both lines.
pub proof fn lemma_header_and_row(h: Seq<u8>, row: Seq<u8>)
    requires
        forall|i: int| 0 <= i < h.len() ==> h[i] != 10u8 && h[i] != 13u8,
        forall|i: int| 0 <= i < row.len() ==> row[i] != 10u8 && row[i] != 13u8,
    ensures
        rows_to_append(h + seq![10u8] + row + seq![10u8], false) == row,
        rows_to_append(h + seq![10u8] + row + seq![10u8], true) == h + seq![10u8] + row,
{
    let t = h + seq![10u8] + row + seq![10u8];
    let rest = row + seq![10u8];
    lemma_line_end(t);
    lemma_line_end(rest);
    assert(t[h.len() as int] == 10u8);
    assert forall|j: int| 0 <= j < h.len() implies t[j] != 10u8 by {
        assert(t[j] == h[j]);
    }
    assert(line_end(t) == h.len());
    assert(t.take(h.len() as int) =~= h);
    assert(t.skip(h.len() as int + 1) =~= rest);
    assert(rest[row.len() as int] == 10u8);
    assert forall|j: int| 0 <= j < row.len() implies rest[j] != 10u8 by {
        assert(rest[j] == row[j]);
    }
    assert(line_end(rest) == row.len());
    assert(rest.take(row.len() as int) =~= row);
    assert(rest.skip(row.len() as int + 1) =~= Seq::<u8>::empty());
    assert(split_lines(Seq::<u8>::empty()) =~= Seq::<Seq<u8>>::empty());
    if h.len() > 0 {
        assert(h.last() != 13u8);
    }
    if row.len() > 0 {
        assert(row.last() != 13u8);
    }
    assert(strip_cr(h) == h);
    assert(strip_cr(row) == row);
    assert(split_lines(rest) =~= seq![row]);
    assert(split_lines(t) =~= seq![h, row]);
    assert(seq![h, row].drop_first() =~= seq![row]);
    assert(seq![row].drop_last() =~= Seq::<Seq<u8>>::empty());
    assert(concat_lines(Seq::<Seq<u8>>::empty()) == Seq::<u8>::empty());
    assert(seq![row].last() == row);
    assert(concat_lines(seq![row]) =~= Seq::<u8>::empty() + row);
    assert(seq![h, row].drop_last() =~= seq![h]);
    assert(join_lines(seq![h], seq![10u8]) == h);
    assert(seq![h, row].last() == row);
}

/// The bytes to append to the data file for a CSV table, as `rows_to_append` says.
pub fn scouting_rows(table: &Vec<u8>, file_empty: bool) -> (r: Vec<u8>)
    ensures
        r@ == rows_to_append(table@, file_empty),
{
    let ls = lines_of(table);
    if file_empty {
        let mut sep: Vec<u8> = Vec::new();
        sep.push(10u8);
        assert(sep@ =~= seq![10u8]);
        join_with(&ls, &sep)
    } else if ls.len() == 0 {
        Vec::new()
    } else {
        let r = concat_from(&ls, 1);
        assert(views(ls@).skip(1) =~= views(ls@).drop_first());
        r
    }
}

/// One member of a pits form: its name, its `category` when that is a string, and the JSON
/// text of its `content`.
pub struct PitsField {
    pub key: String,
    pub category: Option<String>,
    pub content: String,
}

/// The characters of an optional string.
pub open spec fn opt_view(o: Option<String>) -> Option<Seq<char>> {
    match o {
        Some(s) => Some(s@),
        None => None,
    }
}

/// The category of a pits member: its `category` member when that is a string.
pub open spec fn pits_category(v: Json) -> Option<Seq<char>> {
    match v {
        Json::Object(es) => match member(es, "category"@) {
            Some(Json::Str(c)) => Some(c),
            _ => None,
        },
        _ => None,
    }
}

/// The content of a pits member: its `content` member (`null` when there is none).
pub open spec fn pits_content(v: Json) -> Json {
    match v {
        Json::Object(es) => match member(es, "content"@) {
            Some(c) => c,
            None => Json::Null,
        },
        _ => Json::Null,
    }
}

/// A pits member can be stored: it is an object with a `content` member whose numbers
/// serde_json reads and, when the form has several members, a string `category`.
pub open spec fn pits_member_ok(v: Json, several: bool) -> bool {
    match v {
        Json::Object(es) => member(es, "content"@) is Some && numbers_readable(pits_content(v)) && (
        several ==> pits_category(v) is Some),
        _ => false,
    }
}

/// The fields of a pits form's members, in order: each member's name, its category, and the
/// JSON text of its content. There are none when a member cannot be stored.
pub fn pits_fields(members: &Vec<(String, JsonValue)>) -> (r: Option<Vec<PitsField>>)
    ensures
        r is Some <==> forall|i: int|
            0 <= i < members@.len() ==> pits_member_ok(
                #[trigger] entries_model(members@)[i].1,
                members@.len() >= 2,
            ),
        r matches Some(fs) ==> {
            &&& fs@.len() == members@.len()
            &&& pits_sortable(fs@)
            &&& forall|i: int|
                #![trigger fs@[i]]
                0 <= i < fs@.len() ==> fs@[i].key@ == members@[i].0@ && opt_view(fs@[i].category)
                    == pits_category(members@[i].1.model()) && fs@[i].content@ == json_text(
                    pits_content(members@[i].1.model()),
                )
        },
{
    let ghost em = entries_model(members@);
    let several = members.len() >= 2;
    let mut out: Vec<PitsField> = Vec::new();
    for i in 0..members.len()
        invariant
            em == entries_model(members@),
            several == (members@.len() >= 2),
            out@.len() == i,
            forall|k: int| 0 <= k < i ==> pits_member_ok(#[trigger] em[k].1, several),
            several ==> forall|k: int| 0 <= k < i ==> (#[trigger] out@[k]).category is Some,
            forall|k: int|
                #![trigger out@[k]]
                0 <= k < i ==> out@[k].key@ == members@[k].0@ && opt_view(out@[k].category)
                    == pits_category(members@[k].1.model()) && out@[k].content@ == json_text(
                    pits_content(members@[k].1.model()),
                ),
    {
        assert(em[i as int].1 == members@[i as int].1.model());
        match &members[i].1 {
            JsonValue::Object(es) => {
                let ghost m = entries_model(es@);
                proof {
                    lemma_key_pos(m, "content"@);
                    lemma_key_pos(m, "category"@);
                }
                let cp = find_member(es, "content");
                if cp >= es.len() {
                    return None;
                }
                let c = &es[cp].1;
                if !numbers_are_readable(c) {
                    return None;
                }
                let kp = find_member(es, "category");
                let category = if kp < es.len() {
                    match &es[kp].1 {
                        JsonValue::Str(s) => Some(s.clone()),
                        _ => None,
                    }
                } else {
                    None
                };
                assert(opt_view(category) == pits_category(members@[i as int].1.model()));
                if several && category.is_none() {
                    return None;
                }
                let content = json_value_text(c);
                let ghost before = out@;
                out.push(PitsField { key: members[i].0.clone(), category, content });
                assert forall|k: int| #![trigger out@[k]] 0 <= k < i + 1 implies out@[k].key@
                    == members@[k].0@ && opt_view(out@[k].category) == pits_category(
                    members@[k].1.model(),
                ) && out@[k].content@ == json_text(pits_content(members@[k].1.model())) by {
                    if k < i {
                        assert(out@[k] == before[k]);
                    }
                }
                assert(several ==> forall|k: int| 0 <= k < i + 1 ==> (#[trigger] out@[k]).category is Some) by {
                    if several {
                        assert forall|k: int| 0 <= k < i + 1 implies (#[trigger] out@[k]).category is Some by {
                            if k < i {
                                assert(out@[k] == before[k]);
                            }
                        }
                    }
                }
            },
            _ => {
                return None;
            },
        }
    }
    Some(out)
}

/// What a pits form adds to its data file.
pub struct PitsRows {
    /// The positions of the fields, sorted by category.
    pub order: Vec<usize>,
    /// The header line, written when the file is empty.
    pub header: Option<String>,
    /// The data line.
    pub row: String,
}

/// The category a field is sorted by.
pub open spec fn category_key(f: PitsField) -> Seq<char> {
    match f.category {
        Some(c) => c@,
        None => Seq::empty(),
    }
}

/// The categories of the fields.
pub open spec fn category_keys(fs: Seq<PitsField>) -> Seq<Seq<char>> {
    Seq::new(fs.len(), |i: int| category_key(fs[i]))
}

/// The fields can be sorted: there is at most one, or every field has a category.
pub open spec fn pits_sortable(fs: Seq<PitsField>) -> bool {
    fs.len() < 2 || forall|i: int| 0 <= i < fs.len() ==> (#[trigger] fs[i]).category is Some
}

/// The header line: each field name followed by a comma, in the order `p`.
pub open spec fn header_of(fs: Seq<PitsField>, p: Seq<usize>) -> Seq<char>
    decreases p.len(),
{
    if p.len() == 0 {
        Seq::empty()
    } else {
        header_of(fs, p.drop_last()) + fs[p.last() as int].key@ + ","@
    }
}

/// The data line: each content without commas followed by `, `, in the order `p`.
pub open spec fn row_of(fs: Seq<PitsField>, p: Seq<usize>) -> Seq<char>
    decreases p.len(),
{
    if p.len() == 0 {
        Seq::empty()
    } else {
        row_of(fs, p.drop_last()) + without_char(fs[p.last() as int].content@, ',') + ", "@
    }
}

/// Each field adds to the data line its content with exactly its commas deleted (every other
/// character kept, in order), then `, `.
pub proof fn lemma_row_push(fs: Seq<PitsField>, p: Seq<usize>, i: usize)
    ensures
        row_of(fs, p.push(i)) == row_of(fs, p) + fs[i as int].content@.filter(|x: char| x != ',')
            + ", "@,
{
    assert(p.push(i).drop_last() =~= p);
    lemma_without_char_filter(fs[i as int].content@, ',');
}

/// The data line of one field whose content holds no comma is that content, then `, `.
pub proof fn lemma_row_one_field(fs: Seq<PitsField>, i: usize)
    requires
        !fs[i as int].content@.contains(','),
    ensures
        row_of(fs, seq![i]) == fs[i as int].content@ + ", "@,
{
    assert(seq![i].drop_last() =~= Seq::<usize>::empty());
    lemma_without_absent_char(fs[i as int].content@, ',');
    assert(row_of(fs, Seq::<usize>::empty()) == Seq::<char>::empty());
    assert(Seq::<char>::empty() + fs[i as int].content@ =~= fs[i as int].content@);
}

/// The lines a pits form adds to its data file: the fields are sorted by category (stably,
/// keeping the order they came in for equal categories); when the file is empty a header of
/// the field names, each followed by a comma, comes first; the data line holds each content
/// with its commas removed, each followed by `, `.
pub fn pits_rows(fields: &Vec<PitsField>, file_empty: bool) -> (r: PitsRows)
    requires
        pits_sortable(fields@),
    ensures
        is_stable_order(category_keys(fields@), r.order@),
        r.order@ == stable_order(category_keys(fields@)),
        r.header is Some <==> file_empty,
        r.header matches Some(h) ==> h@ == header_of(fields@, r.order@),
        r.row@ == row_of(fields@, r.order@),
{
    let mut keys: Vec<Vec<char>> = Vec::new();
    for i in 0..fields.len()
        invariant
            keys@.len() == i,
            forall|k: int| 0 <= k < i ==> (#[trigger] keys@[k])@ == category_key(fields@[k]),
    {
        let k = match &fields[i].category {
            Some(c) => chars_of(c.as_str()),
            None => Vec::new(),
        };
        keys.push(k);
    }
    assert(key_views(keys@) =~= category_keys(fields@));
    let order = stable_sort_order(&keys);
    let mut header = String::new();
    let mut row = String::new();
    for i in 0..order.len()
        invariant
            is_stable_order(category_keys(fields@), order@),
            header@ == header_of(fields@, order@.take(i as int)),
            row@ == row_of(fields@, order@.take(i as int)),
    {
        assert(order@.take(i + 1).drop_last() =~= order@.take(i as int));
        let f = &fields[order[i]];
        push_text(&mut header, f.key.as_str());
        push_text(&mut header, ",");
        let c = remove_char(f.content.as_str(), ',');
        push_text(&mut row, c.as_str());
        push_text(&mut row, ", ");
    }
    assert(order@.take(order@.len() as int) =~= order@);
    PitsRows { order, header: if file_empty { Some(header) } else { None }, row }
}

} // verus!
