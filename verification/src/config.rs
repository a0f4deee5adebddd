use vstd::prelude::*;
use crate::json::{
    entries_model, find_member, json_parse, json_text, json_value_text, member, members_readable,
    numbers_are_readable, numbers_readable, parse_json_text, Json, JsonValue,
};
use crate::text::{pair_views, push_text};

verus! {

/// The settings read from `settings.toml`.
pub struct Settings {
    pub debug: bool,
}

/// One entry of a dataset in `config.json`, as it becomes metrics for the scouting app.
pub enum MetricItem {
    /// A plain entry: its name and the JSON text of its value.
    Single { name: String, type_json: String },
    /// An object entry: its name, which groups its members, and each member's name and the
    /// JSON text of its value.
    Group { group: String, members: Vec<(String, String)> },
}

/// One metric: an object with the entry's name and type; the first member of a group also
/// names its group.
pub open spec fn metric_entry(name: Seq<char>, type_json: Seq<char>, group: Option<Seq<char>>) -> Seq<
    char,
> {
    "  {\"name\": \""@ + name + "\", \"type\": "@ + type_json + match group {
        Some(g) => ", \"group\": \""@ + g + "\""@,
        None => Seq::empty(),
    } + "}"@
}

/// The metrics of a group's members.
pub open spec fn group_entries(members: Seq<(String, String)>, group: Seq<char>) -> Seq<Seq<char>>
    decreases members.len(),
{
    if members.len() == 0 {
        Seq::empty()
    } else {
        group_entries(members.drop_last(), group).push(
            metric_entry(
                members.last().0@,
                members.last().1@,
                if members.len() == 1 {
                    Some(group)
                } else {
                    None
                },
            ),
        )
    }
}

/// The metrics of one dataset entry.
pub open spec fn item_entries(item: MetricItem) -> Seq<Seq<char>> {
    match item {
        MetricItem::Single { name, type_json } => seq![metric_entry(name@, type_json@, None)],
        MetricItem::Group { group, members } => group_entries(members@, group@),
    }
}

/// The metrics of all entries, in order.
pub open spec fn items_entries(items: Seq<MetricItem>) -> Seq<Seq<char>>
    decreases items.len(),
{
    if items.len() == 0 {
        Seq::empty()
    } else {
        items_entries(items.drop_last()) + item_entries(items.last())
    }
}

/// The metrics, one per line, with a comma between each two.
pub open spec fn join_entries(es: Seq<Seq<char>>) -> Seq<char>
    decreases es.len(),
{
    if es.len() == 0 {
        Seq::empty()
    } else if es.len() == 1 {
        es[0]
    } else {
        join_entries(es.drop_last()) + ",\n"@ + es.last()
    }
}

/// A metrics file: a JSON object whose `metrics` array holds the given metrics.
pub open spec fn metrics_doc(es: Seq<Seq<char>>) -> Seq<char> {
    "{\n\"metrics\": [\n\n"@ + join_entries(es) + (if es.len() > 0 {
        "\n"@
    } else {
        Seq::empty()
    }) + "\n]\n}\n"@
}

/// The metrics file of a dataset's entries.
pub open spec fn metrics_text(items: Seq<MetricItem>) -> Seq<char> {
    metrics_doc(items_entries(items))
}

/// Adding a metric puts a comma and line break before it, unless it is the first.
pub proof fn lemma_join_push(es: Seq<Seq<char>>, e: Seq<char>)
    ensures
        join_entries(es.push(e)) == if es.len() == 0 {
            e
        } else {
            join_entries(es) + ",\n"@ + e
        },
{
    assert(es.push(e).drop_last() =~= es);
    if es.len() == 0 {
        assert(es.push(e)[0] == e);
    }
}

/// Appends one metric, after a comma and line break when `after_another`.
fn push_metric(r: &mut String, name: &str, type_json: &str, group: Option<&str>, after_another: bool)
    ensures
        final(r)@ == old(r)@ + (if after_another {
            ",\n"@
        } else {
            Seq::empty()
        }) + metric_entry(
            name@,
            type_json@,
            match group {
                Some(g) => Some(g@),
                None => None,
            },
        ),
{
    let ghost r0 = r@;
    if after_another {
        push_text(r, ",\n");
    }
    let ghost r1 = r@;
    push_text(r, "  {\"name\": \"");
    push_text(r, name);
    push_text(r, "\", \"type\": ");
    push_text(r, type_json);
    match group {
        Some(g) => {
            push_text(r, ", \"group\": \"");
            push_text(r, g);
            push_text(r, "\"");
        },
        None => {},
    }
    push_text(r, "}");
    assert(r@ =~= r1 + metric_entry(
        name@,
        type_json@,
        match group {
            Some(g) => Some(g@),
            None => None,
        },
    ));
}

/// The metrics file that the scouting app reads for one dataset: a JSON object whose
/// `metrics` array has one metric per plain entry and one per member of an object entry, the
/// first member of each object also naming its group; the metrics stand one per line with a
/// comma between each two.
pub fn metrics_file(items: &Vec<MetricItem>) -> (r: String)
    ensures
        r@ == metrics_text(items@),
{
    let mut r = "{\n\"metrics\": [\n\n".to_owned();
    let ghost head = r@;
    let mut any = false;
    for i in 0..items.len()
        invariant
            r@ == head + join_entries(items_entries(items@.take(i as int))),
            any == (items_entries(items@.take(i as int)).len() > 0),
    {
        assert(items@.take(i + 1).drop_last() =~= items@.take(i as int));
        let ghost done = items_entries(items@.take(i as int));
        match &items[i] {
            MetricItem::Single { name, type_json } => {
                proof {
                    lemma_join_push(done, metric_entry(name@, type_json@, None));
                    assert(done + seq![metric_entry(name@, type_json@, None)] =~= done.push(
                        metric_entry(name@, type_json@, None),
                    ));
                }
                push_metric(&mut r, name.as_str(), type_json.as_str(), None, any);
                any = true;
            },
            MetricItem::Group { group, members } => {
                for j in 0..members.len()
                    invariant
                        r@ == head + join_entries(done + group_entries(members@.take(j as int), group@)),
                        any == ((done + group_entries(members@.take(j as int), group@)).len() > 0),
                {
                    assert(members@.take(j + 1).drop_last() =~= members@.take(j as int));
                    let g = if j == 0 {
                        Some(group.as_str())
                    } else {
                        None
                    };
                    let ghost e = metric_entry(
                        members@[j as int].0@,
                        members@[j as int].1@,
                        if j == 0 {
                            Some(group@)
                        } else {
                            None
                        },
                    );
                    let ghost before = done + group_entries(members@.take(j as int), group@);
                    proof {
                        lemma_join_push(before, e);
                        assert(done + group_entries(members@.take(j + 1), group@) =~= before.push(e));
                    }
                    push_metric(&mut r, members[j].0.as_str(), members[j].1.as_str(), g, any);
                    any = true;
                }
                assert(members@.take(members@.len() as int) =~= members@);
            },
        }
    }
    assert(items@.take(items@.len() as int) =~= items@);
    if any {
        push_text(&mut r, "\n");
    }
    push_text(&mut r, "\n]\n}\n");
    r
}

/// The metrics of an object entry of `config.json`: one per member, typed by the member's
/// JSON text, the first also naming the group.
pub open spec fn config_group_entries(members: Seq<(Seq<char>, Json)>, group: Seq<char>) -> Seq<
    Seq<char>,
>
    decreases members.len(),
{
    if members.len() == 0 {
        Seq::empty()
    } else {
        config_group_entries(members.drop_last(), group).push(
            metric_entry(
                members.last().0,
                json_text(members.last().1),
                if members.len() == 1 {
                    Some(group)
                } else {
                    None
                },
            ),
        )
    }
}

/// The metrics of one entry of a dataset in `config.json`.
pub open spec fn config_item_entries(name: Seq<char>, value: Json) -> Seq<Seq<char>> {
    match value {
        Json::Object(members) => config_group_entries(members, name),
        _ => seq![metric_entry(name, json_text(value), None)],
    }
}

/// The metrics of all entries of a dataset, in order.
pub open spec fn dataset_entries(entries: Seq<(Seq<char>, Json)>) -> Seq<Seq<char>>
    decreases entries.len(),
{
    if entries.len() == 0 {
        Seq::empty()
    } else {
        dataset_entries(entries.drop_last()) + config_item_entries(
            entries.last().0,
            entries.last().1,
        )
    }
}

/// The `datasets` object of `config.json`, when the file is an object holding one.
pub open spec fn config_datasets(config: Json) -> Option<Seq<(Seq<char>, Json)>> {
    match config {
        Json::Object(es) => match member(es, "datasets"@) {
            Some(Json::Object(ds)) => Some(ds),
            _ => None,
        },
        _ => None,
    }
}

/// The name and metrics file of each dataset that is an object, in order.
pub open spec fn dataset_files(ds: Seq<(Seq<char>, Json)>) -> Seq<(Seq<char>, Seq<char>)>
    decreases ds.len(),
{
    if ds.len() == 0 {
        Seq::empty()
    } else {
        let prev = dataset_files(ds.drop_last());
        match ds.last().1 {
            Json::Object(entries) => prev.push((ds.last().0, metrics_doc(dataset_entries(entries)))),
            _ => prev,
        }
    }
}

/// Each member of an object whose numbers are all readable has readable numbers.
proof fn lemma_member_readable(es: Seq<(Seq<char>, Json)>, i: int)
    requires
        members_readable(es),
        0 <= i < es.len(),
    ensures
        numbers_readable(es[i].1),
    decreases es.len(),
{
    if i < es.len() - 1 {
        lemma_member_readable(es.drop_last(), i);
        assert(es.drop_last()[i] == es[i]);
    }
}

/// Group metrics over name/text pairs match those over the members they were written from.
proof fn lemma_group_entries(
    strs: Seq<(String, String)>,
    js: Seq<(Seq<char>, Json)>,
    group: Seq<char>,
)
    requires
        strs.len() == js.len(),
        forall|k: int|
            #![trigger strs[k]]
            0 <= k < js.len() ==> strs[k].0@ == js[k].0 && strs[k].1@ == json_text(js[k].1),
    ensures
        group_entries(strs, group) == config_group_entries(js, group),
    decreases js.len(),
{
    if js.len() > 0 {
        let (s2, j2) = (strs.drop_last(), js.drop_last());
        assert forall|k: int| #![trigger s2[k]] 0 <= k < j2.len() implies s2[k].0@ == j2[k].0
            && s2[k].1@ == json_text(j2[k].1) by {
            assert(s2[k] == strs[k] && j2[k] == js[k]);
        }
        lemma_group_entries(s2, j2, group);
        assert(strs.last().0@ == js.last().0);
    }
}

/// The name and JSON text of each member of an object entry.
fn group_members(ms: &Vec<(String, JsonValue)>) -> (r: Vec<(String, String)>)
    requires
        members_readable(entries_model(ms@)),
    ensures
        r@.len() == ms@.len(),
        forall|k: int|
            #![trigger r@[k]]
            0 <= k < ms@.len() ==> r@[k].0@ == entries_model(ms@)[k].0 && r@[k].1@ == json_text(
                entries_model(ms@)[k].1,
            ),
{
    let ghost em = entries_model(ms@);
    let mut r: Vec<(String, String)> = Vec::new();
    for j in 0..ms.len()
        invariant
            em == entries_model(ms@),
            members_readable(em),
            r@.len() == j,
            forall|k: int|
                #![trigger r@[k]]
                0 <= k < j ==> r@[k].0@ == em[k].0 && r@[k].1@ == json_text(em[k].1),
    {
        proof {
            lemma_member_readable(em, j as int);
        }
        let name = ms[j].0.clone();
        let text = json_value_text(&ms[j].1);
        let ghost before = r@;
        r.push((name, text));
        assert forall|k: int| #![trigger r@[k]] 0 <= k < j + 1 implies r@[k].0@ == em[k].0 && r@[k].1@
            == json_text(em[k].1) by {
            if k < j {
                assert(r@[k] == before[k]);
            }
        }
    }
    r
}

/// The entries of one dataset of `config.json` as metric items.
fn config_items(entries: &Vec<(String, JsonValue)>) -> (r: Vec<MetricItem>)
    requires
        members_readable(entries_model(entries@)),
    ensures
        items_entries(r@) == dataset_entries(entries_model(entries@)),
{
    let ghost em = entries_model(entries@);
    let mut items: Vec<MetricItem> = Vec::new();
    for j in 0..entries.len()
        invariant
            em == entries_model(entries@),
            members_readable(em),
            items_entries(items@) == dataset_entries(em.take(j as int)),
    {
        proof {
            lemma_member_readable(em, j as int);
        }
        assert(em.take(j + 1).drop_last() =~= em.take(j as int));
        let name = entries[j].0.clone();
        let item = match &entries[j].1 {
            JsonValue::Object(ms) => {
                let members = group_members(ms);
                proof {
                    lemma_group_entries(members@, entries_model(ms@), name@);
                }
                MetricItem::Group { group: name, members }
            },
            v => MetricItem::Single { name, type_json: json_value_text(v) },
        };
        let ghost before = items@;
        items.push(item);
        assert(items@.drop_last() =~= before);
    }
    assert(em.take(entries@.len() as int) =~= em);
    items
}

/// The metrics files that `config.json` (its text) gives: for each dataset that is an object,
/// in order, its name and its metrics file. There are none when the text is not JSON, is not an
/// object with a `datasets` object, or holds a number kept as text that serde_json does not read.
pub fn dataset_metrics(config_text: &str) -> (r: Option<Vec<(String, String)>>)
    ensures
        r is Some <==> (json_parse(config_text@) matches Some(c) && config_datasets(c) matches Some(
            ds,
        ) && members_readable(ds)),
        r matches Some(fs) ==> (json_parse(config_text@) matches Some(c) && config_datasets(
            c,
        ) matches Some(ds) && pair_views(fs@) == dataset_files(ds)),
{
    let c = match parse_json_text(config_text) {
        Some(c) => c,
        None => return None,
    };
    let es = match &c {
        JsonValue::Object(es) => es,
        _ => return None,
    };
    let p = find_member(es, "datasets");
    if p >= es.len() {
        return None;
    }
    let dv = &es[p].1;
    let ds = match dv {
        JsonValue::Object(ds) => ds,
        _ => return None,
    };
    if !numbers_are_readable(dv) {
        return None;
    }
    let ghost dm = entries_model(ds@);
    let mut files: Vec<(String, String)> = Vec::new();
    for i in 0..ds.len()
        invariant
            dm == entries_model(ds@),
            members_readable(dm),
            pair_views(files@) == dataset_files(dm.take(i as int)),
    {
        proof {
            lemma_member_readable(dm, i as int);
        }
        assert(dm.take(i + 1).drop_last() =~= dm.take(i as int));
        match &ds[i].1 {
            JsonValue::Object(entries) => {
                let items = config_items(entries);
                let text = metrics_file(&items);
                let ghost before = pair_views(files@);
                files.push((ds[i].0.clone(), text));
                assert(pair_views(files@) =~= before.push((dm[i as int].0, metrics_doc(dataset_entries(entries_model(entries@))))));
            },
            _ => {},
        }
    }
    assert(dm.take(ds@.len() as int) =~= dm);
    Some(files)
}

/// A group's metrics: one per member, in order, the first also naming the group.
pub proof fn lemma_group_entries_each(members: Seq<(String, String)>, group: Seq<char>)
    ensures
        group_entries(members, group) == Seq::new(
            members.len(),
            |j: int|
                metric_entry(
                    members[j].0@,
                    members[j].1@,
                    if j == 0 {
                        Some(group)
                    } else {
                        None
                    },
                ),
        ),
    decreases members.len(),
{
    if members.len() > 0 {
        lemma_group_entries_each(members.drop_last(), group);
    }
    assert(group_entries(members, group) =~= Seq::new(
        members.len(),
        |j: int|
            metric_entry(
                members[j].0@,
                members[j].1@,
                if j == 0 {
                    Some(group)
                } else {
                    None
                },
            ),
    ));
}

/// What an entry of a dataset becomes: a plain entry one metric without a group; an object
/// entry one metric per member, in order, the first naming the group, however many members it
/// has.
pub proof fn lemma_item_entries(item: MetricItem)
    ensures
        match item {
            MetricItem::Single { name, type_json } => item_entries(item) == seq![
                metric_entry(name@, type_json@, None),
            ],
            MetricItem::Group { group, members } => item_entries(item) == Seq::new(
                members@.len(),
                |j: int|
                    metric_entry(
                        members@[j].0@,
                        members@[j].1@,
                        if j == 0 {
                            Some(group@)
                        } else {
                            None
                        },
                    ),
            ),
        },
{
    if let MetricItem::Group { group, members } = item {
        lemma_group_entries_each(members@, group@);
    }
}

/// The metrics of an object entry of `config.json`: one per member, in order, typed by its
/// JSON text, the first also naming the group.
pub proof fn lemma_config_group_entries_each(members: Seq<(Seq<char>, Json)>, group: Seq<char>)
    ensures
        config_group_entries(members, group) == Seq::new(
            members.len(),
            |j: int|
                metric_entry(
                    members[j].0,
                    json_text(members[j].1),
                    if j == 0 {
                        Some(group)
                    } else {
                        None
                    },
                ),
        ),
    decreases members.len(),
{
    if members.len() > 0 {
        lemma_config_group_entries_each(members.drop_last(), group);
    }
    assert(config_group_entries(members, group) =~= Seq::new(
        members.len(),
        |j: int|
            metric_entry(
                members[j].0,
                json_text(members[j].1),
                if j == 0 {
                    Some(group)
                } else {
                    None
                },
            ),
    ));
}

/// What an entry of a dataset in `config.json` becomes: an object one metric per member, the
/// first naming the group, however many members it has; any other value one metric typed by
/// its JSON text, without a group.
pub proof fn lemma_config_item_entries(name: Seq<char>, value: Json)
    ensures
        match value {
            Json::Object(members) => config_item_entries(name, value) == Seq::new(
                members.len(),
                |j: int|
                    metric_entry(
                        members[j].0,
                        json_text(members[j].1),
                        if j == 0 {
                            Some(name)
                        } else {
                            None
                        },
                    ),
            ),
            _ => config_item_entries(name, value) == seq![metric_entry(name, json_text(value), None)],
        },
{
    if let Json::Object(members) = value {
        lemma_config_group_entries_each(members, name);
    }
}

/// The metrics file of a dataset whose one entry is an object with one member: that member's
/// metric names the group.
pub proof fn lemma_one_member_group_file(group: String, members: Vec<(String, String)>)
    requires
        members@.len() == 1,
    ensures
        metrics_text(seq![MetricItem::Group { group, members }]) == "{\n\"metrics\": [\n\n  {\"name\": \""@
            + members@[0].0@ + "\", \"type\": "@ + members@[0].1@ + ", \"group\": \""@ + group@
            + "\"}\n\n]\n}\n"@,
{
    let item = MetricItem::Group { group, members };
    let items = seq![item];
    lemma_item_entries(item);
    assert(items.drop_last() =~= Seq::<MetricItem>::empty());
    assert(items_entries(Seq::<MetricItem>::empty()) == Seq::<Seq<char>>::empty());
    let e = metric_entry(members@[0].0@, members@[0].1@, Some(group@));
    assert(item_entries(item) =~= seq![e]);
    assert(items_entries(items) =~= seq![e]);
    assert(join_entries(seq![e]) == e);
    reveal_strlit("{\n\"metrics\": [\n\n");
    reveal_strlit("{\n\"metrics\": [\n\n  {\"name\": \"");
    reveal_strlit("  {\"name\": \"");
    reveal_strlit("\", \"type\": ");
    reveal_strlit(", \"group\": \"");
    reveal_strlit("\"");
    reveal_strlit("}");
    reveal_strlit("\n");
    reveal_strlit("\n]\n}\n");
    reveal_strlit("\"}\n\n]\n}\n");
    assert(metrics_text(items) =~= "{\n\"metrics\": [\n\n  {\"name\": \""@ + members@[0].0@
        + "\", \"type\": "@ + members@[0].1@ + ", \"group\": \""@ + group@ + "\"}\n\n]\n}\n"@);
}

} // verus!
