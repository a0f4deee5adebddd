use vstd::prelude::*;
use crate::text::{chars_of, pair_views, remove_char, string_from_chars, text_eq, without_char};

verus! {

/// `c` has the Unicode `White_Space` property, which is what `char::is_whitespace` tests.
pub open spec fn white_space(c: char) -> bool {
    let n = c as int;
    ||| 9 <= n <= 13
    ||| n == 32
    ||| n == 0x85
    ||| n == 0xA0
    ||| n == 0x1680
    ||| 0x2000 <= n <= 0x200A
    ||| n == 0x2028
    ||| n == 0x2029
    ||| n == 0x202F
    ||| n == 0x205F
    ||| n == 0x3000
}

/// Whether `c` is white space, as `white_space` says.
pub fn is_white_space(c: char) -> (b: bool)
    ensures
        b == white_space(c),
{
    let n = c as u32;
    (9 <= n && n <= 13) || n == 32 || n == 0x85 || n == 0xA0 || n == 0x1680 || (0x2000 <= n && n
        <= 0x200A) || n == 0x2028 || n == 0x2029 || n == 0x202F || n == 0x205F || n == 0x3000
}

/// The text without its leading white space.
pub open spec fn trim_start(s: Seq<char>) -> Seq<char>
    decreases s.len(),
{
    if s.len() > 0 && white_space(s[0]) {
        trim_start(s.drop_first())
    } else {
        s
    }
}

/// The text without its trailing white space.
pub open spec fn trim_end(s: Seq<char>) -> Seq<char>
    decreases s.len(),
{
    if s.len() > 0 && white_space(s.last()) {
        trim_end(s.drop_last())
    } else {
        s
    }
}

/// The text without leading and trailing white space, as `str::trim` gives it.
pub open spec fn trimmed(s: Seq<char>) -> Seq<char> {
    trim_end(trim_start(s))
}

/// Removes leading and trailing white space, as `trimmed` says.
pub fn trim_text(s: &str) -> (r: String)
    ensures
        r@ == trimmed(s@),
{
    let cs = chars_of(s);
    let mut a: usize = 0;
    assert(s@.skip(0) =~= s@);
    while a < cs.len() && is_white_space(cs[a])
        invariant
            cs@ == s@,
            a <= cs@.len(),
            trim_start(s@) == trim_start(s@.skip(a as int)),
        decreases cs@.len() - a,
    {
        assert(s@.skip(a as int).drop_first() =~= s@.skip(a + 1));
        a += 1;
    }
    let ghost t = s@.skip(a as int);
    assert(trim_start(s@) == t);
    let mut b: usize = cs.len();
    assert(t.take(t.len() as int) =~= t);
    while b > a && is_white_space(cs[b - 1])
        invariant
            cs@ == s@,
            a <= b <= cs@.len(),
            t == s@.skip(a as int),
            trim_end(t) == trim_end(t.take(b - a)),
        decreases b,
    {
        assert(t.take(b - a).drop_last() =~= t.take(b - a - 1));
        b -= 1;
    }
    assert(t.take(b - a) =~= cs@.subrange(a as int, b as int));
    let mut out: Vec<char> = Vec::new();
    let mut i = a;
    while i < b
        invariant
            cs@ == s@,
            a <= i <= b <= cs@.len(),
            out@ == cs@.subrange(a as int, i as int),
        decreases b - i,
    {
        out.push(cs[i]);
        assert(cs@.subrange(a as int, i + 1) =~= cs@.subrange(a as int, i as int).push(cs@[i as int]));
        i += 1;
    }
    string_from_chars(&out)
}

/// Position of the first of `headers` equal to `name`, or the length when there is none.
pub open spec fn header_pos(headers: Seq<Seq<char>>, name: Seq<char>) -> int
    decreases headers.len(),
{
    if headers.len() == 0 {
        0
    } else {
        let p = header_pos(headers.drop_last(), name);
        if p < headers.len() - 1 {
            p
        } else if headers.last() == name {
            headers.len() - 1
        } else {
            headers.len() as int
        }
    }
}

/// `header_pos` is the first position holding `name`, or the length when there is none.
pub proof fn lemma_header_pos(headers: Seq<Seq<char>>, name: Seq<char>)
    ensures
        0 <= header_pos(headers, name) <= headers.len(),
        header_pos(headers, name) < headers.len() ==> headers[header_pos(headers, name)] == name,
        forall|j: int| 0 <= j < header_pos(headers, name) ==> headers[j] != name,
    decreases headers.len(),
{
    if headers.len() > 0 {
        let d = headers.drop_last();
        lemma_header_pos(d, name);
        assert forall|j: int| 0 <= j < header_pos(headers, name) implies headers[j] != name by {
            if j < headers.len() - 1 {
                assert(headers[j] == d[j]);
            }
        }
    }
}

/// The column of `name`, or column 0 when no header is `name`.
pub open spec fn column_of(headers: Seq<Seq<char>>, name: Seq<char>) -> int {
    let p = header_pos(headers, name);
    if p < headers.len() {
        p
    } else {
        0
    }
}

/// The column of `name`, as `column_of` says.
pub fn column_position(headers: &Vec<String>, name: &str) -> (r: usize)
    ensures
        r == column_of(piece_views(headers@), name@),
{
    let ghost hv = piece_views(headers@);
    proof {
        lemma_header_pos(hv, name@);
    }
    let mut i: usize = 0;
    while i < headers.len()
        invariant
            i <= headers@.len(),
            hv == piece_views(headers@),
            forall|j: int| 0 <= j < i ==> hv[j] != name@,
            0 <= header_pos(hv, name@) <= hv.len(),
            header_pos(hv, name@) < hv.len() ==> hv[header_pos(hv, name@)] == name@,
            forall|j: int| 0 <= j < header_pos(hv, name@) ==> hv[j] != name@,
        decreases headers@.len() - i,
    {
        assert(hv[i as int] == headers@[i as int]@);
        if text_eq(headers[i].as_str(), name) {
            return i;
        }
        i += 1;
    }
    0
}

/// The columns a pie graph reads: the `team` column, and the column of the datapoint (the
/// team column when no datapoint is asked for).
pub fn pie_columns(headers: &Vec<String>, datapoint: Option<&str>) -> (r: (usize, usize))
    ensures
        r.0 == column_of(piece_views(headers@), "team"@),
        r.1 == match datapoint {
            Some(d) => column_of(piece_views(headers@), d@),
            None => column_of(piece_views(headers@), "team"@),
        },
{
    let team = column_position(headers, "team");
    let value = match datapoint {
        Some(d) => column_position(headers, d),
        None => team,
    };
    (team, value)
}

/// The pieces of `s` between the separators `sep`, as `str::split` gives them: there is
/// always at least one, and empty pieces are kept.
pub open spec fn split_on(s: Seq<char>, sep: char) -> Seq<Seq<char>>
    decreases s.len(),
{
    if s.len() == 0 {
        seq![Seq::empty()]
    } else {
        let prev = split_on(s.drop_last(), sep);
        if s.last() == sep {
            prev.push(Seq::empty())
        } else {
            prev.update(prev.len() - 1, prev.last().push(s.last()))
        }
    }
}

/// `split_on` always yields at least one piece.
pub proof fn lemma_split_on_len(s: Seq<char>, sep: char)
    ensures
        split_on(s, sep).len() >= 1,
    decreases s.len(),
{
    if s.len() > 0 {
        lemma_split_on_len(s.drop_last(), sep);
    }
}

/// The characters of each piece.
pub open spec fn piece_views(ps: Seq<String>) -> Seq<Seq<char>> {
    Seq::new(ps.len(), |i: int| ps[i]@)
}

/// The teams of a comma separated list, as `split_on` says.
pub fn split_teams(teams: &str) -> (r: Vec<String>)
    ensures
        piece_views(r@) == split_on(teams@, ','),
{
    let cs = chars_of(teams);
    let mut done: Vec<String> = Vec::new();
    let mut cur: Vec<char> = Vec::new();
    for i in 0..cs.len()
        invariant
            cs@ == teams@,
            piece_views(done@).push(cur@) == split_on(teams@.take(i as int), ','),
    {
        let ghost t = teams@.take(i + 1);
        assert(t.drop_last() =~= teams@.take(i as int));
        proof {
            lemma_split_on_len(teams@.take(i as int), ',');
        }
        if cs[i] == ',' {
            let piece = string_from_chars(&cur);
            done.push(piece);
            cur = Vec::new();
            assert(piece_views(done@).push(cur@) =~= split_on(t, ','));
        } else {
            let ghost prev = piece_views(done@).push(cur@);
            cur.push(cs[i]);
            assert(piece_views(done@).push(cur@) =~= prev.update(prev.len() - 1, prev.last().push(cs@[i as int])));
        }
    }
    assert(teams@.take(cs@.len() as int) =~= teams@);
    let last = string_from_chars(&cur);
    done.push(last);
    assert(piece_views(done@) =~= split_on(teams@, ','));
    done
}

/// A record field as it is compared with the teams: trimmed, then without quotes.
pub open spec fn field_team(f: Seq<char>) -> Seq<char> {
    without_char(trimmed(f), '"')
}

/// Some field of the record names one of the teams.
pub open spec fn has_team(record: Seq<Seq<char>>, teams: Seq<Seq<char>>) -> bool {
    exists|i: int, j: int|
        0 <= i < record.len() && 0 <= j < teams.len() && teams[j] == field_team(record[i])
}

/// Whether some field of the record, trimmed and without quotes, is one of the teams.
pub fn record_has_team(record: &Vec<String>, teams: &Vec<String>) -> (b: bool)
    ensures
        b == has_team(piece_views(record@), piece_views(teams@)),
{
    for i in 0..record.len()
        invariant
            forall|a: int, j: int|
                0 <= a < i && 0 <= j < teams@.len() ==> teams@[j]@ != field_team(record@[a]@),
    {
        let t = trim_text(record[i].as_str());
        let f = remove_char(t.as_str(), '"');
        for j in 0..teams.len()
            invariant
                i < record@.len(),
                f@ == field_team(record@[i as int]@),
                forall|a: int, k: int|
                    0 <= a < i && 0 <= k < teams@.len() ==> teams@[k]@ != field_team(record@[a]@),
                forall|k: int| 0 <= k < j ==> teams@[k]@ != f@,
        {
            if text_eq(teams[j].as_str(), f.as_str()) {
                assert(piece_views(teams@)[j as int] == field_team(piece_views(record@)[i as int]));
                return true;
            }
        }
    }
    assert forall|a: int, k: int|
        0 <= a < record@.len() && 0 <= k < piece_views(teams@).len() implies piece_views(teams@)[k]
        != field_team(piece_views(record@)[a]) by {
        assert(piece_views(teams@)[k] == teams@[k]@);
        assert(piece_views(record@)[a] == record@[a]@);
    }
    false
}

/// The text of a slice's amount: the field without quotes, then trimmed.
pub fn slice_amount_text(field: &str) -> (r: String)
    ensures
        r@ == trimmed(without_char(field@, '"')),
{
    let f = remove_char(field, '"');
    trim_text(f.as_str())
}

/// The name of a slice: the field trimmed, then without quotes.
pub fn slice_name(field: &str) -> (r: String)
    ensures
        r@ == field_team(field@),
{
    let t = trim_text(field);
    remove_char(t.as_str(), '"')
}

/// A record goes into the pie graph: no teams were asked for, or it names one of them.
pub open spec fn record_kept(record: Seq<Seq<char>>, teams: Option<Seq<Seq<char>>>) -> bool {
    match teams {
        Some(t) => has_team(record, t),
        None => true,
    }
}

/// The amount text and the name of the slice of each kept record, in order.
pub open spec fn pie_slice_texts(
    records: Seq<Seq<Seq<char>>>,
    teams: Option<Seq<Seq<char>>>,
    value_col: int,
    team_col: int,
) -> Seq<(Seq<char>, Seq<char>)>
    decreases records.len(),
{
    if records.len() == 0 {
        Seq::empty()
    } else {
        let prev = pie_slice_texts(records.drop_last(), teams, value_col, team_col);
        let r = records.last();
        if record_kept(r, teams) {
            prev.push((trimmed(without_char(r[value_col], '"')), field_team(r[team_col])))
        } else {
            prev
        }
    }
}

/// Every kept record has both columns.
pub open spec fn pie_columns_present(
    records: Seq<Seq<Seq<char>>>,
    teams: Option<Seq<Seq<char>>>,
    value_col: int,
    team_col: int,
) -> bool {
    forall|i: int|
        0 <= i < records.len() && record_kept(#[trigger] records[i], teams) ==> value_col
            < records[i].len() && team_col < records[i].len()
}

/// The fields of each record.
pub open spec fn record_views(rs: Seq<Vec<String>>) -> Seq<Seq<Seq<char>>> {
    Seq::new(rs.len(), |i: int| piece_views(rs[i]@))
}


/// The slices of a pie graph: for each record, in order, that has no teams to match or names
/// one of them, the text of its amount (column `value_col`) and its name (column `team_col`).
pub fn pie_slices(
    records: &Vec<Vec<String>>,
    teams: Option<&Vec<String>>,
    value_col: usize,
    team_col: usize,
) -> (r: Vec<(String, String)>)
    requires
        pie_columns_present(
            record_views(records@),
            match teams {
                Some(t) => Some(piece_views(t@)),
                None => None,
            },
            value_col as int,
            team_col as int,
        ),
    ensures
        pair_views(r@) == pie_slice_texts(
            record_views(records@),
            match teams {
                Some(t) => Some(piece_views(t@)),
                None => None,
            },
            value_col as int,
            team_col as int,
        ),
{
    let ghost ts = match teams {
        Some(t) => Some(piece_views(t@)),
        None => None,
    };
    let ghost rv = record_views(records@);
    let mut out: Vec<(String, String)> = Vec::new();
    for i in 0..records.len()
        invariant
            ts == match teams {
                Some(t) => Some(piece_views(t@)),
                None => None::<Seq<Seq<char>>>,
            },
            rv == record_views(records@),
            pie_columns_present(rv, ts, value_col as int, team_col as int),
            pair_views(out@) == pie_slice_texts(rv.take(i as int), ts, value_col as int, team_col as int),
    {
        assert(rv.take(i + 1).drop_last() =~= rv.take(i as int));
        assert(rv.take(i + 1).last() == rv[i as int]);
        let record = &records[i];
        assert(rv[i as int] == piece_views(record@));
        let kept = match teams {
            Some(t) => record_has_team(record, t),
            None => true,
        };
        if kept {
            assert(record_kept(rv[i as int], ts));
            assert(rv[i as int][value_col as int] == record@[value_col as int]@);
            assert(rv[i as int][team_col as int] == record@[team_col as int]@);
            let amount = slice_amount_text(record[value_col].as_str());
            let name = slice_name(record[team_col].as_str());
            let ghost before = pair_views(out@);
            out.push((amount, name));
            assert(pair_views(out@) =~= before.push(
                (
                    trimmed(without_char(record@[value_col as int]@, '"')),
                    field_team(record@[team_col as int]@),
                ),
            ));
        }
    }
    assert(rv.take(records@.len() as int) =~= rv);
    out
}

/// Every character is an ASCII digit.
pub open spec fn all_digits(ds: Seq<char>) -> bool {
    forall|i: int| 0 <= i < ds.len() ==> '0' <= #[trigger] ds[i] <= '9'
}

/// The number that a run of decimal digits writes.
pub open spec fn digits_value(ds: Seq<char>) -> int
    decreases ds.len(),
{
    if ds.len() == 0 {
        0
    } else {
        digits_value(ds.drop_last()) * 10 + (ds.last() as int - '0' as int)
    }
}

/// The `i32` that `str::parse::<i32>` reads from a text: an optional `+` or `-`, then one or
/// more decimal digits, whose value fits in an `i32`; `None` for any other text.
pub open spec fn i32_of_text(s: Seq<char>) -> Option<i32> {
    let signed = s.len() > 0 && (s[0] == '-' || s[0] == '+');
    let ds = if signed {
        s.drop_first()
    } else {
        s
    };
    let v = if s.len() > 0 && s[0] == '-' {
        -digits_value(ds)
    } else {
        digits_value(ds)
    };
    if ds.len() > 0 && all_digits(ds) && i32::MIN <= v <= i32::MAX {
        Some(v as i32)
    } else {
        None
    }
}

/// The value of digits is never negative.
proof fn lemma_digits_value_nonneg(ds: Seq<char>)
    requires
        all_digits(ds),
    ensures
        digits_value(ds) >= 0,
    decreases ds.len(),
{
    if ds.len() > 0 {
        assert(all_digits(ds.drop_last())) by {
            assert forall|i: int| 0 <= i < ds.drop_last().len() implies '0' <= #[trigger] ds.drop_last()[i] <= '9' by {
                assert(ds.drop_last()[i] == ds[i]);
            }
        }
        lemma_digits_value_nonneg(ds.drop_last());
        assert('0' <= ds[ds.len() - 1] <= '9');
    }
}

/// The decimal digit of `d`, for `0 <= d < 10`.
pub open spec fn digit_char(d: int) -> char {
    if d == 0 {
        '0'
    } else if d == 1 {
        '1'
    } else if d == 2 {
        '2'
    } else if d == 3 {
        '3'
    } else if d == 4 {
        '4'
    } else if d == 5 {
        '5'
    } else if d == 6 {
        '6'
    } else if d == 7 {
        '7'
    } else if d == 8 {
        '8'
    } else {
        '9'
    }
}

/// The decimal digits of `n`, most significant first, without leading zeros.
pub open spec fn decimal_text(n: nat) -> Seq<char>
    decreases n,
{
    if n < 10 {
        seq![digit_char(n as int)]
    } else {
        decimal_text(n / 10).push(digit_char((n % 10) as int))
    }
}

/// How Rust writes an `i32`: its decimal digits, after `-` when it is negative.
pub open spec fn i32_text(n: i32) -> Seq<char> {
    if n < 0 {
        seq!['-'] + decimal_text((-n) as nat)
    } else {
        decimal_text(n as nat)
    }
}

/// The digits of a number are digits, start with a digit, and are worth the number.
proof fn lemma_decimal_text(n: nat)
    ensures
        decimal_text(n).len() > 0,
        all_digits(decimal_text(n)),
        digits_value(decimal_text(n)) == n,
    decreases n,
{
    if n < 10 {
        let s = decimal_text(n);
        assert(s.drop_last() =~= Seq::<char>::empty());
        assert(s.last() == digit_char(n as int));
        assert(digit_char(n as int) as int - '0' as int == n);
        assert(digits_value(s.drop_last()) == 0);
        assert(digits_value(s) == digits_value(s.drop_last()) * 10 + (s.last() as int - '0' as int));
    } else {
        lemma_decimal_text(n / 10);
        let p = decimal_text(n / 10);
        let d = n % 10;
        let s = p.push(digit_char(d as int));
        assert(s.drop_last() =~= p);
        assert(digit_char(d as int) as int - '0' as int == d);
        assert(n / 10 * 10 + n % 10 == n);
        assert(digits_value(s) == digits_value(s.drop_last()) * 10 + (s.last() as int - '0' as int));
        assert forall|i: int| 0 <= i < s.len() implies '0' <= #[trigger] s[i] <= '9' by {
            if i < p.len() {
                assert(s[i] == p[i]);
            }
        }
    }
}

/// Every `i32` written in decimal reads back as itself: what `str::parse::<i32>` gives on the
/// text that `to_string` writes.
pub proof fn lemma_i32_text_reads_back(n: i32)
    ensures
        i32_of_text(i32_text(n)) == Some(n),
{
    if n < 0 {
        let m = (-n) as nat;
        lemma_decimal_text(m);
        let s = i32_text(n);
        assert(s.drop_first() =~= decimal_text(m));
        assert(s[0] == '-');
    } else {
        lemma_decimal_text(n as nat);
        let s = decimal_text(n as nat);
        assert('0' <= s[0] <= '9');
    }
}

/// Reads an `i32` from a text as `str::parse::<i32>` does, as `i32_of_text` says.
pub fn parse_i32(s: &str) -> (r: Option<i32>)
    ensures
        r == i32_of_text(s@),
{
    let cs = chars_of(s);
    let n = cs.len();
    let neg = n > 0 && cs[0] == '-';
    let start: usize = if n > 0 && (cs[0] == '-' || cs[0] == '+') {
        1
    } else {
        0
    };
    let ghost ds = if start == 1 {
        s@.drop_first()
    } else {
        s@
    };
    proof {
        if start == 1 {
            assert(s@.drop_first() =~= s@.skip(1));
        }
        assert(s@ =~= s@.skip(0));
    }
    if start == n {
        return None;
    }
    let mut acc: i64 = 0;
    let mut over = false;
    let mut i = start;
    while i < n
        invariant
            cs@ == s@,
            n == cs@.len(),
            start <= i <= n,
            start == 0 || start == 1,
            (start == 1) == (s@.len() > 0 && (s@[0] == '-' || s@[0] == '+')),
            neg == (s@.len() > 0 && s@[0] == '-'),
            ds == (if start == 1 {
                s@.drop_first()
            } else {
                s@
            }),
            ds == s@.skip(start as int),
            all_digits(ds.take(i - start)),
            !over ==> acc == digits_value(ds.take(i - start)) && 0 <= acc <= 2147483648,
            over ==> digits_value(ds.take(i - start)) > 2147483648,
        decreases n - i,
    {
        let c = cs[i];
        let ghost k = (i - start) as int;
        assert(ds.take(k + 1).drop_last() =~= ds.take(k));
        assert(ds[k] == c);
        if c < '0' || c > '9' {
            assert(!all_digits(ds)) by {
                assert(ds[k] == c);
            }
            return None;
        }
        assert(all_digits(ds.take(k + 1))) by {
            assert forall|j: int| 0 <= j < k + 1 implies '0' <= #[trigger] ds.take(k + 1)[j] <= '9' by {
                if j < k {
                    assert(ds.take(k + 1)[j] == ds.take(k)[j]);
                }
            }
        }
        proof {
            lemma_digits_value_nonneg(ds.take(k));
        }
        let d = (c as u32 - '0' as u32) as i64;
        if !over {
            acc = acc * 10 + d;
            if acc > 2147483648 {
                over = true;
            }
        }
        i = i + 1;
    }
    assert(ds.take((n - start) as int) =~= ds);
    if over {
        return None;
    }
    let v = if neg {
        -acc
    } else {
        acc
    };
    if v < -2147483648 || v > 2147483647 {
        None
    } else {
        Some(v as i32)
    }
}

/// The teams asked for: the comma separated pieces of the text, when there is one.
pub open spec fn team_filter(teams: Option<&str>) -> Option<Seq<Seq<char>>> {
    match teams {
        Some(t) => Some(split_on(t@, ',')),
        None => None,
    }
}

/// The slices of the pie graph with their amounts read as `i32`: for each kept record, in
/// order, its amount and its name. There are none when an amount does not read as an `i32`.
pub fn pie_graph_slices(
    records: &Vec<Vec<String>>,
    teams: Option<&str>,
    value_col: usize,
    team_col: usize,
) -> (r: Option<Vec<(i32, String)>>)
    requires
        pie_columns_present(record_views(records@), team_filter(teams), value_col as int, team_col as int),
    ensures
        r is Some <==> forall|i: int|
            0 <= i < pie_slice_texts(record_views(records@), team_filter(teams), value_col as int, team_col as int).len()
                ==> (#[trigger] i32_of_text(
                pie_slice_texts(record_views(records@), team_filter(teams), value_col as int, team_col as int)[i].0,
            )) is Some,
        r matches Some(v) ==> {
            let texts = pie_slice_texts(record_views(records@), team_filter(teams), value_col as int, team_col as int);
            &&& v@.len() == texts.len()
            &&& forall|i: int|
                #![trigger v@[i]]
                0 <= i < v@.len() ==> Some(v@[i].0) == i32_of_text(texts[i].0) && v@[i].1@
                    == texts[i].1
        },
{
    let ghost tf = team_filter(teams);
    let team_list: Option<Vec<String>> = match teams {
        Some(t) => Some(split_teams(t)),
        None => None,
    };
    let filter = match &team_list {
        Some(l) => Some(l),
        None => None,
    };
    assert(match filter {
        Some(t) => Some(piece_views(t@)),
        None => None::<Seq<Seq<char>>>,
    } == tf);
    let slices = pie_slices(records, filter, value_col, team_col);
    let ghost texts = pie_slice_texts(record_views(records@), tf, value_col as int, team_col as int);
    assert(slices@.len() == texts.len()) by {
        assert(pair_views(slices@).len() == slices@.len());
    }
    let mut out: Vec<(i32, String)> = Vec::new();
    for i in 0..slices.len()
        invariant
            texts == pie_slice_texts(record_views(records@), team_filter(teams), value_col as int, team_col as int),
            pair_views(slices@) == texts,
            out@.len() == i,
            forall|k: int| 0 <= k < i ==> (#[trigger] i32_of_text(texts[k].0)) is Some,
            forall|k: int|
                #![trigger out@[k]]
                0 <= k < i ==> Some(out@[k].0) == i32_of_text(texts[k].0) && out@[k].1@ == texts[k].1,
    {
        assert(pair_views(slices@)[i as int] == (slices@[i as int].0@, slices@[i as int].1@));
        match parse_i32(slices[i].0.as_str()) {
            Some(a) => {
                let ghost before = out@;
                out.push((a, slices[i].1.clone()));
                assert forall|k: int| #![trigger out@[k]] 0 <= k < i + 1 implies Some(out@[k].0)
                    == i32_of_text(texts[k].0) && out@[k].1@ == texts[k].1 by {
                    if k < i {
                        assert(out@[k] == before[k]);
                    }
                }
            },
            None => {
                assert(i32_of_text(texts[i as int].0) is None);
                return None;
            },
        }
    }
    Some(out)
}

/// The header fields and the records' fields that the csv crate reads from a text (a
/// `csv::Reader` with its default settings: the first row holds the headers, fields are
/// separated by commas, and every record has as many fields as the first), or `None` when it
/// cannot read the text; this depends on the text alone.
pub uninterp spec fn csv_table(text: Seq<u8>) -> Option<(Seq<Seq<char>>, Seq<Seq<Seq<char>>>)>;

/// Reads a CSV text with `csv::ReaderBuilder::new().from_reader`: its headers (`headers`), then
/// all its records (`records`), each as its fields. Claimed: the result is `csv_table` of the
/// text; it is `None` when reading the headers or a record fails.
#[verifier::external_body]
fn read_csv(text: &[u8]) -> (r: Option<(Vec<String>, Vec<Vec<String>>)>)
    ensures
        match r {
            Some((h, rs)) => csv_table(text@) == Some((piece_views(h@), record_views(rs@))),
            None => csv_table(text@) is None,
        },
{
    let mut rdr = csv::ReaderBuilder::new().from_reader(text);
    let fields = |r: &csv::StringRecord| r.iter().map(|f| f.to_string()).collect::<Vec<String>>();
    let headers = fields(rdr.headers().ok()?);
    let records = rdr.records().collect::<Result<Vec<csv::StringRecord>, csv::Error>>().ok()?;
    Some((headers, records.iter().map(fields).collect()))
}

/// Whether every kept record has both columns, as `pie_columns_present` says.
pub fn columns_present(
    records: &Vec<Vec<String>>,
    teams: Option<&Vec<String>>,
    value_col: usize,
    team_col: usize,
) -> (b: bool)
    ensures
        b == pie_columns_present(
            record_views(records@),
            match teams {
                Some(t) => Some(piece_views(t@)),
                None => None,
            },
            value_col as int,
            team_col as int,
        ),
{
    let ghost ts = match teams {
        Some(t) => Some(piece_views(t@)),
        None => None::<Seq<Seq<char>>>,
    };
    let ghost rv = record_views(records@);
    for i in 0..records.len()
        invariant
            rv == record_views(records@),
            ts == match teams {
                Some(t) => Some(piece_views(t@)),
                None => None::<Seq<Seq<char>>>,
            },
            forall|k: int|
                0 <= k < i && record_kept(#[trigger] rv[k], ts) ==> value_col < rv[k].len()
                    && team_col < rv[k].len(),
    {
        assert(rv[i as int] == piece_views(records@[i as int]@));
        let kept = match teams {
            Some(t) => record_has_team(&records[i], t),
            None => true,
        };
        if kept && (value_col >= records[i].len() || team_col >= records[i].len()) {
            assert(record_kept(rv[i as int], ts));
            return false;
        }
    }
    true
}

/// The amounts of the slices, each read as an `i32` with its name, or `None` when one does not
/// read.
pub open spec fn read_slices(texts: Seq<(Seq<char>, Seq<char>)>) -> Option<Seq<(i32, Seq<char>)>> {
    if forall|i: int| 0 <= i < texts.len() ==> (#[trigger] i32_of_text(texts[i].0)) is Some {
        Some(Seq::new(texts.len(), |i: int| (i32_of_text(texts[i].0)->0, texts[i].1)))
    } else {
        None
    }
}

/// The slices of the pie graph that a CSV table gives: the team column and the datapoint's
/// column (the team column when no datapoint is asked for, column 0 for a name no header has),
/// the kept records' amounts read as `i32` and their names. `None` when the text is not CSV, a
/// kept record lacks one of the columns, or an amount does not read.
pub open spec fn pie_from_table(
    table: Option<(Seq<Seq<char>>, Seq<Seq<Seq<char>>>)>,
    datapoint: Option<Seq<char>>,
    teams: Option<Seq<Seq<char>>>,
) -> Option<Seq<(i32, Seq<char>)>> {
    match table {
        None => None,
        Some((h, rs)) => {
            let tc = column_of(h, "team"@);
            let vc = match datapoint {
                Some(d) => column_of(h, d),
                None => tc,
            };
            if pie_columns_present(rs, teams, vc, tc) {
                read_slices(pie_slice_texts(rs, teams, vc, tc))
            } else {
                None
            }
        },
    }
}

/// The numbers and names of optional slices.
pub open spec fn slice_list_views(r: Option<Vec<(i32, String)>>) -> Option<Seq<(i32, Seq<char>)>> {
    match r {
        Some(v) => Some(Seq::new(v@.len(), |i: int| (v@[i].0, v@[i].1@))),
        None => None,
    }
}

/// The slices of the pie graph drawn from the text of the data file, as `pie_from_table` says
/// of the table the csv crate reads from it.
pub fn pie_graph_from_csv(text: &[u8], datapoint: Option<&str>, teams: Option<&str>) -> (r: Option<
    Vec<(i32, String)>,
>)
    ensures
        slice_list_views(r) == pie_from_table(
            csv_table(text@),
            match datapoint {
                Some(d) => Some(d@),
                None => None,
            },
            team_filter(teams),
        ),
{
    let (headers, records) = match read_csv(text) {
        Some(t) => t,
        None => return None,
    };
    let (team_col, value_col) = pie_columns(&headers, datapoint);
    let team_list: Option<Vec<String>> = match teams {
        Some(t) => Some(split_teams(t)),
        None => None,
    };
    let filter = match &team_list {
        Some(l) => Some(l),
        None => None,
    };
    assert(match filter {
        Some(t) => Some(piece_views(t@)),
        None => None::<Seq<Seq<char>>>,
    } == team_filter(teams));
    if !columns_present(&records, filter, value_col, team_col) {
        return None;
    }
    let r = pie_graph_slices(&records, teams, value_col, team_col);
    let ghost texts = pie_slice_texts(record_views(records@), team_filter(teams), value_col as int, team_col as int);
    proof {
        if r is Some {
            assert(slice_list_views(r)->0 =~= read_slices(texts)->0);
        }
    }
    r
}

/// Field 20 of a record, trimmed, read as an `i32`.
pub open spec fn line_value(record: Seq<Seq<char>>) -> Option<i32> {
    if record.len() > 20 {
        i32_of_text(trimmed(record[20]))
    } else {
        None
    }
}

/// The points of the line graph that a CSV table gives: field 20 of each record, trimmed and
/// read as an `i32`; `None` when the text is not CSV or a record has no such field or it does
/// not read.
pub open spec fn line_from_table(table: Option<(Seq<Seq<char>>, Seq<Seq<Seq<char>>>)>) -> Option<
    Seq<i32>,
> {
    match table {
        None => None,
        Some((h, rs)) => if forall|k: int| 0 <= k < rs.len() ==> (#[trigger] line_value(rs[k])) is Some {
            Some(Seq::new(rs.len(), |k: int| line_value(rs[k])->0))
        } else {
            None
        },
    }
}

/// The point of a record is its field 20 (counting from 0), trimmed and read as an `i32`,
/// whatever the record's length; a record with no field 20 has none.
pub proof fn lemma_line_value_field(record: Seq<Seq<char>>)
    ensures
        record.len() > 20 ==> line_value(record) == i32_of_text(trimmed(record[20])),
        record.len() <= 20 ==> line_value(record) is None,
{
}

/// The points of the line graph drawn from the text of the data file, as `line_from_table`
/// says of the table the csv crate reads from it: field 20 of each record, trimmed and read as
/// an `i32`.
pub fn line_graph_values(text: &[u8]) -> (r: Option<Vec<i32>>)
    ensures
        match r {
            Some(v) => line_from_table(csv_table(text@)) == Some(v@),
            None => line_from_table(csv_table(text@)) is None,
        },
        r is Some <==> (csv_table(text@) matches Some((h, rs)) && forall|k: int|
            0 <= k < rs.len() ==> #[trigger] rs[k].len() > 20 && i32_of_text(trimmed(rs[k][20])) is Some),
        r matches Some(v) ==> (csv_table(text@) matches Some((h, rs)) && v@.len() == rs.len()
            && forall|k: int| 0 <= k < rs.len() ==> Some(#[trigger] v@[k]) == i32_of_text(trimmed(rs[k][20]))),
{
    let (headers, records) = match read_csv(text) {
        Some(t) => t,
        None => return None,
    };
    let ghost rv = record_views(records@);
    let mut out: Vec<i32> = Vec::new();
    for k in 0..records.len()
        invariant
            rv == record_views(records@),
            csv_table(text@) == Some((piece_views(headers@), rv)),
            out@.len() == k,
            forall|j: int| 0 <= j < k ==> (#[trigger] line_value(rv[j])) is Some,
            forall|j: int| 0 <= j < k ==> Some(#[trigger] out@[j]) == line_value(rv[j]),
    {
        assert(rv[k as int] == piece_views(records@[k as int]@));
        if records[k].len() <= 20 {
            assert(line_value(rv[k as int]) is None);
            assert(!(rv[k as int].len() > 20));
            return None;
        }
        assert(rv[k as int][20] == records@[k as int]@[20]@);
        let t = trim_text(records[k][20].as_str());
        match parse_i32(t.as_str()) {
            Some(v) => {
                out.push(v);
            },
            None => {
                assert(line_value(rv[k as int]) is None);
                assert(!(i32_of_text(trimmed(rv[k as int][20])) is Some));
                return None;
            },
        }
    }
    assert(out@ =~= Seq::new(rv.len(), |j: int| line_value(rv[j])->0));
    assert forall|k: int| 0 <= k < rv.len() implies #[trigger] rv[k].len() > 20 && i32_of_text(
        trimmed(rv[k][20]),
    ) is Some by {
        assert(line_value(rv[k]) is Some);
    }
    Some(out)
}

} // verus!
