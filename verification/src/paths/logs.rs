use vstd::prelude::*;
use crate::rows::{lines_of, split_lines, views};
use crate::text::{chars_of, push_text, string_from_chars};

verus! {

/// Every occurrence of `pat` in `s`, from left to right and without overlap, replaced by
/// `rep` (`s` unchanged when `pat` is empty).
pub open spec fn replace_all(s: Seq<char>, pat: Seq<char>, rep: Seq<char>) -> Seq<char>
    decreases s.len(),
{
    if pat.len() == 0 || s.len() < pat.len() {
        s
    } else if s.take(pat.len() as int) == pat {
        rep + replace_all(s.skip(pat.len() as int), pat, rep)
    } else {
        seq![s[0]] + replace_all(s.drop_first(), pat, rep)
    }
}

/// The HTML of one log line: the line in a `div`, with each level name in a coloured span.
pub open spec fn log_line_html(l: Seq<char>) -> Seq<char> {
    let d = "<div>"@ + l + "</div>"@;
    let d = replace_all(d, "DEBUG"@, "<span style=\"color: #7289da;\">DEBUG</span>"@);
    let d = replace_all(d, "INFO"@, "<span style=\"color: yellow;\">INFO</span>"@);
    let d = replace_all(d, "ERROR"@, "<span style=\"color: red;\">ERROR</span>"@);
    replace_all(d, "SUCCESS"@, "<span style=\"color: green;\">SUCCESS</span>"@)
}

/// The HTML of the lines, one after the other.
pub open spec fn lines_html(ls: Seq<Seq<char>>) -> Seq<char>
    decreases ls.len(),
{
    if ls.len() == 0 {
        Seq::empty()
    } else {
        lines_html(ls.drop_last()) + log_line_html(ls.last())
    }
}

/// The page that shows a log file.
pub open spec fn logs_page(contents: Seq<char>) -> Seq<char> {
    "\n    <html>\n        <body style=\"background-color: #1e1e2e; color: #cdd6f4\">\n            "@
        + lines_html(split_lines(contents))
        + "\n        </body>\n    </html>\n    "@
}

/// Whether `pat` occurs in `s` at position `i`.
fn occurs_at(s: &Vec<char>, i: usize, pat: &Vec<char>) -> (r: bool)
    requires
        i <= s@.len(),
    ensures
        r == (pat@.len() <= s@.len() - i && s@.skip(i as int).take(pat@.len() as int) == pat@),
{
    if pat.len() > s.len() - i {
        return false;
    }
    let n = pat.len();
    let slen = s.len();
    for k in 0..n
        invariant
            n == pat@.len(),
            slen == s@.len(),
            i <= s@.len(),
            pat@.len() <= s@.len() - i,
            forall|m: int| 0 <= m < k ==> s@[i + m] == pat@[m],
    {
        if s[i + k] != pat[k] {
            assert(s@.skip(i as int).take(pat@.len() as int)[k as int] != pat@[k as int]);
            return false;
        }
    }
    assert(s@.skip(i as int).take(pat@.len() as int) =~= pat@);
    true
}

/// Replaces every occurrence of `pat` in `s` by `rep`, as `replace_all` says.
pub fn replace_chars(s: &Vec<char>, pat: &Vec<char>, rep: &Vec<char>) -> (r: Vec<char>)
    ensures
        r@ == replace_all(s@, pat@, rep@),
{
    if pat.len() == 0 {
        return s.clone();
    }
    let mut out: Vec<char> = Vec::new();
    let mut i: usize = 0;
    assert(s@.skip(0) =~= s@);
    while i < s.len()
        invariant
            i <= s@.len(),
            pat@.len() > 0,
            replace_all(s@, pat@, rep@) == out@ + replace_all(s@.skip(i as int), pat@, rep@),
        decreases s@.len() - i,
    {
        let ghost t = s@.skip(i as int);
        let ghost before = out@;
        if occurs_at(s, i, pat) {
            for k in 0..rep.len()
                invariant
                    out@ == before + rep@.take(k as int),
            {
                out.push(rep[k]);
                assert(before + rep@.take(k + 1) =~= (before + rep@.take(k as int)).push(rep@[k as int]));
            }
            assert(rep@.take(rep@.len() as int) =~= rep@);
            assert(t.skip(pat@.len() as int) =~= s@.skip(i + pat@.len()));
            assert(before + (rep@ + replace_all(s@.skip(i + pat@.len()), pat@, rep@)) =~= out@
                + replace_all(s@.skip(i + pat@.len()), pat@, rep@));
            i = i + pat.len();
        } else {
            out.push(s[i]);
            assert(t.drop_first() =~= s@.skip(i + 1));
            assert(t[0] == s@[i as int]);
            proof {
                if t.len() < pat@.len() {
                    assert(replace_all(t, pat@, rep@) == t);
                    assert(replace_all(s@.skip(i + 1), pat@, rep@) == s@.skip(i + 1));
                    assert(t =~= seq![t[0]] + t.drop_first());
                }
            }
            assert(before + (seq![s@[i as int]] + replace_all(s@.skip(i + 1), pat@, rep@)) =~= out@
                + replace_all(s@.skip(i + 1), pat@, rep@));
            i = i + 1;
        }
    }
    assert(s@.skip(i as int) =~= Seq::<char>::empty());
    assert(out@ + Seq::<char>::empty() =~= out@);
    out
}

/// The HTML of one log line, as `log_line_html` says.
pub fn render_log_line(line: &Vec<char>) -> (r: Vec<char>)
    ensures
        r@ == log_line_html(line@),
{
    let mut d = chars_of("<div>");
    let ghost open = d@;
    for i in 0..line.len()
        invariant
            d@ == open + line@.take(i as int),
    {
        d.push(line[i]);
        assert(open + line@.take(i + 1) =~= (open + line@.take(i as int)).push(line@[i as int]));
    }
    assert(line@.take(line@.len() as int) =~= line@);
    let close = chars_of("</div>");
    let ghost before = d@;
    for i in 0..close.len()
        invariant
            d@ == before + close@.take(i as int),
    {
        d.push(close[i]);
        assert(before + close@.take(i + 1) =~= (before + close@.take(i as int)).push(close@[i as int]));
    }
    assert(close@.take(close@.len() as int) =~= close@);
    let d = replace_chars(
        &d,
        &chars_of("DEBUG"),
        &chars_of("<span style=\"color: #7289da;\">DEBUG</span>"),
    );
    let d = replace_chars(&d, &chars_of("INFO"), &chars_of("<span style=\"color: yellow;\">INFO</span>"));
    let d = replace_chars(&d, &chars_of("ERROR"), &chars_of("<span style=\"color: red;\">ERROR</span>"));
    replace_chars(&d, &chars_of("SUCCESS"), &chars_of("<span style=\"color: green;\">SUCCESS</span>"))
}

/// The HTML page that shows a log file: each line in a `div` with its level names coloured,
/// inside a dark page.
pub fn render_logs(contents: &str) -> (r: String)
    ensures
        r@ == logs_page(contents@),
{
    let cs = chars_of(contents);
    let ls = lines_of(&cs);
    let ghost lv = views(ls@);
    let mut r = "\n    <html>\n        <body style=\"background-color: #1e1e2e; color: #cdd6f4\">\n            ".to_owned();
    let ghost head = r@;
    for i in 0..ls.len()
        invariant
            lv == views(ls@),
            r@ == head + lines_html(lv.take(i as int)),
    {
        assert(lv.take(i + 1).drop_last() =~= lv.take(i as int));
        let h = render_log_line(&ls[i]);
        let hs = string_from_chars(&h);
        push_text(&mut r, hs.as_str());
        assert(head + lines_html(lv.take(i + 1)) =~= head + lines_html(lv.take(i as int)) + log_line_html(lv[i as int]));
    }
    assert(lv.take(ls@.len() as int) =~= lv);
    push_text(&mut r, "\n        </body>\n    </html>\n    ");
    r
}

} // verus!
