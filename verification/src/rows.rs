use vstd::prelude::*;

verus! {

/// A unit of text that lines are made of: a byte or a character, with its line feed and its
/// carriage return.
pub trait LineUnit: Copy {
    /// The line feed, `\n`.
    spec fn newline() -> Self;

    /// The carriage return, `\r`.
    spec fn carriage_return() -> Self;

    /// Whether this is the line feed.
    fn is_newline(&self) -> (b: bool)
        ensures
            b == (*self == Self::newline()),
    ;

    /// Whether this is the carriage return.
    fn is_carriage_return(&self) -> (b: bool)
        ensures
            b == (*self == Self::carriage_return()),
    ;
}

impl LineUnit for u8 {
    open spec fn newline() -> u8 {
        10u8
    }

    open spec fn carriage_return() -> u8 {
        13u8
    }

    fn is_newline(&self) -> (b: bool) {
        *self == 10u8
    }

    fn is_carriage_return(&self) -> (b: bool) {
        *self == 13u8
    }
}

impl LineUnit for char {
    open spec fn newline() -> char {
        '\n'
    }

    open spec fn carriage_return() -> char {
        '\r'
    }

    fn is_newline(&self) -> (b: bool) {
        *self == '\n'
    }

    fn is_carriage_return(&self) -> (b: bool) {
        *self == '\r'
    }
}

/// The contents of each line.
pub open spec fn views<T>(ls: Seq<Vec<T>>) -> Seq<Seq<T>> {
    Seq::new(ls.len(), |i: int| ls[i]@)
}

/// Position of the first line feed in `s`, or `s.len()` when there is none.
pub open spec fn line_end<T: LineUnit>(s: Seq<T>) -> int
    decreases s.len(),
{
    if s.len() == 0 {
        0
    } else {
        let p = line_end(s.drop_last());
        if p < s.len() - 1 {
            p
        } else if s.last() == T::newline() {
            s.len() - 1
        } else {
            s.len() as int
        }
    }
}

/// `line_end` is the first position of a line feed, or the length when there is none.
pub proof fn lemma_line_end<T: LineUnit>(s: Seq<T>)
    ensures
        0 <= line_end(s) <= s.len(),
        line_end(s) < s.len() ==> s[line_end(s)] == T::newline(),
        forall|j: int| 0 <= j < line_end(s) ==> s[j] != T::newline(),
    decreases s.len(),
{
    if s.len() > 0 {
        let d = s.drop_last();
        lemma_line_end(d);
        assert forall|j: int| 0 <= j < line_end(s) implies s[j] != T::newline() by {
            if j < s.len() - 1 {
                assert(s[j] == d[j]);
            }
        }
    }
}

/// A line ended by a line feed also loses a carriage return just before it.
pub open spec fn strip_cr<T: LineUnit>(l: Seq<T>) -> Seq<T> {
    if l.len() > 0 && l.last() == T::carriage_return() {
        l.drop_last()
    } else {
        l
    }
}

/// The lines of `s` as `str::lines` or a buffered reader yields them: split at each line feed,
/// which is dropped with a carriage return just before it; a last line without a line feed is
/// kept as it is, and an empty rest yields no line.
pub open spec fn split_lines<T: LineUnit>(s: Seq<T>) -> Seq<Seq<T>>
    decreases s.len(),
{
    if s.len() == 0 {
        Seq::empty()
    } else {
        let e = line_end(s);
        if e < s.len() {
            proof {
                lemma_line_end(s);
            }
            seq![strip_cr(s.take(e))] + split_lines(s.skip(e + 1))
        } else {
            seq![s]
        }
    }
}

/// The lines joined with `sep` between each two.
pub open spec fn join_lines(ls: Seq<Seq<u8>>, sep: Seq<u8>) -> Seq<u8>
    decreases ls.len(),
{
    if ls.len() == 0 {
        Seq::empty()
    } else if ls.len() == 1 {
        ls[0]
    } else {
        join_lines(ls.drop_last(), sep) + sep + ls.last()
    }
}

/// The lines written one after the other.
pub open spec fn concat_lines(ls: Seq<Seq<u8>>) -> Seq<u8>
    decreases ls.len(),
{
    if ls.len() == 0 {
        Seq::empty()
    } else {
        concat_lines(ls.drop_last()) + ls.last()
    }
}

/// Joining a first line with the rest puts the separator between them.
pub proof fn lemma_join_prepend(a: Seq<u8>, ls: Seq<Seq<u8>>, sep: Seq<u8>)
    requires
        ls.len() >= 1,
    ensures
        join_lines(seq![a] + ls, sep) == a + sep + join_lines(ls, sep),
    decreases ls.len(),
{
    let all = seq![a] + ls;
    assert(all.last() == ls.last());
    if ls.len() == 1 {
        assert(all.drop_last() =~= seq![a]);
        assert(join_lines(seq![a], sep) == a);
        assert(join_lines(ls, sep) == ls[0]);
    } else {
        lemma_join_prepend(a, ls.drop_last(), sep);
        assert(all.drop_last() =~= seq![a] + ls.drop_last());
        assert(a + sep + join_lines(ls.drop_last(), sep) + sep + ls.last() =~= a + sep + (join_lines(
            ls.drop_last(),
            sep,
        ) + sep + ls.last()));
    }
}

/// Splitting a text whose last line ends with `\n` and that holds no `\r` into lines, and
/// joining them with `\n` again, gives the text back but for its final `\n`.
pub proof fn lemma_split_join(t: Seq<u8>)
    requires
        t.len() > 0,
        t.last() == 10u8,
        forall|i: int| 0 <= i < t.len() ==> t[i] != 13u8,
    ensures
        join_lines(split_lines(t), seq![10u8]) + seq![10u8] == t,
    decreases t.len(),
{
    lemma_line_end(t);
    let e = line_end(t);
    assert(e < t.len());
    let line = t.take(e);
    let rest = t.skip(e + 1);
    assert(strip_cr(line) == line);
    if rest.len() == 0 {
        assert(split_lines(rest) =~= Seq::<Seq<u8>>::empty());
        assert(split_lines(t) =~= seq![line]);
        assert(line + seq![10u8] =~= t);
    } else {
        assert(rest.last() == t.last());
        assert forall|i: int| 0 <= i < rest.len() implies rest[i] != 13u8 by {
            assert(rest[i] == t[e + 1 + i]);
        }
        lemma_split_join(rest);
        assert(split_lines(rest).len() >= 1);
        lemma_join_prepend(line, split_lines(rest), seq![10u8]);
        assert(line + seq![10u8] + join_lines(split_lines(rest), seq![10u8]) + seq![10u8] =~= line
            + seq![10u8] + rest);
        assert(line + seq![10u8] + rest =~= t);
    }
}

/// Position of the first line feed at or after `start`, or the length.
fn find_line_end<T: LineUnit>(s: &Vec<T>, start: usize) -> (e: usize)
    requires
        start <= s@.len(),
    ensures
        start <= e <= s@.len(),
        e - start == line_end(s@.skip(start as int)),
{
    let ghost t = s@.skip(start as int);
    proof {
        lemma_line_end(t);
    }
    let mut j = start;
    while j < s.len()
        invariant
            start <= j <= s@.len(),
            t == s@.skip(start as int),
            forall|k: int| start <= k < j ==> s@[k] != T::newline(),
            0 <= line_end(t) <= t.len(),
            line_end(t) < t.len() ==> t[line_end(t)] == T::newline(),
            forall|k: int| 0 <= k < line_end(t) ==> t[k] != T::newline(),
        decreases s@.len() - j,
    {
        if s[j].is_newline() {
            assert(t[j - start] == T::newline());
            return j;
        }
        j += 1;
    }
    j
}

/// The units `s[from..to]`.
fn copy_range<T: Copy>(s: &Vec<T>, from: usize, to: usize) -> (r: Vec<T>)
    requires
        from <= to <= s@.len(),
    ensures
        r@ == s@.subrange(from as int, to as int),
{
    let mut r: Vec<T> = Vec::new();
    let mut i = from;
    while i < to
        invariant
            from <= i <= to <= s@.len(),
            r@ == s@.subrange(from as int, i as int),
        decreases to - i,
    {
        r.push(s[i]);
        assert(s@.subrange(from as int, i + 1) =~= s@.subrange(from as int, i as int).push(s@[i as int]));
        i += 1;
    }
    r
}

/// Splits `s` into lines, as `split_lines` says.
pub fn lines_of<T: LineUnit>(s: &Vec<T>) -> (r: Vec<Vec<T>>)
    ensures
        views(r@) == split_lines(s@),
{
    let mut out: Vec<Vec<T>> = Vec::new();
    let mut start: usize = 0;
    assert(s@.skip(0) =~= s@);
    while start < s.len()
        invariant
            start <= s@.len(),
            split_lines(s@) == views(out@) + split_lines(s@.skip(start as int)),
        decreases s@.len() - start,
    {
        let ghost t = s@.skip(start as int);
        let ghost before = views(out@);
        let e = find_line_end(s, start);
        if e < s.len() {
            let mut line = copy_range(s, start, e);
            if line.len() > 0 && line[line.len() - 1].is_carriage_return() {
                line.pop();
            }
            assert(t.take(e - start) =~= s@.subrange(start as int, e as int));
            assert(t.skip(e - start + 1) =~= s@.skip(e + 1));
            assert(line@ == strip_cr(t.take(e - start)));
            out.push(line);
            assert(views(out@) =~= before.push(strip_cr(t.take(e - start))));
            assert(split_lines(t) =~= seq![strip_cr(t.take(e - start))] + split_lines(s@.skip(e + 1)));
            start = e + 1;
        } else {
            let line = copy_range(s, start, e);
            assert(line@ =~= t);
            out.push(line);
            assert(views(out@) =~= before.push(t));
            assert(split_lines(t) =~= seq![t]);
            assert(s@.skip(e as int) =~= Seq::<T>::empty());
            start = e;
        }
    }
    assert(s@.skip(start as int) =~= Seq::<T>::empty());
    assert(views(out@) + Seq::<Seq<T>>::empty() =~= views(out@));
    out
}

/// Appends `b` to `a`.
fn extend_bytes(a: &mut Vec<u8>, b: &Vec<u8>)
    ensures
        final(a)@ == old(a)@ + b@,
{
    let ghost a0 = a@;
    for i in 0..b.len()
        invariant
            a@ == a0 + b@.take(i as int),
    {
        a.push(b[i]);
        assert(a0 + b@.take(i + 1) =~= (a0 + b@.take(i as int)).push(b@[i as int]));
    }
    assert(b@.take(b@.len() as int) =~= b@);
}

/// The lines joined with `sep` between each two, as `join_lines` says.
pub fn join_with(ls: &Vec<Vec<u8>>, sep: &Vec<u8>) -> (r: Vec<u8>)
    ensures
        r@ == join_lines(views(ls@), sep@),
{
    let ghost v = views(ls@);
    let mut r: Vec<u8> = Vec::new();
    for i in 0..ls.len()
        invariant
            v == views(ls@),
            r@ == join_lines(v.take(i as int), sep@),
    {
        assert(v.take(i + 1).drop_last() =~= v.take(i as int));
        if i > 0 {
            extend_bytes(&mut r, sep);
        }
        extend_bytes(&mut r, &ls[i]);
        if i == 0 {
            assert(r@ =~= v.take(1)[0]);
        }
    }
    assert(v.take(ls@.len() as int) =~= v);
    r
}

/// The lines from the `skip`-th on written one after the other.
pub fn concat_from(ls: &Vec<Vec<u8>>, skip: usize) -> (r: Vec<u8>)
    requires
        skip <= ls@.len(),
    ensures
        r@ == concat_lines(views(ls@).skip(skip as int)),
{
    let ghost v = views(ls@).skip(skip as int);
    let mut r: Vec<u8> = Vec::new();
    let mut i = skip;
    assert(v.take(0) =~= Seq::<Seq<u8>>::empty());
    while i < ls.len()
        invariant
            skip <= i <= ls@.len(),
            v == views(ls@).skip(skip as int),
            r@ == concat_lines(v.take(i - skip)),
        decreases ls@.len() - i,
    {
        assert(v.take(i - skip + 1).drop_last() =~= v.take(i - skip));
        assert(v.take(i - skip + 1).last() == ls[i as int]@);
        extend_bytes(&mut r, &ls[i]);
        i += 1;
    }
    assert(v.take(ls@.len() - skip) =~= v);
    r
}

} // verus!
