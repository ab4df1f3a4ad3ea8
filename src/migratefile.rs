//! The migrate file: one `source -> destination` record per line.
use vstd::prelude::*;

verus! {

/// The separator between the two paths of a record.
pub open spec fn arrow() -> Seq<char> {
    seq![' ', '-', '>', ' ']
}

/// The lines of `s`, cut at each newline: a text with n newlines has n + 1 lines.
pub open spec fn split_lines(s: Seq<char>) -> Seq<Seq<char>>
    decreases s.len(),
{
    if s.len() == 0 {
        seq![Seq::empty()]
    } else {
        let prev = split_lines(s.drop_last());
        if s.last() == '\n' {
            prev.push(Seq::empty())
        } else {
            prev.drop_last().push(prev.last().push(s.last()))
        }
    }
}

/// The separator starts at position `i` of `line`.
pub open spec fn arrow_at(line: Seq<char>, i: int) -> bool {
    0 <= i && i + 4 <= line.len() && line.subrange(i, i + 4) == arrow()
}

/// Position `i` is the first occurrence of the separator in `line`.
pub open spec fn first_arrow(line: Seq<char>, i: int) -> bool {
    arrow_at(line, i) && forall|j: int| 0 <= j < i ==> !arrow_at(line, j)
}

/// A line cut at the first separator, or `None` where it holds none.
pub open spec fn split_record(line: Seq<char>) -> Option<(Seq<char>, Seq<char>)> {
    if exists|i: int| first_arrow(line, i) {
        let i = choose|i: int| first_arrow(line, i);
        Some((line.take(i), line.skip(i + 4)))
    } else {
        None
    }
}

/// The records of a sequence of lines, in order: empty lines and lines without
/// the separator give none.
pub open spec fn records_of_lines(lines: Seq<Seq<char>>) -> Seq<(Seq<char>, Seq<char>)>
    decreases lines.len(),
{
    if lines.len() == 0 {
        seq![]
    } else {
        let rest = records_of_lines(lines.drop_last());
        let line = lines.last();
        if line.len() == 0 {
            rest
        } else {
            match split_record(line) {
                Some(r) => rest.push(r),
                None => rest,
            }
        }
    }
}

/// The records that a migrate file's text holds.
pub open spec fn parse_migrations(text: Seq<char>) -> Seq<(Seq<char>, Seq<char>)> {
    records_of_lines(split_lines(text))
}

/// A record of paths as character sequences.
pub open spec fn record_view(r: (String, String)) -> (Seq<char>, Seq<char>) {
    (r.0@, r.1@)
}

/// The records of a sequence of string pairs.
pub open spec fn records_view(rs: Seq<(String, String)>) -> Seq<(Seq<char>, Seq<char>)> {
    rs.map_values(|r: (String, String)| record_view(r))
}

/// The characters of `s`, in order.
fn chars_of(s: &str) -> (r: Vec<char>)
    ensures
        r@ == s@,
{
    let mut r: Vec<char> = Vec::new();
    for c in it: s.chars()
        invariant
            r@.len() == it.index(),
            forall|i: int| 0 <= i < r@.len() ==> r@[i] == it.seq()[i],
    {
        r.push(c);
    }
    assert(r@ =~= s@);
    r
}

/// Relies on String's FromIterator<char>: the string of those characters.
#[verifier::external_body]
fn string_of(cs: Vec<char>) -> (r: String)
    ensures
        r@ == cs@,
{
    cs.into_iter().collect()
}

/// The characters `cs[start..end]`.
fn chars_between(cs: &Vec<char>, start: usize, end: usize) -> (r: Vec<char>)
    requires
        start <= end <= cs@.len(),
    ensures
        r@ == cs@.subrange(start as int, end as int),
{
    let mut r: Vec<char> = Vec::new();
    let mut i: usize = start;
    while i < end
        invariant
            start <= i <= end <= cs@.len(),
            r@ == cs@.subrange(start as int, i as int),
        decreases end - i,
    {
        r.push(cs[i]);
        i = i + 1;
        assert(r@ =~= cs@.subrange(start as int, i as int));
    }
    r
}

proof fn lemma_first_arrow_unique(line: Seq<char>, i: int, k: int)
    requires
        first_arrow(line, i),
        first_arrow(line, k),
    ensures
        i == k,
{
    if i < k {
        assert(!arrow_at(line, i));
    } else if k < i {
        assert(!arrow_at(line, k));
    }
}

/// Cuts one line at the first separator.
pub fn split_line(line: &Vec<char>) -> (r: Option<(String, String)>)
    ensures
        r matches Some(p) ==> split_record(line@) == Some(record_view(p)),
        r is None ==> split_record(line@) is None,
{
    let n = line.len();
    let mut i: usize = 0;
    while n >= 4 && i <= n - 4
        invariant
            n == line@.len(),
            i <= n,
            forall|j: int| 0 <= j < i ==> !arrow_at(line@, j),
        decreases n - i,
    {
        if line[i] == ' ' && line[i + 1] == '-' && line[i + 2] == '>' && line[i + 3] == ' ' {
            assert(line@.subrange(i as int, i as int + 4) =~= arrow());
            assert(first_arrow(line@, i as int));
            let left = string_of(chars_between(line, 0, i));
            let right = string_of(chars_between(line, i + 4, n));
            proof {
                let k = choose|k: int| first_arrow(line@, k);
                lemma_first_arrow_unique(line@, i as int, k);
                assert(line@.take(i as int) =~= line@.subrange(0, i as int));
                assert(line@.skip(i as int + 4) =~= line@.subrange(i as int + 4, n as int));
            }
            return Some((left, right));
        }
        proof {
            if arrow_at(line@, i as int) {
                assert(line@.subrange(i as int, i as int + 4)[0] == line@[i as int]);
                assert(line@.subrange(i as int, i as int + 4)[1] == line@[i as int + 1]);
                assert(line@.subrange(i as int, i as int + 4)[2] == line@[i as int + 2]);
                assert(line@.subrange(i as int, i as int + 4)[3] == line@[i as int + 3]);
            }
        }
        i = i + 1;
    }
    assert(!exists|k: int| first_arrow(line@, k));
    None
}

/// Appends the record of `line` to `out`, where the line gives one.
fn add_line(out: &mut Vec<(String, String)>, line: &Vec<char>, Ghost(done): Ghost<Seq<Seq<char>>>)
    requires
        records_view(old(out)@) == records_of_lines(done),
    ensures
        records_view(final(out)@) == records_of_lines(done.push(line@)),
{
    assert(done.push(line@).drop_last() =~= done);
    if line.len() > 0 {
        match split_line(line) {
            Some(p) => {
                let ghost before = out@;
                out.push(p);
                assert(records_view(out@) =~= records_view(before).push(record_view(p)));
            },
            None => {},
        }
    }
}

/// The records of a migrate file's text, in the order of its lines. Empty
/// lines and lines without the separator give no record; a line is cut at
/// the first separator that it holds.
pub fn parse_migrate_file(contents: &str) -> (r: Vec<(String, String)>)
    ensures
        records_view(r@) == parse_migrations(contents@),
{
    let cs = chars_of(contents);
    let mut out: Vec<(String, String)> = Vec::new();
    let mut line: Vec<char> = Vec::new();
    let ghost mut done: Seq<Seq<char>> = seq![];
    let mut i: usize = 0;
    assert(cs@.take(0) =~= Seq::<char>::empty());
    assert(records_view(out@) =~= Seq::empty());
    while i < cs.len()
        invariant
            i <= cs@.len(),
            split_lines(cs@.take(i as int)) == done.push(line@),
            records_view(out@) == records_of_lines(done),
        decreases cs@.len() - i,
    {
        let c = cs[i];
        assert(cs@.take(i + 1).drop_last() =~= cs@.take(i as int));
        assert(cs@.take(i + 1).last() == c);
        if c == '\n' {
            add_line(&mut out, &line, Ghost(done));
            proof {
                done = done.push(line@);
            }
            line = Vec::new();
            assert(split_lines(cs@.take(i + 1)) =~= done.push(line@));
        } else {
            let ghost prev = done.push(line@);
            line.push(c);
            assert(prev.drop_last() =~= done);
            assert(split_lines(cs@.take(i + 1)) =~= done.push(line@));
        }
        i = i + 1;
    }
    add_line(&mut out, &line, Ghost(done));
    assert(cs@.take(cs@.len() as int) =~= cs@);
    out
}

/// The text of `lines` joined by newlines.
pub open spec fn join_lines(lines: Seq<Seq<char>>) -> Seq<char>
    decreases lines.len(),
{
    if lines.len() == 0 {
        Seq::empty()
    } else if lines.len() == 1 {
        lines[0]
    } else {
        join_lines(lines.drop_last()).push('\n') + lines.last()
    }
}

/// `s` holds no newline.
pub open spec fn has_no_newline(s: Seq<char>) -> bool {
    forall|i: int| 0 <= i < s.len() ==> s[i] != '\n'
}

/// No line of `lines` holds a newline.
pub open spec fn lines_without_newline(lines: Seq<Seq<char>>) -> bool {
    forall|k: int| 0 <= k < lines.len() ==> has_no_newline(#[trigger] lines[k])
}

/// The line that records `r`: source, separator, destination.
pub open spec fn record_line(r: (Seq<char>, Seq<char>)) -> Seq<char> {
    r.0 + arrow() + r.1
}

/// A record that its line gives back: neither path holds a newline, and the
/// separator occurs nowhere in the source followed by the separator.
pub open spec fn well_formed(r: (Seq<char>, Seq<char>)) -> bool {
    &&& has_no_newline(r.0)
    &&& has_no_newline(r.1)
    &&& forall|j: int| 0 <= j < r.0.len() ==> !arrow_at(r.0 + arrow(), j)
}

proof fn lemma_split_lines_len(s: Seq<char>)
    ensures
        split_lines(s).len() >= 1,
    decreases s.len(),
{
    if s.len() > 0 {
        lemma_split_lines_len(s.drop_last());
    }
}

/// Text without a newline extends the last line.
proof fn lemma_split_lines_append(s: Seq<char>, t: Seq<char>)
    requires
        has_no_newline(t),
    ensures
        split_lines(s + t) == split_lines(s).drop_last().push(split_lines(s).last() + t),
    decreases t.len(),
{
    lemma_split_lines_len(s);
    let p = split_lines(s);
    if t.len() == 0 {
        assert(s + t =~= s);
        assert(p.last() + t =~= p.last());
        assert(p.drop_last().push(p.last()) =~= p);
    } else {
        let t0 = t.drop_last();
        lemma_split_lines_append(s, t0);
        assert((s + t).drop_last() =~= s + t0);
        assert((s + t).last() == t.last());
        assert((p.last() + t0).push(t.last()) =~= p.last() + t);
        let prev = split_lines(s + t0);
        assert(prev.drop_last() =~= p.drop_last());
        assert(split_lines(s + t) =~= p.drop_last().push(p.last() + t));
    }
}

/// Lines without newlines, joined by newlines, split back into themselves.
proof fn lemma_split_join(lines: Seq<Seq<char>>)
    requires
        lines.len() > 0,
        lines_without_newline(lines),
    ensures
        split_lines(join_lines(lines)) == lines,
    decreases lines.len(),
{
    let e = Seq::<char>::empty();
    if lines.len() == 1 {
        lemma_split_lines_append(e, lines[0]);
        assert(e + lines[0] =~= lines[0]);
        assert(seq![e].drop_last().push(e + lines[0]) =~= lines);
    } else {
        let init = lines.drop_last();
        assert(lines_without_newline(init)) by {
            assert forall|k: int| 0 <= k < init.len() implies has_no_newline(#[trigger] init[k]) by {
                assert(init[k] == lines[k]);
            }
        }
        lemma_split_join(init);
        let j = join_lines(init).push('\n');
        assert(j.drop_last() =~= join_lines(init));
        assert(split_lines(j) == init.push(e));
        assert(has_no_newline(lines[lines.len() - 1]));
        lemma_split_lines_append(j, lines.last());
        assert(init.push(e).drop_last().push(e + lines.last()) =~= lines);
    }
}

/// The records of some lines are the records that the lines give, in order.
proof fn lemma_records_filter_map(lines: Seq<Seq<char>>)
    ensures
        records_of_lines(lines) == lines.filter_map(|l: Seq<char>| split_record(l)),
    decreases lines.len(),
{
    if lines.len() > 0 {
        lemma_records_filter_map(lines.drop_last());
        let l = lines.last();
        if l.len() == 0 {
            assert(!arrow_at(l, choose|i: int| first_arrow(l, i)));
        }
        match split_record(l) {
            Some(r) => {
                assert(records_of_lines(lines.drop_last()).push(r) =~= records_of_lines(
                    lines.drop_last(),
                ) + seq![r]);
            },
            None => {},
        }
    }
}

proof fn lemma_records_count(lines: Seq<Seq<char>>, k: int)
    requires
        0 <= k < lines.len(),
        split_record(lines[k]) is None,
    ensures
        records_of_lines(lines).len() < lines.len(),
    decreases lines.len(),
{
    lemma_records_filter_map(lines);
    lemma_records_filter_map(lines.drop_last());
    if k == lines.len() - 1 {
        lemma_records_at_most(lines.drop_last());
    } else {
        assert(lines.drop_last()[k] == lines[k]);
        lemma_records_count(lines.drop_last(), k);
    }
}

proof fn lemma_records_at_most(lines: Seq<Seq<char>>)
    ensures
        records_of_lines(lines).len() <= lines.len(),
    decreases lines.len(),
{
    if lines.len() > 0 {
        lemma_records_at_most(lines.drop_last());
    }
}

proof fn lemma_record_line_splits(r: (Seq<char>, Seq<char>))
    requires
        well_formed(r),
    ensures
        split_record(record_line(r)) == Some(r),
{
    let line = record_line(r);
    let head = r.0 + arrow();
    let i = r.0.len() as int;
    assert(line.subrange(i, i + 4) =~= arrow());
    assert forall|j: int| 0 <= j < i implies !arrow_at(line, j) by {
        assert(!arrow_at(head, j));
        assert(line.subrange(j, j + 4) =~= head.subrange(j, j + 4));
    }
    assert(first_arrow(line, i));
    let k = choose|k: int| first_arrow(line, k);
    lemma_first_arrow_unique(line, i, k);
    assert(line.take(i) =~= r.0);
    assert(line.skip(i + 4) =~= r.1);
}

proof fn lemma_records_of_record_lines(recs: Seq<(Seq<char>, Seq<char>)>)
    requires
        forall|k: int| 0 <= k < recs.len() ==> well_formed(#[trigger] recs[k]),
    ensures
        records_of_lines(recs.map_values(|r: (Seq<char>, Seq<char>)| record_line(r))) == recs,
    decreases recs.len(),
{
    let lines = recs.map_values(|r: (Seq<char>, Seq<char>)| record_line(r));
    if recs.len() == 0 {
        assert(lines.len() == 0);
        assert(records_of_lines(lines) =~= recs);
    } else {
        let init = recs.drop_last();
        assert(lines.drop_last() =~= init.map_values(|r: (Seq<char>, Seq<char>)| record_line(r)));
        assert forall|k: int| 0 <= k < init.len() implies well_formed(#[trigger] init[k]) by {
            assert(init[k] == recs[k]);
        }
        lemma_records_of_record_lines(init);
        assert(well_formed(recs[recs.len() - 1]));
        lemma_record_line_splits(recs.last());
        assert(lines.last() == record_line(recs.last()));
        assert(lines.last().len() >= 4);
        assert(init.push(recs.last()) =~= recs);
    }
}

proof fn lemma_record_line_no_newline(r: (Seq<char>, Seq<char>))
    requires
        well_formed(r),
    ensures
        has_no_newline(record_line(r)),
{
    let line = record_line(r);
    assert forall|i: int| 0 <= i < line.len() implies line[i] != '\n' by {
        if i < r.0.len() {
            assert(line[i] == r.0[i]);
        } else if i < r.0.len() + 4 {
            assert(line[i] == arrow()[i - r.0.len()]);
        } else {
            assert(line[i] == r.1[i - r.0.len() - 4]);
        }
    }
}

/// Well-formed records, written one per line and joined by newlines, read
/// back as exactly those records, in the same order.
pub proof fn lemma_round_trip(recs: Seq<(Seq<char>, Seq<char>)>)
    requires
        forall|k: int| 0 <= k < recs.len() ==> well_formed(#[trigger] recs[k]),
    ensures
        parse_migrations(
            join_lines(recs.map_values(|r: (Seq<char>, Seq<char>)| record_line(r))),
        ) == recs,
{
    let lines = recs.map_values(|r: (Seq<char>, Seq<char>)| record_line(r));
    lemma_records_of_record_lines(recs);
    if recs.len() == 0 {
        let e = Seq::<char>::empty();
        assert(lines.len() == 0);
        assert(join_lines(lines) == e);
        assert(split_lines(e) == seq![e]);
        assert(seq![e].drop_last() =~= Seq::<Seq<char>>::empty());
        assert(records_of_lines(seq![e].drop_last()) == Seq::<(Seq<char>, Seq<char>)>::empty());
        assert(parse_migrations(join_lines(lines)) =~= recs);
    } else {
        assert forall|k: int| 0 <= k < lines.len() implies has_no_newline(#[trigger] lines[k]) by {
            lemma_record_line_no_newline(recs[k]);
        }
        lemma_split_join(lines);
    }
}

/// Lines without the separator are dropped: a text's records are those that
/// its lines give, in the order of the lines, and where some line gives none
/// there are fewer records than lines.
pub proof fn lemma_malformed_lines_dropped(lines: Seq<Seq<char>>)
    requires
        lines.len() > 0,
        lines_without_newline(lines),
    ensures
        parse_migrations(join_lines(lines)) == lines.filter_map(|l: Seq<char>| split_record(l)),
        (exists|k: int| 0 <= k < lines.len() && split_record(lines[k]) is None) ==> parse_migrations(
            join_lines(lines),
        ).len() < lines.len(),
{
    lemma_split_join(lines);
    lemma_records_filter_map(lines);
    if exists|k: int| 0 <= k < lines.len() && split_record(lines[k]) is None {
        let k = choose|k: int| 0 <= k < lines.len() && split_record(lines[k]) is None;
        lemma_records_count(lines, k);
    }
}

/// Empty lines give no record, and neither does a line of one space: the
/// records of some lines are those of their non-empty lines.
pub proof fn lemma_blank_lines_ignored(lines: Seq<Seq<char>>)
    ensures
        records_of_lines(lines) == records_of_lines(lines.filter(|l: Seq<char>| l.len() > 0)),
        records_of_lines(seq![seq![' ']]) == Seq::<(Seq<char>, Seq<char>)>::empty(),
    decreases lines.len(),
{
    reveal(Seq::filter);
    if lines.len() > 0 {
        lemma_blank_lines_ignored(lines.drop_last());
        let f = lines.filter(|l: Seq<char>| l.len() > 0);
        if lines.last().len() > 0 {
            assert(f.drop_last() =~= lines.drop_last().filter(|l: Seq<char>| l.len() > 0));
        }
    }
    let sp = seq![' '];
    assert(!exists|i: int| first_arrow(sp, i));
    assert(split_record(sp) is None);
    assert(seq![sp].drop_last() =~= Seq::<Seq<char>>::empty());
    assert(seq![sp].last() == sp);
    assert(records_of_lines(seq![sp].drop_last()) == Seq::<(Seq<char>, Seq<char>)>::empty());
}

} // verus!
