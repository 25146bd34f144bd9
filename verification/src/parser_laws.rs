//! What holds of log parsing across messages: a log is a sequence of
//! messages, each starting at a prefixed line, so a log cut at the start
//! of a message parses as its two parts do, one after the other; lines
//! before the first message, and messages that are not `duration:`
//! entries, contribute nothing.

use vstd::prelude::*;

use crate::parser::{
    add_line, entries_of, entry_of, lemma_line_len_bounds, line_len, lines_of, parse_spec,
    prefix_match, records_from, records_spec,
};

verus! {

proof fn lemma_line_len_concat(a: Seq<char>, b: Seq<char>)
    requires
        line_len(a) < a.len(),
    ensures
        line_len(a + b) == line_len(a),
    decreases a.len(),
{
    if a[0] != '\n' {
        assert((a + b).drop_first() =~= a.drop_first() + b);
        lemma_line_len_concat(a.drop_first(), b);
    }
}

/// Lines split the same way on either side of a line break.
pub proof fn lemma_lines_concat(a: Seq<char>, b: Seq<char>)
    requires
        a.len() == 0 || a.last() == '\n',
    ensures
        lines_of(a + b) == lines_of(a) + lines_of(b),
    decreases a.len(),
{
    if a.len() == 0 {
        assert(a + b =~= b);
        assert(lines_of(a) + lines_of(b) =~= lines_of(b));
    } else {
        lemma_line_len_bounds(a);
        let n = line_len(a);
        assert(n < a.len()) by {
            if n == a.len() {
                assert(a[a.len() - 1] != '\n');
            }
        }
        lemma_line_len_concat(a, b);
        let s = a + b;
        assert(s.take(n) =~= a.take(n));
        assert(s.skip(n + 1) =~= a.skip(n + 1) + b);
        let rest = a.skip(n + 1);
        if rest.len() > 0 {
            assert(rest.last() == a.last());
        }
        lemma_lines_concat(rest, b);
        assert(seq![crate::parser::strip_cr(a.take(n))] + (lines_of(rest) + lines_of(b))
            =~= (seq![crate::parser::strip_cr(a.take(n))] + lines_of(rest)) + lines_of(b));
    }
}

proof fn lemma_records_from_concat(
    acc: Seq<(i32, Seq<char>)>,
    l1: Seq<Seq<char>>,
    l2: Seq<Seq<char>>,
)
    ensures
        records_from(acc, l1 + l2) == records_from(records_from(acc, l1), l2),
    decreases l1.len(),
{
    if l1.len() == 0 {
        assert(l1 + l2 =~= l2);
    } else {
        assert((l1 + l2)[0] == l1[0]);
        assert((l1 + l2).drop_first() =~= l1.drop_first() + l2);
        lemma_records_from_concat(add_line(acc, l1[0]), l1.drop_first(), l2);
    }
}

/// Lines only ever extend the last record: earlier records stay as they are.
proof fn lemma_records_from_keeps_prefix(
    r: Seq<(i32, Seq<char>)>,
    q: Seq<(i32, Seq<char>)>,
    l: Seq<Seq<char>>,
)
    requires
        q.len() > 0,
    ensures
        records_from(r + q, l) == r + records_from(q, l),
    decreases l.len(),
{
    if l.len() > 0 {
        let line = l[0];
        let q2 = add_line(q, line);
        match prefix_match(line) {
            Some((pid, start)) => {
                assert(add_line(r + q, line) =~= r + q2);
            },
            None => {
                assert((r + q).last() == q.last());
                assert(add_line(r + q, line) =~= r + q2);
            },
        }
        lemma_records_from_keeps_prefix(r, q2, l.drop_first());
    } else {
    }
}

proof fn lemma_entries_concat(r1: Seq<(i32, Seq<char>)>, r2: Seq<(i32, Seq<char>)>)
    ensures
        entries_of(r1 + r2) == entries_of(r1) + entries_of(r2),
    decreases r2.len(),
{
    if r2.len() == 0 {
        assert(r1 + r2 =~= r1);
        assert(entries_of(r1) + entries_of(r2) =~= entries_of(r1));
    } else {
        assert((r1 + r2).drop_last() =~= r1 + r2.drop_last());
        assert((r1 + r2).last() == r2.last());
        lemma_entries_concat(r1, r2.drop_last());
        match entry_of(r2.last()) {
            Some(e) => {
                assert((entries_of(r1) + entries_of(r2.drop_last())).push(e) =~= entries_of(r1)
                    + entries_of(r2.drop_last()).push(e));
            },
            None => {},
        }
    }
}

/// `b` starts at a message: it is empty or its first line is prefixed.
pub open spec fn starts_a_message(b: Seq<char>) -> bool {
    b.len() == 0 || prefix_match(lines_of(b)[0]) is Some
}

/// A log cut just after a line break, where the second part starts a new
/// message, splits into the messages of its two parts.
pub proof fn law_records_split(a: Seq<char>, b: Seq<char>)
    requires
        a.len() == 0 || a.last() == '\n',
        starts_a_message(b),
    ensures
        records_spec(a + b) == records_spec(a) + records_spec(b),
{
    lemma_lines_concat(a, b);
    let la = lines_of(a);
    let lb = lines_of(b);
    let ra = records_from(seq![], la);
    lemma_records_from_concat(seq![], la, lb);
    if lb.len() == 0 {
        assert(ra + records_from(seq![], lb) =~= ra);
    } else {
        let first = lb[0];
        let x = match prefix_match(first) {
            Some((pid, start)) => (pid, first.skip(start)),
            None => (0i32, first),
        };
        assert(add_line(ra, first) =~= ra + seq![x]);
        assert(add_line(seq![], first) =~= seq![x]);
        lemma_records_from_keeps_prefix(ra, seq![x], lb.drop_first());
    }
}

/// A log cut just after a line break, where the second part starts a new
/// message, parses to the entries of its first part followed by those of
/// its second part.
pub proof fn law_parse_split(a: Seq<char>, b: Seq<char>)
    requires
        a.len() == 0 || a.last() == '\n',
        starts_a_message(b),
    ensures
        parse_spec(a + b) == parse_spec(a) + parse_spec(b),
{
    law_records_split(a, b);
    lemma_entries_concat(records_spec(a), records_spec(b));
}


proof fn lemma_records_without_prefix(l: Seq<Seq<char>>)
    requires
        forall|i: int| 0 <= i < l.len() ==> prefix_match(#[trigger] l[i]) is None,
    ensures
        records_from(seq![], l) == Seq::<(i32, Seq<char>)>::empty(),
    decreases l.len(),
{
    if l.len() > 0 {
        assert(prefix_match(l[0]) is None);
        assert(add_line(seq![], l[0]) =~= Seq::<(i32, Seq<char>)>::empty());
        assert forall|i: int| 0 <= i < l.drop_first().len() implies prefix_match(
            #[trigger] l.drop_first()[i],
        ) is None by {
            assert(l.drop_first()[i] == l[i + 1]);
        }
        lemma_records_without_prefix(l.drop_first());
    }
}

/// Lines before the first prefixed line belong to no message: they are
/// dropped, and the rest of the log parses as it would without them.
pub proof fn law_leading_orphan_lines_dropped(a: Seq<char>, b: Seq<char>)
    requires
        a.len() == 0 || a.last() == '\n',
        forall|i: int| 0 <= i < lines_of(a).len() ==> prefix_match(#[trigger] lines_of(a)[i]) is None,
        starts_a_message(b),
    ensures
        records_spec(a) == Seq::<(i32, Seq<char>)>::empty(),
        parse_spec(a + b) == parse_spec(b),
{
    lemma_records_without_prefix(lines_of(a));
    law_parse_split(a, b);
    assert(entries_of(Seq::<(i32, Seq<char>)>::empty()) == Seq::<(i32, Seq<char>, Seq<char>)>::empty());
    assert(parse_spec(a) + parse_spec(b) =~= parse_spec(b));
}


proof fn lemma_entries_of_none(recs: Seq<(i32, Seq<char>)>)
    requires
        forall|i: int| 0 <= i < recs.len() ==> entry_of(#[trigger] recs[i]) is None,
    ensures
        entries_of(recs) == Seq::<(i32, Seq<char>, Seq<char>)>::empty(),
    decreases recs.len(),
{
    if recs.len() > 0 {
        assert(entry_of(recs[recs.len() - 1]) is None);
        assert forall|i: int| 0 <= i < recs.drop_last().len() implies entry_of(
            #[trigger] recs.drop_last()[i],
        ) is None by {
            assert(recs.drop_last()[i] == recs[i]);
        }
        lemma_entries_of_none(recs.drop_last());
    }
}

/// Messages that are not `duration:` entries (connection notices,
/// warnings, errors, ...) contribute nothing: a log part made only of such
/// messages can be cut out without changing what the log parses to.
pub proof fn law_other_messages_skipped(a: Seq<char>, b: Seq<char>)
    requires
        a.len() == 0 || a.last() == '\n',
        forall|i: int|
            0 <= i < records_spec(a).len() ==> entry_of(#[trigger] records_spec(a)[i]) is None,
        starts_a_message(b),
    ensures
        parse_spec(a + b) == parse_spec(b),
{
    lemma_entries_of_none(records_spec(a));
    law_parse_split(a, b);
    assert(parse_spec(a) + parse_spec(b) =~= parse_spec(b));
}

} // verus!
