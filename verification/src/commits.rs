//! The recent commits that `git log --format=%h%x1f%s%x1f%an%x1f%cr` lists.
use vstd::prelude::*;
use vstd::utf8::*;

use crate::text::{
    chars_of, decode_lossy, free_of, lemma_first_after, lemma_free_of_concat,
    lemma_lines_concat, lemma_one_line, lines, lines_of, splitn_char, splitn_on, string_of,
    lossy_text, views,
};
use crate::commands::{log_format_arg, query_args, GitQuery};
use crate::types::{lemma_views_of_push, views_of, CommandOutput, CommitInfo, CommitInfoView};

verus! {

/// The separator between the fields of a log line (ASCII unit separator).
pub open spec fn field_separator() -> char {
    '\u{1f}'
}

/// The commit of a log line: its first four fields, the last of which holds
/// the rest of the line; a line with fewer fields gives none.
pub open spec fn commit_entry(line: Seq<char>) -> Option<CommitInfoView> {
    let parts = splitn_on(line, 4, field_separator());
    if parts.len() == 4 {
        Some(CommitInfoView { hash: parts[0], message: parts[1], author: parts[2], date: parts[3] })
    } else {
        None
    }
}

pub open spec fn commit_entry_fn() -> spec_fn(Seq<char>) -> Option<CommitInfoView> {
    |l: Seq<char>| commit_entry(l)
}

/// The commits of every line of a log text.
pub open spec fn commit_entries(text: Seq<char>) -> Seq<CommitInfoView> {
    lines_of(text).filter_map(commit_entry_fn())
}

fn commit_of_chars(line: &[char]) -> (r: Option<CommitInfo>)
    ensures
        match r {
            Some(c) => commit_entry(line@) == Some(c@),
            None => commit_entry(line@) is None,
        },
{
    let parts = splitn_char(line, 4, '\u{1f}');
    if parts.len() == 4 {
        assert(parts@[0]@ == views(parts@)[0]);
        assert(parts@[1]@ == views(parts@)[1]);
        assert(parts@[2]@ == views(parts@)[2]);
        assert(parts@[3]@ == views(parts@)[3]);
        Some(
            CommitInfo {
                hash: string_of(parts[0].as_slice()),
                message: string_of(parts[1].as_slice()),
                author: string_of(parts[2].as_slice()),
                date: string_of(parts[3].as_slice()),
            },
        )
    } else {
        None
    }
}

/// Parses one line of the log.
pub fn parse_commit_line(line: &str) -> (r: Option<CommitInfo>)
    ensures
        match r {
            Some(c) => commit_entry(line@) == Some(c@),
            None => commit_entry(line@) is None,
        },
{
    let chars = chars_of(line);
    commit_of_chars(chars.as_slice())
}

/// The commits that a log text lists, one per line with four fields.
pub fn parse_commit_log(text: &str) -> (r: Vec<CommitInfo>)
    ensures
        views_of(r@) == commit_entries(text@),
{
    let chars = chars_of(text);
    let ls = lines(chars.as_slice());
    let ghost all = lines_of(text@);
    let mut out: Vec<CommitInfo> = Vec::new();
    let mut i: usize = 0;
    assert(all.take(0).filter_map(commit_entry_fn()) =~= Seq::<CommitInfoView>::empty());
    assert(views_of(out@) =~= Seq::<CommitInfoView>::empty());
    while i < ls.len()
        invariant
            views(ls@) == all,
            all == lines_of(text@),
            i <= ls@.len(),
            views_of(out@) == all.take(i as int).filter_map(commit_entry_fn()),
        decreases ls@.len() - i,
    {
        assert(ls@[i as int]@ == all[i as int]);
        let entry = commit_of_chars(ls[i].as_slice());
        proof {
            let t = all.take(i + 1);
            assert(t.drop_last() =~= all.take(i as int));
            assert(t.last() == all[i as int]);
        }
        match entry {
            Some(c) => {
                proof {
                    lemma_views_of_push(out@, c);
                }
                out.push(c);
            },
            None => {},
        }
        i = i + 1;
    }
    assert(all.take(all.len() as int) =~= all);
    out
}

/// The commits that the output of the log command lists; none when the
/// command could not be run or failed.
pub open spec fn commits_of(out: Option<CommandOutput>) -> Seq<CommitInfoView> {
    match out {
        Some(o) if o.success => commit_entries(lossy_text(o.stdout@)),
        _ => Seq::empty(),
    }
}

pub fn commits_from_output(out: &Option<CommandOutput>) -> (r: Vec<CommitInfo>)
    ensures
        views_of(r@) == commits_of(*out),
{
    match out {
        Some(o) if o.success => {
            let text = decode_lossy(o.stdout.as_slice());
            parse_commit_log(text.as_str())
        },
        _ => {
            let v: Vec<CommitInfo> = Vec::new();
            assert(views_of(v@) =~= Seq::<CommitInfoView>::empty());
            v
        },
    }
}

/// The log line of a commit: its four fields, separated.
pub open spec fn log_line(c: CommitInfoView) -> Seq<char> {
    c.hash + seq![field_separator()] + c.message + seq![field_separator()] + c.author + seq![
        field_separator(),
    ] + c.date
}

/// A commit that a log line can hold: no separator in the first three
/// fields, no line feed anywhere, and no carriage return at the end.
pub open spec fn well_formed_commit(c: CommitInfoView) -> bool {
    &&& free_of(c.hash, field_separator())
    &&& free_of(c.message, field_separator())
    &&& free_of(c.author, field_separator())
    &&& free_of(c.hash, '\n')
    &&& free_of(c.message, '\n')
    &&& free_of(c.author, '\n')
    &&& free_of(c.date, '\n')
    &&& (c.date.len() == 0 || c.date.last() != '\r')
}

proof fn lemma_splitn_step(a: Seq<char>, c: char, b: Seq<char>, n: nat)
    requires
        free_of(a, c),
        n >= 2,
    ensures
        splitn_on(a + seq![c] + b, n, c) == seq![a] + splitn_on(b, (n - 1) as nat, c),
{
    lemma_first_after(a, c, b);
}

/// A log line is read back as the commit it was written from.
pub proof fn lemma_commit_roundtrip(c: CommitInfoView)
    requires
        well_formed_commit(c),
    ensures
        commit_entry(log_line(c)) == Some(c),
{
    let us = field_separator();
    let r3 = c.author + seq![us] + c.date;
    let r2 = c.message + seq![us] + r3;
    let line = c.hash + seq![us] + r2;
    assert(log_line(c) =~= line);
    lemma_splitn_step(c.author, us, c.date, 2);
    assert(splitn_on(r3, 2, us) =~= seq![c.author, c.date]);
    lemma_splitn_step(c.message, us, r3, 3);
    assert(splitn_on(r2, 3, us) =~= seq![c.message, c.author, c.date]);
    lemma_splitn_step(c.hash, us, r2, 4);
    assert(splitn_on(line, 4, us) =~= seq![c.hash, c.message, c.author, c.date]);
}

/// The log text of a list of commits, one line each.
pub open spec fn log_text(cs: Seq<CommitInfoView>) -> Seq<char>
    decreases cs.len(),
{
    if cs.len() == 0 {
        Seq::empty()
    } else {
        log_text(cs.drop_last()) + log_line(cs.last()) + seq!['\n']
    }
}

/// The log text of the given commits is read back as exactly those commits,
/// in order.
pub proof fn lemma_log_roundtrip(cs: Seq<CommitInfoView>)
    requires
        forall|i: int| 0 <= i < cs.len() ==> well_formed_commit(#[trigger] cs[i]),
    ensures
        commit_entries(log_text(cs)) == cs,
    decreases cs.len(),
{
    if cs.len() == 0 {
        assert(lines_of(Seq::<char>::empty()) =~= Seq::<Seq<char>>::empty());
        assert(commit_entries(log_text(cs)) =~= cs);
    } else {
        let init = cs.drop_last();
        let c = cs.last();
        assert(well_formed_commit(cs[cs.len() - 1]));
        assert forall|i: int| 0 <= i < init.len() implies well_formed_commit(#[trigger] init[i]) by {
            assert(init[i] == cs[i]);
        }
        lemma_log_roundtrip(init);
        lemma_commit_roundtrip(c);
        let a = log_text(init);
        let l = log_line(c);
        let us = field_separator();
        assert(free_of(seq![us], '\n')) by {
            assert(seq![us][0] == us);
        }
        lemma_free_of_concat(c.hash, seq![us], '\n');
        lemma_free_of_concat(c.hash + seq![us], c.message, '\n');
        lemma_free_of_concat(c.hash + seq![us] + c.message, seq![us], '\n');
        lemma_free_of_concat(c.hash + seq![us] + c.message + seq![us], c.author, '\n');
        lemma_free_of_concat(c.hash + seq![us] + c.message + seq![us] + c.author, seq![us], '\n');
        lemma_free_of_concat(
            c.hash + seq![us] + c.message + seq![us] + c.author + seq![us],
            c.date,
            '\n',
        );
        if c.date.len() == 0 {
            assert(l.last() == us);
        } else {
            assert(l.last() == c.date.last());
        }
        lemma_one_line(l);
        if a.len() > 0 {
            assert(a.last() == '\n');
        }
        assert(log_text(cs) =~= a + (l + seq!['\n']));
        lemma_lines_concat(a, l + seq!['\n']);
        let all = lines_of(log_text(cs));
        assert(all =~= lines_of(a).push(l));
        assert(all.drop_last() =~= lines_of(a));
        assert(commit_entries(log_text(cs)) =~= cs);
    }
}

/// The log command asks for the hash, subject, author and relative date,
/// separated by the separator that a log line is split on.
pub proof fn lemma_log_format(n: usize)
    ensures
        query_args(GitQuery::RecentCommits(n))[2] == "--format=%h"@ + seq![field_separator()]
            + "%s"@ + seq![field_separator()] + "%an"@ + seq![field_separator()] + "%cr"@,
{
    reveal_strlit("--format=%h\u{1f}%s\u{1f}%an\u{1f}%cr");
    reveal_strlit("--format=%h");
    reveal_strlit("%s");
    reveal_strlit("%an");
    reveal_strlit("%cr");
    assert(log_format_arg() =~= "--format=%h"@ + seq![field_separator()] + "%s"@ + seq![
        field_separator(),
    ] + "%an"@ + seq![field_separator()] + "%cr"@);
}

/// A successful log command whose output is the log text of some commits
/// lists exactly those commits, in order.
pub proof fn lemma_log_output_roundtrip(cs: Seq<CommitInfoView>, o: CommandOutput)
    requires
        forall|i: int| 0 <= i < cs.len() ==> well_formed_commit(#[trigger] cs[i]),
        o.success,
        o.stdout@ == encode_utf8(log_text(cs)),
    ensures
        commits_of(Some(o)) == cs,
{
    broadcast use encode_utf8_decode_utf8, encode_utf8_valid_utf8;

    lemma_log_roundtrip(cs);
}

/// The output line `HASH␟SUBJECT␟AUTHOR␟DATE` of a successful log command
/// (the fields in the order of `%h`, `%s`, `%an`, `%cr`) gives exactly one
/// commit: the hash, the subject as its message, the author, the date.
pub proof fn lemma_log_output_line(
    hash: Seq<char>,
    subject: Seq<char>,
    author: Seq<char>,
    date: Seq<char>,
    o: CommandOutput,
)
    requires
        well_formed_commit(
            CommitInfoView { hash: hash, message: subject, author: author, date: date },
        ),
        o.success,
        o.stdout@ == encode_utf8(
            hash + seq!['\u{1f}'] + subject + seq!['\u{1f}'] + author + seq!['\u{1f}'] + date
                + seq!['\n'],
        ),
    ensures
        commits_of(Some(o)) == seq![
            CommitInfoView { hash: hash, message: subject, author: author, date: date },
        ],
{
    let c = CommitInfoView { hash: hash, message: subject, author: author, date: date };
    let cs = seq![c];
    assert(cs.drop_last() =~= Seq::<CommitInfoView>::empty());
    assert(log_text(cs.drop_last()) =~= Seq::<char>::empty());
    assert(cs.last() == c);
    assert(log_text(cs) == log_text(cs.drop_last()) + log_line(c) + seq!['\n']);
    assert(log_text(cs) =~= hash + seq!['\u{1f}'] + subject + seq!['\u{1f}'] + author + seq![
        '\u{1f}',
    ] + date + seq!['\n']);
    assert forall|i: int| 0 <= i < cs.len() implies well_formed_commit(#[trigger] cs[i]) by {}
    lemma_log_output_roundtrip(cs, o);
}

} // verus!
