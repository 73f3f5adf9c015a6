//! The changed files of `git status --porcelain=v1`.
use vstd::prelude::*;
use vstd::utf8::*;

use crate::text::{
    chars_of, decode_lossy, is_white_space, lemma_ascii_byte, lemma_boundary_after_prefix,
    lemma_encode_concat, lemma_lines_concat, lemma_trimmed_last, lemma_one_line, lines, lines_of, string_of, trim,
    trim_chars, lossy_text, views,
};
use crate::types::{lemma_views_of_push, views_of, ChangedFile, ChangedFileView, CommandOutput};

verus! {

broadcast use encode_utf8_decode_utf8, encode_utf8_valid_utf8;

/// A porcelain line of at least three bytes can be cut after its third byte.
pub open spec fn porcelain_sliceable(line: Seq<char>) -> bool {
    let b = encode_utf8(line);
    b.len() < 3 || is_char_boundary(b, 3)
}

/// The entry of a porcelain line `XY PATH`: the first two bytes are the two
/// status codes, and what follows the third byte, trimmed, is the path.
/// Lines shorter than three bytes, and lines with no path, give no entry.
pub open spec fn porcelain_entry(line: Seq<char>) -> Option<ChangedFileView> {
    let b = encode_utf8(line);
    if b.len() < 3 {
        None
    } else {
        let path = trim(decode_utf8(b.subrange(3, b.len() as int)));
        if path.len() == 0 {
            None
        } else {
            Some(
                ChangedFileView {
                    path: path,
                    index_status: b[0] as char,
                    worktree_status: b[1] as char,
                },
            )
        }
    }
}

pub open spec fn porcelain_entry_fn() -> spec_fn(Seq<char>) -> Option<ChangedFileView> {
    |l: Seq<char>| porcelain_entry(l)
}

/// The entries of every line of a status text.
pub open spec fn status_entries(text: Seq<char>) -> Seq<ChangedFileView> {
    lines_of(text).filter_map(porcelain_entry_fn())
}

/// Every line of the text can be cut where a porcelain line is cut.
pub open spec fn status_text_sliceable(text: Seq<char>) -> bool {
    forall|i: int| 0 <= i < lines_of(text).len() ==> porcelain_sliceable(#[trigger] lines_of(text)[i])
}

/// Parses one line of `git status --porcelain=v1`.
pub fn parse_porcelain_line(line: &str) -> (r: Option<ChangedFile>)
    requires
        porcelain_sliceable(line@),
    ensures
        match r {
            Some(f) => porcelain_entry(line@) == Some(f@),
            None => porcelain_entry(line@) is None,
        },
{
    let bytes = line.as_bytes();
    if bytes.len() < 3 {
        return None;
    }
    let index_status = bytes[0] as char;
    let worktree_status = bytes[1] as char;
    let (_, tail) = line.split_at(3);
    let tail_chars = chars_of(tail);
    let path = trim_chars(tail_chars.as_slice());
    proof {
        assert(tail@ == decode_utf8(encode_utf8(tail@)));
    }
    if path.len() == 0 {
        return None;
    }
    let f = ChangedFile { path: string_of(path.as_slice()), index_status, worktree_status };
    assert(f@ == porcelain_entry(line@).unwrap());
    Some(f)
}

/// The entries of every line of the text, or `None` where a line cannot be
/// cut after its third byte.
fn status_entries_checked(text: &str) -> (r: Option<Vec<ChangedFile>>)
    ensures
        r is Some <==> status_text_sliceable(text@),
        r matches Some(v) ==> views_of(v@) == status_entries(text@),
{
    let chars = chars_of(text);
    let ls = lines(chars.as_slice());
    let ghost all = lines_of(text@);
    let mut out: Vec<ChangedFile> = Vec::new();
    let mut i: usize = 0;
    assert(all.take(0).filter_map(porcelain_entry_fn()) =~= Seq::<ChangedFileView>::empty());
    assert(views_of(out@) =~= Seq::<ChangedFileView>::empty());
    while i < ls.len()
        invariant
            views(ls@) == all,
            all == lines_of(text@),
            i <= ls@.len(),
            forall|j: int| 0 <= j < i ==> porcelain_sliceable(#[trigger] all[j]),
            views_of(out@) == all.take(i as int).filter_map(porcelain_entry_fn()),
        decreases ls@.len() - i,
    {
        let s = string_of(ls[i].as_slice());
        let line = s.as_str();
        assert(line@ == all[i as int]);
        let n = line.as_bytes().len();
        if n >= 3 && !line.is_char_boundary(3) {
            return None;
        }
        assert(n == encode_utf8(line@).len());
        assert(porcelain_sliceable(line@));
        let entry = parse_porcelain_line(line);
        proof {
            let t = all.take(i + 1);
            assert(t.drop_last() =~= all.take(i as int));
            assert(t.last() == all[i as int]);
        }
        match entry {
            Some(f) => {
                proof {
                    lemma_views_of_push(out@, f);
                }
                out.push(f);
            },
            None => {},
        }
        i = i + 1;
    }
    assert(all.take(all.len() as int) =~= all);
    Some(out)
}

/// The changed files that a status text lists, one per line that has a path.
pub fn parse_status_text(text: &str) -> (r: Vec<ChangedFile>)
    requires
        status_text_sliceable(text@),
    ensures
        views_of(r@) == status_entries(text@),
{
    match status_entries_checked(text) {
        Some(v) => v,
        None => Vec::new(),
    }
}

/// The changed files that the output of `git status --porcelain=v1` lists:
/// none when the command could not be run or failed; `None` where its text
/// holds a line that cannot be cut after its third byte.
pub open spec fn changed_files_of(out: Option<CommandOutput>) -> Option<Seq<ChangedFileView>> {
    match out {
        Some(o) if o.success => {
            let text = lossy_text(o.stdout@);
            if status_text_sliceable(text) {
                Some(status_entries(text))
            } else {
                None
            }
        },
        _ => Some(Seq::empty()),
    }
}

pub fn changed_files_from_output(out: &Option<CommandOutput>) -> (r: Option<Vec<ChangedFile>>)
    ensures
        match r {
            Some(v) => changed_files_of(*out) == Some(views_of(v@)),
            None => changed_files_of(*out) is None,
        },
{
    match out {
        Some(o) if o.success => {
            let text = decode_lossy(o.stdout.as_slice());
            status_entries_checked(text.as_str())
        },
        _ => {
            let v: Vec<ChangedFile> = Vec::new();
            assert(views_of(v@) =~= Seq::<ChangedFileView>::empty());
            Some(v)
        },
    }
}

/// The porcelain line of an entry: the two status codes, a space, the path.
pub open spec fn porcelain_line(e: ChangedFileView) -> Seq<char> {
    seq![e.index_status, e.worktree_status, ' '] + e.path
}

/// An entry that git's porcelain format can hold: printable ASCII status
/// codes, and a one-line path without surrounding white space.
pub open spec fn well_formed_entry(e: ChangedFileView) -> bool {
    &&& 32 <= (e.index_status as u32) < 127
    &&& 32 <= (e.worktree_status as u32) < 127
    &&& e.path.len() > 0
    &&& trim(e.path) == e.path
    &&& forall|j: int| 0 <= j < e.path.len() ==> #[trigger] e.path[j] != '\n'
}

/// A porcelain line `XY PATH` is read back as the entry it was written from.
pub proof fn lemma_porcelain_roundtrip(e: ChangedFileView)
    requires
        well_formed_entry(e),
    ensures
        porcelain_sliceable(porcelain_line(e)),
        porcelain_entry(porcelain_line(e)) == Some(e),
{
    let x = e.index_status;
    let y = e.worktree_status;
    let pre = seq![x, y, ' '];
    lemma_ascii_byte(x);
    lemma_ascii_byte(y);
    lemma_ascii_byte(' ');
    assert(pre =~= seq![x] + seq![y] + seq![' ']);
    lemma_encode_concat(seq![x], seq![y]);
    lemma_encode_concat(seq![x] + seq![y], seq![' ']);
    assert(encode_utf8(pre) =~= seq![x as u8, y as u8, ' ' as u8]);
    lemma_boundary_after_prefix(pre, e.path);
    lemma_encode_concat(pre, e.path);
    let b = encode_utf8(porcelain_line(e));
    assert(b[0] == x as u8);
    assert(b[1] == y as u8);
}

/// The porcelain text of a list of entries, one line each.
pub open spec fn porcelain_text(es: Seq<ChangedFileView>) -> Seq<char>
    decreases es.len(),
{
    if es.len() == 0 {
        Seq::empty()
    } else {
        porcelain_text(es.drop_last()) + porcelain_line(es.last()) + seq!['\n']
    }
}

/// The status text that lists the given changed files is read back as
/// exactly those files, in order.
pub proof fn lemma_status_roundtrip(es: Seq<ChangedFileView>)
    requires
        forall|i: int| 0 <= i < es.len() ==> well_formed_entry(#[trigger] es[i]),
    ensures
        status_text_sliceable(porcelain_text(es)),
        status_entries(porcelain_text(es)) == es,
    decreases es.len(),
{
    if es.len() == 0 {
        assert(lines_of(Seq::<char>::empty()) =~= Seq::<Seq<char>>::empty());
        assert(status_entries(porcelain_text(es)) =~= es);
    } else {
        let init = es.drop_last();
        let e = es.last();
        assert(well_formed_entry(es[es.len() - 1]));
        assert forall|i: int| 0 <= i < init.len() implies well_formed_entry(#[trigger] init[i]) by {
            assert(init[i] == es[i]);
        }
        lemma_status_roundtrip(init);
        lemma_porcelain_roundtrip(e);
        let a = porcelain_text(init);
        let l = porcelain_line(e);
        assert forall|j: int| 0 <= j < l.len() implies #[trigger] l[j] != '\n' by {
            if j >= 3 {
                assert(l[j] == e.path[j - 3]);
            } else if j == 0 {
                assert(l[j] == e.index_status);
            } else if j == 1 {
                assert(l[j] == e.worktree_status);
            }
        }
        assert(l.last() == e.path.last());
        assert(e.path.last() != '\r') by {
            assert(!is_white_space(trim(e.path).last())) by {
                lemma_trimmed_last(e.path);
            }
        }
        lemma_one_line(l);
        if a.len() > 0 {
            assert(a.last() == '\n');
        }
        assert(porcelain_text(es) =~= a + (l + seq!['\n']));
        lemma_lines_concat(a, l + seq!['\n']);
        let all = lines_of(porcelain_text(es));
        assert(all =~= lines_of(a).push(l));
        assert(all.drop_last() =~= lines_of(a));
        assert(status_entries(porcelain_text(es)) =~= es);
    }
}

/// A successful status command whose output is the porcelain text of some
/// changed files lists exactly those files, in order, with their two status
/// codes as written: untracked files (`??`) as much as any other.
pub proof fn lemma_status_output_roundtrip(es: Seq<ChangedFileView>, o: CommandOutput)
    requires
        forall|i: int| 0 <= i < es.len() ==> well_formed_entry(#[trigger] es[i]),
        o.success,
        o.stdout@ == encode_utf8(porcelain_text(es)),
    ensures
        changed_files_of(Some(o)) == Some(es),
{
    lemma_status_roundtrip(es);
}

/// The output line `XY PATH` of a successful status command gives exactly
/// one changed file: index status `X`, work-tree status `Y`, path `PATH`.
pub proof fn lemma_status_output_line(x: char, y: char, path: Seq<char>, o: CommandOutput)
    requires
        32 <= (x as u32) < 127,
        32 <= (y as u32) < 127,
        path.len() > 0,
        trim(path) == path,
        forall|j: int| 0 <= j < path.len() ==> #[trigger] path[j] != '\n',
        o.success,
        o.stdout@ == encode_utf8(seq![x, y, ' '] + path + seq!['\n']),
    ensures
        changed_files_of(Some(o)) == Some(
            seq![ChangedFileView { path: path, index_status: x, worktree_status: y }],
        ),
{
    let e = ChangedFileView { path: path, index_status: x, worktree_status: y };
    let es = seq![e];
    assert(es.drop_last() =~= Seq::<ChangedFileView>::empty());
    assert(porcelain_text(es.drop_last()) =~= Seq::<char>::empty());
    assert(es.last() == e);
    assert(porcelain_text(es) == porcelain_text(es.drop_last()) + porcelain_line(e) + seq!['\n']);
    assert(porcelain_text(es) =~= seq![x, y, ' '] + path + seq!['\n']);
    assert forall|i: int| 0 <= i < es.len() implies well_formed_entry(#[trigger] es[i]) by {}
    lemma_status_output_roundtrip(es, o);
}

} // verus!
