//! The diff of one file of the work tree: git's own diff where there is one,
//! else a diff that adds the whole of an untracked file.
use vstd::prelude::*;

use crate::commands::{query_args, GitQuery};
use crate::text::{
    chars_of, decode_lossy, lines, lines_of, push_char, string_of, trim, trim_chars, utf8_lossy, lossy_text,
    views,
};
use crate::types::{views_of, CommandOutput};

verus! {

/// What stands in place of a diff for an untracked directory.
pub open spec fn directory_note(file: Seq<char>) -> Seq<char> {
    "Untracked directory: "@ + file + "\n(no file-level diff available)\n"@
}

/// What stands in place of a diff for an untracked binary file.
pub open spec fn binary_note(file: Seq<char>) -> Seq<char> {
    "Binary file added: "@ + file + "\n"@
}

/// The header of a diff that adds a new file.
pub open spec fn new_file_header(file: Seq<char>) -> Seq<char> {
    "diff --git a/"@ + file + " b/"@ + file + "\n"@ + "new file mode 100644\n"@
        + "--- /dev/null\n"@ + "+++ b/"@ + file + "\n"@ + "@@ -0,0 +1 @@\n"@
}

pub open spec fn add_line_fn() -> spec_fn(Seq<char>, Seq<char>) -> Seq<char> {
    |acc: Seq<char>, line: Seq<char>| acc + seq!['+'] + line + seq!['\n']
}

/// Each line prefixed by `+` and ended by a line feed.
pub open spec fn added_lines(ls: Seq<Seq<char>>) -> Seq<char> {
    ls.fold_left(Seq::<char>::empty(), add_line_fn())
}

/// The diff that adds an untracked file: a note for a file that holds a
/// zero byte, else the new-file header and every line of the file's text
/// as an added line.
pub open spec fn untracked_file_diff(file: Seq<char>, bytes: Seq<u8>) -> Seq<char> {
    if bytes.contains(0u8) {
        binary_note(file)
    } else {
        new_file_header(file) + added_lines(lines_of(lossy_text(bytes)))
    }
}

fn has_zero_byte(bytes: &[u8]) -> (b: bool)
    ensures
        b == bytes@.contains(0u8),
{
    let mut i: usize = 0;
    while i < bytes.len()
        invariant
            i <= bytes@.len(),
            forall|j: int| 0 <= j < i ==> bytes@[j] != 0u8,
        decreases bytes@.len() - i,
    {
        if bytes[i] == 0 {
            assert(bytes@[i as int] == 0u8);
            return true;
        }
        i = i + 1;
    }
    false
}

/// The diff that adds an untracked file with the given contents.
pub fn untracked_diff(file: &str, bytes: &[u8]) -> (r: String)
    ensures
        r@ == untracked_file_diff(file@, bytes@),
{
    if has_zero_byte(bytes) {
        let mut r = String::new();
        r.append("Binary file added: ");
        r.append(file);
        r.append("\n");
        assert(r@ =~= binary_note(file@));
        return r;
    }
    let mut r = String::new();
    r.append("diff --git a/");
    r.append(file);
    r.append(" b/");
    r.append(file);
    r.append("\n");
    r.append("new file mode 100644\n");
    r.append("--- /dev/null\n");
    r.append("+++ b/");
    r.append(file);
    r.append("\n");
    r.append("@@ -0,0 +1 @@\n");
    let ghost header = r@;
    assert(header =~= new_file_header(file@));
    let text = decode_lossy(bytes);
    let chars = chars_of(text.as_str());
    let ls = lines(chars.as_slice());
    let ghost all = lines_of(lossy_text(bytes@));
    let mut i: usize = 0;
    assert(all.take(0).fold_left(Seq::<char>::empty(), add_line_fn()) =~= Seq::<char>::empty());
    assert(header + Seq::<char>::empty() =~= header);
    while i < ls.len()
        invariant
            views(ls@) == all,
            i <= ls@.len(),
            r@ == header + all.take(i as int).fold_left(Seq::<char>::empty(), add_line_fn()),
        decreases ls@.len() - i,
    {
        assert(ls@[i as int]@ == all[i as int]);
        let ghost before = all.take(i as int).fold_left(Seq::<char>::empty(), add_line_fn());
        push_char(&mut r, '+');
        let line = string_of(ls[i].as_slice());
        r.append(line.as_str());
        push_char(&mut r, '\n');
        proof {
            let t = all.take(i + 1);
            assert(t.drop_last() =~= all.take(i as int));
            assert(t.last() == all[i as int]);
            assert(r@ =~= header + (before + seq!['+'] + all[i as int] + seq!['\n']));
        }
        i = i + 1;
    }
    assert(all.take(all.len() as int) =~= all);
    r
}

proof fn lemma_added_lines_prefix(ls: Seq<Seq<char>>, k: int)
    requires
        0 <= k <= ls.len(),
    ensures
        added_lines(ls.take(k)).len() <= added_lines(ls).len(),
        added_lines(ls).take(added_lines(ls.take(k)).len() as int) == added_lines(ls.take(k)),
    decreases ls.len(),
{
    if k == ls.len() {
        assert(ls.take(k) =~= ls);
        assert(added_lines(ls).take(added_lines(ls).len() as int) =~= added_lines(ls));
    } else {
        let init = ls.drop_last();
        assert(init.take(k) =~= ls.take(k));
        lemma_added_lines_prefix(init, k);
        let a = added_lines(init);
        let p = added_lines(ls.take(k));
        assert(added_lines(ls) == a + seq!['+'] + ls.last() + seq!['\n']);
        assert(added_lines(ls).take(p.len() as int) =~= a.take(p.len() as int));
    }
}

/// Every line of an untracked text file appears in the diff that adds it,
/// after a `+` and before a line feed, at the place that the lines before
/// it leave.
pub proof fn lemma_untracked_lines_added(file: Seq<char>, bytes: Seq<u8>, i: int)
    requires
        !bytes.contains(0u8),
        0 <= i < lines_of(lossy_text(bytes)).len(),
    ensures
        ({
            let ls = lines_of(lossy_text(bytes));
            let at = (new_file_header(file).len() + added_lines(ls.take(i)).len()) as int;
            untracked_file_diff(file, bytes).subrange(at, at + ls[i].len() + 2) == seq!['+']
                + ls[i] + seq!['\n']
        }),
{
    let ls = lines_of(lossy_text(bytes));
    let h = new_file_header(file);
    let before = added_lines(ls.take(i));
    let upto = ls.take(i + 1);
    assert(upto.drop_last() =~= ls.take(i));
    assert(upto.last() == ls[i]);
    let piece = seq!['+'] + ls[i] + seq!['\n'];
    assert(added_lines(upto) == before + piece);
    lemma_added_lines_prefix(ls, i + 1);
    let all = added_lines(ls);
    let d = h + all;
    let at = (h.len() + before.len()) as int;
    assert(all.take((before.len() + piece.len()) as int) == before + piece);
    assert(d.subrange(at, at + ls[i].len() + 2) =~= piece) by {
        assert forall|j: int| 0 <= j < piece.len() implies #[trigger] d.subrange(
            at,
            at + ls[i].len() + 2,
        )[j] == piece[j] by {
            assert(d[at + j] == all[before.len() + j]);
            assert(all[before.len() + j] == all.take((before.len() + piece.len()) as int)[before.len() + j]);
            assert((before + piece)[before.len() + j] == piece[j]);
        }
    }
}

/// An untracked file that holds a zero byte anywhere is reported as an
/// added binary file, whatever else it holds.
pub proof fn lemma_untracked_binary(file: Seq<char>, bytes: Seq<u8>, j: int)
    requires
        0 <= j < bytes.len(),
        bytes[j] == 0u8,
    ensures
        untracked_file_diff(file, bytes) == "Binary file added: "@ + file + "\n"@,
{
    assert(bytes.contains(0u8));
}

/// An untracked file without a zero byte is shown as a text diff: the
/// new-file header, then its lines.
pub proof fn lemma_untracked_text(file: Seq<char>, bytes: Seq<u8>)
    requires
        forall|j: int| 0 <= j < bytes.len() ==> #[trigger] bytes[j] != 0u8,
    ensures
        untracked_file_diff(file, bytes) == new_file_header(file) + added_lines(
            lines_of(lossy_text(bytes)),
        ),
{
}

/// How far a diff of one file has come.
pub enum DiffStage {
    /// Waiting for the output of `git diff`.
    AwaitDiff,
    /// Waiting for the output of the check whether git tracks the file.
    AwaitTracked,
    /// Waiting to learn whether the file exists.
    AwaitExists,
    /// Waiting to learn whether the path is a directory.
    AwaitIsDir,
    /// Waiting for the contents of the file.
    AwaitContents,
    Finished,
}

/// A diff of one file in progress.
pub struct DiffProbe {
    /// The file, relative to the repository.
    pub file: String,
    /// The text of git's own diff, once it has come.
    pub text: String,
    pub stage: DiffStage,
}

/// What the outside world reports back to a diff in progress.
pub enum DiffEvent {
    /// The output of a `git` command, or `None` when it could not be run.
    GitOutput(Option<CommandOutput>),
    Exists(bool),
    IsDir(bool),
    /// The contents of the file, or `None` when it could not be read.
    Contents(Option<Vec<u8>>),
}

/// What a diff in progress asks for next.
pub enum DiffAction {
    /// Run `git` with these arguments in the repository.
    RunGit(Vec<String>),
    /// Find out whether the file exists.
    CheckExists,
    /// Find out whether the path is a directory.
    CheckIsDir,
    /// Read the file.
    ReadFile,
    /// The diff is this text.
    Done(String),
    /// The diff failed with the error of the last thing done.
    Fail,
}

/// The events that a stage takes.
pub open spec fn accepts(stage: DiffStage, event: DiffEvent) -> bool {
    match (stage, event) {
        (DiffStage::AwaitDiff, DiffEvent::GitOutput(_)) => true,
        (DiffStage::AwaitTracked, DiffEvent::GitOutput(_)) => true,
        (DiffStage::AwaitExists, DiffEvent::Exists(_)) => true,
        (DiffStage::AwaitIsDir, DiffEvent::IsDir(_)) => true,
        (DiffStage::AwaitContents, DiffEvent::Contents(_)) => true,
        _ => false,
    }
}

/// The probe goes on with the same file and git diff text, at stage `stage`.
pub open spec fn goes_on(
    before: DiffProbe,
    after: DiffProbe,
    stage: DiffStage,
) -> bool {
    &&& after.file@ == before.file@
    &&& after.text@ == before.text@
    &&& after.stage == stage
}

/// Starts the diff of `file`: first git's own diff of it.
pub fn diff_start(file: &str) -> (r: (DiffProbe, DiffAction))
    ensures
        r.0.file@ == file@,
        r.0.text@ == Seq::<char>::empty(),
        r.0.stage == DiffStage::AwaitDiff,
        r.1 matches DiffAction::RunGit(a) && views_of(a@) == query_args(
            GitQuery::FileDiff(r.0.file),
        ),
{
    let f = string_of(chars_of(file).as_slice());
    let args = GitQuery::FileDiff(f.clone()).args();
    (DiffProbe { file: f, text: String::new(), stage: DiffStage::AwaitDiff }, DiffAction::RunGit(args))
}

/// One step of the diff of a file. After git's diff, whose text is the
/// answer unless it is blank, comes the check whether git tracks the file
/// (if it does, the blank diff is the answer), then whether the file exists
/// (if not, the blank diff is the answer), then whether it is a directory
/// (a note is the answer), then its contents (the diff that adds them is the
/// answer). Failing to run `git diff` or to read the file fails the diff.
pub fn diff_step(probe: DiffProbe, event: DiffEvent) -> (r: (DiffProbe, DiffAction))
    requires
        accepts(probe.stage, event),
    ensures
        match (probe.stage, event) {
            (DiffStage::AwaitDiff, DiffEvent::GitOutput(None)) => r.1 is Fail && r.0.stage
                == DiffStage::Finished,
            (DiffStage::AwaitDiff, DiffEvent::GitOutput(Some(o))) => {
                let text = utf8_lossy(o.stdout@);
                if trim(text).len() > 0 {
                    &&& r.1 matches DiffAction::Done(t) && t@ == text
                    &&& r.0.stage == DiffStage::Finished
                } else {
                    &&& r.0.file@ == probe.file@
                    &&& r.0.text@ == text
                    &&& r.0.stage == DiffStage::AwaitTracked
                    &&& r.1 matches DiffAction::RunGit(a) && views_of(a@) == query_args(
                        GitQuery::TrackedCheck(r.0.file),
                    )
                }
            },
            (DiffStage::AwaitTracked, DiffEvent::GitOutput(o)) => {
                if o matches Some(x) && x.success {
                    &&& r.1 matches DiffAction::Done(t) && t@ == probe.text@
                    &&& r.0.stage == DiffStage::Finished
                } else {
                    &&& goes_on(probe, r.0, DiffStage::AwaitExists)
                    &&& r.1 is CheckExists
                }
            },
            (DiffStage::AwaitExists, DiffEvent::Exists(e)) => {
                if !e {
                    &&& r.1 matches DiffAction::Done(t) && t@ == probe.text@
                    &&& r.0.stage == DiffStage::Finished
                } else {
                    &&& goes_on(probe, r.0, DiffStage::AwaitIsDir)
                    &&& r.1 is CheckIsDir
                }
            },
            (DiffStage::AwaitIsDir, DiffEvent::IsDir(d)) => {
                if d {
                    &&& r.1 matches DiffAction::Done(t) && t@ == directory_note(probe.file@)
                    &&& r.0.stage == DiffStage::Finished
                } else {
                    &&& goes_on(probe, r.0, DiffStage::AwaitContents)
                    &&& r.1 is ReadFile
                }
            },
            (DiffStage::AwaitContents, DiffEvent::Contents(None)) => r.1 is Fail && r.0.stage
                == DiffStage::Finished,
            (DiffStage::AwaitContents, DiffEvent::Contents(Some(b))) => {
                &&& r.1 matches DiffAction::Done(t) && t@ == untracked_file_diff(probe.file@, b@)
                &&& r.0.stage == DiffStage::Finished
            },
            _ => false,
        },
{
    let DiffProbe { file, text, stage } = probe;
    match stage {
        DiffStage::AwaitDiff => match event {
            DiffEvent::GitOutput(Some(o)) => {
                let t = decode_lossy(o.stdout.as_slice());
                let trimmed = trim_chars(chars_of(t.as_str()).as_slice());
                if trimmed.len() > 0 {
                    let answer = t.clone();
                    (DiffProbe { file, text: t, stage: DiffStage::Finished }, DiffAction::Done(answer))
                } else {
                    let args = GitQuery::TrackedCheck(file.clone()).args();
                    (DiffProbe { file, text: t, stage: DiffStage::AwaitTracked }, DiffAction::RunGit(args))
                }
            },
            _ => (DiffProbe { file, text, stage: DiffStage::Finished }, DiffAction::Fail),
        },
        DiffStage::AwaitTracked => {
            let known = match &event {
                DiffEvent::GitOutput(Some(o)) => o.success,
                _ => false,
            };
            if known {
                let answer = text.clone();
                (DiffProbe { file, text, stage: DiffStage::Finished }, DiffAction::Done(answer))
            } else {
                (DiffProbe { file, text, stage: DiffStage::AwaitExists }, DiffAction::CheckExists)
            }
        },
        DiffStage::AwaitExists => {
            let exists = match event {
                DiffEvent::Exists(e) => e,
                _ => false,
            };
            if !exists {
                let answer = text.clone();
                (DiffProbe { file, text, stage: DiffStage::Finished }, DiffAction::Done(answer))
            } else {
                (DiffProbe { file, text, stage: DiffStage::AwaitIsDir }, DiffAction::CheckIsDir)
            }
        },
        DiffStage::AwaitIsDir => {
            let is_dir = match event {
                DiffEvent::IsDir(d) => d,
                _ => false,
            };
            if is_dir {
                let mut note = String::new();
                note.append("Untracked directory: ");
                note.append(file.as_str());
                note.append("\n(no file-level diff available)\n");
                assert(note@ =~= directory_note(file@));
                (DiffProbe { file, text, stage: DiffStage::Finished }, DiffAction::Done(note))
            } else {
                (DiffProbe { file, text, stage: DiffStage::AwaitContents }, DiffAction::ReadFile)
            }
        },
        _ => match event {
            DiffEvent::Contents(Some(bytes)) => {
                let d = untracked_diff(file.as_str(), bytes.as_slice());
                (DiffProbe { file, text, stage: DiffStage::Finished }, DiffAction::Done(d))
            },
            _ => (DiffProbe { file, text, stage: DiffStage::Finished }, DiffAction::Fail),
        },
    }
}

} // verus!
