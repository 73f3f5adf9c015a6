//! Local branches with their tracking information, as
//! `git for-each-ref --format='%(HEAD) %(refname:short) %(upstream:track)'`
//! lists them, and remote-tracking branches.
use vstd::prelude::*;
use vstd::utf8::*;


use crate::text::{
    all_digits, is_digit, lemma_free_of_concat, chars_of, copy_range, decimal_of, decode_lossy, ends_with, free_of,
    is_white_space, lemma_decimal_digits, lemma_first_after, lemma_leading_count,
    lemma_parse_decimal, lemma_trailing_count, lemma_trim_id, is_char, ws, lemma_ascii_byte,
    lemma_boundary_after_prefix, lemma_encode_concat, lemma_trim_nonempty, lemma_trim_end_space,
    lemma_lines_concat, lemma_one_line, lemma_trimmed_last, first_index_of, has_prefix, has_suffix,
    lemma_first_index_of, lines, lines_of, parse_u32, parse_u32_of, split_char, split_on,
    starts_with, string_of, trim, trim_chars, trim_end, trim_end_char, trim_end_chars,
    trim_end_matches, trim_start_char, trim_start_matches, lossy_text, views, has_infix,
    lemma_infix_trans, lemma_starts_with_infix, lemma_trim_infix, lemma_trim_start_matches_infix,
    lemma_trim_end_matches_infix, lemma_split_on_infix, lemma_trim_first, lemma_trim_free_of,
    lemma_leading_count_props, lemma_trailing_count_props, not_char,
};
use crate::commands::{query_args, GitQuery};
use crate::types::{
    lemma_views_of_push, views_of, BranchInfo, BranchInfoView, CommandOutput, RemoteBranchInfo,
};

verus! {

broadcast use encode_utf8_decode_utf8, encode_utf8_valid_utf8;

pub open spec fn ahead_prefix() -> Seq<char> {
    seq!['a', 'h', 'e', 'a', 'd', ' ']
}

pub open spec fn behind_prefix() -> Seq<char> {
    seq!['b', 'e', 'h', 'i', 'n', 'd', ' ']
}

pub open spec fn gone_word() -> Seq<char> {
    seq!['g', 'o', 'n', 'e']
}

/// What one comma-separated part of the tracking information changes:
/// `ahead N` sets the first count, `behind N` the second (each to `None`
/// when N is not a `u32`), anything else neither.
pub open spec fn track_step(acc: (Option<u32>, Option<u32>), part: Seq<char>) -> (
    Option<u32>,
    Option<u32>,
) {
    let p = trim(part);
    if starts_with(p, ahead_prefix()) {
        (parse_u32_of(trim(p.skip(6))), acc.1)
    } else if starts_with(p, behind_prefix()) {
        (acc.0, parse_u32_of(trim(p.skip(7))))
    } else {
        acc
    }
}

pub open spec fn track_step_fn() -> spec_fn((Option<u32>, Option<u32>), Seq<char>) -> (
    Option<u32>,
    Option<u32>,
) {
    |acc: (Option<u32>, Option<u32>), part: Seq<char>| track_step(acc, part)
}

/// The tracking information without surrounding white space and brackets.
pub open spec fn track_core(info: Seq<char>) -> Seq<char> {
    trim_end_matches(trim_start_matches(trim(info), '['), ']')
}

/// The (ahead, behind) counts of `%(upstream:track)`: nothing for `[gone]`
/// or an empty text, otherwise what its comma-separated parts set, the last
/// one winning.
pub open spec fn track_info(info: Seq<char>) -> (Option<u32>, Option<u32>) {
    let t = track_core(info);
    if t == gone_word() || t.len() == 0 {
        (None, None)
    } else {
        split_on(t, ',').fold_left((None, None), track_step_fn())
    }
}

fn track_step_exec(acc: (Option<u32>, Option<u32>), part: &[char]) -> (r: (
    Option<u32>,
    Option<u32>,
))
    ensures
        r == track_step(acc, part@),
{
    let ahead: [char; 6] = ['a', 'h', 'e', 'a', 'd', ' '];
    let behind: [char; 7] = ['b', 'e', 'h', 'i', 'n', 'd', ' '];
    assert(ahead@ =~= ahead_prefix());
    assert(behind@ =~= behind_prefix());
    let p = trim_chars(part);
    if has_prefix(p.as_slice(), ahead.as_slice()) {
        let rest = copy_range(p.as_slice(), 6, p.len());
        assert(rest@ =~= p@.skip(6));
        let n = trim_chars(rest.as_slice());
        (parse_u32(n.as_slice()), acc.1)
    } else if has_prefix(p.as_slice(), behind.as_slice()) {
        let rest = copy_range(p.as_slice(), 7, p.len());
        assert(rest@ =~= p@.skip(7));
        let n = trim_chars(rest.as_slice());
        (acc.0, parse_u32(n.as_slice()))
    } else {
        acc
    }
}

/// Parses the tracking information of a branch: `[ahead N]`, `[behind N]`,
/// `[ahead N, behind M]` or `[gone]`.
pub fn parse_track_info(info: &str) -> (r: (Option<u32>, Option<u32>))
    ensures
        r == track_info(info@),
{
    let chars = chars_of(info);
    let t0 = trim_chars(chars.as_slice());
    let t1 = trim_start_char(t0.as_slice(), '[');
    let t = trim_end_char(t1.as_slice(), ']');
    if t.len() == 0 {
        return (None, None);
    }
    if t.len() == 4 && t[0] == 'g' && t[1] == 'o' && t[2] == 'n' && t[3] == 'e' {
        assert(t@ =~= gone_word());
        return (None, None);
    }
    assert(t@ != gone_word()) by {
        if t@ == gone_word() {
            assert(t@[0] == 'g' && t@[1] == 'o' && t@[2] == 'n' && t@[3] == 'e');
        }
    }
    let parts = split_char(t.as_slice(), ',');
    let ghost ps = split_on(t@, ',');
    let mut acc: (Option<u32>, Option<u32>) = (None, None);
    let mut i: usize = 0;
    assert(ps.take(0).fold_left((None, None), track_step_fn()) == (
        None::<u32>,
        None::<u32>,
    ));
    while i < parts.len()
        invariant
            views(parts@) == ps,
            i <= parts@.len(),
            acc == ps.take(i as int).fold_left((None, None), track_step_fn()),
        decreases parts@.len() - i,
    {
        assert(parts@[i as int]@ == ps[i as int]);
        proof {
            let s = ps.take(i + 1);
            assert(s.drop_last() =~= ps.take(i as int));
            assert(s.last() == ps[i as int]);
        }
        acc = track_step_exec(acc, parts[i].as_slice());
        i = i + 1;
    }
    assert(ps.take(ps.len() as int) =~= ps);
    acc
}

/// A branch line can be cut after its second byte (every line with more
/// than white space is).
pub open spec fn branch_sliceable(line: Seq<char>) -> bool {
    let t = trim_end(line);
    trim(t).len() == 0 || is_char_boundary(encode_utf8(t), 2)
}

/// The branch of a line `H NAME TRACK`: the line is trimmed at its end; it
/// is the checked-out branch when it starts with `*`; after its second byte
/// comes the name, trimmed, up to the first `[`, from which on comes the
/// tracking information. Blank lines and lines with no name give none.
pub open spec fn branch_entry(line: Seq<char>) -> Option<BranchInfoView> {
    let t = trim_end(line);
    if trim(t).len() == 0 {
        None
    } else {
        let is_head = t.len() > 0 && t[0] == '*';
        let b = encode_utf8(t);
        let rest = decode_utf8(b.subrange(2, b.len() as int));
        let k = first_index_of(rest, '[') as int;
        let name = if k < rest.len() {
            trim(rest.take(k))
        } else {
            trim(rest)
        };
        let track = if k < rest.len() {
            track_info(rest.skip(k))
        } else {
            (None, None)
        };
        if name.len() == 0 {
            None
        } else {
            Some(BranchInfoView { name: name, is_head: is_head, ahead: track.0, behind: track.1 })
        }
    }
}

/// Parses one line of the branch listing.
pub fn parse_branch_line(line: &str) -> (r: Option<BranchInfo>)
    requires
        branch_sliceable(line@),
    ensures
        match r {
            Some(b) => branch_entry(line@) == Some(b@),
            None => branch_entry(line@) is None,
        },
{
    let chars = chars_of(line);
    let t = trim_end_chars(chars.as_slice());
    let tt = trim_chars(t.as_slice());
    if tt.len() == 0 {
        return None;
    }
    let is_head = t[0] == '*';
    let ts = string_of(t.as_slice());
    let (_, rest_str) = ts.as_str().split_at(2);
    let rest = chars_of(rest_str);
    proof {
        assert(rest_str@ == decode_utf8(encode_utf8(rest_str@)));
    }
    let n = rest.len();
    let mut k: usize = 0;
    while k < n && rest[k] != '['
        invariant
            k <= n == rest@.len(),
            forall|j: int| 0 <= j < k ==> #[trigger] rest@[j] != '[',
        decreases n - k,
    {
        k = k + 1;
    }
    proof {
        lemma_first_index_of(rest@, '[', k as int);
    }
    let (name, track) = if k < n {
        let before = copy_range(rest.as_slice(), 0, k);
        let after = copy_range(rest.as_slice(), k, n);
        assert(after@ =~= rest@.skip(k as int));
        let info = string_of(after.as_slice());
        (trim_chars(before.as_slice()), parse_track_info(info.as_str()))
    } else {
        assert(rest@.subrange(0, n as int) =~= rest@);
        (trim_chars(rest.as_slice()), (None, None))
    };
    if name.len() == 0 {
        return None;
    }
    let b = BranchInfo { name: string_of(name.as_slice()), is_head, ahead: track.0, behind: track.1 };
    assert(b@ == branch_entry(line@).unwrap());
    Some(b)
}

pub open spec fn branch_entry_fn() -> spec_fn(Seq<char>) -> Option<BranchInfoView> {
    |l: Seq<char>| branch_entry(l)
}

/// The branches of every line of a branch listing.
pub open spec fn branch_entries(text: Seq<char>) -> Seq<BranchInfoView> {
    lines_of(text).filter_map(branch_entry_fn())
}

/// Every line of the listing can be cut where a branch line is cut.
pub open spec fn branch_text_sliceable(text: Seq<char>) -> bool {
    forall|i: int| 0 <= i < lines_of(text).len() ==> branch_sliceable(#[trigger] lines_of(text)[i])
}

fn branch_entries_checked(text: &str) -> (r: Option<Vec<BranchInfo>>)
    ensures
        r is Some <==> branch_text_sliceable(text@),
        r matches Some(v) ==> views_of(v@) == branch_entries(text@),
{
    let chars = chars_of(text);
    let ls = lines(chars.as_slice());
    let ghost all = lines_of(text@);
    let mut out: Vec<BranchInfo> = Vec::new();
    let mut i: usize = 0;
    assert(all.take(0).filter_map(branch_entry_fn()) =~= Seq::<BranchInfoView>::empty());
    assert(views_of(out@) =~= Seq::<BranchInfoView>::empty());
    while i < ls.len()
        invariant
            views(ls@) == all,
            all == lines_of(text@),
            i <= ls@.len(),
            forall|j: int| 0 <= j < i ==> branch_sliceable(#[trigger] all[j]),
            views_of(out@) == all.take(i as int).filter_map(branch_entry_fn()),
        decreases ls@.len() - i,
    {
        let line_chars = ls[i].as_slice();
        assert(line_chars@ == all[i as int]);
        let t = trim_end_chars(line_chars);
        let tt = trim_chars(t.as_slice());
        if tt.len() != 0 {
            let ts = string_of(t.as_slice());
            if !ts.as_str().is_char_boundary(2) {
                return None;
            }
        }
        assert(branch_sliceable(all[i as int]));
        let s = string_of(line_chars);
        let entry = parse_branch_line(s.as_str());
        proof {
            let t = all.take(i + 1);
            assert(t.drop_last() =~= all.take(i as int));
            assert(t.last() == all[i as int]);
        }
        match entry {
            Some(b) => {
                proof {
                    lemma_views_of_push(out@, b);
                }
                out.push(b);
            },
            None => {},
        }
        i = i + 1;
    }
    assert(all.take(all.len() as int) =~= all);
    Some(out)
}

/// The local branches that a branch listing holds.
pub fn parse_branch_listing(text: &str) -> (r: Vec<BranchInfo>)
    requires
        branch_text_sliceable(text@),
    ensures
        views_of(r@) == branch_entries(text@),
{
    match branch_entries_checked(text) {
        Some(v) => v,
        None => Vec::new(),
    }
}

/// The local branches that the output of the branch listing command holds:
/// none when the command could not be run or failed; `None` where a line
/// cannot be cut after its second byte.
pub open spec fn local_branches_of(out: Option<CommandOutput>) -> Option<Seq<BranchInfoView>> {
    match out {
        Some(o) if o.success => {
            let text = lossy_text(o.stdout@);
            if branch_text_sliceable(text) {
                Some(branch_entries(text))
            } else {
                None
            }
        },
        _ => Some(Seq::empty()),
    }
}

pub fn local_branches_from_output(out: &Option<CommandOutput>) -> (r: Option<Vec<BranchInfo>>)
    ensures
        match r {
            Some(v) => local_branches_of(*out) == Some(views_of(v@)),
            None => local_branches_of(*out) is None,
        },
{
    match out {
        Some(o) if o.success => {
            let text = decode_lossy(o.stdout.as_slice());
            branch_entries_checked(text.as_str())
        },
        _ => {
            let v: Vec<BranchInfo> = Vec::new();
            assert(views_of(v@) =~= Seq::<BranchInfoView>::empty());
            Some(v)
        },
    }
}

pub open spec fn head_suffix() -> Seq<char> {
    seq!['/', 'H', 'E', 'A', 'D']
}

/// The remote-tracking branch of a line: the trimmed line, unless it is
/// blank or names a remote's `HEAD`.
pub open spec fn remote_entry(line: Seq<char>) -> Option<Seq<char>> {
    let t = trim(line);
    if t.len() == 0 || ends_with(t, head_suffix()) {
        None
    } else {
        Some(t)
    }
}

pub open spec fn remote_entry_fn() -> spec_fn(Seq<char>) -> Option<Seq<char>> {
    |l: Seq<char>| remote_entry(l)
}

/// The remote-tracking branches of every line of a listing.
pub open spec fn remote_entries(text: Seq<char>) -> Seq<Seq<char>> {
    lines_of(text).filter_map(remote_entry_fn())
}

/// The remote-tracking branches that a listing of `refs/remotes/` holds.
pub fn parse_remote_listing(text: &str) -> (r: Vec<RemoteBranchInfo>)
    ensures
        views_of(r@) == remote_entries(text@),
{
    let head: [char; 5] = ['/', 'H', 'E', 'A', 'D'];
    assert(head@ =~= head_suffix());
    let chars = chars_of(text);
    let ls = lines(chars.as_slice());
    let ghost all = lines_of(text@);
    let mut out: Vec<RemoteBranchInfo> = Vec::new();
    let mut i: usize = 0;
    assert(all.take(0).filter_map(remote_entry_fn()) =~= Seq::<Seq<char>>::empty());
    assert(views_of(out@) =~= Seq::<Seq<char>>::empty());
    while i < ls.len()
        invariant
            views(ls@) == all,
            all == lines_of(text@),
            head@ == head_suffix(),
            i <= ls@.len(),
            views_of(out@) == all.take(i as int).filter_map(remote_entry_fn()),
        decreases ls@.len() - i,
    {
        assert(ls@[i as int]@ == all[i as int]);
        let t = trim_chars(ls[i].as_slice());
        proof {
            let s = all.take(i + 1);
            assert(s.drop_last() =~= all.take(i as int));
            assert(s.last() == all[i as int]);
        }
        if t.len() != 0 && !has_suffix(t.as_slice(), head.as_slice()) {
            let b = RemoteBranchInfo { full_name: string_of(t.as_slice()) };
            proof {
                lemma_views_of_push(out@, b);
            }
            out.push(b);
        }
        i = i + 1;
    }
    assert(all.take(all.len() as int) =~= all);
    out
}

/// The remote-tracking branches that the output of the listing command
/// holds; none when the command could not be run or failed.
pub open spec fn remote_branches_of(out: Option<CommandOutput>) -> Seq<Seq<char>> {
    match out {
        Some(o) if o.success => remote_entries(lossy_text(o.stdout@)),
        _ => Seq::empty(),
    }
}

pub fn remote_branches_from_output(out: &Option<CommandOutput>) -> (r: Vec<RemoteBranchInfo>)
    ensures
        views_of(r@) == remote_branches_of(*out),
{
    match out {
        Some(o) if o.success => {
            let text = decode_lossy(o.stdout.as_slice());
            parse_remote_listing(text.as_str())
        },
        _ => {
            let v: Vec<RemoteBranchInfo> = Vec::new();
            assert(views_of(v@) =~= Seq::<Seq<char>>::empty());
            v
        },
    }
}

/// `ahead N`
pub open spec fn ahead_text(n: u32) -> Seq<char> {
    ahead_prefix() + decimal_of(n as nat)
}

/// `behind N`
pub open spec fn behind_text(n: u32) -> Seq<char> {
    behind_prefix() + decimal_of(n as nat)
}

pub open spec fn bracketed(s: Seq<char>) -> Seq<char> {
    seq!['['] + s + seq![']']
}

proof fn lemma_count_text(prefix: Seq<char>, n: u32)
    requires
        prefix.len() > 0,
        !is_white_space(prefix[0]),
        prefix[0] != '[',
        free_of(prefix, ','),
    ensures
        ({
            let s = prefix + decimal_of(n as nat);
            &&& s.len() > 0
            &&& s[0] == prefix[0]
            &&& !is_white_space(s.last())
            &&& s.last() != ']'
            &&& free_of(s, ',')
            &&& trim(s) == s
            &&& s.take(prefix.len() as int) == prefix
            &&& s.skip(prefix.len() as int) == decimal_of(n as nat)
            &&& trim(decimal_of(n as nat)) == decimal_of(n as nat)
            &&& parse_u32_of(decimal_of(n as nat)) == Some(n)
        }),
{
    let d = decimal_of(n as nat);
    let s = prefix + d;
    lemma_decimal_digits(n as nat);
    lemma_parse_decimal(n);
    assert(all_digits(d));
    assert(s.last() == d.last());
    assert(s[0] == prefix[0]);
    assert forall|j: int| 0 <= j < s.len() implies #[trigger] s[j] != ',' by {
        if j >= prefix.len() {
            assert(s[j] == d[j - prefix.len()]);
        } else {
            assert(s[j] == prefix[j]);
        }
    }
    lemma_trim_id(s);
    lemma_trim_id(d);
    assert(s.take(prefix.len() as int) =~= prefix);
    assert(s.skip(prefix.len() as int) =~= d);
}

/// The core of a bracketed text whose ends are not brackets.
proof fn lemma_track_core(core: Seq<char>)
    requires
        core.len() > 0,
        core[0] != '[',
        core.last() != ']',
    ensures
        track_core(bracketed(core)) == core,
{
    let b = bracketed(core);
    assert(b[0] == '[');
    assert(b.last() == ']');
    lemma_trim_id(b);
    let p = is_char('[');
    assert(b[1] == core[0]);
    assert forall|j: int| 0 <= j < 1 implies #[trigger] p(b[j]) by {}
    lemma_leading_count(b, p, 1);
    let t = b.skip(1);
    assert(t =~= core + seq![']']);
    let q = is_char(']');
    assert(t[t.len() - 2] == core.last());
    assert forall|j: int| t.len() - 1 <= j < t.len() implies #[trigger] q(t[j]) by {}
    lemma_trailing_count(t, q, 1);
    assert(t.take(t.len() - 1) =~= core);
}

proof fn lemma_split_none(s: Seq<char>, c: char)
    requires
        free_of(s, c),
    ensures
        split_on(s, c) == seq![s],
{
    lemma_first_index_of(s, c, s.len() as int);
}

proof fn lemma_fold_one(a: Seq<char>)
    ensures
        seq![a].fold_left((None::<u32>, None::<u32>), track_step_fn()) == track_step(
            (None, None),
            a,
        ),
{
    let init = (None::<u32>, None::<u32>);
    let e = Seq::<Seq<char>>::empty();
    assert(seq![a].drop_last() =~= e);
    assert(e.fold_left(init, track_step_fn()) == init);
    assert(seq![a].fold_left(init, track_step_fn()) == track_step_fn()(
        e.fold_left(init, track_step_fn()),
        a,
    ));
}

proof fn lemma_fold_two(a: Seq<char>, b: Seq<char>)
    ensures
        seq![a, b].fold_left((None::<u32>, None::<u32>), track_step_fn()) == track_step(
            track_step((None, None), a),
            b,
        ),
{
    assert(seq![a, b].drop_last() =~= seq![a]);
    lemma_fold_one(a);
}

proof fn lemma_comma_free_prefixes()
    ensures
        free_of(ahead_prefix(), ','),
        free_of(behind_prefix(), ','),
{
    assert forall|j: int| 0 <= j < ahead_prefix().len() implies #[trigger] ahead_prefix()[j]
        != ',' by {}
    assert forall|j: int| 0 <= j < behind_prefix().len() implies #[trigger] behind_prefix()[j]
        != ',' by {}
}

/// A bracketed text that is not `[gone]` is read part by part.
proof fn lemma_track_parts(core: Seq<char>)
    requires
        core.len() > 0,
        core[0] != '[',
        core[0] != 'g',
        core.last() != ']',
    ensures
        track_info(bracketed(core)) == split_on(core, ',').fold_left(
            (None::<u32>, None::<u32>),
            track_step_fn(),
        ),
{
    lemma_track_core(core);
    assert(core != gone_word()) by {
        assert(core[0] != gone_word()[0]);
    }
}

proof fn lemma_trim_space_before(b: Seq<char>)
    requires
        b.len() > 0,
        !is_white_space(b[0]),
        !is_white_space(b.last()),
    ensures
        trim(seq![' '] + b) == b,
{
    lemma_trim_id(b);
    let sb = seq![' '] + b;
    let p = ws();
    assert(sb[1] == b[0]);
    assert forall|j: int| 0 <= j < 1 implies #[trigger] p(sb[j]) by {}
    lemma_leading_count(sb, p, 1);
    assert(sb.skip(1) =~= b);
}

proof fn lemma_split_two(a: Seq<char>, b: Seq<char>)
    requires
        free_of(a, ','),
        free_of(b, ','),
    ensures
        split_on(a + seq![','] + (seq![' '] + b), ',') == seq![a, seq![' '] + b],
{
    let sb = seq![' '] + b;
    lemma_first_after(a, ',', sb);
    assert(free_of(sb, ',')) by {
        assert forall|j: int| 0 <= j < sb.len() implies #[trigger] sb[j] != ',' by {
            if j > 0 {
                assert(sb[j] == b[j - 1]);
            }
        }
    }
    lemma_split_none(sb, ',');
    assert(split_on(a + seq![','] + sb, ',') =~= seq![a, sb]);
}

/// `[ahead N]` is read as N commits ahead.
pub proof fn lemma_track_ahead(n: u32)
    ensures
        track_info(bracketed(ahead_text(n))) == (Some(n), None::<u32>),
{
    let a = ahead_text(n);
    lemma_comma_free_prefixes();
    lemma_count_text(ahead_prefix(), n);
    lemma_track_parts(a);
    lemma_split_none(a, ',');
    assert(starts_with(a, ahead_prefix()));
    lemma_fold_one(a);
}

/// `[behind N]` is read as N commits behind.
pub proof fn lemma_track_behind(m: u32)
    ensures
        track_info(bracketed(behind_text(m))) == (None::<u32>, Some(m)),
{
    let b = behind_text(m);
    lemma_comma_free_prefixes();
    lemma_count_text(behind_prefix(), m);
    lemma_track_parts(b);
    lemma_split_none(b, ',');
    assert(!starts_with(b, ahead_prefix())) by {
        assert(b.take(6)[0] != ahead_prefix()[0]);
    }
    assert(starts_with(b, behind_prefix()));
    lemma_fold_one(b);
}

/// `[ahead N, behind M]` is read as N commits ahead and M behind.
#[verifier::spinoff_prover]
pub proof fn lemma_track_ahead_behind(n: u32, m: u32)
    ensures
        track_info(bracketed(ahead_text(n) + seq![',', ' '] + behind_text(m))) == (
            Some(n),
            Some(m),
        ),
{
    let a = ahead_text(n);
    let b = behind_text(m);
    lemma_comma_free_prefixes();
    lemma_count_text(ahead_prefix(), n);
    lemma_count_text(behind_prefix(), m);
    let sb = seq![' '] + b;
    let both = a + seq![','] + sb;
    assert(a + seq![',', ' '] + b =~= both);
    assert(both[0] == a[0]);
    assert(both.last() == b.last());
    lemma_track_parts(both);
    lemma_split_two(a, b);
    lemma_trim_space_before(b);
    assert(starts_with(a, ahead_prefix()));
    assert(!starts_with(b, ahead_prefix())) by {
        assert(b.take(6)[0] != ahead_prefix()[0]);
    }
    assert(starts_with(b, behind_prefix()));
    lemma_fold_two(a, sb);
}

/// `[gone]` is read as no counts.
pub proof fn lemma_track_gone()
    ensures
        track_info(bracketed(gone_word())) == (None::<u32>, None::<u32>),
{
    lemma_track_core(gone_word());
}

/// The line that the branch listing prints for a branch: the `*` mark of
/// the checked-out branch (else a space), a space, the name, a space, and
/// the tracking information (empty when the branch has no upstream).
pub open spec fn branch_line(is_head: bool, name: Seq<char>, track: Seq<char>) -> Seq<char> {
    seq![if is_head { '*' } else { ' ' }, ' '] + name + seq![' '] + track
}

/// A branch name as git allows it: not empty, without white space at its
/// ends, without `[`.
pub open spec fn plain_branch_name(name: Seq<char>) -> bool {
    &&& name.len() > 0
    &&& !is_white_space(name[0])
    &&& !is_white_space(name.last())
    &&& free_of(name, '[')
}

/// Tracking information as git prints it: nothing, or a bracketed text that
/// does not end with white space.
pub open spec fn plain_track(track: Seq<char>) -> bool {
    track.len() == 0 || (track[0] == '[' && !is_white_space(track.last()))
}

/// The branch that a listed line describes.
pub open spec fn listed_branch(is_head: bool, name: Seq<char>, track: Seq<char>) -> BranchInfoView {
    let counts = if track.len() == 0 {
        (None, None)
    } else {
        track_info(track)
    };
    BranchInfoView { name: name, is_head: is_head, ahead: counts.0, behind: counts.1 }
}

/// A line of the branch listing is read back as the branch it describes:
/// its name, whether it is checked out, and the counts of its tracking
/// information.
pub proof fn lemma_branch_line_roundtrip(is_head: bool, name: Seq<char>, track: Seq<char>)
    requires
        plain_branch_name(name),
        plain_track(track),
    ensures
        branch_sliceable(branch_line(is_head, name, track)),
        branch_entry(branch_line(is_head, name, track)) == Some(
            listed_branch(is_head, name, track),
        ),
{
    let h = if is_head {
        '*'
    } else {
        ' '
    };
    let pre = seq![h, ' '];
    let line = branch_line(is_head, name, track);
    lemma_ascii_byte(h);
    lemma_ascii_byte(' ');
    assert(pre =~= seq![h] + seq![' ']);
    lemma_encode_concat(seq![h], seq![' ']);
    assert(encode_utf8(pre).len() == 2);
    let rest = if track.len() == 0 {
        name
    } else {
        name + seq![' '] + track
    };
    let t = pre + rest;
    // the line without its trailing white space
    if track.len() == 0 {
        assert(line =~= t + seq![' ']);
        assert(t.last() == name.last());
        lemma_trim_end_space(t);
    } else {
        assert(line =~= t);
        assert(t.last() == track.last());
        lemma_trim_end_space(t);
    }
    assert(trim_end(line) == t);
    assert(t[2] == name[0]);
    lemma_trim_nonempty(t, 2);
    assert(t[0] == h);
    lemma_boundary_after_prefix(pre, rest);
    // the name and the tracking information
    if track.len() == 0 {
        lemma_first_index_of(rest, '[', rest.len() as int);
        lemma_trim_id(name);
    } else {
        let front = name + seq![' '];
        assert(rest =~= front + track);
        assert forall|j: int| 0 <= j < name.len() as int + 1 implies #[trigger] rest[j] != '[' by {
            if j < name.len() {
                assert(rest[j] == name[j]);
            } else {
                assert(rest[j] == ' ');
            }
        }
        assert(rest[name.len() as int + 1] == track[0]);
        lemma_first_index_of(rest, '[', name.len() as int + 1);
        assert(rest.take(name.len() as int + 1) =~= front);
        assert(rest.skip(name.len() as int + 1) =~= track);
        lemma_trim_end_space(name);
        lemma_trim_id(name);
        assert(trim(front) == name) by {
            lemma_leading_count(front, ws(), 0);
            assert(front.skip(0) =~= front);
        }
    }
}

/// The branch listing of the given (checked out, name, tracking) triples,
/// one line each.
pub open spec fn branch_listing(bs: Seq<(bool, Seq<char>, Seq<char>)>) -> Seq<char>
    decreases bs.len(),
{
    if bs.len() == 0 {
        Seq::empty()
    } else {
        let b = bs.last();
        branch_listing(bs.drop_last()) + branch_line(b.0, b.1, b.2) + seq!['\n']
    }
}

pub open spec fn listable(b: (bool, Seq<char>, Seq<char>)) -> bool {
    &&& plain_branch_name(b.1)
    &&& plain_track(b.2)
    &&& free_of(b.1, '\n')
    &&& free_of(b.2, '\n')
}

pub open spec fn listed_branch_fn() -> spec_fn((bool, Seq<char>, Seq<char>)) -> BranchInfoView {
    |b: (bool, Seq<char>, Seq<char>)| listed_branch(b.0, b.1, b.2)
}

/// The branch listing of the given branches is read back as exactly those
/// branches, in order.
pub proof fn lemma_branch_listing_roundtrip(bs: Seq<(bool, Seq<char>, Seq<char>)>)
    requires
        forall|i: int| 0 <= i < bs.len() ==> listable(#[trigger] bs[i]),
    ensures
        branch_text_sliceable(branch_listing(bs)),
        branch_entries(branch_listing(bs)) == bs.map_values(listed_branch_fn()),
    decreases bs.len(),
{
    if bs.len() == 0 {
        assert(lines_of(Seq::<char>::empty()) =~= Seq::<Seq<char>>::empty());
        assert(branch_entries(branch_listing(bs)) =~= bs.map_values(listed_branch_fn()));
    } else {
        let init = bs.drop_last();
        let b = bs.last();
        assert(listable(bs[bs.len() - 1]));
        assert forall|i: int| 0 <= i < init.len() implies listable(#[trigger] init[i]) by {
            assert(init[i] == bs[i]);
        }
        lemma_branch_listing_roundtrip(init);
        lemma_branch_line_roundtrip(b.0, b.1, b.2);
        let a = branch_listing(init);
        let l = branch_line(b.0, b.1, b.2);
        assert forall|j: int| 0 <= j < l.len() implies #[trigger] l[j] != '\n' by {
            if 2 <= j < 2 + b.1.len() {
                assert(l[j] == b.1[j - 2]);
            } else if j >= 3 + b.1.len() {
                assert(l[j] == b.2[j - 3 - b.1.len()]);
            }
        }
        if b.2.len() == 0 {
            assert(l.last() == ' ');
        } else {
            assert(l.last() == b.2.last());
        }
        lemma_one_line(l);
        if a.len() > 0 {
            assert(a.last() == '\n');
        }
        assert(branch_listing(bs) =~= a + (l + seq!['\n']));
        lemma_lines_concat(a, l + seq!['\n']);
        let all = lines_of(branch_listing(bs));
        assert(all =~= lines_of(a).push(l));
        assert(all.drop_last() =~= lines_of(a));
        assert(all.last() == l);
        assert(bs.map_values(listed_branch_fn()) =~= init.map_values(listed_branch_fn()).push(
            listed_branch(b.0, b.1, b.2),
        ));
        assert forall|i: int| 0 <= i < all.len() implies branch_sliceable(#[trigger] all[i]) by {
            if i < all.len() - 1 {
                assert(all[i] == lines_of(a)[i]);
            }
        }
        assert(branch_entries(branch_listing(bs)) =~= bs.map_values(listed_branch_fn()));
    }
}

/// A successful branch listing command whose output is the listing of some
/// branches lists exactly those branches, in order, each with its mark and
/// the counts of its tracking information.
pub proof fn lemma_branch_output_roundtrip(
    bs: Seq<(bool, Seq<char>, Seq<char>)>,
    o: CommandOutput,
)
    requires
        forall|i: int| 0 <= i < bs.len() ==> listable(#[trigger] bs[i]),
        o.success,
        o.stdout@ == encode_utf8(branch_listing(bs)),
    ensures
        local_branches_of(Some(o)) == Some(bs.map_values(listed_branch_fn())),
{
    lemma_branch_listing_roundtrip(bs);
}

proof fn lemma_count_one_line(prefix: Seq<char>, n: u32)
    requires
        free_of(prefix, '\n'),
    ensures
        free_of(prefix + decimal_of(n as nat), '\n'),
{
    let d = decimal_of(n as nat);
    lemma_decimal_digits(n as nat);
    assert forall|j: int| 0 <= j < d.len() implies #[trigger] d[j] != '\n' by {
        assert(is_digit(d[j]));
    }
    lemma_free_of_concat(prefix, d, '\n');
}

/// The output line `H NAME [ahead N, behind M]` of a successful branch
/// listing command gives exactly one branch: NAME, checked out when H is
/// `*`, N commits ahead of its upstream and M behind it.
pub proof fn lemma_branch_output_counts(
    is_head: bool,
    name: Seq<char>,
    n: u32,
    m: u32,
    o: CommandOutput,
)
    requires
        plain_branch_name(name),
        free_of(name, '\n'),
        o.success,
        o.stdout@ == encode_utf8(
            seq![if is_head { '*' } else { ' ' }, ' '] + name + " [ahead "@ + decimal_of(n as nat)
                + ", behind "@ + decimal_of(m as nat) + "]\n"@,
        ),
    ensures
        local_branches_of(Some(o)) == Some(
            seq![BranchInfoView { name: name, is_head: is_head, ahead: Some(n), behind: Some(m) }],
        ),
{
    reveal_strlit(" [ahead ");
    reveal_strlit(", behind ");
    reveal_strlit("]\n");
    let core = ahead_text(n) + seq![',', ' '] + behind_text(m);
    let track = bracketed(core);
    let b = (is_head, name, track);
    let bs = seq![b];
    assert(bs.drop_last() =~= Seq::<(bool, Seq<char>, Seq<char>)>::empty());
    assert(branch_listing(bs.drop_last()) =~= Seq::<char>::empty());
    assert(bs.last() == b);
    assert(branch_listing(bs) == branch_listing(bs.drop_last()) + branch_line(is_head, name, track)
        + seq!['\n']);
    assert(branch_listing(bs) =~= seq![if is_head { '*' } else { ' ' }, ' '] + name
        + " [ahead "@ + decimal_of(n as nat) + ", behind "@ + decimal_of(m as nat) + "]\n"@);
    // the tracking information is one bracketed line
    lemma_decimal_digits(m as nat);
    assert(track[0] == '[');
    assert(track.last() == ']');
    assert forall|j: int| 0 <= j < ahead_prefix().len() implies #[trigger] ahead_prefix()[j]
        != '\n' by {}
    assert forall|j: int| 0 <= j < behind_prefix().len() implies #[trigger] behind_prefix()[j]
        != '\n' by {}
    lemma_count_one_line(ahead_prefix(), n);
    lemma_count_one_line(behind_prefix(), m);
    let open = seq!['['];
    let sep = seq![',', ' '];
    let close = seq![']'];
    assert forall|j: int| 0 <= j < open.len() implies #[trigger] open[j] != '\n' by {}
    assert forall|j: int| 0 <= j < sep.len() implies #[trigger] sep[j] != '\n' by {}
    assert forall|j: int| 0 <= j < close.len() implies #[trigger] close[j] != '\n' by {}
    lemma_free_of_concat(open, ahead_text(n), '\n');
    lemma_free_of_concat(open + ahead_text(n), sep, '\n');
    lemma_free_of_concat(open + ahead_text(n) + sep, behind_text(m), '\n');
    lemma_free_of_concat(open + ahead_text(n) + sep + behind_text(m), close, '\n');
    assert(track =~= open + ahead_text(n) + sep + behind_text(m) + close);
    assert(listable(b));
    assert forall|i: int| 0 <= i < bs.len() implies listable(#[trigger] bs[i]) by {}
    lemma_branch_output_roundtrip(bs, o);
    lemma_track_ahead_behind(n, m);
    assert(bs.map_values(listed_branch_fn()) =~= seq![listed_branch(is_head, name, track)]);
}

/// Every remote-tracking branch that a listing gives has a name, without
/// surrounding white space, and none is a remote's `HEAD`.
pub proof fn lemma_remote_entries_clean(text: Seq<char>)
    ensures
        forall|i: int|
            0 <= i < remote_entries(text).len() ==> {
                let e = #[trigger] remote_entries(text)[i];
                &&& e.len() > 0
                &&& trim(e) == e
                &&& !ends_with(e, head_suffix())
            },
{
    lemma_remote_filter_clean(lines_of(text));
}

proof fn lemma_remote_filter_clean(ls: Seq<Seq<char>>)
    ensures
        forall|i: int|
            0 <= i < ls.filter_map(remote_entry_fn()).len() ==> {
                let e = #[trigger] ls.filter_map(remote_entry_fn())[i];
                &&& e.len() > 0
                &&& trim(e) == e
                &&& !ends_with(e, head_suffix())
            },
    decreases ls.len(),
{
    if ls.len() > 0 {
        let init = ls.drop_last();
        lemma_remote_filter_clean(init);
        let l = ls.last();
        let t = trim(l);
        let prev = init.filter_map(remote_entry_fn());
        if t.len() > 0 && !ends_with(t, head_suffix()) {
            lemma_trimmed_last(l);
            lemma_trim_id(t);
            let all = ls.filter_map(remote_entry_fn());
            assert(all =~= prev.push(t));
            assert forall|i: int| 0 <= i < all.len() implies {
                let e = #[trigger] all[i];
                &&& e.len() > 0
                &&& trim(e) == e
                &&& !ends_with(e, head_suffix())
            } by {
                if i < prev.len() {
                    assert(all[i] == prev[i]);
                }
            }
        }
    }
}

/// A line with more than white space (what `line.trim().is_empty()` rejects).
pub open spec fn non_blank(line: Seq<char>) -> bool {
    trim(line).len() > 0
}

pub open spec fn non_blank_fn() -> spec_fn(Seq<char>) -> bool {
    |l: Seq<char>| non_blank(l)
}

/// A branch name as the listing gives it: not empty, without surrounding
/// white space, and without the `[` that starts the tracking information.
pub open spec fn clean_branch_name(name: Seq<char>) -> bool {
    &&& name.len() > 0
    &&& trim(name) == name
    &&& free_of(name, '[')
}

/// A line that gives a branch has more than white space, and the branch's
/// name is clean.
proof fn lemma_branch_entry_clean(line: Seq<char>)
    requires
        branch_entry(line) is Some,
    ensures
        non_blank(line),
        clean_branch_name(branch_entry(line)->0.name),
{
    let t = trim_end(line);
    let k0 = lemma_trim_first(t);
    lemma_trailing_count_props(line, ws());
    assert(line[k0] == t[k0]);
    lemma_trim_nonempty(line, k0);
    let b = encode_utf8(t);
    let rest = decode_utf8(b.subrange(2, b.len() as int));
    let k = first_index_of(rest, '[') as int;
    lemma_leading_count_props(rest, not_char('['));
    let x = if k < rest.len() {
        rest.take(k)
    } else {
        rest
    };
    assert forall|j: int| 0 <= j < x.len() implies #[trigger] x[j] != '[' by {
        assert(not_char('[')(rest[j]));
    }
    lemma_trim_free_of(x, '[');
    let name = trim(x);
    assert(branch_entry(line)->0.name == name);
    lemma_trimmed_last(x);
    lemma_trim_id(name);
}

proof fn lemma_branch_filter_clean(ls: Seq<Seq<char>>)
    ensures
        ls.filter_map(branch_entry_fn()).len() <= ls.filter(non_blank_fn()).len(),
        forall|i: int|
            0 <= i < ls.filter_map(branch_entry_fn()).len() ==> clean_branch_name(
                (#[trigger] ls.filter_map(branch_entry_fn())[i]).name,
            ),
    decreases ls.len(),
{
    reveal(Seq::filter);
    if ls.len() > 0 {
        let init = ls.drop_last();
        lemma_branch_filter_clean(init);
        let l = ls.last();
        let prev = init.filter_map(branch_entry_fn());
        let all = ls.filter_map(branch_entry_fn());
        if branch_entry(l) is Some {
            lemma_branch_entry_clean(l);
            assert(all =~= prev.push(branch_entry(l)->0));
            assert forall|i: int| 0 <= i < all.len() implies clean_branch_name(
                (#[trigger] all[i]).name,
            ) by {
                if i < prev.len() {
                    assert(all[i] == prev[i]);
                }
            }
        } else {
            assert(all == prev);
        }
    }
}

/// Every branch that a listing gives has a clean name: not empty, without
/// surrounding white space, without `[`. A listing gives at most one branch
/// per line that has more than white space.
pub proof fn lemma_branch_entries_clean(text: Seq<char>)
    ensures
        forall|i: int|
            0 <= i < branch_entries(text).len() ==> clean_branch_name(
                (#[trigger] branch_entries(text)[i]).name,
            ),
        branch_entries(text).len() <= lines_of(text).filter(non_blank_fn()).len(),
{
    lemma_branch_filter_clean(lines_of(text));
}

proof fn lemma_track_fold(ps: Seq<Seq<char>>, acc: (Option<u32>, Option<u32>))
    ensures
        ps.fold_left(acc, track_step_fn()).0 is Some ==> acc.0 is Some || exists|i: int|
            0 <= i < ps.len() && has_infix(#[trigger] ps[i], ahead_prefix()),
        ps.fold_left(acc, track_step_fn()).1 is Some ==> acc.1 is Some || exists|i: int|
            0 <= i < ps.len() && has_infix(#[trigger] ps[i], behind_prefix()),
    decreases ps.len(),
{
    if ps.len() > 0 {
        let init = ps.drop_last();
        lemma_track_fold(init, acc);
        let p = ps.last();
        let tp = trim(p);
        let q = init.fold_left(acc, track_step_fn());
        let r = ps.fold_left(acc, track_step_fn());
        assert(r == track_step(q, p));
        lemma_trim_infix(p);
        if starts_with(tp, ahead_prefix()) {
            lemma_starts_with_infix(tp, ahead_prefix());
            lemma_infix_trans(p, tp, ahead_prefix());
            assert(has_infix(ps[ps.len() - 1], ahead_prefix()));
        } else if r.0 is Some && !(acc.0 is Some) {
            let i = choose|i: int| 0 <= i < init.len() && has_infix(#[trigger] init[i], ahead_prefix());
            assert(ps[i] == init[i]);
        }
        if !starts_with(tp, ahead_prefix()) && starts_with(tp, behind_prefix()) {
            lemma_starts_with_infix(tp, behind_prefix());
            lemma_infix_trans(p, tp, behind_prefix());
            assert(has_infix(ps[ps.len() - 1], behind_prefix()));
        } else if r.1 is Some && !(acc.1 is Some) {
            let i = choose|i: int| 0 <= i < init.len() && has_infix(#[trigger] init[i], behind_prefix());
            assert(ps[i] == init[i]);
        }
    }
}

/// The tracking information gives an ahead count only if it holds
/// `ahead `, and a behind count only if it holds `behind `.
pub proof fn lemma_track_counts_named(info: Seq<char>)
    ensures
        track_info(info).0 is Some ==> has_infix(info, ahead_prefix()),
        track_info(info).1 is Some ==> has_infix(info, behind_prefix()),
{
    let t = track_core(info);
    if !(t == gone_word() || t.len() == 0) {
        let ps = split_on(t, ',');
        lemma_track_fold(ps, (None, None));
        lemma_split_on_infix(t, ',');
        let t0 = trim(info);
        let t1 = trim_start_matches(t0, '[');
        lemma_trim_infix(info);
        lemma_trim_start_matches_infix(t0, '[');
        lemma_trim_end_matches_infix(t1, ']');
        lemma_infix_trans(info, t0, t1);
        lemma_infix_trans(info, t1, t);
        if track_info(info).0 is Some {
            let i = choose|i: int| 0 <= i < ps.len() && has_infix(#[trigger] ps[i], ahead_prefix());
            lemma_infix_trans(t, ps[i], ahead_prefix());
            lemma_infix_trans(info, t, ahead_prefix());
        }
        if track_info(info).1 is Some {
            let i = choose|i: int| 0 <= i < ps.len() && has_infix(#[trigger] ps[i], behind_prefix());
            lemma_infix_trans(t, ps[i], behind_prefix());
            lemma_infix_trans(info, t, behind_prefix());
        }
    }
}

/// The listing of the given remote-tracking branch names, one line each.
pub open spec fn remote_listing(ns: Seq<Seq<char>>) -> Seq<char>
    decreases ns.len(),
{
    if ns.len() == 0 {
        Seq::empty()
    } else {
        remote_listing(ns.drop_last()) + ns.last() + seq!['\n']
    }
}

/// A remote-tracking branch name as the listing prints it: one line, not
/// empty, without surrounding white space, not a remote's `HEAD`.
pub open spec fn listable_remote(n: Seq<char>) -> bool {
    &&& n.len() > 0
    &&& !is_white_space(n[0])
    &&& !is_white_space(n.last())
    &&& free_of(n, '\n')
    &&& !ends_with(n, head_suffix())
}

/// The listing of the given remote-tracking branches is read back as
/// exactly those branches, in order.
pub proof fn lemma_remote_listing_roundtrip(ns: Seq<Seq<char>>)
    requires
        forall|i: int| 0 <= i < ns.len() ==> listable_remote(#[trigger] ns[i]),
    ensures
        remote_entries(remote_listing(ns)) == ns,
    decreases ns.len(),
{
    if ns.len() == 0 {
        assert(lines_of(Seq::<char>::empty()) =~= Seq::<Seq<char>>::empty());
        assert(remote_entries(remote_listing(ns)) =~= ns);
    } else {
        let init = ns.drop_last();
        let n = ns.last();
        assert(listable_remote(ns[ns.len() - 1]));
        assert forall|i: int| 0 <= i < init.len() implies listable_remote(#[trigger] init[i]) by {
            assert(init[i] == ns[i]);
        }
        lemma_remote_listing_roundtrip(init);
        lemma_trim_id(n);
        let a = remote_listing(init);
        lemma_one_line(n);
        if a.len() > 0 {
            assert(a.last() == '\n');
        }
        assert(remote_listing(ns) =~= a + (n + seq!['\n']));
        lemma_lines_concat(a, n + seq!['\n']);
        let all = lines_of(remote_listing(ns));
        assert(all =~= lines_of(a).push(n));
        assert(all.drop_last() =~= lines_of(a));
        assert(remote_entries(remote_listing(ns)) =~= ns);
    }
}

/// A successful remote branch listing command whose output is the listing
/// of some remote-tracking branch names lists exactly those names, in order.
pub proof fn lemma_remote_output_roundtrip(ns: Seq<Seq<char>>, o: CommandOutput)
    requires
        forall|i: int| 0 <= i < ns.len() ==> listable_remote(#[trigger] ns[i]),
        o.success,
        o.stdout@ == encode_utf8(remote_listing(ns)),
    ensures
        remote_branches_of(Some(o)) == ns,
{
    lemma_remote_listing_roundtrip(ns);
}

/// The branch listing command asks for the mark, the short name and the
/// tracking information, separated by single spaces, as a branch line is
/// read.
pub proof fn lemma_branch_format()
    ensures
        query_args(GitQuery::LocalBranches)[1] == "--format="@ + "%(HEAD)"@ + seq![' ']
            + "%(refname:short)"@ + seq![' '] + "%(upstream:track)"@,
{
    reveal_strlit("--format=%(HEAD) %(refname:short) %(upstream:track)");
    reveal_strlit("--format=");
    reveal_strlit("%(HEAD)");
    reveal_strlit("%(refname:short)");
    reveal_strlit("%(upstream:track)");
    assert(query_args(GitQuery::LocalBranches)[1] =~= "--format="@ + "%(HEAD)"@ + seq![' ']
        + "%(refname:short)"@ + seq![' '] + "%(upstream:track)"@);
}

} // verus!
