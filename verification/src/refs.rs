//! The checked-out branch, its upstream, and how far the two have diverged.
use vstd::prelude::*;
use vstd::utf8::*;

use crate::text::{
    decimal_of, free_of, is_digit, is_white_space, lemma_decimal_digits, lemma_first_after,
    lemma_first_index_of, lemma_leading_count, lemma_parse_decimal, lemma_trailing_count, ws,
    chars_of, decode_lossy, parse_u32, parse_u32_of, split_char, split_on, string_of, trim,
    trim_chars, lossy_text, views,
};
use crate::types::CommandOutput;

verus! {

/// The trimmed text, unless nothing is left of it.
pub open spec fn ref_name_of(text: Seq<char>) -> Option<Seq<char>> {
    let t = trim(text);
    if t.len() == 0 {
        None
    } else {
        Some(t)
    }
}

/// The name that `git rev-parse --abbrev-ref ...` printed: its trimmed
/// output, if the command ran, succeeded and printed more than white space.
pub open spec fn ref_name_in(out: Option<CommandOutput>) -> Option<Seq<char>> {
    match out {
        Some(o) if o.success => ref_name_of(lossy_text(o.stdout@)),
        _ => None,
    }
}

pub fn ref_name_from_output(out: &Option<CommandOutput>) -> (r: Option<String>)
    ensures
        match r {
            Some(name) => ref_name_in(*out) == Some(name@),
            None => ref_name_in(*out) is None,
        },
{
    match out {
        Some(o) if o.success => {
            let text = decode_lossy(o.stdout.as_slice());
            let chars = chars_of(text.as_str());
            let t = trim_chars(chars.as_slice());
            if t.len() == 0 {
                None
            } else {
                Some(string_of(t.as_slice()))
            }
        },
        _ => None,
    }
}

/// A count, or 0 where it is not a `u32`.
pub open spec fn count_or_zero(s: Seq<char>) -> u32 {
    match parse_u32_of(s) {
        Some(n) => n,
        None => 0,
    }
}

/// The (ahead, behind) counts of `git rev-list --left-right --count`: the
/// two tab-separated numbers of the trimmed text (0 for one that is not a
/// `u32`), or both 0 when the text is not two tab-separated parts.
pub open spec fn counts_of(text: Seq<char>) -> (Option<u32>, Option<u32>) {
    let parts = split_on(trim(text), '\t');
    if parts.len() == 2 {
        (Some(count_or_zero(parts[0])), Some(count_or_zero(parts[1])))
    } else {
        (Some(0), Some(0))
    }
}

/// The (ahead, behind) counts that the counting command printed; none when
/// it could not be run or failed.
pub open spec fn counts_in(out: Option<CommandOutput>) -> (Option<u32>, Option<u32>) {
    match out {
        Some(o) if o.success => counts_of(lossy_text(o.stdout@)),
        _ => (None, None),
    }
}

pub fn counts_from_output(out: &Option<CommandOutput>) -> (r: (Option<u32>, Option<u32>))
    ensures
        r == counts_in(*out),
{
    match out {
        Some(o) if o.success => {
            let text = decode_lossy(o.stdout.as_slice());
            let chars = chars_of(text.as_str());
            let t = trim_chars(chars.as_slice());
            let parts = split_char(t.as_slice(), '\t');
            if parts.len() == 2 {
                assert(parts@[0]@ == views(parts@)[0]);
                assert(parts@[1]@ == views(parts@)[1]);
                let a = match parse_u32(parts[0].as_slice()) {
                    Some(n) => n,
                    None => 0,
                };
                let b = match parse_u32(parts[1].as_slice()) {
                    Some(n) => n,
                    None => 0,
                };
                (Some(a), Some(b))
            } else {
                (Some(0), Some(0))
            }
        },
        _ => (None, None),
    }
}

/// A successful counting command that prints two numbers `A<TAB>B` on a
/// line is read as A commits ahead and B behind, each whatever the other is.
pub proof fn lemma_counts_output(a: u32, b: u32, o: CommandOutput)
    requires
        o.success,
        o.stdout@ == encode_utf8(
            decimal_of(a as nat) + seq!['\t'] + decimal_of(b as nat) + seq!['\n'],
        ),
    ensures
        counts_in(Some(o)) == (Some(a), Some(b)),
{
    broadcast use encode_utf8_decode_utf8, encode_utf8_valid_utf8;

    let da = decimal_of(a as nat);
    let db = decimal_of(b as nat);
    lemma_decimal_digits(a as nat);
    lemma_decimal_digits(b as nat);
    lemma_parse_decimal(a);
    lemma_parse_decimal(b);
    let core = da + seq!['\t'] + db;
    let text = core + seq!['\n'];
    assert(lossy_text(o.stdout@) == text);
    // trimming drops the line feed only
    assert(text[0] == da[0]);
    assert(!is_white_space(da[0])) by {
        assert(is_digit(da[0]));
    }
    lemma_leading_count(text, ws(), 0);
    assert(text.skip(0) =~= text);
    assert(text[text.len() - 2] == db.last());
    assert(!is_white_space(db.last())) by {
        assert(is_digit(db[db.len() - 1]));
    }
    assert forall|j: int| text.len() - 1 <= j < text.len() implies #[trigger] ws()(text[j]) by {}
    lemma_trailing_count(text, ws(), 1);
    assert(trim(text) =~= core);
    // the tab splits the two numbers
    assert(free_of(da, '\t')) by {
        assert forall|j: int| 0 <= j < da.len() implies #[trigger] da[j] != '\t' by {
            assert(is_digit(da[j]));
        }
    }
    assert forall|j: int| 0 <= j < db.len() implies #[trigger] db[j] != '\t' by {
        assert(is_digit(db[j]));
    }
    lemma_first_after(da, '\t', db);
    lemma_first_index_of(db, '\t', db.len() as int);
    assert(split_on(db, '\t') == seq![db]);
    assert(split_on(core, '\t') =~= seq![da, db]);
}

/// A successful name command that prints a name on a line (a name that
/// neither starts nor ends with white space) gives that name.
pub proof fn lemma_ref_name_output(name: Seq<char>, o: CommandOutput)
    requires
        name.len() > 0,
        !is_white_space(name[0]),
        !is_white_space(name.last()),
        o.success,
        o.stdout@ == encode_utf8(name + seq!['\n']),
    ensures
        ref_name_in(Some(o)) == Some(name),
{
    broadcast use encode_utf8_decode_utf8, encode_utf8_valid_utf8;

    let text = name + seq!['\n'];
    assert(lossy_text(o.stdout@) == text);
    assert(text[0] == name[0]);
    lemma_leading_count(text, ws(), 0);
    assert(text.skip(0) =~= text);
    assert(text[text.len() - 2] == name.last());
    assert forall|j: int| text.len() - 1 <= j < text.len() implies #[trigger] ws()(text[j]) by {}
    lemma_trailing_count(text, ws(), 1);
    assert(trim(text) =~= name);
}

/// A name command that failed, or could not be run, names nothing.
pub proof fn lemma_ref_name_failed(out: Option<CommandOutput>)
    requires
        out matches Some(o) ==> !o.success,
    ensures
        ref_name_in(out) is None,
        counts_in(out) == (None::<u32>, None::<u32>),
{
}

} // verus!
