//! Character-level text operations with the meaning that `str`'s methods
//! give them (`trim`, `lines`, `split`, `splitn`, `parse::<u32>`).
use vstd::prelude::*;
use vstd::utf8::*;

verus! {

/// The Unicode `White_Space` property, which `char::is_whitespace` tests.
pub open spec fn is_white_space(c: char) -> bool {
    let u = c as u32;
    ||| 0x09 <= u <= 0x0D
    ||| u == 0x20 || u == 0x85 || u == 0xA0 || u == 0x1680
    ||| 0x2000 <= u <= 0x200A
    ||| u == 0x2028 || u == 0x2029 || u == 0x202F || u == 0x205F || u == 0x3000
}

pub fn white_space(c: char) -> (b: bool)
    ensures
        b == is_white_space(c),
{
    let u = c as u32;
    (0x09 <= u && u <= 0x0D) || u == 0x20 || u == 0x85 || u == 0xA0 || u == 0x1680 || (0x2000
        <= u && u <= 0x200A) || u == 0x2028 || u == 0x2029 || u == 0x202F || u == 0x205F || u
        == 0x3000
}

/// Number of leading characters of `s` that satisfy `p`.
pub open spec fn leading_count(s: Seq<char>, p: spec_fn(char) -> bool) -> nat
    decreases s.len(),
{
    if s.len() > 0 && p(s[0]) {
        1 + leading_count(s.drop_first(), p)
    } else {
        0
    }
}

/// Number of trailing characters of `s` that satisfy `p`.
pub open spec fn trailing_count(s: Seq<char>, p: spec_fn(char) -> bool) -> nat
    decreases s.len(),
{
    if s.len() > 0 && p(s.last()) {
        1 + trailing_count(s.drop_last(), p)
    } else {
        0
    }
}

pub open spec fn ws() -> spec_fn(char) -> bool {
    |c: char| is_white_space(c)
}

pub open spec fn is_char(c: char) -> spec_fn(char) -> bool {
    |d: char| d == c
}

/// `str::trim_start`
pub open spec fn trim_start(s: Seq<char>) -> Seq<char> {
    s.skip(leading_count(s, ws()) as int)
}

/// `str::trim_end`
pub open spec fn trim_end(s: Seq<char>) -> Seq<char> {
    s.take(s.len() - trailing_count(s, ws()))
}

/// `str::trim`
pub open spec fn trim(s: Seq<char>) -> Seq<char> {
    trim_end(trim_start(s))
}

/// `str::trim_start_matches(c)` for a single character
pub open spec fn trim_start_matches(s: Seq<char>, c: char) -> Seq<char> {
    s.skip(leading_count(s, is_char(c)) as int)
}

/// `str::trim_end_matches(c)` for a single character
pub open spec fn trim_end_matches(s: Seq<char>, c: char) -> Seq<char> {
    s.take(s.len() - trailing_count(s, is_char(c)))
}

pub proof fn lemma_leading_count(s: Seq<char>, p: spec_fn(char) -> bool, k: int)
    requires
        0 <= k <= s.len(),
        forall|j: int| 0 <= j < k ==> #[trigger] p(s[j]),
        k < s.len() ==> !p(s[k]),
    ensures
        leading_count(s, p) == k,
    decreases k,
{
    if k > 0 {
        let t = s.drop_first();
        assert forall|j: int| 0 <= j < k - 1 implies #[trigger] p(t[j]) by {
            assert(t[j] == s[j + 1]);
        }
        if k - 1 < t.len() {
            assert(t[k - 1] == s[k]);
        }
        lemma_leading_count(t, p, k - 1);
    }
}

pub proof fn lemma_trailing_count(s: Seq<char>, p: spec_fn(char) -> bool, k: int)
    requires
        0 <= k <= s.len(),
        forall|j: int| s.len() - k <= j < s.len() ==> #[trigger] p(s[j]),
        k < s.len() ==> !p(s[s.len() - k - 1]),
    ensures
        trailing_count(s, p) == k,
    decreases k,
{
    if k > 0 {
        let t = s.drop_last();
        assert(p(s[s.len() - 1]));
        assert forall|j: int| t.len() - (k - 1) <= j < t.len() implies #[trigger] p(t[j]) by {
            assert(t[j] == s[j]);
        }
        if k - 1 < t.len() {
            assert(t[t.len() - (k - 1) - 1] == s[s.len() - k - 1]);
        }
        lemma_trailing_count(t, p, k - 1);
    }
}

/// Copies `s[from..to]`.
pub fn copy_range(s: &[char], from: usize, to: usize) -> (r: Vec<char>)
    requires
        from <= to <= s@.len(),
    ensures
        r@ == s@.subrange(from as int, to as int),
{
    let mut r: Vec<char> = Vec::new();
    let mut i = from;
    while i < to
        invariant
            from <= i <= to <= s@.len(),
            r@ == s@.subrange(from as int, i as int),
        decreases to - i,
    {
        r.push(s[i]);
        i = i + 1;
    }
    r
}

/// The characters of `s` without leading and trailing white space.
pub fn trim_chars(s: &[char]) -> (r: Vec<char>)
    ensures
        r@ == trim(s@),
{
    let n = s.len();
    let mut a: usize = 0;
    while a < n && white_space(s[a])
        invariant
            a <= n == s@.len(),
            forall|j: int| 0 <= j < a ==> is_white_space(#[trigger] s@[j]),
        decreases n - a,
    {
        a = a + 1;
    }
    proof {
        lemma_leading_count(s@, ws(), a as int);
    }
    let ghost t = s@.skip(a as int);
    let mut b: usize = n;
    while b > a && white_space(s[b - 1])
        invariant
            a <= b <= n == s@.len(),
            forall|j: int| b <= j < n ==> is_white_space(#[trigger] s@[j]),
        decreases b,
    {
        b = b - 1;
    }
    proof {
        assert forall|j: int| t.len() - (n - b) <= j < t.len() implies #[trigger] ws()(t[j]) by {
            assert(t[j] == s@[j + a]);
        }
        if n - b < t.len() {
            assert(t[t.len() - (n - b) - 1] == s@[b - 1]);
        }
        lemma_trailing_count(t, ws(), (n - b) as int);
        assert(t.take(t.len() - (n - b)) =~= s@.subrange(a as int, b as int));
    }
    copy_range(s, a, b)
}

/// The characters of `s` without the leading copies of `c`.
pub fn trim_start_char(s: &[char], c: char) -> (r: Vec<char>)
    ensures
        r@ == trim_start_matches(s@, c),
{
    let n = s.len();
    let mut a: usize = 0;
    while a < n && s[a] == c
        invariant
            a <= n == s@.len(),
            forall|j: int| 0 <= j < a ==> #[trigger] s@[j] == c,
        decreases n - a,
    {
        a = a + 1;
    }
    proof {
        assert forall|j: int| 0 <= j < a implies #[trigger] is_char(c)(s@[j]) by {}
        lemma_leading_count(s@, is_char(c), a as int);
    }
    copy_range(s, a, n)
}

/// The characters of `s` without the trailing copies of `c`.
pub fn trim_end_char(s: &[char], c: char) -> (r: Vec<char>)
    ensures
        r@ == trim_end_matches(s@, c),
{
    let n = s.len();
    let mut b: usize = n;
    while b > 0 && s[b - 1] == c
        invariant
            b <= n == s@.len(),
            forall|j: int| b <= j < n ==> #[trigger] s@[j] == c,
        decreases b,
    {
        b = b - 1;
    }
    proof {
        assert forall|j: int| s@.len() - (n - b) <= j < s@.len() implies #[trigger] is_char(c)(
            s@[j],
        ) by {}
        lemma_trailing_count(s@, is_char(c), (n - b) as int);
    }
    copy_range(s, 0, b)
}

/// The characters of `s` without trailing white space.
pub fn trim_end_chars(s: &[char]) -> (r: Vec<char>)
    ensures
        r@ == trim_end(s@),
{
    let n = s.len();
    let mut b: usize = n;
    while b > 0 && white_space(s[b - 1])
        invariant
            b <= n == s@.len(),
            forall|j: int| b <= j < n ==> is_white_space(#[trigger] s@[j]),
        decreases b,
    {
        b = b - 1;
    }
    proof {
        assert forall|j: int| s@.len() - (n - b) <= j < s@.len() implies #[trigger] ws()(s@[j]) by {}
        lemma_trailing_count(s@, ws(), (n - b) as int);
    }
    copy_range(s, 0, b)
}

/// `s` begins with `prefix` (`str::starts_with`).
pub open spec fn starts_with(s: Seq<char>, prefix: Seq<char>) -> bool {
    prefix.len() <= s.len() && s.take(prefix.len() as int) == prefix
}

/// `s` ends with `suffix` (`str::ends_with`).
pub open spec fn ends_with(s: Seq<char>, suffix: Seq<char>) -> bool {
    suffix.len() <= s.len() && s.skip(s.len() - suffix.len()) == suffix
}

pub fn has_prefix(s: &[char], prefix: &[char]) -> (b: bool)
    ensures
        b == starts_with(s@, prefix@),
{
    if prefix.len() > s.len() {
        return false;
    }
    let mut i: usize = 0;
    while i < prefix.len()
        invariant
            i <= prefix@.len() <= s@.len(),
            forall|j: int| 0 <= j < i ==> s@[j] == prefix@[j],
        decreases prefix@.len() - i,
    {
        if s[i] != prefix[i] {
            assert(s@.take(prefix@.len() as int)[i as int] != prefix@[i as int]);
            return false;
        }
        i = i + 1;
    }
    assert(s@.take(prefix@.len() as int) =~= prefix@);
    true
}

pub fn has_suffix(s: &[char], suffix: &[char]) -> (b: bool)
    ensures
        b == ends_with(s@, suffix@),
{
    if suffix.len() > s.len() {
        return false;
    }
    let off = s.len() - suffix.len();
    let mut i: usize = 0;
    while i < suffix.len()
        invariant
            off + suffix@.len() == s@.len(),
            off + suffix.len() == s.len(),
            i <= suffix@.len(),
            forall|j: int| 0 <= j < i ==> s@[off + j] == suffix@[j],
        decreases suffix@.len() - i,
    {
        if s[off + i] != suffix[i] {
            assert(s@.skip(off as int)[i as int] != suffix@[i as int]);
            return false;
        }
        i = i + 1;
    }
    assert(s@.skip(off as int) =~= suffix@);
    true
}

pub open spec fn not_char(c: char) -> spec_fn(char) -> bool {
    |d: char| d != c
}

/// Index of the first `c` in `s`, or `s.len()` when there is none.
pub open spec fn first_index_of(s: Seq<char>, c: char) -> nat {
    leading_count(s, not_char(c))
}

pub proof fn lemma_first_index_of(s: Seq<char>, c: char, k: int)
    requires
        0 <= k <= s.len(),
        forall|j: int| 0 <= j < k ==> #[trigger] s[j] != c,
        k < s.len() ==> s[k] == c,
    ensures
        first_index_of(s, c) == k,
{
    assert forall|j: int| 0 <= j < k implies #[trigger] not_char(c)(s[j]) by {}
    lemma_leading_count(s, not_char(c), k);
}

/// A line without the carriage return that ends it, if any.
pub open spec fn strip_cr(s: Seq<char>) -> Seq<char> {
    if s.len() > 0 && s.last() == '\r' {
        s.drop_last()
    } else {
        s
    }
}

/// `str::lines`: the pieces between line feeds, each without a trailing
/// carriage return; a final line feed ends the last line and starts none.
pub open spec fn lines_of(s: Seq<char>) -> Seq<Seq<char>>
    decreases s.len(),
{
    if s.len() == 0 {
        seq![]
    } else {
        let i = first_index_of(s, '\n') as int;
        if i >= s.len() {
            seq![s]
        } else {
            seq![strip_cr(s.take(i))] + lines_of(s.skip(i + 1))
        }
    }
}

/// `str::split(c)`: the pieces between the copies of `c`, always at least one.
pub open spec fn split_on(s: Seq<char>, c: char) -> Seq<Seq<char>>
    decreases s.len(),
{
    let i = first_index_of(s, c) as int;
    if i >= s.len() {
        seq![s]
    } else {
        seq![s.take(i)] + split_on(s.skip(i + 1), c)
    }
}

/// `str::splitn(n, c)`: like `split_on`, with at most `n` pieces, the last of
/// which holds the rest of `s`.
pub open spec fn splitn_on(s: Seq<char>, n: nat, c: char) -> Seq<Seq<char>>
    decreases n,
{
    if n == 0 {
        seq![]
    } else if n == 1 {
        seq![s]
    } else {
        let i = first_index_of(s, c) as int;
        if i >= s.len() {
            seq![s]
        } else {
            seq![s.take(i)] + splitn_on(s.skip(i + 1), (n - 1) as nat, c)
        }
    }
}

pub open spec fn views(v: Seq<Vec<char>>) -> Seq<Seq<char>> {
    v.map_values(|l: Vec<char>| l@)
}

proof fn lemma_views_push(v: Seq<Vec<char>>, x: Vec<char>)
    ensures
        views(v.push(x)) =~= views(v).push(x@),
{
}

/// The lines of `s`, as `str::lines` yields them.
pub fn lines(s: &[char]) -> (r: Vec<Vec<char>>)
    ensures
        views(r@) == lines_of(s@),
{
    let n = s.len();
    let mut r: Vec<Vec<char>> = Vec::new();
    let mut start: usize = 0;
    let mut i: usize = 0;
    assert(views(r@) =~= Seq::<Seq<char>>::empty());
    assert(s@.skip(0) =~= s@);
    while i < n
        invariant
            start <= i <= n == s@.len(),
            forall|j: int| start <= j < i ==> #[trigger] s@[j] != '\n',
            views(r@) + lines_of(s@.skip(start as int)) == lines_of(s@),
        decreases n - i,
    {
        if s[i] == '\n' {
            let ghost t = s@.skip(start as int);
            proof {
                assert forall|j: int| 0 <= j < i - start implies #[trigger] t[j] != '\n' by {
                    assert(t[j] == s@[j + start]);
                }
                assert(t[i - start] == s@[i as int]);
                lemma_first_index_of(t, '\n', i - start);
                assert(t.take(i - start) =~= s@.subrange(start as int, i as int));
                assert(t.skip(i - start + 1) =~= s@.skip(i + 1));
            }
            let line = if i > start && s[i - 1] == '\r' {
                proof {
                    assert(s@.subrange(start as int, i as int).drop_last() =~= s@.subrange(
                        start as int,
                        i - 1,
                    ));
                }
                copy_range(s, start, i - 1)
            } else {
                copy_range(s, start, i)
            };
            assert(line@ == strip_cr(t.take(i - start)));
            proof {
                lemma_views_push(r@, line);
                assert(views(r@.push(line)) + lines_of(s@.skip(i + 1)) =~= views(r@) + lines_of(
                    t,
                ));
            }
            r.push(line);
            start = i + 1;
        }
        i = i + 1;
    }
    let ghost t = s@.skip(start as int);
    if start < n {
        proof {
            assert forall|j: int| 0 <= j < n - start implies #[trigger] t[j] != '\n' by {
                assert(t[j] == s@[j + start]);
            }
            lemma_first_index_of(t, '\n', n - start);
        }
        let line = copy_range(s, start, n);
        proof {
            assert(line@ =~= t);
            lemma_views_push(r@, line);
        }
        r.push(line);
    }
    assert(views(r@) =~= lines_of(s@));
    r
}

/// The pieces of `s` between the copies of `c`, as `str::split(c)` yields them.
pub fn split_char(s: &[char], c: char) -> (r: Vec<Vec<char>>)
    ensures
        views(r@) == split_on(s@, c),
{
    let n = s.len();
    let mut r: Vec<Vec<char>> = Vec::new();
    let mut start: usize = 0;
    let mut i: usize = 0;
    assert(views(r@) =~= Seq::<Seq<char>>::empty());
    assert(s@.skip(0) =~= s@);
    while i < n
        invariant
            start <= i <= n == s@.len(),
            forall|j: int| start <= j < i ==> #[trigger] s@[j] != c,
            views(r@) + split_on(s@.skip(start as int), c) == split_on(s@, c),
        decreases n - i,
    {
        if s[i] == c {
            let ghost t = s@.skip(start as int);
            proof {
                assert forall|j: int| 0 <= j < i - start implies #[trigger] t[j] != c by {
                    assert(t[j] == s@[j + start]);
                }
                assert(t[i - start] == s@[i as int]);
                lemma_first_index_of(t, c, i - start);
                assert(t.take(i - start) =~= s@.subrange(start as int, i as int));
                assert(t.skip(i - start + 1) =~= s@.skip(i + 1));
            }
            let piece = copy_range(s, start, i);
            proof {
                lemma_views_push(r@, piece);
                assert(views(r@.push(piece)) + split_on(s@.skip(i + 1), c) =~= views(r@)
                    + split_on(t, c));
            }
            r.push(piece);
            start = i + 1;
        }
        i = i + 1;
    }
    let ghost t = s@.skip(start as int);
    proof {
        assert forall|j: int| 0 <= j < n - start implies #[trigger] t[j] != c by {
            assert(t[j] == s@[j + start]);
        }
        lemma_first_index_of(t, c, n - start);
    }
    let piece = copy_range(s, start, n);
    proof {
        assert(piece@ =~= t);
        lemma_views_push(r@, piece);
    }
    r.push(piece);
    assert(views(r@) =~= split_on(s@, c));
    r
}

/// At most `limit` pieces of `s` between copies of `c`, as `str::splitn` yields them.
pub fn splitn_char(s: &[char], limit: usize, c: char) -> (r: Vec<Vec<char>>)
    ensures
        views(r@) == splitn_on(s@, limit as nat, c),
{
    let mut r: Vec<Vec<char>> = Vec::new();
    if limit == 0 {
        assert(views(r@) =~= splitn_on(s@, 0, c));
        return r;
    }
    let n = s.len();
    let mut start: usize = 0;
    let mut i: usize = 0;
    assert(views(r@) =~= Seq::<Seq<char>>::empty());
    assert(s@.skip(0) =~= s@);
    while i < n && r.len() + 1 < limit
        invariant
            start <= i <= n == s@.len(),
            r@.len() < limit,
            forall|j: int| start <= j < i ==> #[trigger] s@[j] != c,
            views(r@) + splitn_on(s@.skip(start as int), (limit - r@.len()) as nat, c)
                == splitn_on(s@, limit as nat, c),
        decreases n - i,
    {
        if s[i] == c {
            let ghost t = s@.skip(start as int);
            let ghost m = (limit - r@.len()) as nat;
            proof {
                assert forall|j: int| 0 <= j < i - start implies #[trigger] t[j] != c by {
                    assert(t[j] == s@[j + start]);
                }
                assert(t[i - start] == s@[i as int]);
                lemma_first_index_of(t, c, i - start);
                assert(t.take(i - start) =~= s@.subrange(start as int, i as int));
                assert(t.skip(i - start + 1) =~= s@.skip(i + 1));
            }
            let piece = copy_range(s, start, i);
            proof {
                lemma_views_push(r@, piece);
                assert(splitn_on(t, m, c) == seq![t.take(i - start)] + splitn_on(
                    s@.skip(i + 1),
                    (m - 1) as nat,
                    c,
                ));
                assert(views(r@.push(piece)) + splitn_on(s@.skip(i + 1), (m - 1) as nat, c)
                    =~= views(r@) + splitn_on(t, m, c));
            }
            r.push(piece);
            start = i + 1;
        }
        i = i + 1;
    }
    let ghost t = s@.skip(start as int);
    let ghost m = (limit - r@.len()) as nat;
    proof {
        if m > 1 {
            assert forall|j: int| 0 <= j < n - start implies #[trigger] t[j] != c by {
                assert(t[j] == s@[j + start]);
            }
            lemma_first_index_of(t, c, n - start);
        }
    }
    let piece = copy_range(s, start, n);
    proof {
        assert(piece@ =~= t);
        lemma_views_push(r@, piece);
    }
    r.push(piece);
    assert(views(r@) =~= splitn_on(s@, limit as nat, c));
    r
}

pub open spec fn is_digit(c: char) -> bool {
    48 <= (c as u32) <= 57
}

pub open spec fn digit_value(c: char) -> nat {
    ((c as u32) - 48) as nat
}

/// The number that a string of decimal digits denotes.
pub open spec fn digits_value(s: Seq<char>) -> nat
    decreases s.len(),
{
    if s.len() == 0 {
        0
    } else {
        digits_value(s.drop_last()) * 10 + digit_value(s.last())
    }
}

pub open spec fn all_digits(s: Seq<char>) -> bool {
    forall|i: int| 0 <= i < s.len() ==> is_digit(#[trigger] s[i])
}

/// What follows an optional leading `+`.
pub open spec fn unsigned_digits(s: Seq<char>) -> Seq<char> {
    if s.len() > 0 && s[0] == '+' {
        s.drop_first()
    } else {
        s
    }
}

/// `s.parse::<u32>().ok()`: an optional `+`, then one or more decimal digits
/// whose value fits in a `u32`.
pub open spec fn parse_u32_of(s: Seq<char>) -> Option<u32> {
    let d = unsigned_digits(s);
    if d.len() > 0 && all_digits(d) && digits_value(d) <= u32::MAX {
        Some(digits_value(d) as u32)
    } else {
        None
    }
}

pub fn parse_u32(s: &[char]) -> (r: Option<u32>)
    ensures
        r == parse_u32_of(s@),
{
    let n = s.len();
    let start: usize = if n > 0 && s[0] == '+' {
        1
    } else {
        0
    };
    let ghost d = unsigned_digits(s@);
    assert(d =~= s@.skip(start as int));
    if start >= n {
        return None;
    }
    let mut acc: u64 = 0;
    let mut over = false;
    let mut i = start;
    assert(d.take(0) =~= Seq::<char>::empty());
    while i < n
        invariant
            start <= i <= n == s@.len(),
            d == s@.skip(start as int),
            d == unsigned_digits(s@),
            forall|j: int| 0 <= j < i - start ==> is_digit(#[trigger] d[j]),
            !over ==> acc == digits_value(d.take(i - start)) && acc <= u32::MAX,
            over ==> digits_value(d.take(i - start)) > u32::MAX,
        decreases n - i,
    {
        let c = s[i];
        let u = c as u32;
        assert(d[i - start] == c);
        if !(48 <= u && u <= 57) {
            assert(!is_digit(d[i - start]));
            assert(!all_digits(d));
            return None;
        }
        assert(d.take(i - start + 1).drop_last() =~= d.take(i - start));
        assert(d.take(i - start + 1).last() == c);
        if !over {
            acc = acc * 10 + (u - 48) as u64;
            if acc > 0xffff_ffff {
                over = true;
            }
        }
        i = i + 1;
    }
    assert(d.take(n - start) =~= d);
    if over {
        None
    } else {
        Some(acc as u32)
    }
}

pub open spec fn digit_char(d: nat) -> char {
    ((d + 48) as u8) as char
}

/// The decimal numeral of `n`, without leading zeros.
pub open spec fn decimal_of(n: nat) -> Seq<char>
    decreases n,
{
    if n < 10 {
        seq![digit_char(n)]
    } else {
        decimal_of(n / 10).push(digit_char(n % 10))
    }
}

pub fn decimal(n: u64) -> (r: Vec<char>)
    ensures
        r@ == decimal_of(n as nat),
    decreases n,
{
    let d = (n % 10) as u8;
    let c = (d + 48) as char;
    if n < 10 {
        let mut v: Vec<char> = Vec::new();
        v.push(c);
        assert(v@ =~= seq![c]);
        v
    } else {
        let mut v = decimal(n / 10);
        v.push(c);
        v
    }
}

proof fn lemma_digit_char(d: nat)
    requires
        d < 10,
    ensures
        is_digit(digit_char(d)),
        digit_value(digit_char(d)) == d,
{
}

pub proof fn lemma_decimal_digits(n: nat)
    ensures
        decimal_of(n).len() > 0,
        all_digits(decimal_of(n)),
        digits_value(decimal_of(n)) == n,
    decreases n,
{
    if n < 10 {
        lemma_digit_char(n);
        assert(decimal_of(n).drop_last() =~= Seq::<char>::empty());
        assert(digits_value(decimal_of(n)) == digits_value(Seq::<char>::empty()) * 10 + n);
    } else {
        lemma_decimal_digits(n / 10);
        lemma_digit_char(n % 10);
        let s = decimal_of(n);
        assert(s.drop_last() =~= decimal_of(n / 10));
        assert(digits_value(s) == (n / 10) * 10 + n % 10);
        assert((n / 10) * 10 + n % 10 == n) by (nonlinear_arith);
    }
}

/// Reading back the decimal numeral of a `u32` gives the number.
pub proof fn lemma_parse_decimal(n: u32)
    ensures
        parse_u32_of(decimal_of(n as nat)) == Some(n),
{
    lemma_decimal_digits(n as nat);
    let s = decimal_of(n as nat);
    assert(is_digit(s[0]));
    assert(unsigned_digits(s) == s);
}

pub proof fn lemma_encode_concat(a: Seq<char>, b: Seq<char>)
    ensures
        encode_utf8(a + b) == encode_utf8(a) + encode_utf8(b),
    decreases a.len(),
{
    if a.len() == 0 {
        assert(a + b =~= b);
        assert(encode_utf8(a) =~= Seq::<u8>::empty());
        assert(encode_utf8(a) + encode_utf8(b) =~= encode_utf8(b));
    } else {
        assert((a + b)[0] == a[0]);
        assert((a + b).drop_first() =~= a.drop_first() + b);
        lemma_encode_concat(a.drop_first(), b);
        assert(encode_utf8(a + b) =~= encode_utf8(a) + encode_utf8(b));
    }
}

/// The end of the encoding of a prefix is a character boundary.
pub proof fn lemma_boundary_after_prefix(a: Seq<char>, c: Seq<char>)
    ensures
        valid_utf8(encode_utf8(a + c)),
        is_char_boundary(encode_utf8(a + c), encode_utf8(a).len() as int),
        encode_utf8(a + c).subrange(encode_utf8(a).len() as int, encode_utf8(a + c).len() as int)
            == encode_utf8(c),
    decreases a.len(),
{
    broadcast use encode_utf8_valid_utf8;

    lemma_encode_concat(a, c);
    let bytes = encode_utf8(a + c);
    assert(bytes.subrange(encode_utf8(a).len() as int, bytes.len() as int) =~= encode_utf8(c));
    if a.len() == 0 {
        assert(encode_utf8(a) =~= Seq::<u8>::empty());
    } else {
        let s = a + c;
        assert(s[0] == a[0]);
        assert(s.drop_first() =~= a.drop_first() + c);
        encode_utf8_first_scalar(s);
        assert(pop_first_scalar(bytes) =~= encode_utf8(s.drop_first()));
        lemma_boundary_after_prefix(a.drop_first(), c);
        assert(encode_utf8(a).len() == encode_scalar(a[0] as u32).len() + encode_utf8(
            a.drop_first(),
        ).len());
    }
}

/// A character below 128 is encoded as the one byte of its value.
pub proof fn lemma_ascii_byte(c: char)
    requires
        (c as u32) < 128,
    ensures
        encode_utf8(seq![c]) == seq![c as u8],
        (c as u8) as char == c,
{
    let s = seq![c];
    assert(is_ascii_chars(s));
    is_ascii_chars_encode_utf8(s);
    assert(encode_utf8(s) =~= seq![c as u8]);
}

/// A text that neither starts nor ends with white space is its own trim.
pub proof fn lemma_trim_id(s: Seq<char>)
    requires
        s.len() > 0,
        !is_white_space(s[0]),
        !is_white_space(s.last()),
    ensures
        trim(s) == s,
        trim_start(s) == s,
        trim_end(s) == s,
{
    lemma_leading_count(s, ws(), 0);
    lemma_trailing_count(s, ws(), 0);
    assert(s.skip(0) =~= s);
    assert(s.take(s.len() as int) =~= s);
}

/// Lines are read one after another: a text that ends with a line feed
/// (or is empty) keeps its lines when more text follows.
pub proof fn lemma_lines_concat(a: Seq<char>, b: Seq<char>)
    requires
        a.len() == 0 || a.last() == '\n',
    ensures
        lines_of(a + b) == lines_of(a) + lines_of(b),
    decreases a.len(),
{
    if a.len() == 0 {
        assert(a + b =~= b);
        assert(lines_of(a) =~= Seq::<Seq<char>>::empty());
        assert(lines_of(a) + lines_of(b) =~= lines_of(b));
    } else {
        let s = a + b;
        let i = first_index_of(a, '\n') as int;
        assert(a[a.len() - 1] == '\n');
        assert forall|j: int| 0 <= j < i implies #[trigger] s[j] != '\n' by {
            lemma_first_index_upto(a, '\n', i, j);
        }
        lemma_first_index_found(a, '\n');
        assert(s[i] == '\n');
        lemma_first_index_of(s, '\n', i);
        assert(s.take(i) =~= a.take(i));
        assert(s.skip(i + 1) =~= a.skip(i + 1) + b);
        let rest = a.skip(i + 1);
        if rest.len() > 0 {
            assert(rest.last() == a.last());
        }
        lemma_lines_concat(rest, b);
        assert(lines_of(a + b) =~= lines_of(a) + lines_of(b));
    }
}

proof fn lemma_first_index_upto(a: Seq<char>, c: char, i: int, j: int)
    requires
        i == first_index_of(a, c),
        0 <= j < i,
    ensures
        j < a.len(),
        a[j] != c,
    decreases a.len(),
{
    let p = not_char(c);
    if a.len() > 0 && p(a[0]) {
        if j > 0 {
            lemma_first_index_upto(a.drop_first(), c, i - 1, j - 1);
        }
    }
}

proof fn lemma_first_index_found(a: Seq<char>, c: char)
    requires
        a.contains(c),
    ensures
        first_index_of(a, c) < a.len(),
        a[first_index_of(a, c) as int] == c,
    decreases a.len(),
{
    let p = not_char(c);
    if a[0] != c {
        let k = choose|k: int| 0 <= k < a.len() && a[k] == c;
        assert(a.drop_first()[k - 1] == c);
        lemma_first_index_found(a.drop_first(), c);
    }
}

/// A line without line feeds that does not end with a carriage return,
/// followed by a line feed, is read as that one line.
pub proof fn lemma_one_line(l: Seq<char>)
    requires
        forall|j: int| 0 <= j < l.len() ==> #[trigger] l[j] != '\n',
        l.len() == 0 || l.last() != '\r',
    ensures
        lines_of(l + seq!['\n']) == seq![l],
{
    let s = l + seq!['\n'];
    assert forall|j: int| 0 <= j < l.len() implies #[trigger] s[j] != '\n' by {
        assert(s[j] == l[j]);
    }
    lemma_first_index_of(s, '\n', l.len() as int);
    assert(s.take(l.len() as int) =~= l);
    assert(s.skip(l.len() as int + 1) =~= Seq::<char>::empty());
    assert(lines_of(Seq::<char>::empty()) =~= Seq::<Seq<char>>::empty());
    assert(lines_of(s) =~= seq![l]);
}

pub proof fn lemma_leading_count_props(s: Seq<char>, p: spec_fn(char) -> bool)
    ensures
        leading_count(s, p) <= s.len(),
        forall|j: int| 0 <= j < leading_count(s, p) ==> #[trigger] p(s[j]),
        leading_count(s, p) < s.len() ==> !p(s[leading_count(s, p) as int]),
    decreases s.len(),
{
    if s.len() > 0 && p(s[0]) {
        let t = s.drop_first();
        lemma_leading_count_props(t, p);
        assert forall|j: int| 0 <= j < leading_count(s, p) implies #[trigger] p(s[j]) by {
            if j > 0 {
                assert(s[j] == t[j - 1]);
            }
        }
        if leading_count(s, p) < s.len() {
            assert(s[leading_count(s, p) as int] == t[leading_count(t, p) as int]);
        }
    }
}

pub proof fn lemma_trailing_count_props(s: Seq<char>, p: spec_fn(char) -> bool)
    ensures
        trailing_count(s, p) <= s.len(),
        forall|j: int| s.len() - trailing_count(s, p) <= j < s.len() ==> #[trigger] p(s[j]),
        trailing_count(s, p) < s.len() ==> !p(s[s.len() - trailing_count(s, p) - 1]),
    decreases s.len(),
{
    if s.len() > 0 && p(s.last()) {
        let t = s.drop_last();
        lemma_trailing_count_props(t, p);
        assert forall|j: int| s.len() - trailing_count(s, p) <= j < s.len() implies #[trigger] p(
            s[j],
        ) by {
            if j < s.len() - 1 {
                assert(s[j] == t[j]);
            }
        }
        if trailing_count(s, p) < s.len() {
            assert(s[s.len() - trailing_count(s, p) - 1] == t[t.len() - trailing_count(t, p) - 1]);
        }
    }
}

/// What is left after trimming neither starts nor ends with white space.
pub proof fn lemma_trimmed_last(s: Seq<char>)
    requires
        trim(s).len() > 0,
    ensures
        !is_white_space(trim(s)[0]),
        !is_white_space(trim(s).last()),
{
    lemma_leading_count_props(s, ws());
    let a = leading_count(s, ws()) as int;
    let t = s.skip(a);
    lemma_trailing_count_props(t, ws());
    let k = trailing_count(t, ws()) as int;
    assert(trim(s) == t.take(t.len() - k));
    assert(k < t.len());
    assert(trim(s)[0] == s[a]);
    assert(trim(s).last() == t[t.len() - k - 1]);
}

/// `s` holds no `c`.
pub open spec fn free_of(s: Seq<char>, c: char) -> bool {
    forall|j: int| 0 <= j < s.len() ==> #[trigger] s[j] != c
}

/// The first `c` of `a + [c] + b`, where `a` holds none, is the one after `a`.
pub proof fn lemma_first_after(a: Seq<char>, c: char, b: Seq<char>)
    requires
        free_of(a, c),
    ensures
        first_index_of(a + seq![c] + b, c) == a.len(),
        (a + seq![c] + b).take(a.len() as int) == a,
        (a + seq![c] + b).skip(a.len() as int + 1) == b,
{
    let s = a + seq![c] + b;
    assert forall|j: int| 0 <= j < a.len() implies #[trigger] s[j] != c by {
        assert(s[j] == a[j]);
    }
    assert(s[a.len() as int] == c);
    lemma_first_index_of(s, c, a.len() as int);
    assert(s.take(a.len() as int) =~= a);
    assert(s.skip(a.len() as int + 1) =~= b);
}

pub proof fn lemma_free_of_concat(a: Seq<char>, b: Seq<char>, c: char)
    requires
        free_of(a, c),
        free_of(b, c),
    ensures
        free_of(a + b, c),
{
    assert forall|j: int| 0 <= j < (a + b).len() implies #[trigger] (a + b)[j] != c by {
        if j < a.len() {
            assert((a + b)[j] == a[j]);
        } else {
            assert((a + b)[j] == b[j - a.len()]);
        }
    }
}

/// A text with a character other than white space keeps something when
/// trimmed.
pub proof fn lemma_trim_nonempty(s: Seq<char>, k: int)
    requires
        0 <= k < s.len(),
        !is_white_space(s[k]),
    ensures
        trim(s).len() > 0,
{
    lemma_leading_count_props(s, ws());
    let a = leading_count(s, ws()) as int;
    assert(a <= k) by {
        if a > k {
            assert(ws()(s[k]));
        }
    }
    let t = s.skip(a);
    assert(t[0] == s[a]);
    lemma_trailing_count_props(t, ws());
    let b = trailing_count(t, ws()) as int;
    assert(b < t.len()) by {
        if b >= t.len() {
            assert(ws()(t[0]));
        }
    }
}

/// Trimming the end of a text that does not end with white space keeps it;
/// one more space at its end is trimmed away.
pub proof fn lemma_trim_end_space(s: Seq<char>)
    requires
        s.len() > 0,
        !is_white_space(s.last()),
    ensures
        trim_end(s) == s,
        trim_end(s + seq![' ']) == s,
{
    lemma_trailing_count(s, ws(), 0);
    assert(s.take(s.len() as int) =~= s);
    let t = s + seq![' '];
    assert(t[t.len() - 2] == s.last());
    assert forall|j: int| t.len() - 1 <= j < t.len() implies #[trigger] ws()(t[j]) by {}
    lemma_trailing_count(t, ws(), 1);
    assert(t.take(t.len() - 1) =~= s);
}

/// `w` occurs in `s` (`str::contains` with a string pattern).
pub open spec fn has_infix(s: Seq<char>, w: Seq<char>) -> bool {
    exists|a: Seq<char>, b: Seq<char>| s == #[trigger] (a + w + b)
}

/// What occurs in a piece of a text occurs in the text.
pub proof fn lemma_infix_trans(s: Seq<char>, m: Seq<char>, w: Seq<char>)
    requires
        has_infix(s, m),
        has_infix(m, w),
    ensures
        has_infix(s, w),
{
    let (a, b) = choose|a: Seq<char>, b: Seq<char>| s == #[trigger] (a + m + b);
    let (c, d) = choose|c: Seq<char>, d: Seq<char>| m == #[trigger] (c + w + d);
    assert(s =~= (a + c) + w + (d + b));
}

/// A stretch of a text occurs in it.
pub proof fn lemma_subrange_infix(s: Seq<char>, i: int, j: int)
    requires
        0 <= i <= j <= s.len(),
    ensures
        has_infix(s, s.subrange(i, j)),
{
    assert(s =~= s.take(i) + s.subrange(i, j) + s.skip(j));
}

/// A prefix of a text occurs in it.
pub proof fn lemma_starts_with_infix(s: Seq<char>, w: Seq<char>)
    requires
        starts_with(s, w),
    ensures
        has_infix(s, w),
{
    lemma_subrange_infix(s, 0, w.len() as int);
    assert(s.subrange(0, w.len() as int) =~= s.take(w.len() as int));
}

/// Trimming white space keeps a stretch of the text.
pub proof fn lemma_trim_infix(s: Seq<char>)
    ensures
        has_infix(s, trim(s)),
{
    lemma_leading_count_props(s, ws());
    let a = leading_count(s, ws()) as int;
    let t = s.skip(a);
    lemma_trailing_count_props(t, ws());
    let k = trailing_count(t, ws()) as int;
    assert(trim(s) =~= s.subrange(a, s.len() - k));
    lemma_subrange_infix(s, a, s.len() - k);
}

/// Trimming copies of a character at the start keeps a stretch of the text.
pub proof fn lemma_trim_start_matches_infix(s: Seq<char>, c: char)
    ensures
        has_infix(s, trim_start_matches(s, c)),
{
    lemma_leading_count_props(s, is_char(c));
    let a = leading_count(s, is_char(c)) as int;
    assert(trim_start_matches(s, c) =~= s.subrange(a, s.len() as int));
    lemma_subrange_infix(s, a, s.len() as int);
}

/// Trimming copies of a character at the end keeps a stretch of the text.
pub proof fn lemma_trim_end_matches_infix(s: Seq<char>, c: char)
    ensures
        has_infix(s, trim_end_matches(s, c)),
{
    lemma_trailing_count_props(s, is_char(c));
    let k = trailing_count(s, is_char(c)) as int;
    assert(trim_end_matches(s, c) =~= s.subrange(0, s.len() - k));
    lemma_subrange_infix(s, 0, s.len() - k);
}

/// Each piece of a split occurs in the text that was split.
pub proof fn lemma_split_on_infix(s: Seq<char>, c: char)
    ensures
        forall|i: int|
            0 <= i < split_on(s, c).len() ==> has_infix(s, #[trigger] split_on(s, c)[i]),
    decreases s.len(),
{
    let k = first_index_of(s, c) as int;
    lemma_leading_count_props(s, not_char(c));
    if k >= s.len() {
        assert(s =~= Seq::<char>::empty() + s + Seq::<char>::empty());
    } else {
        let rest = s.skip(k + 1);
        lemma_split_on_infix(rest, c);
        lemma_subrange_infix(s, 0, k);
        assert(s.subrange(0, k) =~= s.take(k));
        lemma_subrange_infix(s, k + 1, s.len() as int);
        assert(s.subrange(k + 1, s.len() as int) =~= rest);
        let parts = split_on(s, c);
        assert forall|i: int| 0 <= i < parts.len() implies has_infix(s, #[trigger] parts[i]) by {
            if i > 0 {
                assert(parts[i] == split_on(rest, c)[i - 1]);
                lemma_infix_trans(s, rest, parts[i]);
            }
        }
    }
}

/// A text that trims to something holds a character other than white
/// space, the first of what is left.
pub proof fn lemma_trim_first(s: Seq<char>) -> (k: int)
    requires
        trim(s).len() > 0,
    ensures
        0 <= k < s.len(),
        s[k] == trim(s)[0],
        !is_white_space(s[k]),
{
    lemma_leading_count_props(s, ws());
    let a = leading_count(s, ws()) as int;
    lemma_trimmed_last(s);
    let t = s.skip(a);
    lemma_trailing_count_props(t, ws());
    let k = trailing_count(t, ws()) as int;
    assert(trim(s) == t.take(t.len() - k));
    assert(trim(s)[0] == s[a]);
    a
}

/// A text without `c` keeps none when trimmed.
pub proof fn lemma_trim_free_of(s: Seq<char>, c: char)
    requires
        free_of(s, c),
    ensures
        free_of(trim(s), c),
{
    lemma_leading_count_props(s, ws());
    let a = leading_count(s, ws()) as int;
    let t = s.skip(a);
    lemma_trailing_count_props(t, ws());
    assert forall|j: int| 0 <= j < trim(s).len() implies #[trigger] trim(s)[j] != c by {
        assert(trim(s)[j] == s[a + j]);
    }
}

/// `String::push`: appends the character to the end of the string.
#[verifier::external_body]
pub(crate) fn push_char(s: &mut String, c: char)
    ensures
        final(s)@ == old(s)@.push(c),
{
    s.push(c);
}

/// The string made of the given characters.
pub fn string_of(cs: &[char]) -> (r: String)
    ensures
        r@ == cs@,
{
    let mut r = String::new();
    let mut i: usize = 0;
    while i < cs.len()
        invariant
            i <= cs@.len(),
            r@ == cs@.take(i as int),
        decreases cs@.len() - i,
    {
        push_char(&mut r, cs[i]);
        assert(cs@.take(i + 1) =~= cs@.take(i as int).push(cs@[i as int]));
        i = i + 1;
    }
    assert(cs@.take(cs@.len() as int) =~= cs@);
    r
}

/// The characters of the string.
pub fn chars_of(s: &str) -> (v: Vec<char>)
    ensures
        v@ == s@,
{
    let mut v: Vec<char> = Vec::new();
    for c in it: s.chars()
        invariant
            v@ == it.seq().take(it.index() as int),
            it.seq() == s@,
    {
        v.push(c);
    }
    v
}

/// What `String::from_utf8_lossy` makes of a byte string.
pub uninterp spec fn utf8_lossy(bytes: Seq<u8>) -> Seq<char>;

/// The text that `String::from_utf8_lossy` makes of a byte string: the
/// plain decoding of valid UTF-8, else the named lossy decoding.
pub open spec fn lossy_text(bytes: Seq<u8>) -> Seq<char> {
    if valid_utf8(bytes) {
        decode_utf8(bytes)
    } else {
        utf8_lossy(bytes)
    }
}

/// `String::from_utf8_lossy`: decodes the bytes as UTF-8, putting U+FFFD in
/// place of each invalid sequence. Stated here: the result is the named
/// decoding of the bytes, and is their plain decoding when they are valid
/// UTF-8. Left unsaid: which characters replace which invalid bytes.
#[verifier::external_body]
pub(crate) fn decode_lossy(bytes: &[u8]) -> (s: String)
    ensures
        s@ == utf8_lossy(bytes@),
        valid_utf8(bytes@) ==> s@ == decode_utf8(bytes@),
{
    String::from_utf8_lossy(bytes).into_owned()
}

} // verus!
