//! Switches that are read straight from the process arguments, and the
//! decision on text piped into standard input.

use vstd::prelude::*;
use vstd::string::*;

verus! {

/// `s` begins with `p`.
pub open spec fn starts_with(s: Seq<char>, p: Seq<char>) -> bool {
    p.len() <= s.len() && s.subrange(0, p.len() as int) == p
}

/// Index of the first `c` in `s` at or after `from`; `s.len()` if there is none.
pub open spec fn find_char(s: Seq<char>, c: char, from: int) -> int
    decreases s.len() - from,
{
    if from < 0 || from >= s.len() {
        s.len() as int
    } else if s[from] == c {
        from
    } else {
        find_char(s, c, from + 1)
    }
}

/// The text between the first `=` and the next one (or the end); `None`
/// when `s` holds no `=`.
pub open spec fn value_field(s: Seq<char>) -> Option<Seq<char>> {
    let i = find_char(s, '=', 0);
    if i >= s.len() {
        None
    } else {
        Some(s.subrange(i + 1, find_char(s, '=', i + 1)))
    }
}

/// A decimal digit.
pub open spec fn is_digit(c: char) -> bool {
    '0' <= c && c <= '9'
}

/// The number that a decimal digit denotes.
pub open spec fn digit_value(c: char) -> int {
    c as u32 - '0' as u32
}

/// Every character of `s` is a decimal digit.
pub open spec fn all_digits(s: Seq<char>) -> bool {
    forall|i: int| 0 <= i < s.len() ==> is_digit(#[trigger] s[i])
}

/// The number that a string of decimal digits denotes.
pub open spec fn digits_value(s: Seq<char>) -> int
    decreases s.len(),
{
    if s.len() == 0 {
        0
    } else {
        digits_value(s.drop_last()) * 10 + digit_value(s.last())
    }
}

/// Decimal text to `u64`: an optional `+`, then at least one digit and
/// nothing but digits, denoting a number that fits.
pub open spec fn parse_decimal(s: Seq<char>) -> Option<u64> {
    let body = if s.len() > 0 && s[0] == '+' {
        s.subrange(1, s.len() as int)
    } else {
        s
    };
    if body.len() > 0 && all_digits(body) && digits_value(body) <= u64::MAX {
        Some(digits_value(body) as u64)
    } else {
        None
    }
}

/// The first element of `args` at or after `from` that begins with `prefix`.
pub open spec fn first_with_prefix(args: Seq<Seq<char>>, prefix: Seq<char>, from: int) -> Option<
    Seq<char>,
>
    decreases args.len() - from,
{
    if from < 0 || from >= args.len() {
        None
    } else if starts_with(args[from], prefix) {
        Some(args[from])
    } else {
        first_with_prefix(args, prefix, from + 1)
    }
}

/// Seconds of the start-up timeout that the arguments ask for: the value
/// field of the first argument beginning with `--timeout`, read as decimal.
pub open spec fn timeout_of(args: Seq<Seq<char>>) -> Option<u64> {
    match first_with_prefix(args, "--timeout"@, 0) {
        None => None,
        Some(a) => match value_field(a) {
            None => None,
            Some(v) => parse_decimal(v),
        },
    }
}

/// Some argument begins with `--disable-win-restore`.
pub open spec fn win_state_disabled(args: Seq<Seq<char>>) -> bool {
    first_with_prefix(args, "--disable-win-restore"@, 0) is Some
}

/// Number of leading elements of `args` that differ from `stop`.
pub open spec fn leading_until(args: Seq<Seq<char>>, stop: Seq<char>, from: int) -> int
    decreases args.len() - from,
{
    if from < 0 || from >= args.len() {
        args.len() as int
    } else if args[from] == stop {
        from
    } else {
        leading_until(args, stop, from + 1)
    }
}

/// The process should detach into the background: between the program
/// name and the first `--`, no argument begins with `--no-fork`.
pub open spec fn fork_wanted(args: Seq<Seq<char>>) -> bool {
    let end = leading_until(args, "--"@, 0);
    first_with_prefix(args.subrange(0, end), "--no-fork"@, 1) is None
}

proof fn lemma_find_char_bounds(s: Seq<char>, c: char, from: int)
    requires
        0 <= from <= s.len(),
    ensures
        from <= find_char(s, c, from) <= s.len(),
        find_char(s, c, from) < s.len() ==> s[find_char(s, c, from)] == c,
        forall|k: int| from <= k < find_char(s, c, from) ==> s[k] != c,
    decreases s.len() - from,
{
    if from < s.len() && s[from] != c {
        lemma_find_char_bounds(s, c, from + 1);
    }
}

proof fn lemma_digits_value_bounds(s: Seq<char>)
    requires
        all_digits(s),
    ensures
        0 <= digits_value(s),
    decreases s.len(),
{
    if s.len() > 0 {
        assert(is_digit(s[s.len() - 1]));
        assert forall|i: int| 0 <= i < s.drop_last().len() implies is_digit(
            #[trigger] s.drop_last()[i],
        ) by {
            assert(s.drop_last()[i] == s[i]);
        }
        lemma_digits_value_bounds(s.drop_last());
    }
}

/// Appending digits never makes the denoted number smaller.
proof fn lemma_digits_value_prefix(s: Seq<char>, n: int)
    requires
        all_digits(s),
        0 <= n <= s.len(),
    ensures
        0 <= digits_value(s.subrange(0, n)) <= digits_value(s),
    decreases s.len() - n,
{
    let p = s.subrange(0, n);
    assert forall|i: int| 0 <= i < p.len() implies is_digit(#[trigger] p[i]) by {
        assert(p[i] == s[i]);
    }
    lemma_digits_value_bounds(p);
    if n == s.len() {
        assert(p =~= s);
    } else {
        let q = s.subrange(0, n + 1);
        assert(q.drop_last() =~= p);
        assert(is_digit(s[n]));
        assert(q.last() == s[n]);
        lemma_digits_value_prefix(s, n + 1);
    }
}

/// Whether `s` begins with `p`.
pub fn has_prefix(s: &str, p: &str) -> (b: bool)
    ensures
        b == starts_with(s@, p@),
{
    let n: usize = p.unicode_len();
    if s.unicode_len() < n {
        return false;
    }
    let mut i: usize = 0;
    while i < n
        invariant
            i <= n,
            n == p@.len(),
            n <= s@.len(),
            forall|k: int| 0 <= k < i ==> s@[k] == p@[k],
        decreases n - i,
    {
        if s.get_char(i) != p.get_char(i) {
            proof {
                assert(s@.subrange(0, n as int)[i as int] == s@[i as int]);
            }
            return false;
        }
        i = i + 1;
    }
    proof {
        assert(s@.subrange(0, n as int) =~= p@);
    }
    true
}

/// Index of the first `c` in `s` at or after `from`, or the length of `s`.
fn position_of(s: &str, c: char, from: usize) -> (r: usize)
    requires
        from <= s@.len(),
    ensures
        r == find_char(s@, c, from as int),
        from <= r <= s@.len(),
{
    let n: usize = s.unicode_len();
    let mut i: usize = from;
    while i < n
        invariant
            from <= i <= n,
            n == s@.len(),
            find_char(s@, c, from as int) == find_char(s@, c, i as int),
        decreases n - i,
    {
        if s.get_char(i) == c {
            return i;
        }
        i = i + 1;
    }
    i
}

/// Reads decimal text as a `u64`.
pub fn parse_u64(s: &str) -> (r: Option<u64>)
    ensures
        r == parse_decimal(s@),
{
    let n: usize = s.unicode_len();
    let start: usize = if n > 0 && s.get_char(0) == '+' {
        1
    } else {
        0
    };
    if start == n {
        return None;
    }
    let ghost body = s@.subrange(start as int, n as int);
    proof {
        if start == 0 {
            assert(body =~= s@);
        }
    }
    let mut acc: u64 = 0;
    let mut i: usize = start;
    while i < n
        invariant
            start <= i <= n,
            n == s@.len(),
            body == s@.subrange(start as int, n as int),
            body.len() > 0,
            body == (if s@.len() > 0 && s@[0] == '+' {
                s@.subrange(1, s@.len() as int)
            } else {
                s@
            }),
            all_digits(body.subrange(0, i - start)),
            acc == digits_value(body.subrange(0, i - start)),
        decreases n - i,
    {
        let c: char = s.get_char(i);
        let ghost next = body.subrange(0, i - start + 1);
        proof {
            assert(body[i - start] == c);
            assert(next.drop_last() =~= body.subrange(0, i - start));
            assert(next.last() == c);
        }
        if !(c >= '0' && c <= '9') {
            proof {
                assert(!is_digit(body[i - start]));
            }
            return None;
        }
        let d: u64 = (c as u32 - '0' as u32) as u64;
        proof {
            assert forall|k: int| 0 <= k < next.len() implies is_digit(#[trigger] next[k]) by {
                if k < i - start {
                    assert(next[k] == body.subrange(0, i - start)[k]);
                }
            }
        }
        if acc > (u64::MAX - d) / 10 {
            proof {
                assert(digits_value(next) > u64::MAX);
                if all_digits(body) {
                    lemma_digits_value_prefix(body, i - start + 1);
                }
            }
            return None;
        }
        acc = acc * 10 + d;
        i = i + 1;
    }
    proof {
        assert(body.subrange(0, n - start) =~= body);
    }
    Some(acc)
}

/// The value field of one argument: what stands between its first `=`
/// and the next one.
fn field_of(a: &str) -> (r: Option<&str>)
    ensures
        match r {
            Some(v) => value_field(a@) == Some(v@),
            None => value_field(a@) is None,
        },
{
    let n: usize = a.unicode_len();
    let i: usize = position_of(a, '=', 0);
    if i >= n {
        None
    } else {
        let j: usize = position_of(a, '=', i + 1);
        Some(a.substring_char(i + 1, j))
    }
}

/// Position of the first argument at or after `from` that begins with
/// `prefix`, or the number of arguments.
fn position_with_prefix(args: &Vec<String>, prefix: &str, from: usize, end: usize) -> (r: usize)
    requires
        from <= end <= args.len(),
    ensures
        from <= r <= end,
        r < end ==> first_with_prefix(
            args.deep_view().subrange(0, end as int),
            prefix@,
            from as int,
        ) == Some(args[r as int]@),
        r == end ==> first_with_prefix(
            args.deep_view().subrange(0, end as int),
            prefix@,
            from as int,
        ) is None,
{
    let ghost view = args.deep_view().subrange(0, end as int);
    let mut i: usize = from;
    while i < end
        invariant
            from <= i <= end <= args.len(),
            view == args.deep_view().subrange(0, end as int),
            first_with_prefix(view, prefix@, from as int) == first_with_prefix(
                view,
                prefix@,
                i as int,
            ),
        decreases end - i,
    {
        proof {
            assert(view[i as int] == args[i as int]@);
        }
        if has_prefix(args[i].as_str(), prefix) {
            return i;
        }
        i = i + 1;
    }
    i
}

/// Seconds of the start-up timeout asked for on the command line.
///
/// The first argument that begins with `--timeout` decides: its value
/// field (after the first `=`) is read as a decimal `u64`. A missing
/// switch, a missing `=` or text that is no such number give `None`.
pub fn nvim_timeout(args: &Vec<String>) -> (r: Option<u64>)
    ensures
        r == timeout_of(args.deep_view()),
{
    proof {
        assert(args.deep_view().subrange(0, args.len() as int) =~= args.deep_view());
    }
    let i: usize = position_with_prefix(args, "--timeout", 0, args.len());
    if i >= args.len() {
        return None;
    }
    match field_of(args[i].as_str()) {
        None => None,
        Some(v) => parse_u64(v),
    }
}

/// Whether the command line switches off restoring the window state: some
/// argument begins with `--disable-win-restore`.
pub fn nvim_disable_win_state(args: &Vec<String>) -> (r: bool)
    ensures
        r == win_state_disabled(args.deep_view()),
{
    proof {
        assert(args.deep_view().subrange(0, args.len() as int) =~= args.deep_view());
    }
    let i: usize = position_with_prefix(args, "--disable-win-restore", 0, args.len());
    i < args.len()
}

/// Whether the process should fork into the background: it should unless
/// an argument after the program name and before the first `--` begins
/// with `--no-fork`.
pub fn want_fork(args: &Vec<String>) -> (r: bool)
    ensures
        r == fork_wanted(args.deep_view()),
{
    let end: usize = position_of_arg(args, "--");
    if end == 0 {
        return true;
    }
    let i: usize = position_with_prefix(args, "--no-fork", 1, end);
    i >= end
}

/// Position of the first argument equal to `stop`, or the number of
/// arguments.
fn position_of_arg(args: &Vec<String>, stop: &str) -> (r: usize)
    ensures
        r == leading_until(args.deep_view(), stop@, 0),
        r <= args.len(),
{
    let n: usize = args.len();
    let mut i: usize = 0;
    while i < n
        invariant
            i <= n == args.len(),
            leading_until(args.deep_view(), stop@, 0) == leading_until(
                args.deep_view(),
                stop@,
                i as int,
            ),
        decreases n - i,
    {
        proof {
            assert(args.deep_view()[i as int] == args[i as int]@);
        }
        if str_equal(args[i].as_str(), stop) {
            return i;
        }
        i = i + 1;
    }
    i
}

/// Whether two strings hold the same characters.
pub fn str_equal(a: &str, b: &str) -> (r: bool)
    ensures
        r == (a@ == b@),
{
    let n: usize = a.unicode_len();
    if b.unicode_len() != n {
        return false;
    }
    let mut i: usize = 0;
    while i < n
        invariant
            i <= n,
            n == a@.len(),
            n == b@.len(),
            forall|k: int| 0 <= k < i ==> a@[k] == b@[k],
        decreases n - i,
    {
        if a.get_char(i) != b.get_char(i) {
            return false;
        }
        i = i + 1;
    }
    proof {
        assert(a@ =~= b@);
    }
    true
}

/// Text piped into standard input, as the session receives it: the text
/// that was read, unless standard input is an interactive terminal, the
/// read failed (`read` is `None`) or nothing was read.
pub fn piped_text(interactive: bool, read: Option<String>) -> (r: Option<String>)
    ensures
        r == if !interactive && read is Some && read->0@.len() > 0 {
            read
        } else {
            None
        },
{
    if interactive {
        return None;
    }
    match read {
        Some(text) => {
            if text.as_str().unicode_len() > 0 {
                Some(text)
            } else {
                None
            }
        },
        None => None,
    }
}

} // verus!
