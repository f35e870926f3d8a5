//! Formatting of counts, lists, and code-like text for messages.
use crate::count::spec_count;
use crate::text::decimal_string;
use vstd::prelude::*;

verus! {

/// `items` joined with `sep` between consecutive items.
pub open spec fn join(items: Seq<Seq<char>>, sep: Seq<char>) -> Seq<char>
    decreases items.len(),
{
    if items.len() == 0 {
        Seq::empty()
    } else if items.len() == 1 {
        items[0]
    } else {
        join(items.drop_last(), sep) + sep + items.last()
    }
}

/// A list in prose: `a`, `a and b`, or `a, b, and c` (with an Oxford comma).
pub open spec fn spec_series(items: Seq<Seq<char>>) -> Seq<char> {
    if items.len() == 0 {
        Seq::empty()
    } else if items.len() == 1 {
        items[0]
    } else if items.len() == 2 {
        items[0] + " and "@ + items[1]
    } else {
        join(items.drop_last(), ", "@) + ", and "@ + items.last()
    }
}

/// The noun with the given multiplicity, pluralized if necessary.
pub open spec fn spec_number(n: nat, noun: Seq<char>) -> Seq<char> {
    spec_count(n, noun)
}

/// Takes a number and a noun and returns a string representing the noun with the given
/// multiplicity, pluralizing if necessary. For example, `(3, "cow")` becomes `"3 cows"`.
pub fn number(n: usize, noun: &str) -> (res: String)
    ensures
        res@ == spec_number(n as nat, noun@),
{
    let mut res = decimal_string(n);
    proof { reveal_strlit(" "); }
    res.append(" ");
    res.append(noun);
    if n != 1 {
        proof { reveal_strlit("s"); }
        res.append("s");
    }
    res
}

/// Takes a slice of strings and returns a comma-separated list with the word "and" (and an
/// Oxford comma, if applicable) between the last two items.
pub fn series(items: &[String]) -> (res: String)
    ensures
        res@ == spec_series(items@.map_values(|s: String| s@)),
{
    let ghost v = items@.map_values(|s: String| s@);
    let n = items.len();
    proof {
        reveal_strlit(" and ");
        reveal_strlit(", ");
        reveal_strlit(", and ");
    }
    if n == 0 {
        String::new()
    } else if n == 1 {
        items[0].clone()
    } else if n == 2 {
        let mut res = items[0].clone();
        res.append(" and ");
        res.append(items[1].as_str());
        res
    } else {
        let mut res = items[0].clone();
        let mut i: usize = 1;
        while i < n - 1
            invariant
                n == items@.len(),
                n >= 3,
                1 <= i <= n - 1,
                v == items@.map_values(|s: String| s@),
                res@ == join(v.subrange(0, i as int), ", "@),
            decreases n - i,
        {
            let ghost prev = v.subrange(0, i as int);
            res.append(", ");
            res.append(items[i].as_str());
            assert(v.subrange(0, i + 1).drop_last() =~= prev);
            i = i + 1;
        }
        assert(v.subrange(0, (n - 1) as int) =~= v.drop_last());
        res.append(", and ");
        res.append(items[n - 1].as_str());
        res
    }
}

/// Whether `r` is how `code_str` may render `s`: in backquotes when standard output is not a
/// terminal, and otherwise as `colored` renders `s` in magenta.
pub open spec fn code_rendering(r: Seq<char>, s: Seq<char>) -> bool {
    ||| r == "`"@ + s + "`"@
    ||| styled_magenta(r, s)
}

/// The terminal escape code that turns text magenta.
pub open spec fn magenta_code() -> Seq<char> {
    "\u{1b}[35m"@
}

/// The terminal escape code that resets the style.
pub open spec fn reset_code() -> Seq<char> {
    "\u{1b}[0m"@
}

/// `s` holds the reset code somewhere.
pub open spec fn holds_reset(s: Seq<char>) -> bool {
    exists|i: int| 0 <= i && i + 4 <= s.len() && #[trigger] s.subrange(i, i + 4) == reset_code()
}

/// What styling `s` in magenta can give: `s` unchanged when colors are switched off, and
/// otherwise `s` between the magenta code and the reset code. When `s` itself holds the
/// reset code, the style is opened again after each one inside, so then only the opening
/// and closing codes are stated.
pub open spec fn styled_magenta(r: Seq<char>, s: Seq<char>) -> bool {
    ||| r == s
    ||| r == magenta_code() + s + reset_code()
    ||| (holds_reset(s) && r.len() >= 9 && r.subrange(0, 5) == magenta_code() && r.subrange(
        r.len() - 4,
        r.len() as int,
    ) == reset_code())
}

/// Unless it holds the reset code, text rendered as code appears in its rendering as it is.
pub proof fn lemma_rendering_shows_text(r: Seq<char>, s: Seq<char>)
    requires
        code_rendering(r, s),
        !holds_reset(s),
    ensures
        exists|i: int| 0 <= i && i + s.len() <= r.len() && #[trigger] r.subrange(i, i + s.len()) == s,
{
    reveal_strlit("`");
    reveal_strlit("\u{1b}[35m");
    reveal_strlit("\u{1b}[0m");
    if r == "`"@ + s + "`"@ {
        assert(r.subrange(1int, 1int + s.len()) =~= s);
    } else if r == s {
        assert(r.subrange(0int, 0int + s.len()) =~= s);
    } else {
        assert(r == magenta_code() + s + reset_code());
        assert(magenta_code().len() == 5);
        assert(r.subrange(5int, 5int + s.len()) =~= s);
    }
}

/// Whether standard output is a terminal, by `atty::is(atty::Stream::Stdout)`. The answer
/// depends on how the process was started, so nothing is stated of it.
#[verifier::external_body]
fn stdout_is_terminal() -> bool {
    atty::is(atty::Stream::Stdout)
}

/// Renders `s` in magenta with `colored::Colorize::magenta` and its `Display`: `s` between
/// the codes `ESC[35m` and `ESC[0m`, or `s` unchanged when colors are switched off. Which of
/// the two depends on the process environment (`colored`'s global switch and variables such
/// as `NO_COLOR`), so the contract says only that it is one of them. When `s` holds the
/// reset code, `colored` opens the style again after each one, which is left unsaid beyond
/// the opening and closing codes.
#[verifier::external_body]
fn magenta(s: &str) -> (res: String)
    ensures
        styled_magenta(res@, s@),
{
    colored::Colorize::magenta(s).to_string()
}

/// Renders "code-like" text for standard output: in magenta when it is a terminal, and in
/// backquotes otherwise.
pub fn render_code(s: &str, terminal: bool) -> (r: String)
    ensures
        !terminal ==> r@ == "`"@ + s@ + "`"@,
        terminal ==> styled_magenta(r@, s@),
{
    if terminal {
        magenta(s)
    } else {
        proof { reveal_strlit("`"); }
        let mut res = String::new();
        res.append("`");
        res.append(s);
        res.append("`");
        res
    }
}

/// Formats "code-like" text, such as a task name or a file path: in magenta if standard
/// output is a terminal, and in backquotes otherwise (`render_code`, given whether it is a
/// terminal).
pub fn code_str(s: &str) -> (res: String)
    ensures
        code_rendering(res@, s@),
{
    render_code(s, stdout_is_terminal())
}

} // verus!
