use vstd::prelude::*;
use vstd::string::{StrSliceExecFns, StringExecFns};

use crate::squash::{joined, lemma_split_char_nonempty, split_at_char, split_char};
use crate::stack::strings;
use crate::text::{push_char, trim_start, trim_start_of};

verus! {

/// `c` repeated `n` times.
pub open spec fn repeated(c: char, n: nat) -> Seq<char> {
    Seq::new(n, |i: int| c)
}

/// Appends `line` to `stream`, then a newline, then a line of
/// `underline_char` as long as `line`, then a newline.
pub fn write_underlined(stream: &mut String, line: &str, underline_char: char)
    ensures
        final(stream)@ == old(stream)@ + line@ + "\n"@ + repeated(underline_char, line@.len())
            + "\n"@,
{
    stream.append(line);
    stream.append("\n");
    let ghost start = stream@;
    let n = line.unicode_len();
    let mut i: usize = 0;
    while i < n
        invariant
            i <= n == line@.len(),
            stream@ == start + repeated(underline_char, i as nat),
        decreases n - i,
    {
        push_char(stream, underline_char);
        proof {
            assert(start + repeated(underline_char, (i + 1) as nat) =~= (start + repeated(
                underline_char,
                i as nat,
            )).push(underline_char));
        }
        i = i + 1;
    }
    stream.append("\n");
    proof {
        assert(stream@ =~= old(stream)@ + line@ + "\n"@ + repeated(underline_char, line@.len())
            + "\n"@);
    }
}

/// The position of the first blank-line break (`"\n\n"`) of `t` at or after
/// `k`, or -1 where there is none.
pub open spec fn first_break_from(t: Seq<char>, k: int) -> int
    decreases t.len() - k,
{
    if k < 0 || k + 1 >= t.len() {
        -1
    } else if t[k] == '\n' && t[k + 1] == '\n' {
        k
    } else {
        first_break_from(t, k + 1)
    }
}

/// The paragraphs of `t`: the parts between blank-line breaks, the last one
/// running to the end; an empty text has none.
pub open spec fn paragraphs_of(t: Seq<char>) -> Seq<Seq<char>>
    decreases t.len(),
{
    let i = first_break_from(t, 0);
    if t.len() == 0 {
        seq![]
    } else if i < 0 || i + 2 > t.len() {
        seq![t]
    } else {
        seq![t.subrange(0, i)] + paragraphs_of(t.subrange(i + 2, t.len() as int))
    }
}

/// The paragraphs of `text`.
#[verifier::rlimit(30)]
pub fn paragraphs(text: &str) -> (r: Vec<String>)
    ensures
        strings(r@) == paragraphs_of(text@),
{
    let n = text.unicode_len();
    let mut out: Vec<String> = Vec::new();
    let mut start: usize = 0;
    proof {
        assert(text@.subrange(0, n as int) =~= text@);
        assert(strings(out@) + paragraphs_of(text@) =~= paragraphs_of(text@));
    }
    while start < n
        invariant
            n == text@.len(),
            start <= n,
            paragraphs_of(text@) == strings(out@) + paragraphs_of(
                text@.subrange(start as int, n as int),
            ),
        decreases n - start,
    {
        let ghost rest = text@.subrange(start as int, n as int);
        let mut j: usize = 0;
        let mut found = false;
        while start + j + 1 < n && !found
            invariant
                n == text@.len(),
                start < n,
                rest == text@.subrange(start as int, n as int),
                rest.len() == n - start,
                start + j < n,
                found ==> start + j + 1 < n && first_break_from(rest, 0) == j,
                !found ==> first_break_from(rest, 0) == first_break_from(rest, j as int),
            decreases n - start - j + (if found { 0int } else { 1int }),
        {
            let c0 = text.get_char(start + j);
            let c1 = text.get_char(start + j + 1);
            proof {
                assert(rest[j as int] == c0 && rest[j + 1] == c1);
            }
            if c0 == '\n' && c1 == '\n' {
                found = true;
            } else {
                j = j + 1;
            }
        }
        proof {
            if !found {
                assert(first_break_from(rest, j as int) == -1);
            }
        }
        let ghost before = out@;
        if found {
            let para = String::from_str(text.substring_char(start, start + j));
            out.push(para);
            proof {
                assert(rest.subrange(0, j as int) =~= para@);
                assert(rest.subrange(j + 2, rest.len() as int) =~= text@.subrange(
                    start + j + 2,
                    n as int,
                ));
                assert(strings(out@) =~= strings(before).push(para@));
                assert(paragraphs_of(rest) == seq![para@] + paragraphs_of(
                    text@.subrange(start + j + 2, n as int),
                ));
                assert(strings(out@) + paragraphs_of(text@.subrange(start + j + 2, n as int))
                    =~= strings(before) + paragraphs_of(rest));
            }
            start = start + j + 2;
        } else {
            let para = String::from_str(text.substring_char(start, n));
            out.push(para);
            proof {
                assert(rest =~= para@);
                assert(strings(out@) =~= strings(before).push(para@));
                assert(text@.subrange(n as int, n as int) =~= Seq::<char>::empty());
                assert(paragraphs_of(Seq::<char>::empty()) == Seq::<Seq<char>>::empty());
                assert(strings(out@) + paragraphs_of(text@.subrange(n as int, n as int))
                    =~= strings(before) + paragraphs_of(rest));
            }
            start = n;
        }
    }
    proof {
        assert(text@.subrange(n as int, n as int) =~= Seq::<char>::empty());
        assert(strings(out@) + Seq::<Seq<char>>::empty() =~= strings(out@));
    }
    out
}

/// The number of bytes that `c` takes in UTF-8.
pub open spec fn utf8_width(c: char) -> nat {
    if (c as u32) < 0x80 {
        1
    } else if (c as u32) < 0x800 {
        2
    } else if (c as u32) < 0x10000 {
        3
    } else {
        4
    }
}

/// Where the next wrapped line of `t` ends, scanning from position `j`, whose
/// byte offset is `off` (held at `width` once it gets there), with `last` the
/// last space seen before `width` bytes: the scan stops at the first space at
/// or past `width` bytes and answers `last`; reaching the end it answers 0,
/// which means that the whole text is one line.
pub open spec fn wrap_point(t: Seq<char>, width: nat, j: int, off: nat, last: int) -> int
    decreases t.len() - j,
{
    if j < 0 || j >= t.len() {
        0
    } else if t[j] == ' ' && off >= width {
        last
    } else {
        let next_off = if off + utf8_width(t[j]) > width {
            width
        } else {
            off + utf8_width(t[j])
        };
        wrap_point(t, width, j + 1, next_off, if t[j] == ' ' { j } else { last })
    }
}

/// The lines of `t` wrapped at `width` bytes: each line ends before the last
/// space within `width` bytes, and that space is dropped; a text with no such
/// space, or whose spaces all fall within `width`, stays one line.
pub open spec fn wrapped_lines(t: Seq<char>, width: nat) -> Seq<Seq<char>>
    decreases t.len(),
{
    let k = wrap_point(t, width, 0, 0, 0);
    if t.len() == 0 {
        seq![]
    } else if k <= 0 || k >= t.len() {
        seq![t]
    } else {
        seq![t.subrange(0, k)] + wrapped_lines(t.subrange(k + 1, t.len() as int), width)
    }
}

/// The number of bytes that `c` takes in UTF-8.
fn char_width(c: char) -> (r: usize)
    ensures
        r == utf8_width(c),
{
    let code = c as u32;
    if code < 0x80 {
        1
    } else if code < 0x800 {
        2
    } else if code < 0x10000 {
        3
    } else {
        4
    }
}

/// Where the line of `text` that starts at `start` ends, as `wrap_point` says
/// (counted from `start`).
#[verifier::rlimit(30)]
fn next_wrap(text: &str, n: usize, start: usize, width: usize) -> (k: usize)
    requires
        n == text@.len(),
        start < n,
    ensures
        k as int == wrap_point(text@.subrange(start as int, n as int), width as nat, 0, 0, 0),
{
    let ghost rest = text@.subrange(start as int, n as int);
    let mut j: usize = 0;
    let mut off: usize = 0;
    let mut last: usize = 0;
    let mut result: Option<usize> = None;
    while start + j < n && result.is_none()
        invariant
            n == text@.len(),
            start < n,
            rest == text@.subrange(start as int, n as int),
            rest.len() == n - start,
            start + j <= n,
            off <= width,
            last <= j,
            result matches Some(k) ==> k as int == wrap_point(rest, width as nat, 0, 0, 0),
            result is None ==> wrap_point(rest, width as nat, 0, 0, 0) == wrap_point(
                rest,
                width as nat,
                j as int,
                off as nat,
                last as int,
            ),
        decreases n - start - j + (if result is None { 1int } else { 0int }),
    {
        let c = text.get_char(start + j);
        proof {
            assert(rest[j as int] == c);
        }
        if c == ' ' && off >= width {
            result = Some(last);
        } else {
            let w = char_width(c);
            off = if w > width - off {
                width
            } else {
                off + w
            };
            if c == ' ' {
                last = j;
            }
            j = j + 1;
        }
    }
    match result {
        Some(k) => k,
        None => 0,
    }
}

/// The lines of `text` wrapped at `width` bytes.
#[verifier::rlimit(30)]
pub fn wrap(text: &str, width: usize) -> (r: Vec<String>)
    ensures
        strings(r@) == wrapped_lines(text@, width as nat),
{
    let n = text.unicode_len();
    let mut out: Vec<String> = Vec::new();
    let mut start: usize = 0;
    proof {
        assert(text@.subrange(0, n as int) =~= text@);
        assert(strings(out@) + wrapped_lines(text@, width as nat) =~= wrapped_lines(
            text@,
            width as nat,
        ));
    }
    while start < n
        invariant
            n == text@.len(),
            start <= n,
            wrapped_lines(text@, width as nat) == strings(out@) + wrapped_lines(
                text@.subrange(start as int, n as int),
                width as nat,
            ),
        decreases n - start,
    {
        let ghost rest = text@.subrange(start as int, n as int);
        let k = next_wrap(text, n, start, width);
        let ghost before = out@;
        if k == 0 || k >= n - start {
            let line = String::from_str(text.substring_char(start, n));
            out.push(line);
            proof {
                assert(rest =~= line@);
                assert(strings(out@) =~= strings(before).push(line@));
                assert(text@.subrange(n as int, n as int) =~= Seq::<char>::empty());
                assert(wrapped_lines(Seq::<char>::empty(), width as nat) == Seq::<Seq<char>>::empty());
                assert(strings(out@) + wrapped_lines(text@.subrange(n as int, n as int), width as nat)
                    =~= strings(before) + wrapped_lines(rest, width as nat));
            }
            start = n;
        } else {
            let line = String::from_str(text.substring_char(start, start + k));
            out.push(line);
            proof {
                assert(rest.subrange(0, k as int) =~= line@);
                assert(rest.subrange(k + 1, rest.len() as int) =~= text@.subrange(
                    start + k + 1,
                    n as int,
                ));
                assert(strings(out@) =~= strings(before).push(line@));
                assert(strings(out@) + wrapped_lines(text@.subrange(start + k + 1, n as int), width as nat)
                    =~= strings(before) + wrapped_lines(rest, width as nat));
            }
            start = start + k + 1;
        }
    }
    proof {
        assert(text@.subrange(n as int, n as int) =~= Seq::<char>::empty());
        assert(strings(out@) + Seq::<Seq<char>>::empty() =~= strings(out@));
    }
    out
}

/// Whether `s` starts with `p`.
pub open spec fn starts_with(s: Seq<char>, p: Seq<char>) -> bool {
    p.len() <= s.len() && s.subrange(0, p.len() as int) == p
}

/// The first position at or after `k` where `s` holds `c`, or -1.
pub open spec fn first_from(s: Seq<char>, c: char, k: int) -> int
    decreases s.len() - k,
{
    if k < 0 || k >= s.len() {
        -1
    } else if s[k] == c {
        k
    } else {
        first_from(s, c, k + 1)
    }
}

/// The last position before `k` where `s` holds `c`, or -1.
pub open spec fn last_before(s: Seq<char>, c: char, k: int) -> int
    decreases k,
{
    if k <= 0 || k > s.len() {
        -1
    } else if s[k - 1] == c {
        k - 1
    } else {
        last_before(s, c, k - 1)
    }
}

/// The first position at or after `k` of a space or a newline, or -1.
pub open spec fn first_separator(s: Seq<char>, k: int) -> int
    decreases s.len() - k,
{
    if k < 0 || k >= s.len() {
        -1
    } else if s[k] == ' ' || s[k] == '\n' {
        k
    } else {
        first_separator(s, k + 1)
    }
}

/// The words of `t`, each with the space or newline that ends it; the last
/// one may have none.
pub open spec fn words_of(t: Seq<char>) -> Seq<Seq<char>>
    decreases t.len(),
{
    let i = first_separator(t, 0);
    if t.len() == 0 {
        seq![]
    } else if i < 0 || i >= t.len() {
        seq![t]
    } else {
        seq![t.subrange(0, i + 1)] + words_of(t.subrange(i + 1, t.len() as int))
    }
}

/// A `git-cmd(N)` word as a link to that manual page, what follows the `)`
/// kept; the word as it is where it has no `(` before its last `)`.
pub open spec fn git_page_link(w: Seq<char>) -> Seq<char> {
    let r = w.subrange("git-"@.len() as int, w.len() as int);
    let p = last_before(r, ')', r.len() as int);
    let cs = r.subrange(0, p);
    let q = first_from(cs, '(', 0);
    if p < 0 || q < 0 {
        w
    } else {
        "linkgit:git-"@ + cs.subrange(0, q) + "["@ + cs.subrange(q + 1, cs.len() as int) + "]"@
            + r.subrange(p + 1, r.len() as int)
    }
}

/// A quoted command, `'git` or `'stg` in `w` and `cmd'` starting `next`, as
/// a link `head` + command + `tag`, what follows the quote kept; both words as
/// they are where `next` has no quote.
pub open spec fn quoted_link(w: Seq<char>, next: Seq<char>, head: Seq<char>, tag: Seq<char>) -> Seq<
    char,
> {
    let q = first_from(next, '\'', 0);
    if q < 0 {
        w + next
    } else {
        head + next.subrange(0, q) + tag + next.subrange(q + 1, next.len() as int)
    }
}

/// The words `ws` with their references to commands made links.
pub open spec fn link_words(ws: Seq<Seq<char>>) -> Seq<char>
    decreases ws.len(),
{
    if ws.len() == 0 {
        seq![]
    } else if starts_with(ws[0], "git-"@) {
        git_page_link(ws[0]) + link_words(ws.drop_first())
    } else if starts_with(ws[0], "'git"@) || starts_with(ws[0], "'stg"@) {
        if ws.len() < 2 {
            ws[0]
        } else if starts_with(ws[0], "'git"@) {
            quoted_link(ws[0], ws[1], "linkgit:git-"@, "[1]"@) + link_words(
                ws.subrange(2, ws.len() as int),
            )
        } else {
            quoted_link(ws[0], ws[1], "linkstg:"@, "[]"@) + link_words(
                ws.subrange(2, ws.len() as int),
            )
        }
    } else {
        ws[0] + link_words(ws.drop_first())
    }
}

/// Whether `s` starts with `p`.
pub(crate) fn has_prefix(s: &str, p: &str) -> (r: bool)
    ensures
        r == starts_with(s@, p@),
{
    let l = p.unicode_len();
    if s.unicode_len() < l {
        return false;
    }
    String::from_str(s.substring_char(0, l)) == String::from_str(p)
}

/// The first position of `c` in `s`.
fn find_first(s: &str, c: char) -> (r: Option<usize>)
    ensures
        match r {
            Some(i) => i as int == first_from(s@, c, 0) && i < s@.len(),
            None => first_from(s@, c, 0) == -1,
        },
{
    let n = s.unicode_len();
    let mut i: usize = 0;
    while i < n
        invariant
            n == s@.len(),
            i <= n,
            first_from(s@, c, 0) == first_from(s@, c, i as int),
        decreases n - i,
    {
        if s.get_char(i) == c {
            return Some(i);
        }
        i = i + 1;
    }
    None
}

/// The last position of `c` in `s`.
fn find_last(s: &str, c: char) -> (r: Option<usize>)
    ensures
        match r {
            Some(i) => i as int == last_before(s@, c, s@.len() as int) && i < s@.len(),
            None => last_before(s@, c, s@.len() as int) == -1,
        },
{
    let n = s.unicode_len();
    let mut k: usize = n;
    while k > 0
        invariant
            n == s@.len(),
            k <= n,
            last_before(s@, c, n as int) == last_before(s@, c, k as int),
        decreases k,
    {
        if s.get_char(k - 1) == c {
            return Some(k - 1);
        }
        k = k - 1;
    }
    None
}

/// `git_page_link` of `w`, which starts with `git-`.
fn git_link(w: &str) -> (r: String)
    requires
        starts_with(w@, "git-"@),
    ensures
        r@ == git_page_link(w@),
{
    let n = w.unicode_len();
    let l = "git-".unicode_len();
    let rest = w.substring_char(l, n);
    let rn = rest.unicode_len();
    match find_last(rest, ')') {
        None => String::from_str(w),
        Some(p) => {
            let cs = rest.substring_char(0, p);
            match find_first(cs, '(') {
                None => String::from_str(w),
                Some(q) => {
                    let cn = cs.unicode_len();
                    let mut out = String::from_str("linkgit:git-");
                    out.append(cs.substring_char(0, q));
                    out.append("[");
                    out.append(cs.substring_char(q + 1, cn));
                    out.append("]");
                    out.append(rest.substring_char(p + 1, rn));
                    out
                },
            }
        },
    }
}

/// `quoted_link` of `w` and `next`.
fn quote_link(w: &str, next: &str, head: &str, tag: &str) -> (r: String)
    ensures
        r@ == quoted_link(w@, next@, head@, tag@),
{
    match find_first(next, '\'') {
        None => {
            let mut out = String::from_str(w);
            out.append(next);
            out
        },
        Some(q) => {
            let n = next.unicode_len();
            let mut out = String::from_str(head);
            out.append(next.substring_char(0, q));
            out.append(tag);
            out.append(next.substring_char(q + 1, n));
            out
        },
    }
}

/// Where the first word of `text` from `start` ends.
fn word_end(text: &str, n: usize, start: usize) -> (e: usize)
    requires
        n == text@.len(),
        start < n,
    ensures
        start < e <= n,
        words_of(text@.subrange(start as int, n as int)) == seq![
            text@.subrange(start as int, e as int),
        ] + words_of(text@.subrange(e as int, n as int)),
{
    let ghost rest = text@.subrange(start as int, n as int);
    let mut j: usize = 0;
    while start + j < n
        invariant
            n == text@.len(),
            start < n,
            rest == text@.subrange(start as int, n as int),
            start + j <= n,
            first_separator(rest, 0) == first_separator(rest, j as int),
        decreases n - start - j,
    {
        let c = text.get_char(start + j);
        proof {
            assert(rest[j as int] == c);
        }
        if c == ' ' || c == '\n' {
            proof {
                assert(rest.subrange(0, j + 1) =~= text@.subrange(start as int, start + j + 1));
                assert(rest.subrange(j + 1, rest.len() as int) =~= text@.subrange(
                    start + j + 1,
                    n as int,
                ));
            }
            return start + j + 1;
        }
        j = j + 1;
    }
    proof {
        assert(text@.subrange(n as int, n as int) =~= Seq::<char>::empty());
        assert(words_of(Seq::<char>::empty()) == Seq::<Seq<char>>::empty());
        assert(seq![rest] + Seq::<Seq<char>>::empty() =~= seq![rest]);
    }
    n
}

/// `text` with references to commands made links: `git-cmd(N)` becomes
/// `linkgit:git-cmd[N]`, `'git cmd'` becomes `linkgit:git-cmd[1]`, and
/// `'stg cmd'` becomes `linkstg:cmd[]`.
#[verifier::rlimit(30)]
pub fn make_links(text: &str) -> (r: String)
    ensures
        r@ == link_words(words_of(text@)),
{
    let n = text.unicode_len();
    let mut out = String::new();
    let mut start: usize = 0;
    proof {
        assert(text@.subrange(0, n as int) =~= text@);
        assert(out@ + link_words(words_of(text@)) =~= link_words(words_of(text@)));
    }
    while start < n
        invariant
            n == text@.len(),
            start <= n,
            link_words(words_of(text@)) == out@ + link_words(
                words_of(text@.subrange(start as int, n as int)),
            ),
        decreases n - start,
    {
        let ghost ws = words_of(text@.subrange(start as int, n as int));
        let end = word_end(text, n, start);
        let word = text.substring_char(start, end);
        proof {
            assert(ws[0] == word@);
            assert(ws.drop_first() =~= words_of(text@.subrange(end as int, n as int)));
        }
        if has_prefix(word, "git-") {
            let link = git_link(word);
            out.append(link.as_str());
            start = end;
        } else if has_prefix(word, "'git") || has_prefix(word, "'stg") {
            if end < n {
                let end2 = word_end(text, n, end);
                let next = text.substring_char(end, end2);
                proof {
                    assert(ws[1] == next@);
                    assert(ws.subrange(2, ws.len() as int) =~= words_of(
                        text@.subrange(end2 as int, n as int),
                    ));
                }
                let link = if has_prefix(word, "'git") {
                    quote_link(word, next, "linkgit:git-", "[1]")
                } else {
                    quote_link(word, next, "linkstg:", "[]")
                };
                out.append(link.as_str());
                start = end2;
            } else {
                proof {
                    assert(text@.subrange(n as int, n as int) =~= Seq::<char>::empty());
                    assert(words_of(Seq::<char>::empty()) == Seq::<Seq<char>>::empty());
                    assert(ws.len() == 1);
                }
                out.append(word);
                proof {
                    assert(out@ + link_words(Seq::<Seq<char>>::empty()) =~= out@);
                }
                start = n;
            }
        } else {
            out.append(word);
            start = end;
        }
    }
    proof {
        assert(text@.subrange(n as int, n as int) =~= Seq::<char>::empty());
        assert(words_of(Seq::<char>::empty()) == Seq::<Seq<char>>::empty());
        assert(out@ + Seq::<char>::empty() =~= out@);
    }
    out
}

/// The width that man page text is wrapped at.
pub const WIDTH: usize = 80;

/// The width of the indented first paragraph of an entry.
pub const INDENTED_WIDTH: usize = 76;

/// What the options section of a manual page reads of one command-line
/// argument.
#[derive(Debug)]
pub struct ArgDoc {
    pub id: String,
    pub hidden: bool,
    pub positional: bool,
    pub takes_values: bool,
    pub value_names: Option<Vec<String>>,
    /// The possible values, each with whether it is hidden.
    pub possible_values: Vec<(String, bool)>,
    /// The short flag and its visible aliases.
    pub shorts: Vec<char>,
    /// The long flag and its visible aliases.
    pub longs: Vec<String>,
    pub require_equals: bool,
    /// The long help, or else the short help.
    pub help: String,
}

/// A line with the `\r` of a `\r\n` ending removed.
pub open spec fn without_cr(l: Seq<char>) -> Seq<char> {
    if l.len() > 0 && l.last() == '\r' {
        l.drop_last()
    } else {
        l
    }
}

/// The lines of a text, as `str::lines` reads them: the pieces between
/// newlines, each that a newline ends without a `\r` before it, and no empty
/// last piece.
pub open spec fn lines_of(s: Seq<char>) -> Seq<Seq<char>> {
    let p = split_char(s, '\n');
    let q = if p.last().len() == 0 {
        p.drop_last()
    } else {
        p
    };
    Seq::new(
        q.len(),
        |i: int|
            if i < p.len() - 1 {
                without_cr(q[i])
            } else {
                q[i]
            },
    )
}

/// The lines of `s`, as `lines_of` says.
fn text_lines(s: &str) -> (r: Vec<String>)
    ensures
        strings(r@) == lines_of(s@),
{
    let pieces = split_at_char(s, '\n');
    let ghost p = strings(pieces@);
    proof {
        lemma_split_char_nonempty(s@, '\n');
    }
    let n = pieces.len();
    let count = if pieces[n - 1].unicode_len() == 0 {
        n - 1
    } else {
        n
    };
    let mut out: Vec<String> = Vec::new();
    let mut i: usize = 0;
    while i < count
        invariant
            i <= count <= n,
            n == pieces@.len(),
            p == strings(pieces@),
            p == split_char(s@, '\n'),
            count == lines_of(s@).len(),
            strings(out@) == lines_of(s@).subrange(0, i as int),
        decreases count - i,
    {
        let piece = pieces[i].as_str();
        let len = piece.unicode_len();
        let line = if i < n - 1 && len > 0 && piece.get_char(len - 1) == '\r' {
            String::from_str(piece.substring_char(0, len - 1))
        } else {
            String::from_str(piece)
        };
        let ghost before = out@;
        out.push(line);
        proof {
            assert(line@ == lines_of(s@)[i as int]);
            assert(strings(out@) =~= strings(before).push(line@));
            assert(lines_of(s@).subrange(0, i + 1) =~= lines_of(s@).subrange(0, i as int).push(
                lines_of(s@)[i as int],
            ));
        }
        i = i + 1;
    }
    proof {
        assert(lines_of(s@).subrange(0, count as int) =~= lines_of(s@));
    }
    out
}

/// The texts of `parts`, one after another.
pub open spec fn concat(parts: Seq<Seq<char>>) -> Seq<char>
    decreases parts.len(),
{
    if parts.len() == 0 {
        seq![]
    } else {
        concat(parts.drop_last()) + parts.last()
    }
}

/// `n` in angle brackets.
pub open spec fn angled(n: Seq<char>) -> Seq<char> {
    "<"@ + n + ">"@
}

/// The names of the possible values that are not hidden, in order.
pub open spec fn visible_values(pv: Seq<(String, bool)>) -> Seq<Seq<char>>
    decreases pv.len(),
{
    if pv.len() == 0 {
        seq![]
    } else if pv.last().1 {
        visible_values(pv.drop_last())
    } else {
        visible_values(pv.drop_last()).push(pv.last().0@)
    }
}

/// What an argument's flags show of its value: its value names in angle
/// brackets, or else its visible possible values; nothing where it takes
/// none.
pub open spec fn value_text(a: ArgDoc) -> Seq<char> {
    if !a.takes_values {
        seq![]
    } else {
        match a.value_names {
            Some(v) => joined(strings(v@).map_values(|n: Seq<char>| angled(n)), " "@),
            None => "("@ + joined(visible_values(a.possible_values@), "|"@) + ")"@,
        }
    }
}

/// The entry line of a short flag.
pub open spec fn short_line(s: char, v: Seq<char>, eq: bool) -> Seq<char> {
    if v.len() == 0 {
        "-"@ + seq![s] + "::\n"@
    } else if eq {
        "-"@ + seq![s] + "[="@ + v + "]::\n"@
    } else {
        "-"@ + seq![s] + " "@ + v + "::\n"@
    }
}

/// The entry line of a long flag.
pub open spec fn long_line(l: Seq<char>, v: Seq<char>, eq: bool) -> Seq<char> {
    if v.len() == 0 {
        "--"@ + l + "::\n"@
    } else if eq {
        "--"@ + l + "[="@ + v + "]::\n"@
    } else {
        "--"@ + l + "="@ + v + "::\n"@
    }
}

/// The entry lines of every flag of `a`: short ones, then long ones.
pub open spec fn flag_lines(a: ArgDoc) -> Seq<char> {
    let v = value_text(a);
    concat(a.shorts@.map_values(|s: char| short_line(s, v, a.require_equals))) + concat(
        strings(a.longs@).map_values(|l: Seq<char>| long_line(l, v, a.require_equals)),
    )
}

/// One line of help wrapped: the first paragraph indented at the narrower
/// width, the others at the full width.
pub open spec fn wrapped_line(l: Seq<char>, first: bool) -> Seq<char> {
    let width = if first {
        INDENTED_WIDTH as nat
    } else {
        WIDTH as nat
    };
    let indent = if first {
        "    "@
    } else {
        seq![]
    };
    concat(wrapped_lines(l, width).map_values(|w: Seq<char>| indent + w + "\n"@))
}

/// The lines of a help paragraph, each wrapped.
pub open spec fn para_text(p: Seq<char>, first: bool) -> Seq<char> {
    concat(lines_of(p).map_values(|l: Seq<char>| wrapped_line(l, first)))
}

/// Help paragraphs as an entry's body: each after the first preceded by a
/// `+` line.
pub open spec fn help_text(paras: Seq<Seq<char>>) -> Seq<char>
    decreases paras.len(),
{
    if paras.len() == 0 {
        seq![]
    } else {
        help_text(paras.drop_last()) + (if paras.len() > 1 {
            "+\n"@
        } else {
            seq![]
        }) + para_text(paras.last(), paras.len() == 1)
    }
}

/// The whole entry of an argument.
pub open spec fn arg_text(a: ArgDoc) -> Seq<char> {
    flag_lines(a) + help_text(paragraphs_of(link_words(words_of(a.help@)))) + "\n"@
}

/// Whether an argument has an entry: not help or color, not hidden, not
/// positional.
pub open spec fn listed(a: ArgDoc) -> bool {
    a.id@ != "help"@ && a.id@ != "color"@ && !a.hidden && !a.positional
}

/// The entries of the listed arguments of `args`, in order.
pub open spec fn options_text(args: Seq<ArgDoc>) -> Seq<char>
    decreases args.len(),
{
    if args.len() == 0 {
        seq![]
    } else {
        options_text(args.drop_last()) + if listed(args.last()) {
            arg_text(args.last())
        } else {
            seq![]
        }
    }
}

/// Whether some argument of `args` is listed.
pub open spec fn any_listed(args: Seq<ArgDoc>) -> bool {
    exists|i: int| 0 <= i < args.len() && listed(#[trigger] args[i])
}

/// The texts of `v` joined by `sep`.
pub(crate) fn join_texts(v: &Vec<String>, sep: &str) -> (r: String)
    ensures
        r@ == joined(strings(v@), sep@),
{
    let ghost sv = strings(v@);
    let mut out = String::new();
    let mut i: usize = 0;
    while i < v.len()
        invariant
            i <= v@.len(),
            sv == strings(v@),
            out@ == joined(sv.subrange(0, i as int), sep@),
        decreases v@.len() - i,
    {
        if i > 0 {
            out.append(sep);
        }
        out.append(v[i].as_str());
        proof {
            let sub = sv.subrange(0, i + 1);
            assert(sub.drop_last() =~= sv.subrange(0, i as int));
            assert(sub.last() == v@[i as int]@);
            if i == 0 {
                assert(out@ =~= sub[0]);
            }
        }
        i = i + 1;
    }
    proof {
        assert(sv.subrange(0, sv.len() as int) =~= sv);
    }
    out
}

/// The value text of `a`.
fn value_text_of(a: &ArgDoc) -> (r: String)
    ensures
        r@ == value_text(*a),
{
    if !a.takes_values {
        return String::new();
    }
    match &a.value_names {
        Some(names) => {
            let mut parts: Vec<String> = Vec::new();
            let mut i: usize = 0;
            while i < names.len()
                invariant
                    i <= names@.len(),
                    strings(parts@) == strings(names@).subrange(0, i as int).map_values(
                        |n: Seq<char>| angled(n),
                    ),
                decreases names@.len() - i,
            {
                let mut p = String::from_str("<");
                p.append(names[i].as_str());
                p.append(">");
                let ghost before = parts@;
                parts.push(p);
                proof {
                    assert(strings(parts@) =~= strings(before).push(p@));
                    assert(strings(names@).subrange(0, i + 1).map_values(|n: Seq<char>| angled(n))
                        =~= strings(names@).subrange(0, i as int).map_values(
                        |n: Seq<char>| angled(n),
                    ).push(angled(names@[i as int]@)));
                }
                i = i + 1;
            }
            proof {
                assert(strings(names@).subrange(0, names@.len() as int) =~= strings(names@));
            }
            join_texts(&parts, " ")
        },
        None => {
            let mut shown: Vec<String> = Vec::new();
            let mut i: usize = 0;
            let pv = &a.possible_values;
            while i < pv.len()
                invariant
                    i <= pv@.len(),
                    strings(shown@) == visible_values(pv@.subrange(0, i as int)),
                decreases pv@.len() - i,
            {
                proof {
                    assert(pv@.subrange(0, i + 1).drop_last() =~= pv@.subrange(0, i as int));
                    assert(pv@.subrange(0, i + 1).last() == pv@[i as int]);
                }
                if !pv[i].1 {
                    let ghost before = shown@;
                    let name = pv[i].0.clone();
                    shown.push(name);
                    proof {
                        assert(strings(shown@) =~= strings(before).push(name@));
                    }
                }
                i = i + 1;
            }
            proof {
                assert(pv@.subrange(0, pv@.len() as int) =~= pv@);
            }
            let mut out = String::from_str("(");
            let inner = join_texts(&shown, "|");
            out.append(inner.as_str());
            out.append(")");
            out
        },
    }
}

/// The flag lines of `a`, whose value text is `v`.
fn flag_text(a: &ArgDoc, v: &String) -> (r: String)
    requires
        v@ == value_text(*a),
    ensures
        r@ == flag_lines(*a),
{
    let ghost eq = a.require_equals;
    let mut out = String::new();
    let mut i: usize = 0;
    while i < a.shorts.len()
        invariant
            i <= a.shorts@.len(),
            eq == a.require_equals,
            v@ == value_text(*a),
            out@ == concat(
                a.shorts@.subrange(0, i as int).map_values(|s: char| short_line(s, v@, eq)),
            ),
        decreases a.shorts@.len() - i,
    {
        let s = a.shorts[i];
        let ghost before = out@;
        out.append("-");
        push_char(&mut out, s);
        if v.unicode_len() == 0 {
            out.append("::\n");
        } else if a.require_equals {
            out.append("[=");
            out.append(v.as_str());
            out.append("]::\n");
        } else {
            out.append(" ");
            out.append(v.as_str());
            out.append("::\n");
        }
        proof {
            let m = a.shorts@.subrange(0, i + 1).map_values(|s: char| short_line(s, v@, eq));
            assert(m.drop_last() =~= a.shorts@.subrange(0, i as int).map_values(
                |s: char| short_line(s, v@, eq),
            ));
            assert(out@ =~= before + short_line(s, v@, eq));
        }
        i = i + 1;
    }
    proof {
        assert(a.shorts@.subrange(0, a.shorts@.len() as int) =~= a.shorts@);
    }
    let ghost shorts_part = out@;
    let mut j: usize = 0;
    let ghost sl = strings(a.longs@);
    while j < a.longs.len()
        invariant
            j <= a.longs@.len(),
            eq == a.require_equals,
            sl == strings(a.longs@),
            v@ == value_text(*a),
            out@ == shorts_part + concat(
                sl.subrange(0, j as int).map_values(|l: Seq<char>| long_line(l, v@, eq)),
            ),
        decreases a.longs@.len() - j,
    {
        let l = &a.longs[j];
        let ghost before = out@;
        out.append("--");
        out.append(l.as_str());
        if v.unicode_len() == 0 {
            out.append("::\n");
        } else if a.require_equals {
            out.append("[=");
            out.append(v.as_str());
            out.append("]::\n");
        } else {
            out.append("=");
            out.append(v.as_str());
            out.append("::\n");
        }
        proof {
            let m = sl.subrange(0, j + 1).map_values(|l: Seq<char>| long_line(l, v@, eq));
            assert(m.drop_last() =~= sl.subrange(0, j as int).map_values(
                |l: Seq<char>| long_line(l, v@, eq),
            ));
            assert(m.last() == long_line(l@, v@, eq));
            assert(out@ =~= before + long_line(l@, v@, eq));
        }
        j = j + 1;
    }
    proof {
        assert(sl.subrange(0, sl.len() as int) =~= sl);
    }
    out
}

/// One help line wrapped, as `wrapped_line` says.
fn wrap_line(l: &str, first: bool) -> (r: String)
    ensures
        r@ == wrapped_line(l@, first),
{
    let width = if first {
        INDENTED_WIDTH
    } else {
        WIDTH
    };
    let ghost indent = if first {
        "    "@
    } else {
        seq![]
    };
    let pieces = wrap(l, width);
    let ghost sp = strings(pieces@);
    let mut out = String::new();
    let mut i: usize = 0;
    while i < pieces.len()
        invariant
            i <= pieces@.len(),
            sp == strings(pieces@),
            sp == wrapped_lines(l@, width as nat),
            width == (if first { INDENTED_WIDTH } else { WIDTH }),
            indent == (if first { "    "@ } else { seq![] }),
            out@ == concat(sp.subrange(0, i as int).map_values(|w: Seq<char>| indent + w + "\n"@)),
        decreases pieces@.len() - i,
    {
        let ghost before = out@;
        if first {
            out.append("    ");
        }
        out.append(pieces[i].as_str());
        out.append("\n");
        proof {
            let m = sp.subrange(0, i + 1).map_values(|w: Seq<char>| indent + w + "\n"@);
            assert(m.drop_last() =~= sp.subrange(0, i as int).map_values(
                |w: Seq<char>| indent + w + "\n"@,
            ));
            assert(m.last() == indent + pieces@[i as int]@ + "\n"@);
            assert(out@ =~= before + (indent + pieces@[i as int]@ + "\n"@));
        }
        i = i + 1;
    }
    proof {
        assert(sp.subrange(0, sp.len() as int) =~= sp);
    }
    out
}

/// A help paragraph, as `para_text` says.
fn para_block(p: &str, first: bool) -> (r: String)
    ensures
        r@ == para_text(p@, first),
{
    let lines = text_lines(p);
    let ghost sl = strings(lines@);
    let mut out = String::new();
    let mut i: usize = 0;
    while i < lines.len()
        invariant
            i <= lines@.len(),
            sl == strings(lines@),
            sl == lines_of(p@),
            out@ == concat(sl.subrange(0, i as int).map_values(|l: Seq<char>| wrapped_line(l, first))),
        decreases lines@.len() - i,
    {
        let ghost before = out@;
        let w = wrap_line(lines[i].as_str(), first);
        out.append(w.as_str());
        proof {
            let m = sl.subrange(0, i + 1).map_values(|l: Seq<char>| wrapped_line(l, first));
            assert(m.drop_last() =~= sl.subrange(0, i as int).map_values(
                |l: Seq<char>| wrapped_line(l, first),
            ));
            assert(m.last() == wrapped_line(lines@[i as int]@, first));
        }
        i = i + 1;
    }
    proof {
        assert(sl.subrange(0, sl.len() as int) =~= sl);
    }
    out
}

/// The body of an entry whose help is `help`.
fn help_block(help: &str) -> (r: String)
    ensures
        r@ == help_text(paragraphs_of(link_words(words_of(help@)))),
{
    let linked = make_links(help);
    let paras = paragraphs(linked.as_str());
    let ghost sp = strings(paras@);
    let mut out = String::new();
    let mut i: usize = 0;
    while i < paras.len()
        invariant
            i <= paras@.len(),
            sp == strings(paras@),
            sp == paragraphs_of(link_words(words_of(help@))),
            out@ == help_text(sp.subrange(0, i as int)),
        decreases paras@.len() - i,
    {
        let ghost before = out@;
        if i > 0 {
            out.append("+\n");
        }
        let b = para_block(paras[i].as_str(), i == 0);
        out.append(b.as_str());
        proof {
            let sub = sp.subrange(0, i + 1);
            assert(sub.drop_last() =~= sp.subrange(0, i as int));
            assert(sub.last() == paras@[i as int]@);
            if i > 0 {
                assert(out@ =~= before + "+\n"@ + b@);
            } else {
                assert(out@ =~= before + Seq::<char>::empty() + b@);
            }
        }
        i = i + 1;
    }
    proof {
        assert(sp.subrange(0, sp.len() as int) =~= sp);
    }
    out
}

/// Whether `a` has an entry.
fn is_listed(a: &ArgDoc) -> (r: bool)
    ensures
        r == listed(*a),
{
    !(a.id == String::from_str("help")) && !(a.id == String::from_str("color")) && !a.hidden
        && !a.positional
}

/// Appends the options section of a manual page: the underlined header
/// `header_name`, where some argument is listed, then the entry of each
/// listed argument of `args`, in order.
#[verifier::rlimit(30)]
pub fn add_options(section: &mut String, args: &Vec<ArgDoc>, header_name: &str, header_underline: char)
    ensures
        final(section)@ == old(section)@ + (if any_listed(args@) {
            header_name@ + "\n"@ + repeated(header_underline, header_name@.len()) + "\n"@
        } else {
            seq![]
        }) + options_text(args@),
{
    let ghost start = section@;
    let ghost head = header_name@ + "\n"@ + repeated(header_underline, header_name@.len()) + "\n"@;
    let mut listed_any = false;
    let mut i: usize = 0;
    while i < args.len()
        invariant
            i <= args@.len(),
            head == header_name@ + "\n"@ + repeated(header_underline, header_name@.len()) + "\n"@,
            listed_any == any_listed(args@.subrange(0, i as int)),
            section@ == start + (if listed_any { head } else { seq![] }) + options_text(
                args@.subrange(0, i as int),
            ),
        decreases args@.len() - i,
    {
        let a = &args[i];
        proof {
            lemma_options_step(args@, i as int);
        }
        if is_listed(a) {
            if !listed_any {
                proof {
                    lemma_none_listed(args@.subrange(0, i as int));
                }
                write_underlined(section, header_name, header_underline);
            }
            let text = entry(a);
            section.append(text.as_str());
            listed_any = true;
        }
        i = i + 1;
    }
    proof {
        assert(args@.subrange(0, args@.len() as int) =~= args@);
    }
}

/// The entry of `a`.
fn entry(a: &ArgDoc) -> (r: String)
    ensures
        r@ == arg_text(*a),
{
    let v = value_text_of(a);
    let mut out = flag_text(a, &v);
    let body = help_block(a.help.as_str());
    out.append(body.as_str());
    out.append("\n");
    out
}

/// One more argument adds its entry where it is listed.
proof fn lemma_options_step(args: Seq<ArgDoc>, i: int)
    requires
        0 <= i < args.len(),
    ensures
        options_text(args.subrange(0, i + 1)) == options_text(args.subrange(0, i)) + if listed(
            args[i],
        ) {
            arg_text(args[i])
        } else {
            seq![]
        },
        any_listed(args.subrange(0, i + 1)) == (any_listed(args.subrange(0, i)) || listed(args[i])),
{
    let sub = args.subrange(0, i + 1);
    let pre = args.subrange(0, i);
    assert(sub.drop_last() =~= pre);
    assert(sub.last() == args[i]);
    if any_listed(sub) {
        let k = choose|k: int| 0 <= k < sub.len() && listed(#[trigger] sub[k]);
        if k < i {
            assert(pre[k] == sub[k]);
        }
    }
    if any_listed(pre) {
        let k = choose|k: int| 0 <= k < pre.len() && listed(#[trigger] pre[k]);
        assert(sub[k] == pre[k]);
    }
    if listed(args[i]) {
        assert(listed(sub[i]));
    }
}

/// With no argument listed there are no entries.
proof fn lemma_none_listed(args: Seq<ArgDoc>)
    requires
        !any_listed(args),
    ensures
        options_text(args) == Seq::<char>::empty(),
    decreases args.len(),
{
    if args.len() > 0 {
        assert(!listed(args[args.len() - 1]));
        assert forall|i: int| 0 <= i < args.drop_last().len() implies !listed(
            #[trigger] args.drop_last()[i],
        ) by {
            assert(args.drop_last()[i] == args[i]);
        }
        lemma_none_listed(args.drop_last());
    }
}

/// The pieces of `s` between single spaces, as `str::split(' ')` gives them.
pub open spec fn space_split(s: Seq<char>) -> Seq<Seq<char>>
    decreases s.len(),
{
    let i = first_from(s, ' ', 0);
    if i < 0 || i >= s.len() {
        seq![s]
    } else {
        seq![s.subrange(0, i)] + space_split(s.subrange(i + 1, s.len() as int))
    }
}

/// The usage lines of a rendered usage text `u` (after its `Usage: `
/// prefix): each line with its leading whitespace removed, empty ones
/// dropped.
pub open spec fn usage_lines_of(u: Seq<char>) -> Seq<Seq<char>> {
    lines_of(u).map_values(|l: Seq<char>| trim_start_of(l)).filter(|l: Seq<char>| l.len() > 0)
}

/// A usage word as asciidoc shows it: a leading `<-` escaped.
pub open spec fn escaped_word(w: Seq<char>) -> Seq<char> {
    if starts_with(w, "<-"@) {
        "\\<-"@ + w.subrange("<-"@.len() as int, w.len() as int)
    } else {
        w
    }
}

/// Whether the words `ws` begin with the command names `stack` and one more
/// word.
pub open spec fn starts_with_stack(ws: Seq<Seq<char>>, stack: Seq<Seq<char>>) -> bool {
    ws.len() > stack.len() && forall|j: int| 0 <= j < stack.len() ==> ws[j] == #[trigger] stack[j]
}

/// A synopsis line: the command words, each followed by a space, and the
/// next word, all quoted; then every further word after a space, escaped.
pub open spec fn synopsis_line(ws: Seq<Seq<char>>, stack: Seq<Seq<char>>) -> Seq<char> {
    let k = stack.len() as int;
    "'"@ + concat(stack.map_values(|w: Seq<char>| w + " "@)) + ws[k] + "'"@ + concat(
        ws.subrange(k + 1, ws.len() as int).map_values(|w: Seq<char>| " "@ + escaped_word(w)),
    ) + "\n"@
}

/// The synopsis lines of `lines`, in order.
pub open spec fn synopsis(lines: Seq<Seq<char>>, stack: Seq<Seq<char>>) -> Seq<char>
    decreases lines.len(),
{
    if lines.len() == 0 {
        seq![]
    } else {
        synopsis(lines.drop_last(), stack) + synopsis_line(space_split(lines.last()), stack)
    }
}

/// What follows `Usage: ` in `usage`, where it starts so.
fn after_usage_prefix(usage: &str) -> (r: Option<String>)
    ensures
        r is Some <==> starts_with(usage@, "Usage: "@),
        r matches Some(s) ==> s@ == usage@.subrange("Usage: "@.len() as int, usage@.len() as int),
{
    if has_prefix(usage, "Usage: ") {
        let l = "Usage: ".unicode_len();
        let n = usage.unicode_len();
        Some(String::from_str(usage.substring_char(l, n)))
    } else {
        None
    }
}

/// The usage lines of a rendered usage text, or `None` where it does not
/// start with `Usage: `.
pub fn usage_lines(usage: &str) -> (r: Option<Vec<String>>)
    ensures
        r is Some <==> starts_with(usage@, "Usage: "@),
        r matches Some(v) ==> strings(v@) == usage_lines_of(
            usage@.subrange("Usage: "@.len() as int, usage@.len() as int),
        ),
{
    let rest = after_usage_prefix(usage)?;
    let lines = text_lines(rest.as_str());
    let ghost sl = strings(lines@);
    let ghost f = |l: Seq<char>| trim_start_of(l);
    let ghost keep = |l: Seq<char>| l.len() > 0;
    let mut out: Vec<String> = Vec::new();
    let mut i: usize = 0;
    while i < lines.len()
        invariant
            i <= lines@.len(),
            sl == strings(lines@),
            sl == lines_of(rest@),
            f == (|l: Seq<char>| trim_start_of(l)),
            keep == (|l: Seq<char>| l.len() > 0),
            strings(out@) == sl.subrange(0, i as int).map_values(f).filter(keep),
        decreases lines@.len() - i,
    {
        let line = trim_start(lines[i].as_str());
        let ghost before = out@;
        let ghost lv = line@;
        proof {
            let m = sl.subrange(0, i + 1).map_values(f);
            assert(m =~= sl.subrange(0, i as int).map_values(f).push(line@));
            m.drop_last().lemma_filter_push(line@, keep);
            assert(m.drop_last() =~= sl.subrange(0, i as int).map_values(f));
        }
        if line.unicode_len() > 0 {
            out.push(line);
            proof {
                assert(strings(out@) =~= strings(before).push(lv));
            }
        }
        i = i + 1;
    }
    proof {
        assert(sl.subrange(0, sl.len() as int) =~= sl);
    }
    Some(out)
}

/// The pieces of `s` between single spaces.
fn split_spaces(s: &str) -> (r: Vec<String>)
    ensures
        strings(r@) == space_split(s@),
{
    let n = s.unicode_len();
    let mut out: Vec<String> = Vec::new();
    let mut start: usize = 0;
    let mut done = false;
    proof {
        assert(s@.subrange(0, n as int) =~= s@);
        assert(strings(out@) + space_split(s@) =~= space_split(s@));
    }
    while !done
        invariant
            n == s@.len(),
            start <= n,
            done ==> space_split(s@) == strings(out@),
            !done ==> space_split(s@) == strings(out@) + space_split(
                s@.subrange(start as int, n as int),
            ),
        decreases n - start + (if done { 0int } else { 1int }),
    {
        let ghost rest = s@.subrange(start as int, n as int);
        let mut j: usize = 0;
        while start + j < n && s.get_char(start + j) != ' '
            invariant
                n == s@.len(),
                start <= n,
                start + j <= n,
                rest == s@.subrange(start as int, n as int),
                first_from(rest, ' ', 0) == first_from(rest, ' ', j as int),
            decreases n - start - j,
        {
            proof {
                assert(rest[j as int] == s@[start + j]);
            }
            j = j + 1;
        }
        let piece = String::from_str(s.substring_char(start, start + j));
        let ghost before = out@;
        out.push(piece);
        proof {
            assert(strings(out@) =~= strings(before).push(piece@));
            assert(rest.subrange(0, j as int) =~= piece@);
        }
        if start + j < n {
            proof {
                assert(rest[j as int] == ' ');
                assert(rest.subrange(j + 1, rest.len() as int) =~= s@.subrange(
                    start + j + 1,
                    n as int,
                ));
                assert(strings(out@) + space_split(s@.subrange(start + j + 1, n as int))
                    =~= strings(before) + space_split(rest));
            }
            start = start + j + 1;
        } else {
            proof {
                assert(first_from(rest, ' ', j as int) == -1);
                assert(rest =~= piece@);
                assert(strings(out@) =~= strings(before) + space_split(rest));
            }
            done = true;
        }
    }
    out
}

/// The synopsis line of `line` under the command names `stack`, or `None`
/// where its words do not begin with them and one more.
fn synopsis_line_of(line: &String, stack: &Vec<String>) -> (r: Option<String>)
    ensures
        r is Some <==> starts_with_stack(space_split(line@), strings(stack@)),
        r matches Some(s) ==> s@ == synopsis_line(space_split(line@), strings(stack@)),
{
    let words = split_spaces(line.as_str());
    let ghost ws = strings(words@);
    let ghost st = strings(stack@);
    let k = stack.len();
    if words.len() <= k {
        return None;
    }
    let mut out = String::from_str("'");
    let mut j: usize = 0;
    while j < k
        invariant
            k == stack@.len() < words@.len(),
            j <= k,
            ws == strings(words@),
            ws == space_split(line@),
            st == strings(stack@),
            forall|x: int| 0 <= x < j ==> ws[x] == #[trigger] st[x],
            out@ == "'"@ + concat(st.subrange(0, j as int).map_values(|w: Seq<char>| w + " "@)),
        decreases k - j,
    {
        if words[j] != stack[j] {
            proof {
                assert(ws[j as int] != st[j as int]);
                assert(!starts_with_stack(ws, st)) by {
                    if starts_with_stack(ws, st) {
                        assert(ws[j as int] == st[j as int]);
                    }
                }
            }
            return None;
        }
        let ghost before = out@;
        out.append(words[j].as_str());
        out.append(" ");
        proof {
            let m = st.subrange(0, j + 1).map_values(|w: Seq<char>| w + " "@);
            assert(m.drop_last() =~= st.subrange(0, j as int).map_values(|w: Seq<char>| w + " "@));
            assert(m.last() == st[j as int] + " "@);
            assert(ws[j as int] == st[j as int]);
            assert(out@ =~= before + (st[j as int] + " "@));
        }
        j = j + 1;
    }
    proof {
        assert(st.subrange(0, k as int) =~= st);
    }
    out.append(words[k].as_str());
    out.append("'");
    let ghost head = out@;
    let mut x: usize = k + 1;
    while x < words.len()
        invariant
            k < x <= words@.len(),
            ws == strings(words@),
            ws == space_split(line@),
            st == strings(stack@),
            forall|y: int| 0 <= y < k ==> ws[y] == #[trigger] st[y],
            out@ == head + concat(
                ws.subrange(k + 1, x as int).map_values(|w: Seq<char>| " "@ + escaped_word(w)),
            ),
        decreases words@.len() - x,
    {
        let w = words[x].as_str();
        let ghost before = out@;
        out.append(" ");
        if has_prefix(w, "<-") {
            let wn = w.unicode_len();
            let l = "<-".unicode_len();
            out.append("\\<-");
            out.append(w.substring_char(l, wn));
        } else {
            out.append(w);
        }
        proof {
            let m = ws.subrange(k + 1, x + 1).map_values(|w: Seq<char>| " "@ + escaped_word(w));
            assert(m.drop_last() =~= ws.subrange(k + 1, x as int).map_values(
                |w: Seq<char>| " "@ + escaped_word(w),
            ));
            assert(m.last() == " "@ + escaped_word(ws[x as int]));
            assert(out@ =~= before + (" "@ + escaped_word(ws[x as int])));
        }
        x = x + 1;
    }
    out.append("\n");
    proof {
        assert(out@ =~= synopsis_line(ws, st));
    }
    Some(out)
}

/// The synopsis of the usage lines `lines` under the command names
/// `name_stack`, or `None` where a line does not begin with those names and
/// one more word.
pub fn synopsis_text(lines: &Vec<String>, name_stack: &Vec<String>) -> (r: Option<String>)
    ensures
        r is Some <==> forall|i: int|
            0 <= i < lines@.len() ==> starts_with_stack(
                space_split(#[trigger] lines@[i]@),
                strings(name_stack@),
            ),
        r matches Some(s) ==> s@ == synopsis(strings(lines@), strings(name_stack@)),
{
    let ghost sl = strings(lines@);
    let ghost st = strings(name_stack@);
    let mut out = String::new();
    let mut i: usize = 0;
    while i < lines.len()
        invariant
            i <= lines@.len(),
            sl == strings(lines@),
            st == strings(name_stack@),
            forall|y: int| 0 <= y < i ==> starts_with_stack(space_split(#[trigger] lines@[y]@), st),
            out@ == synopsis(sl.subrange(0, i as int), st),
        decreases lines@.len() - i,
    {
        let line = match synopsis_line_of(&lines[i], name_stack) {
            Some(l) => l,
            None => {
                return None;
            },
        };
        out.append(line.as_str());
        proof {
            let sub = sl.subrange(0, i + 1);
            assert(sub.drop_last() =~= sl.subrange(0, i as int));
            assert(sub.last() == lines@[i as int]@);
        }
        i = i + 1;
    }
    proof {
        assert(sl.subrange(0, sl.len() as int) =~= sl);
    }
    Some(out)
}

/// The entry of a command in the commands section: the names of the commands
/// above it and its own, then its description as an entry body.
pub open spec fn stanza_text(stack: Seq<Seq<char>>, name: Seq<char>, about: Seq<char>) -> Seq<char> {
    concat(stack.map_values(|w: Seq<char>| w + " "@)) + name + "::\n"@ + help_text(
        paragraphs_of(link_words(words_of(about))),
    ) + "\n"@
}

/// Appends the entry of the command `name`, under the commands `stack`, whose
/// description is `about`.
pub fn add_command_stanza(section: &mut String, stack: &Vec<String>, name: &str, about: &str)
    ensures
        final(section)@ == old(section)@ + stanza_text(strings(stack@), name@, about@),
{
    let ghost start = section@;
    let ghost st = strings(stack@);
    let mut j: usize = 0;
    while j < stack.len()
        invariant
            j <= stack@.len(),
            st == strings(stack@),
            section@ == start + concat(st.subrange(0, j as int).map_values(|w: Seq<char>| w + " "@)),
        decreases stack@.len() - j,
    {
        let ghost before = section@;
        section.append(stack[j].as_str());
        section.append(" ");
        proof {
            let m = st.subrange(0, j + 1).map_values(|w: Seq<char>| w + " "@);
            assert(m.drop_last() =~= st.subrange(0, j as int).map_values(|w: Seq<char>| w + " "@));
            assert(m.last() == stack@[j as int]@ + " "@);
            assert(section@ =~= before + (stack@[j as int]@ + " "@));
        }
        j = j + 1;
    }
    proof {
        assert(st.subrange(0, st.len() as int) =~= st);
    }
    section.append(name);
    section.append("::\n");
    let body = help_block(about);
    section.append(body.as_str());
    section.append("\n");
    proof {
        assert(section@ =~= start + stanza_text(st, name@, about@));
    }
}

/// `line` underlined with `c`.
pub open spec fn underlined(line: Seq<char>, c: char) -> Seq<char> {
    line + "\n"@ + repeated(c, line.len()) + "\n"@
}

/// The description of a page from its paragraphs: a paragraph that starts
/// with a space stands as it is, any other is wrapped at the full width;
/// each is followed by a blank line.
pub open spec fn description_text(paras: Seq<Seq<char>>) -> Seq<char>
    decreases paras.len(),
{
    if paras.len() == 0 {
        seq![]
    } else {
        let p = paras.last();
        description_text(paras.drop_last()) + (if starts_with(p, " "@) {
            p + "\n"@
        } else {
            concat(wrapped_lines(p, WIDTH as nat).map_values(|l: Seq<char>| l + "\n"@))
        }) + "\n"@
    }
}

/// The title, name and synopsis sections of the page of `name`.
pub open spec fn page_head(name: Seq<char>, about: Seq<char>, synopsis: Seq<char>) -> Seq<char> {
    underlined("stg-"@ + name + "(1)"@, '=') + "\n"@ + underlined("NAME"@, '-') + "stg-"@ + name
        + " - "@ + about + "\n\n"@ + underlined("SYNOPSIS"@, '-') + "[verse]\n"@ + synopsis + "\n"@
}

/// The commands section, where there is one.
pub open spec fn commands_part(commands: Option<Seq<char>>) -> Seq<char> {
    match commands {
        Some(c) => underlined("COMMANDS"@, '-') + "\n"@ + c,
        None => seq![],
    }
}

/// The manual page of the command `name`: title, name line, synopsis,
/// description, the commands section where there is one, the options
/// section, and the footer.
pub open spec fn page_text(
    name: Seq<char>,
    about: Seq<char>,
    synopsis: Seq<char>,
    long_about: Seq<char>,
    commands: Option<Seq<char>>,
    args: Seq<ArgDoc>,
) -> Seq<char> {
    page_head(name, about, synopsis) + underlined("DESCRIPTION"@, '-') + "\n"@ + description_text(
        paragraphs_of(link_words(words_of(long_about))),
    ) + commands_part(commands) + (if any_listed(args) {
        underlined("OPTIONS"@, '-')
    } else {
        seq![]
    }) + options_text(args) + underlined("StGit"@, '-') + "Part of the StGit suite - see linkman:stg[1]\n"@
}

/// The head of a page, as `page_head` says.
fn head_of(name: &str, about: &str, synopsis: &str) -> (r: String)
    ensures
        r@ == page_head(name@, about@, synopsis@),
{
    let mut page = String::new();
    let mut title = String::from_str("stg-");
    title.append(name);
    title.append("(1)");
    write_underlined(&mut page, title.as_str(), '=');
    page.append("\n");
    write_underlined(&mut page, "NAME", '-');
    page.append("stg-");
    page.append(name);
    page.append(" - ");
    page.append(about);
    page.append("\n\n");
    let ghost a = page@;
    write_underlined(&mut page, "SYNOPSIS", '-');
    page.append("[verse]\n");
    page.append(synopsis);
    page.append("\n");
    proof {
        assert(page@ =~= a + underlined("SYNOPSIS"@, '-') + "[verse]\n"@ + synopsis@ + "\n"@);
    }
    page
}

/// The description text of `long_about`.
fn description(long_about: &str) -> (r: String)
    ensures
        r@ == description_text(paragraphs_of(link_words(words_of(long_about@)))),
{
    let linked = make_links(long_about);
    let paras = paragraphs(linked.as_str());
    let ghost sp = strings(paras@);
    let mut out = String::new();
    let mut i: usize = 0;
    while i < paras.len()
        invariant
            i <= paras@.len(),
            sp == strings(paras@),
            sp == paragraphs_of(link_words(words_of(long_about@))),
            out@ == description_text(sp.subrange(0, i as int)),
        decreases paras@.len() - i,
    {
        let p = paras[i].as_str();
        let ghost before = out@;
        if has_prefix(p, " ") {
            out.append(p);
            out.append("\n");
        } else {
            let lines = wrap(p, WIDTH);
            let ghost sl = strings(lines@);
            let ghost mid = out@;
            let mut j: usize = 0;
            while j < lines.len()
                invariant
                    j <= lines@.len(),
                    sl == strings(lines@),
                    out@ == mid + concat(sl.subrange(0, j as int).map_values(|l: Seq<char>| l + "\n"@)),
                decreases lines@.len() - j,
            {
                let ghost b2 = out@;
                out.append(lines[j].as_str());
                out.append("\n");
                proof {
                    let m = sl.subrange(0, j + 1).map_values(|l: Seq<char>| l + "\n"@);
                    assert(m.drop_last() =~= sl.subrange(0, j as int).map_values(|l: Seq<char>| l + "\n"@));
                    assert(m.last() == lines@[j as int]@ + "\n"@);
                    assert(out@ =~= b2 + (lines@[j as int]@ + "\n"@));
                }
                j = j + 1;
            }
            proof {
                assert(sl.subrange(0, sl.len() as int) =~= sl);
            }
        }
        out.append("\n");
        proof {
            let sub = sp.subrange(0, i + 1);
            assert(sub.drop_last() =~= sp.subrange(0, i as int));
            assert(sub.last() == paras@[i as int]@);
        }
        i = i + 1;
    }
    proof {
        assert(sp.subrange(0, sp.len() as int) =~= sp);
    }
    out
}

/// The manual page of a command, as `page_text` says.
pub fn generate_asciidoc(
    name: &str,
    about: &str,
    synopsis: &str,
    long_about: &str,
    commands: Option<&str>,
    args: &Vec<ArgDoc>,
) -> (r: String)
    ensures
        r@ == page_text(
            name@,
            about@,
            synopsis@,
            long_about@,
            match commands {
                Some(c) => Some(c@),
                None => None,
            },
            args@,
        ),
{
    let mut page = head_of(name, about, synopsis);
    let ghost a = page@;
    write_underlined(&mut page, "DESCRIPTION", '-');
    page.append("\n");
    let d = description(long_about);
    page.append(d.as_str());
    let ghost b = page@;
    let mut commands_text = String::new();
    if let Some(c) = commands {
        write_underlined(&mut commands_text, "COMMANDS", '-');
        commands_text.append("\n");
        commands_text.append(c);
    }
    page.append(commands_text.as_str());
    let ghost c = page@;
    add_options(&mut page, args, "OPTIONS", '-');
    let ghost o = page@;
    write_underlined(&mut page, "StGit", '-');
    page.append("Part of the StGit suite - see linkman:stg[1]\n");
    proof {
        let cm = match commands {
            Some(c) => Some(c@),
            None => None::<Seq<char>>,
        };
        assert(commands_text@ =~= commands_part(cm));
        assert(b =~= a + underlined("DESCRIPTION"@, '-') + "\n"@ + d@);
        assert(page@ =~= o + underlined("StGit"@, '-') + "Part of the StGit suite - see linkman:stg[1]\n"@);
        assert(page@ =~= page_text(name@, about@, synopsis@, long_about@, cm, args@));
    }
    page
}

} // verus!
