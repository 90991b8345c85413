//! One interactive session: reading the user's command from a line of input
//! and deciding what the program does next.

use vstd::prelude::*;

use crate::lines::{join_lines, newline_str, split_lines};
use crate::numbers::{all_digits, dec_str, digits_val, fmt_usize, parse_usize};
use crate::store::{delete_from_content, StoreError};

verus! {

/// Whether `c` is one of the blank characters stripped from both ends of a
/// line of input.
pub open spec fn is_blank(c: char) -> bool {
    c == ' ' || c == '\t' || c == '\r' || c == '\n'
}

/// `s` without its leading blanks.
pub open spec fn trim_front(s: Seq<char>) -> Seq<char>
    decreases s.len(),
{
    if s.len() > 0 && is_blank(s[0]) {
        trim_front(s.drop_first())
    } else {
        s
    }
}

/// `s` without its trailing blanks.
pub open spec fn trim_back(s: Seq<char>) -> Seq<char>
    decreases s.len(),
{
    if s.len() > 0 && is_blank(s.last()) {
        trim_back(s.drop_last())
    } else {
        s
    }
}

/// `s` without its leading and trailing blanks.
pub open spec fn trimmed(s: Seq<char>) -> Seq<char> {
    trim_back(trim_front(s))
}

fn is_blank_char(c: char) -> (b: bool)
    ensures
        b == is_blank(c),
{
    c == ' ' || c == '\t' || c == '\r' || c == '\n'
}

/// Strips blanks from both ends of `s`.
pub fn trim(s: &str) -> (t: &str)
    ensures
        t@ == trimmed(s@),
{
    let n = s.unicode_len();
    let mut lo: usize = 0;
    assert(s@.skip(0) =~= s@);
    while lo < n && is_blank_char(s.get_char(lo))
        invariant
            lo <= n,
            n == s@.len(),
            trim_front(s@) == trim_front(s@.skip(lo as int)),
        decreases n - lo,
    {
        proof {
            assert(s@.skip(lo as int)[0] == s@[lo as int]);
            assert(s@.skip(lo as int).drop_first() =~= s@.skip(lo + 1));
        }
        lo = lo + 1;
    }
    proof {
        if lo == n {
            assert(s@.skip(lo as int) =~= Seq::<char>::empty());
        }
        assert(trim_front(s@) == s@.skip(lo as int));
        assert(s@.subrange(lo as int, n as int) =~= s@.skip(lo as int));
    }
    let mut hi: usize = n;
    while hi > lo && is_blank_char(s.get_char(hi - 1))
        invariant
            lo <= hi <= n,
            n == s@.len(),
            trim_front(s@) == s@.skip(lo as int),
            trim_back(s@.skip(lo as int)) == trim_back(s@.subrange(lo as int, hi as int)),
        decreases hi,
    {
        proof {
            let part = s@.subrange(lo as int, hi as int);
            assert(part.last() == s@[hi - 1]);
            assert(part.drop_last() =~= s@.subrange(lo as int, hi - 1));
        }
        hi = hi - 1;
    }
    proof {
        let part = s@.subrange(lo as int, hi as int);
        if hi > lo {
            assert(part.last() == s@[hi - 1]);
        }
        assert(trim_back(part) == part);
    }
    s.substring_char(lo, hi)
}

/// The user's choice, read from one trimmed line of input.
#[derive(Clone, Copy, Debug, PartialEq, Eq, Structural)]
pub enum Command {
    /// A numeric selection of a listed entry, 1-based.
    Select(usize),
    /// Append the clipboard text as a new entry.
    Add,
    /// Delete an entry; its number follows on a second line.
    Delete,
    /// Leave without any action.
    Quit,
    /// None of the above.
    Invalid,
}

/// The command that a line of input denotes: a number selects an entry;
/// `a`, `d` and `q` (in either case) add, delete and quit; anything else,
/// a numeral too large for `usize` included, is invalid.
pub open spec fn command_of(input: Seq<char>) -> Command {
    let t = trimmed(input);
    if t.len() > 0 && all_digits(t) && digits_val(t) <= usize::MAX {
        Command::Select(digits_val(t) as usize)
    } else if t == seq!['a'] || t == seq!['A'] {
        Command::Add
    } else if t == seq!['d'] || t == seq!['D'] {
        Command::Delete
    } else if t == seq!['q'] || t == seq!['Q'] {
        Command::Quit
    } else {
        Command::Invalid
    }
}

/// Reads the command on one line of input.
pub fn parse_command(input: &str) -> (c: Command)
    ensures
        c == command_of(input@),
{
    let t = trim(input);
    match parse_usize(t) {
        Some(v) => Command::Select(v),
        None => {
            if t.unicode_len() == 1 {
                let ch = t.get_char(0);
                proof {
                    assert(seq![ch].len() == 1);
                    assert(seq![ch][0] == ch);
                    assert(t@ =~= seq![ch]);
                }
                if ch == 'a' || ch == 'A' {
                    Command::Add
                } else if ch == 'd' || ch == 'D' {
                    Command::Delete
                } else if ch == 'q' || ch == 'Q' {
                    Command::Quit
                } else {
                    Command::Invalid
                }
            } else {
                proof {
                    assert(t@.len() != 1);
                }
                Command::Invalid
            }
        },
    }
}

/// The entry number on the second line of a delete command: the line's value
/// when it is a numeral that fits in `usize`, else nothing.
pub open spec fn delete_selection(input: Seq<char>) -> Option<usize> {
    let t = trimmed(input);
    if t.len() > 0 && all_digits(t) && digits_val(t) <= usize::MAX {
        Some(digits_val(t) as usize)
    } else {
        None
    }
}

/// Reads the entry number on the second line of a delete command.
pub fn parse_delete_index(input: &str) -> (r: Option<usize>)
    ensures
        r == delete_selection(input@),
{
    parse_usize(trim(input))
}

/// The store file text after serving a delete command whose second input
/// line is `input`: unchanged (`None`) when `input` is no numeral, else the
/// text with the chosen entry removed, or a rejection of a number out of
/// range.
pub fn apply_delete(content: &str, input: &str) -> (r: Result<Option<String>, StoreError>)
    ensures
        ({
            let ls = split_lines(content@);
            match delete_selection(input@) {
                None => r matches Ok(o) && o is None,
                Some(n) => if 1 <= n <= ls.len() {
                    r matches Ok(o) && o matches Some(u) && u@ == join_lines(ls.remove(n - 1))
                } else {
                    r matches Err(e) && e == StoreError::IndexOutOfRange
                },
            }
        }),
{
    match parse_delete_index(input) {
        None => Ok(None),
        Some(n) => match delete_from_content(content, n) {
            Ok(updated) => Ok(Some(updated)),
            Err(e) => Err(e),
        },
    }
}

/// What the program does after reading the command.
#[derive(Debug)]
pub enum Action {
    /// Place this entry's text on the clipboard and finish.
    CopyEntry(String),
    /// Read the clipboard and append its text to the store.
    CaptureClipboard,
    /// Read a second line of input and delete the entry it names.
    PromptDelete,
    /// Finish without any action.
    Finish,
    /// Abort with this error.
    Reject(StoreError),
}

/// Decides the action for one line of input against the listed entries: a
/// selection in range copies that entry, one out of range is rejected, the
/// three letter commands act as named, and any other input is rejected as
/// invalid.
pub fn dispatch(entries: &Vec<String>, input: &str) -> (a: Action)
    ensures
        ({
            let dv = entries.deep_view();
            match command_of(input@) {
                Command::Select(n) => if 1 <= n <= dv.len() {
                    a matches Action::CopyEntry(t) && t@ == dv[n - 1]
                } else {
                    a matches Action::Reject(e) && e == StoreError::IndexOutOfRange
                },
                Command::Add => a is CaptureClipboard,
                Command::Delete => a is PromptDelete,
                Command::Quit => a is Finish,
                Command::Invalid => a matches Action::Reject(e) && e == StoreError::InvalidOption,
            }
        }),
{
    match parse_command(input) {
        Command::Select(n) => {
            if 1 <= n && n <= entries.len() {
                Action::CopyEntry(entries[n - 1].clone())
            } else {
                Action::Reject(StoreError::IndexOutOfRange)
            }
        },
        Command::Add => Action::CaptureClipboard,
        Command::Delete => Action::PromptDelete,
        Command::Quit => Action::Finish,
        Command::Invalid => Action::Reject(StoreError::InvalidOption),
    }
}

/// The enumerated listing of `lines`, numbering from `k + 1` on: each line
/// is shown as its number, a separating " - ", its text, and a line break.
pub open spec fn listing_from(lines: Seq<Seq<char>>, k: nat) -> Seq<char>
    decreases lines.len(),
{
    if lines.len() == 0 {
        Seq::empty()
    } else {
        dec_str(k + 1) + seq![' ', '-', ' '] + lines[0] + seq!['\n'] + listing_from(
            lines.drop_first(),
            k + 1,
        )
    }
}

/// The enumerated listing of `lines`, numbered from 1.
pub open spec fn listing(lines: Seq<Seq<char>>) -> Seq<char> {
    listing_from(lines, 0)
}

proof fn lemma_listing_push(lines: Seq<Seq<char>>, x: Seq<char>, k: nat)
    ensures
        listing_from(lines.push(x), k) == listing_from(lines, k) + dec_str(k + lines.len() + 1)
            + seq![' ', '-', ' '] + x + seq!['\n'],
    decreases lines.len(),
{
    let sep = seq![' ', '-', ' '];
    let nl = seq!['\n'];
    if lines.len() == 0 {
        assert(lines.push(x)[0] == x);
        assert(lines.push(x).drop_first() =~= Seq::<Seq<char>>::empty());
        assert(listing_from(Seq::<Seq<char>>::empty(), k + 1) == Seq::<char>::empty());
        let whole = dec_str(k + 1) + sep + x + nl;
        assert(listing_from(lines.push(x), k) == whole + Seq::<char>::empty());
        assert(whole + Seq::<char>::empty() =~= whole);
        assert(listing_from(lines, k) + dec_str(k + lines.len() + 1) + sep + x + nl =~= whole);
    } else {
        lemma_listing_push(lines.drop_first(), x, k + 1);
        assert(lines.push(x)[0] == lines[0]);
        assert(lines.push(x).drop_first() =~= lines.drop_first().push(x));
        let head = dec_str(k + 1) + sep + lines[0] + nl;
        let tail = listing_from(lines.drop_first(), k + 1);
        let num = dec_str(k + lines.len() + 1);
        assert(listing_from(lines.push(x), k) == head + (tail + num + sep + x + nl));
        assert(listing_from(lines, k) == head + tail);
        assert(head + (tail + num + sep + x + nl) =~= head + tail + num + sep + x + nl);
    }
}

fn separator_str() -> (s: &'static str)
    ensures
        s@ == seq![' ', '-', ' '],
{
    proof {
        reveal_strlit(" - ");
        assert(" - "@ =~= seq![' ', '-', ' ']);
    }
    " - "
}

/// Renders the numbered listing of `entries`, one per line, numbered from 1.
pub fn render_listing(entries: &Vec<String>) -> (s: String)
    ensures
        s@ == listing(entries.deep_view()),
{
    let ghost dv = entries.deep_view();
    let mut s = String::new();
    let mut i: usize = 0;
    proof {
        assert(dv.take(0) =~= Seq::<Seq<char>>::empty());
    }
    while i < entries.len()
        invariant
            i <= entries@.len(),
            dv == entries.deep_view(),
            dv.len() == entries@.len(),
            s@ == listing_from(dv.take(i as int), 0),
        decreases entries@.len() - i,
    {
        let ghost prev = s@;
        let number = fmt_usize(i + 1);
        s.append(number.as_str());
        s.append(separator_str());
        s.append(entries[i].as_str());
        s.append(newline_str());
        proof {
            lemma_listing_push(dv.take(i as int), dv[i as int], 0);
            assert(dv.take(i as int).push(dv[i as int]) =~= dv.take(i + 1));
            assert(s@ =~= prev + dec_str((i + 1) as nat) + seq![' ', '-', ' '] + dv[i as int]
                + seq!['\n']);
        }
        i = i + 1;
    }
    proof {
        assert(dv.take(dv.len() as int) =~= dv);
    }
    s
}

} // verus!
