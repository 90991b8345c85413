//! Splitting a text into its lines and joining lines back into a text.
//!
//! A `'\n'` ends a line; a final line without a terminating `'\n'` still
//! counts as a line, and the text after a final `'\n'` contributes nothing.
//! Joining writes every line followed by a single `'\n'`.

use vstd::prelude::*;

verus! {

/// The lines of `s`, with `cur` carrying the characters of the line read so
/// far.
pub open spec fn split_rec(s: Seq<char>, cur: Seq<char>) -> Seq<Seq<char>>
    decreases s.len(),
{
    if s.len() == 0 {
        if cur.len() == 0 {
            Seq::empty()
        } else {
            seq![cur]
        }
    } else if s[0] == '\n' {
        seq![cur] + split_rec(s.drop_first(), Seq::empty())
    } else {
        split_rec(s.drop_first(), cur.push(s[0]))
    }
}

/// The lines of the text `s`.
pub open spec fn split_lines(s: Seq<char>) -> Seq<Seq<char>> {
    split_rec(s, Seq::empty())
}

/// The text with each of `lines` followed by a single `'\n'`.
pub open spec fn join_lines(lines: Seq<Seq<char>>) -> Seq<char>
    decreases lines.len(),
{
    if lines.len() == 0 {
        Seq::empty()
    } else {
        lines[0] + seq!['\n'] + join_lines(lines.drop_first())
    }
}

/// Whether `s` holds no line break.
pub open spec fn no_newline(s: Seq<char>) -> bool {
    forall|i: int| 0 <= i < s.len() ==> s[i] != '\n'
}

/// `s` unchanged if it is empty or already ends in `'\n'`, else `s` with a
/// final `'\n'` added.
pub open spec fn normalize_content(s: Seq<char>) -> Seq<char> {
    if s.len() == 0 {
        s
    } else if s[s.len() - 1] == '\n' {
        s
    } else {
        s.push('\n')
    }
}

/// Splits `content` into its lines.
pub fn parse_store(content: &str) -> (entries: Vec<String>)
    ensures
        entries.deep_view() == split_lines(content@),
{
    let n = content.unicode_len();
    let mut entries: Vec<String> = Vec::new();
    let mut start: usize = 0;
    let mut i: usize = 0;
    proof {
        assert(content@.skip(0) =~= content@);
        assert(content@.subrange(0, 0) =~= Seq::<char>::empty());
        assert(entries.deep_view() =~= Seq::<Seq<char>>::empty());
        assert(Seq::<Seq<char>>::empty() + split_rec(content@, Seq::empty()) =~= split_rec(
            content@,
            Seq::empty(),
        ));
    }
    while i < n
        invariant
            start <= i <= n,
            n == content@.len(),
            forall|k: int| start <= k < i ==> content@[k] != '\n',
            split_lines(content@) == entries.deep_view() + split_rec(
                content@.skip(i as int),
                content@.subrange(start as int, i as int),
            ),
        decreases n - i,
    {
        let ghost prev_entries = entries.deep_view();
        let ghost rest = content@.skip(i as int);
        let ghost cur = content@.subrange(start as int, i as int);
        let c = content.get_char(i);
        assert(rest[0] == content@[i as int]);
        if c == '\n' {
            let line = content.substring_char(start, i);
            entries.push(line.to_owned());
            proof {
                assert(entries.deep_view() =~= prev_entries.push(cur));
                assert(rest.drop_first() =~= content@.skip(i + 1));
                assert(split_rec(rest, cur) == seq![cur] + split_rec(
                    content@.skip(i + 1),
                    Seq::empty(),
                ));
                assert(content@.subrange(i + 1, i + 1) =~= Seq::<char>::empty());
                assert(prev_entries + (seq![cur] + split_rec(content@.skip(i + 1), Seq::empty()))
                    =~= prev_entries.push(cur) + split_rec(content@.skip(i + 1), Seq::empty()));
            }
            start = i + 1;
        } else {
            proof {
                assert(rest.drop_first() =~= content@.skip(i + 1));
                assert(split_rec(rest, cur) == split_rec(content@.skip(i + 1), cur.push(rest[0])));
                assert(cur.push(content@[i as int]) =~= content@.subrange(start as int, i + 1));
            }
        }
        i = i + 1;
    }
    assert(content@.skip(n as int) =~= Seq::<char>::empty());
    if start < n {
        let line = content.substring_char(start, n);
        let ghost prev_entries = entries.deep_view();
        entries.push(line.to_owned());
        proof {
            assert(entries.deep_view() =~= prev_entries.push(
                content@.subrange(start as int, n as int),
            ));
            assert(split_lines(content@) =~= entries.deep_view());
        }
    } else {
        proof {
            assert(content@.subrange(start as int, n as int) =~= Seq::<char>::empty());
            assert(split_lines(content@) =~= entries.deep_view());
        }
    }
    entries
}

/// A one-character string holding the line break.
pub(crate) fn newline_str() -> (s: &'static str)
    ensures
        s@ == seq!['\n'],
{
    proof {
        reveal_strlit("\n");
        assert("\n"@ =~= seq!['\n']);
    }
    "\n"
}

/// Joining after adding a line at the end adds that line and a `'\n'` at the
/// end of the joined text.
pub proof fn lemma_join_lines_push(lines: Seq<Seq<char>>, x: Seq<char>)
    ensures
        join_lines(lines.push(x)) == join_lines(lines) + x + seq!['\n'],
    decreases lines.len(),
{
    if lines.len() == 0 {
        assert(lines.push(x)[0] == x);
        assert(lines.push(x).drop_first() =~= Seq::<Seq<char>>::empty());
        assert(x + seq!['\n'] + join_lines(Seq::<Seq<char>>::empty()) =~= x + seq!['\n']);
        assert(join_lines(lines) + x + seq!['\n'] =~= x + seq!['\n']);
    } else {
        lemma_join_lines_push(lines.drop_first(), x);
        assert(lines.push(x)[0] == lines[0]);
        assert(lines.push(x).drop_first() =~= lines.drop_first().push(x));
        assert(lines[0] + seq!['\n'] + (join_lines(lines.drop_first()) + x + seq!['\n'])
            =~= (lines[0] + seq!['\n'] + join_lines(lines.drop_first())) + x + seq!['\n']);
    }
}

/// Every line that splitting produces is free of line breaks.
proof fn lemma_split_rec_no_newline(s: Seq<char>, cur: Seq<char>)
    requires
        no_newline(cur),
    ensures
        forall|i: int| 0 <= i < split_rec(s, cur).len() ==> no_newline(#[trigger] split_rec(s, cur)[i]),
    decreases s.len(),
{
    if s.len() == 0 {
        assert forall|i: int| 0 <= i < split_rec(s, cur).len() implies no_newline(
            #[trigger] split_rec(s, cur)[i],
        ) by {
            assert(split_rec(s, cur)[i] == cur);
        }
    } else if s[0] == '\n' {
        lemma_split_rec_no_newline(s.drop_first(), Seq::empty());
        assert forall|i: int| 0 <= i < split_rec(s, cur).len() implies no_newline(
            #[trigger] split_rec(s, cur)[i],
        ) by {
            if i > 0 {
                assert(split_rec(s, cur)[i] == split_rec(s.drop_first(), Seq::empty())[i - 1]);
            } else {
                assert(split_rec(s, cur)[i] == cur);
            }
        }
    } else {
        assert(no_newline(cur.push(s[0])));
        lemma_split_rec_no_newline(s.drop_first(), cur.push(s[0]));
        assert(split_rec(s, cur) == split_rec(s.drop_first(), cur.push(s[0])));
        assert forall|i: int| 0 <= i < split_rec(s, cur).len() implies no_newline(
            #[trigger] split_rec(s, cur)[i],
        ) by {
            assert(split_rec(s, cur)[i] == split_rec(s.drop_first(), cur.push(s[0]))[i]);
        }
    }
}

/// Every line of a split text is free of line breaks.
pub proof fn lemma_split_lines_no_newline(s: Seq<char>)
    ensures
        forall|i: int| 0 <= i < split_lines(s).len() ==> no_newline(#[trigger] split_lines(s)[i]),
{
    lemma_split_rec_no_newline(s, Seq::empty());
}

/// Splitting a text that starts with a break-free line `line`, a `'\n'`, and
/// then `tail` yields the running line extended by `line`, then the lines of
/// `tail`.
proof fn lemma_split_rec_line(line: Seq<char>, tail: Seq<char>, cur: Seq<char>)
    requires
        no_newline(line),
    ensures
        split_rec(line + seq!['\n'] + tail, cur) == seq![cur + line] + split_rec(
            tail,
            Seq::empty(),
        ),
    decreases line.len(),
{
    let s = line + seq!['\n'] + tail;
    assert(s.len() == line.len() + 1 + tail.len());
    if line.len() == 0 {
        assert(s[0] == '\n');
        assert(s.drop_first() =~= tail);
        assert(cur + line =~= cur);
    } else {
        assert(s[0] == line[0]);
        assert(line[0] != '\n');
        assert(s.drop_first() =~= line.drop_first() + seq!['\n'] + tail);
        lemma_split_rec_line(line.drop_first(), tail, cur.push(line[0]));
        assert(cur.push(line[0]) + line.drop_first() =~= cur + line);
    }
}

/// Splitting the joined text of break-free lines gives those lines back.
pub proof fn lemma_split_of_join(lines: Seq<Seq<char>>)
    requires
        forall|i: int| 0 <= i < lines.len() ==> no_newline(#[trigger] lines[i]),
    ensures
        split_lines(join_lines(lines)) == lines,
    decreases lines.len(),
{
    if lines.len() == 0 {
    } else {
        lemma_split_rec_line(lines[0], join_lines(lines.drop_first()), Seq::empty());
        assert forall|i: int| 0 <= i < lines.drop_first().len() implies no_newline(
            #[trigger] lines.drop_first()[i],
        ) by {
            assert(lines.drop_first()[i] == lines[i + 1]);
        }
        lemma_split_of_join(lines.drop_first());
        assert(Seq::<char>::empty() + lines[0] =~= lines[0]);
        assert(seq![lines[0]] + lines.drop_first() =~= lines);
    }
}

/// The join of the running line `cur` and the lines of `s`: empty when both
/// are empty, else `cur` followed by `s` brought to end in a single `'\n'`.
spec fn rejoined(s: Seq<char>, cur: Seq<char>) -> Seq<char> {
    if s.len() == 0 && cur.len() == 0 {
        Seq::empty()
    } else if s.len() == 0 {
        cur + seq!['\n']
    } else if s[s.len() - 1] == '\n' {
        cur + s
    } else {
        cur + s.push('\n')
    }
}

proof fn lemma_join_of_split_rec(s: Seq<char>, cur: Seq<char>)
    ensures
        join_lines(split_rec(s, cur)) == rejoined(s, cur),
    decreases s.len(),
{
    if s.len() == 0 {
        if cur.len() == 0 {
        } else {
            assert(seq![cur][0] == cur);
            assert(join_lines(Seq::<Seq<char>>::empty()) == Seq::<char>::empty());
            assert(seq![cur].drop_first() =~= Seq::<Seq<char>>::empty());
            assert(cur + seq!['\n'] + Seq::<char>::empty() =~= cur + seq!['\n']);
        }
        assert(join_lines(split_rec(s, cur)) == rejoined(s, cur));
    } else if s[0] == '\n' {
        let rest = s.drop_first();
        lemma_join_of_split_rec(rest, Seq::empty());
        let parts = seq![cur] + split_rec(rest, Seq::empty());
        assert(parts[0] == cur);
        assert(parts.drop_first() =~= split_rec(rest, Seq::empty()));
        assert(join_lines(split_rec(s, cur)) == cur + seq!['\n'] + rejoined(rest, Seq::empty()));
        if rest.len() == 0 {
            assert(cur + seq!['\n'] + Seq::<char>::empty() =~= rejoined(s, cur));
        } else {
            assert(Seq::<char>::empty() + rest =~= rest);
            assert(Seq::<char>::empty() + rest.push('\n') =~= rest.push('\n'));
            assert(s[s.len() - 1] == rest[rest.len() - 1]);
            if rest[rest.len() - 1] == '\n' {
                assert(cur + seq!['\n'] + rest =~= cur + s);
            } else {
                assert(cur + seq!['\n'] + rest.push('\n') =~= cur + s.push('\n'));
            }
        }
        assert(join_lines(split_rec(s, cur)) == rejoined(s, cur));
    } else {
        let rest = s.drop_first();
        lemma_join_of_split_rec(rest, cur.push(s[0]));
        assert(split_rec(s, cur) == split_rec(rest, cur.push(s[0])));
        assert(join_lines(split_rec(s, cur)) == rejoined(rest, cur.push(s[0])));
        if rest.len() == 0 {
            assert(cur.push(s[0]) + seq!['\n'] =~= cur + s.push('\n'));
        } else {
            assert(s[s.len() - 1] == rest[rest.len() - 1]);
            if rest[rest.len() - 1] == '\n' {
                assert(cur.push(s[0]) + rest =~= cur + s);
            } else {
                assert(cur.push(s[0]) + rest.push('\n') =~= cur + s.push('\n'));
            }
        }
    }
}

/// Loading a store file and writing it back unchanged reproduces the file,
/// up to bringing a non-empty file to end in a single final `'\n'`.
pub proof fn lemma_join_of_split(s: Seq<char>)
    ensures
        join_lines(split_lines(s)) == normalize_content(s),
{
    lemma_join_of_split_rec(s, Seq::empty());
    if s.len() != 0 {
        if s[s.len() - 1] == '\n' {
            assert(Seq::<char>::empty() + s =~= s);
        } else {
            assert(Seq::<char>::empty() + s.push('\n') =~= s.push('\n'));
        }
    }
}

/// Joins `entries` into a text, each entry followed by a single `'\n'`.
pub fn render_store(entries: &Vec<String>) -> (s: String)
    ensures
        s@ == join_lines(entries.deep_view()),
{
    let ghost dv = entries.deep_view();
    let mut s = String::new();
    let mut i: usize = 0;
    while i < entries.len()
        invariant
            i <= entries@.len(),
            dv == entries.deep_view(),
            dv.len() == entries@.len(),
            s@ == join_lines(dv.take(i as int)),
        decreases entries@.len() - i,
    {
        let ghost prev = s@;
        s.append(entries[i].as_str());
        s.append(newline_str());
        proof {
            lemma_join_lines_push(dv.take(i as int), dv[i as int]);
            assert(dv.take(i as int).push(dv[i as int]) =~= dv.take(i + 1));
            assert(s@ =~= prev + dv[i as int] + seq!['\n']);
        }
        i = i + 1;
    }
    proof {
        assert(dv.take(dv.len() as int) =~= dv);
    }
    s
}

} // verus!
