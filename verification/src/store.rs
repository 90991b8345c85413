//! The bookmark store: the contents of the store file as a sequence of
//! entries, and the append and delete operations on it.
//!
//! Every operation takes the current file text and returns the new file
//! text; reading and writing the file itself is left to the caller.

use vstd::prelude::*;

use crate::lines::{
    join_lines, lemma_split_lines_no_newline, lemma_split_of_join,
    no_newline, parse_store, render_store, split_lines,
};

verus! {

/// What can go wrong while serving one command.
#[derive(Clone, Copy, Debug, PartialEq, Eq, Structural)]
pub enum StoreError {
    /// The store file could not be opened, read or written.
    IoError,
    /// The system clipboard was unavailable or held no text.
    ClipboardError,
    /// A selection lay outside the range of listed entries.
    IndexOutOfRange,
    /// The command was not a selection and not a known letter.
    InvalidOption,
}

/// The store file text after appending the entry `text`: the old entries
/// followed by `text`, each entry ending in a single `'\n'`.
pub fn append_content(content: &str, text: &str) -> (updated: String)
    requires
        no_newline(text@),
    ensures
        updated@ == join_lines(split_lines(content@).push(text@)),
{
    let mut entries = parse_store(content);
    let ghost prev = entries.deep_view();
    entries.push(text.to_owned());
    proof {
        assert(entries.deep_view() =~= prev.push(text@));
    }
    render_store(&entries)
}

/// The store file text after deleting the entry at the 1-based `index`: the
/// old entries with that one removed, each ending in a single `'\n'`.
/// Rejects an `index` of 0 or above the entry count.
pub fn delete_from_content(content: &str, index: usize) -> (r: Result<String, StoreError>)
    ensures
        ({
            let ls = split_lines(content@);
            match r {
                Ok(updated) => 1 <= index <= ls.len() && updated@ == join_lines(
                    ls.remove(index - 1),
                ),
                Err(e) => e == StoreError::IndexOutOfRange && !(1 <= index <= ls.len()),
            }
        }),
{
    let mut entries = parse_store(content);
    if index == 0 || index > entries.len() {
        return Err(StoreError::IndexOutOfRange);
    }
    let ghost prev = entries.deep_view();
    entries.remove(index - 1);
    proof {
        assert(entries.deep_view() =~= prev.remove(index - 1));
    }
    Ok(render_store(&entries))
}

/// Appending an entry and loading the store back yields the old entries with
/// the new one at the end.
pub proof fn lemma_append_then_load(content: Seq<char>, text: Seq<char>)
    requires
        no_newline(text),
    ensures
        split_lines(join_lines(split_lines(content).push(text))) == split_lines(content).push(
            text,
        ),
{
    let ls = split_lines(content).push(text);
    lemma_split_lines_no_newline(content);
    assert forall|i: int| 0 <= i < ls.len() implies no_newline(#[trigger] ls[i]) by {
        if i < ls.len() - 1 {
            assert(ls[i] == split_lines(content)[i]);
        }
    }
    lemma_split_of_join(ls);
}

/// Deleting the entry at a valid 1-based `index` and loading the store back
/// yields the old entries with that one removed, one entry fewer.
pub proof fn lemma_delete_then_load(content: Seq<char>, index: int)
    requires
        1 <= index <= split_lines(content).len(),
    ensures
        split_lines(join_lines(split_lines(content).remove(index - 1))) == split_lines(
            content,
        ).remove(index - 1),
        split_lines(content).remove(index - 1).len() == split_lines(content).len() - 1,
{
    let ls = split_lines(content);
    let shorter = ls.remove(index - 1);
    lemma_split_lines_no_newline(content);
    assert forall|i: int| 0 <= i < shorter.len() implies no_newline(#[trigger] shorter[i]) by {
        if i < index - 1 {
            assert(shorter[i] == ls[i]);
        } else {
            assert(shorter[i] == ls[i + 1]);
        }
    }
    lemma_split_of_join(shorter);
}

} // verus!
