//! Scopes: how the path of a signal gives its display name and the group it is declared in.
//!
//! A path is split at each `/`. Its last segment is the name under which the signal is
//! declared. The segments before it, joined with `/` again, are its scope key, and the
//! signals that share a key form one group. Groups are flat: the keys `top` and `top/sub`
//! are two groups, each with its own opening and closing of scopes.

use crate::text::{
    join_prefix, lemma_split_len, same_text, spec_join, spec_nonempty, spec_split, split,
    Separator,
};
use crate::waveform::SignalView;
use vstd::prelude::*;

verus! {

/// The character that separates the segments of a path.
pub const PATH_SEPARATOR: char = '/';

/// The segments of a path or of a scope key.
pub open spec fn spec_segments(path: Seq<char>) -> Seq<Seq<char>> {
    spec_split(path, Separator::Char(PATH_SEPARATOR))
}

/// The scope key of a path: its segments but the last, joined with `/`. It is empty for a
/// path without `/`.
pub open spec fn spec_scope_key(path: Seq<char>) -> Seq<char> {
    spec_join(spec_segments(path).drop_last(), PATH_SEPARATOR)
}

/// The display name of a path: its last segment.
pub open spec fn spec_leaf_name(path: Seq<char>) -> Seq<char> {
    spec_segments(path).last()
}

/// The scopes that a scope key opens: its segments that are not empty.
pub open spec fn spec_scope_names(key: Seq<char>) -> Seq<Seq<char>> {
    spec_nonempty(spec_segments(key))
}

/// The scope keys of `signals`, each once, in the order in which they first occur.
pub open spec fn spec_scope_keys(signals: Seq<SignalView>) -> Seq<Seq<char>>
    decreases signals.len(),
{
    if signals.len() == 0 {
        Seq::empty()
    } else {
        let before = spec_scope_keys(signals.drop_last());
        let key = spec_scope_key(signals.last().path);
        if before.contains(key) {
            before
        } else {
            before.push(key)
        }
    }
}

/// Whether `key` is the scope key of one of `signals`.
pub open spec fn has_key(signals: Seq<SignalView>, key: Seq<char>) -> bool {
    exists|i: int| 0 <= i < signals.len() && spec_scope_key((#[trigger] signals[i]).path) == key
}

/// The scope keys hold the key of every signal, hold the key of signals only, and hold no key
/// twice.
pub proof fn lemma_scope_keys(signals: Seq<SignalView>)
    ensures
        forall|i: int|
            0 <= i < signals.len() ==> spec_scope_keys(signals).contains(
                spec_scope_key((#[trigger] signals[i]).path),
            ),
        forall|k: int|
            0 <= k < spec_scope_keys(signals).len() ==> has_key(
                signals,
                #[trigger] spec_scope_keys(signals)[k],
            ),
        spec_scope_keys(signals).no_duplicates(),
    decreases signals.len(),
{
    if signals.len() > 0 {
        let shorter = signals.drop_last();
        let before = spec_scope_keys(shorter);
        let after = spec_scope_keys(signals);
        let key = spec_scope_key(signals.last().path);
        lemma_scope_keys(shorter);
        assert forall|i: int| 0 <= i < signals.len() implies after.contains(
            spec_scope_key((#[trigger] signals[i]).path),
        ) by {
            if i < shorter.len() {
                let wanted = spec_scope_key(shorter[i].path);
                let k = choose|k: int| 0 <= k < before.len() && before[k] == wanted;
                assert(after[k] == wanted);
            } else if !before.contains(key) {
                assert(after[after.len() - 1] == key);
            }
        }
    }
}

/// Splits a path into its scope key and its display name.
pub fn split_path<'a>(path: &'a [char]) -> (r: (Vec<char>, &'a [char]))
    ensures
        r.0@ == spec_scope_key(path@),
        r.1@ == spec_leaf_name(path@),
{
    let parts = split(path, Separator::Char(PATH_SEPARATOR));
    proof {
        lemma_split_len(path@, Separator::Char(PATH_SEPARATOR));
    }
    let last = parts.len() - 1;
    let key = join_prefix(&parts, last, PATH_SEPARATOR);
    (key, parts[last])
}

/// The views of a sequence of character vectors.
pub open spec fn texts_view(texts: Seq<Vec<char>>) -> Seq<Seq<char>> {
    Seq::new(texts.len(), |k: int| texts[k]@)
}

/// Finds `key` among `keys`: the index of the first that equals it, or `keys.len()`.
pub fn find_key(keys: &Vec<Vec<char>>, key: &[char]) -> (p: usize)
    ensures
        p <= keys@.len(),
        p < keys@.len() ==> keys@[p as int]@ == key@,
        forall|j: int| 0 <= j < p ==> keys@[j]@ != key@,
        p < keys@.len() <==> texts_view(keys@).contains(key@),
{
    let mut p: usize = 0;
    while p < keys.len()
        invariant
            p <= keys@.len(),
            forall|j: int| 0 <= j < p ==> keys@[j]@ != key@,
        decreases keys@.len() - p,
    {
        if same_text(keys[p].as_slice(), key) {
            proof {
                assert(texts_view(keys@)[p as int] == key@);
            }
            return p;
        }
        p += 1;
    }
    p
}

} // verus!
