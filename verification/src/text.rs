//! Character sequences: whitespace, trimming, splitting and joining.
//!
//! Text is handled as slices of `char`, whose view is a `Seq<char>`; every
//! executable function here is specified by a spec function on such sequences.

use vstd::prelude::*;
use vstd::slice::slice_subrange;

verus! {

/// Whether `c` has the Unicode property `White_Space`.
pub open spec fn spec_is_whitespace(c: char) -> bool {
    let u = c as u32;
    ||| 0x09 <= u <= 0x0D
    ||| u == 0x20
    ||| u == 0x85
    ||| u == 0xA0
    ||| u == 0x1680
    ||| 0x2000 <= u <= 0x200A
    ||| u == 0x2028
    ||| u == 0x2029
    ||| u == 0x202F
    ||| u == 0x205F
    ||| u == 0x3000
}

/// Tells whether `c` is a whitespace character.
pub fn is_whitespace(c: char) -> (r: bool)
    ensures
        r == spec_is_whitespace(c),
{
    let u: u32 = c as u32;
    (0x09 <= u && u <= 0x0D) || u == 0x20 || u == 0x85 || u == 0xA0 || u == 0x1680 || (0x2000 <= u
        && u <= 0x200A) || u == 0x2028 || u == 0x2029 || u == 0x202F || u == 0x205F || u == 0x3000
}

/// `s` without its leading whitespace.
pub open spec fn spec_trim_start(s: Seq<char>) -> Seq<char>
    decreases s.len(),
{
    if s.len() > 0 && spec_is_whitespace(s[0]) {
        spec_trim_start(s.skip(1))
    } else {
        s
    }
}

/// `s` without its trailing whitespace.
pub open spec fn spec_trim_end(s: Seq<char>) -> Seq<char>
    decreases s.len(),
{
    if s.len() > 0 && spec_is_whitespace(s.last()) {
        spec_trim_end(s.drop_last())
    } else {
        s
    }
}

/// `s` without its leading and trailing whitespace.
pub open spec fn spec_trim(s: Seq<char>) -> Seq<char> {
    spec_trim_end(spec_trim_start(s))
}

/// Returns `s` without its leading and trailing whitespace.
pub fn trim(s: &[char]) -> (r: &[char])
    ensures
        r@ == spec_trim(s@),
{
    let n = s.len();
    let mut lo: usize = 0;
    assert(s@.skip(0) =~= s@);
    while lo < n && is_whitespace(s[lo])
        invariant
            lo <= n,
            n == s@.len(),
            spec_trim_start(s@) == spec_trim_start(s@.skip(lo as int)),
        decreases n - lo,
    {
        proof {
            assert(s@.skip(lo as int).skip(1) =~= s@.skip(lo as int + 1));
        }
        lo += 1;
    }
    let ghost body = s@.skip(lo as int);
    let mut hi: usize = n;
    while hi > lo && is_whitespace(s[hi - 1])
        invariant
            lo <= hi <= n,
            n == s@.len(),
            body == s@.skip(lo as int),
            spec_trim_end(body) == spec_trim_end(s@.subrange(lo as int, hi as int)),
        decreases hi - lo,
    {
        proof {
            assert(s@.subrange(lo as int, hi as int).drop_last() =~= s@.subrange(
                lo as int,
                hi as int - 1,
            ));
        }
        hi -= 1;
    }
    slice_subrange(s, lo, hi)
}

/// What separates the pieces of a split.
#[derive(Clone, Copy, Debug)]
pub enum Separator {
    /// One given character.
    Char(char),
    /// Any whitespace character.
    Whitespace,
}

impl Separator {
    /// Whether `c` is a separating character.
    pub open spec fn spec_matches(self, c: char) -> bool {
        match self {
            Separator::Char(d) => c == d,
            Separator::Whitespace => spec_is_whitespace(c),
        }
    }

    /// Tells whether `c` is a separating character.
    pub fn matches(&self, c: char) -> (r: bool)
        ensures
            r == self.spec_matches(c),
    {
        match self {
            Separator::Char(d) => c == *d,
            Separator::Whitespace => is_whitespace(c),
        }
    }
}

/// The index of the first character of `s` that `sep` matches, or `s.len()` where it matches none.
pub open spec fn first_match(s: Seq<char>, sep: Separator) -> int
    decreases s.len(),
{
    if s.len() == 0 || sep.spec_matches(s[0]) {
        0
    } else {
        1 + first_match(s.skip(1), sep)
    }
}

/// `first_match` is in range, nothing before it matches, and what stands at it does.
pub proof fn lemma_first_match(s: Seq<char>, sep: Separator)
    ensures
        0 <= first_match(s, sep) <= s.len(),
        forall|j: int| 0 <= j < first_match(s, sep) ==> !sep.spec_matches(#[trigger] s[j]),
        first_match(s, sep) < s.len() ==> sep.spec_matches(s[first_match(s, sep)]),
    decreases s.len(),
{
    if !(s.len() == 0 || sep.spec_matches(s[0])) {
        let rest = s.skip(1);
        lemma_first_match(rest, sep);
        assert forall|j: int| 0 <= j < first_match(s, sep) implies !sep.spec_matches(
            #[trigger] s[j],
        ) by {
            if j > 0 {
                assert(s[j] == rest[j - 1]);
            }
        }
    }
}

/// An index of which `lemma_first_match` holds is `first_match`.
pub proof fn lemma_first_match_is(s: Seq<char>, sep: Separator, i: int)
    requires
        0 <= i <= s.len(),
        forall|j: int| 0 <= j < i ==> !sep.spec_matches(#[trigger] s[j]),
        i < s.len() ==> sep.spec_matches(s[i]),
    ensures
        first_match(s, sep) == i,
{
    lemma_first_match(s, sep);
}

/// The text before and after the first `delimiter` in `s`, if there is one.
pub open spec fn spec_split_once(s: Seq<char>, delimiter: char) -> Option<(Seq<char>, Seq<char>)> {
    let i = first_match(s, Separator::Char(delimiter));
    if 0 <= i < s.len() {
        Some((s.take(i), s.skip(i + 1)))
    } else {
        None
    }
}

/// Splits `s` at the first `delimiter`, which belongs to neither part.
pub fn split_once(s: &[char], delimiter: char) -> (r: Option<(&[char], &[char])>)
    ensures
        match r {
            Some((before, after)) => spec_split_once(s@, delimiter) == Some((before@, after@)),
            None => spec_split_once(s@, delimiter) is None,
        },
{
    let n = s.len();
    let mut i: usize = 0;
    while i < n && s[i] != delimiter
        invariant
            i <= n,
            n == s@.len(),
            forall|j: int| 0 <= j < i ==> s@[j] != delimiter,
        decreases n - i,
    {
        i += 1;
    }
    proof {
        lemma_first_match_is(s@, Separator::Char(delimiter), i as int);
    }
    if i < n {
        let before = slice_subrange(s, 0, i);
        let after = slice_subrange(s, i + 1, n);
        Some((before, after))
    } else {
        None
    }
}

/// The pieces of `s` between the characters that `sep` matches. There is always at least one
/// piece, and a piece is empty where two separators meet or one stands at an end.
pub open spec fn spec_split(s: Seq<char>, sep: Separator) -> Seq<Seq<char>>
    decreases s.len(),
{
    let i = first_match(s, sep);
    if 0 <= i < s.len() {
        seq![s.take(i)] + spec_split(s.skip(i + 1), sep)
    } else {
        seq![s]
    }
}

/// A split gives at least one piece.
pub proof fn lemma_split_len(s: Seq<char>, sep: Separator)
    ensures
        spec_split(s, sep).len() >= 1,
{
    let i = first_match(s, sep);
    if 0 <= i < s.len() {
        assert(spec_split(s, sep).len() == 1 + spec_split(s.skip(i + 1), sep).len());
    }
}

/// The views of a sequence of slices.
pub open spec fn slices_view(parts: Seq<&[char]>) -> Seq<Seq<char>> {
    parts.map_values(|p: &[char]| p@)
}

/// Splits `s` at every character that `sep` matches.
pub fn split<'a>(s: &'a [char], sep: Separator) -> (parts: Vec<&'a [char]>)
    ensures
        slices_view(parts@) == spec_split(s@, sep),
{
    let n = s.len();
    let mut parts: Vec<&'a [char]> = Vec::new();
    let mut start: usize = 0;
    let mut i: usize = 0;
    assert(s@.skip(0) =~= s@);
    while i < n
        invariant
            start <= i <= n,
            n == s@.len(),
            forall|j: int| start <= j < i ==> !sep.spec_matches(s@[j]),
            spec_split(s@, sep) == slices_view(parts@) + spec_split(s@.skip(start as int), sep),
        decreases n - i,
    {
        if sep.matches(s[i]) {
            let piece = slice_subrange(s, start, i);
            proof {
                let rest = s@.skip(start as int);
                lemma_first_match_is(rest, sep, i - start);
                assert(rest.take(i - start) =~= piece@);
                assert(rest.skip(i - start + 1) =~= s@.skip(i + 1));
            }
            parts.push(piece);
            start = i + 1;
        }
        i += 1;
    }
    let piece = slice_subrange(s, start, n);
    proof {
        let rest = s@.skip(start as int);
        lemma_first_match_is(rest, sep, rest.len() as int);
    }
    parts.push(piece);
    parts
}

/// The pieces of `parts` that are not empty, in their order.
pub open spec fn spec_nonempty(parts: Seq<Seq<char>>) -> Seq<Seq<char>> {
    parts.filter(|p: Seq<char>| p.len() > 0)
}

/// Drops the empty pieces of `parts`.
pub fn nonempty<'a>(parts: &Vec<&'a [char]>) -> (kept: Vec<&'a [char]>)
    ensures
        slices_view(kept@) == spec_nonempty(slices_view(parts@)),
{
    let mut kept: Vec<&'a [char]> = Vec::new();
    let mut i: usize = 0;
    while i < parts.len()
        invariant
            i <= parts@.len(),
            slices_view(kept@) == spec_nonempty(slices_view(parts@).take(i as int)),
        decreases parts@.len() - i,
    {
        let piece = parts[i];
        proof {
            reveal(Seq::filter);
            let all = slices_view(parts@);
            assert(all.take(i + 1).drop_last() =~= all.take(i as int));
        }
        if piece.len() > 0 {
            kept.push(piece);
        }
        i += 1;
    }
    proof {
        assert(slices_view(parts@).take(i as int) =~= slices_view(parts@));
    }
    kept
}

/// The words of `s`: its maximal runs of characters that are not whitespace.
pub open spec fn spec_words(s: Seq<char>) -> Seq<Seq<char>> {
    spec_nonempty(spec_split(s, Separator::Whitespace))
}

/// Splits `s` into its words.
pub fn words<'a>(s: &'a [char]) -> (r: Vec<&'a [char]>)
    ensures
        slices_view(r@) == spec_words(s@),
{
    let parts = split(s, Separator::Whitespace);
    nonempty(&parts)
}

/// The pieces of `parts` written one after the other with `sep` between each two.
pub open spec fn spec_join(parts: Seq<Seq<char>>, sep: char) -> Seq<char>
    decreases parts.len(),
{
    if parts.len() == 0 {
        Seq::empty()
    } else if parts.len() == 1 {
        parts[0]
    } else {
        spec_join(parts.drop_last(), sep).push(sep) + parts.last()
    }
}

/// Joins the first `count` pieces of `parts` with `sep` between each two.
pub fn join_prefix(parts: &Vec<&[char]>, count: usize, sep: char) -> (joined: Vec<char>)
    requires
        count <= parts@.len(),
    ensures
        joined@ == spec_join(slices_view(parts@).take(count as int), sep),
{
    let mut joined: Vec<char> = Vec::new();
    let mut i: usize = 0;
    while i < count
        invariant
            i <= count <= parts@.len(),
            joined@ == spec_join(slices_view(parts@).take(i as int), sep),
        decreases count - i,
    {
        if i > 0 {
            joined.push(sep);
        }
        let piece = parts[i];
        let mut k: usize = 0;
        let ghost head = joined@;
        while k < piece.len()
            invariant
                k <= piece@.len(),
                joined@ == head + piece@.take(k as int),
            decreases piece@.len() - k,
        {
            joined.push(piece[k]);
            k += 1;
        }
        proof {
            let all = slices_view(parts@);
            assert(all.take(i + 1).drop_last() =~= all.take(i as int));
        }
        i += 1;
    }
    joined
}

/// Tells whether two texts hold the same characters.
pub fn same_text(a: &[char], b: &[char]) -> (r: bool)
    ensures
        r == (a@ == b@),
{
    if a.len() != b.len() {
        return false;
    }
    let mut i: usize = 0;
    while i < a.len()
        invariant
            i <= a@.len(),
            a@.len() == b@.len(),
            a@.take(i as int) == b@.take(i as int),
        decreases a@.len() - i,
    {
        if a[i] != b[i] {
            return false;
        }
        i += 1;
    }
    proof {
        assert(a@.take(i as int) =~= a@);
        assert(b@.take(i as int) =~= b@);
    }
    true
}

/// `String::push` of std: the string afterwards is the string before with `c` added at its end.
pub assume_specification[ String::push ](s: &mut String, c: char)
    ensures
        final(s)@ == old(s)@.push(c),
;

/// Appends the characters of `s` to `out`.
pub fn push_chars(out: &mut String, s: &[char])
    ensures
        final(out)@ == old(out)@ + s@,
{
    let mut i: usize = 0;
    while i < s.len()
        invariant
            i <= s@.len(),
            out@ == old(out)@ + s@.take(i as int),
        decreases s@.len() - i,
    {
        out.push(s[i]);
        i += 1;
    }
}

/// A string of the characters of `s`.
pub fn string_of(s: &[char]) -> (text: String)
    ensures
        text@ == s@,
{
    let mut text = String::new();
    push_chars(&mut text, s);
    text
}

/// The characters of `text`.
pub fn chars_of(text: &str) -> (chars: Vec<char>)
    ensures
        chars@ == text@,
{
    let mut chars: Vec<char> = Vec::new();
    for c in it: text.chars()
        invariant
            it.seq() == text@,
            chars@ == it.seq().take(it.index()),
    {
        chars.push(c);
    }
    chars
}

/// Tells whether `s` holds the characters of `text`.
pub fn is_text(s: &[char], text: &str) -> (r: bool)
    ensures
        r == (s@ == text@),
{
    let mut i: usize = 0;
    for c in it: text.chars()
        invariant
            it.seq() == text@,
            i == it.index(),
            i <= s@.len(),
            s@.take(i as int) == text@.take(i as int),
    {
        if i >= s.len() || s[i] != c {
            return false;
        }
        i += 1;
    }
    proof {
        assert(text@.take(i as int) =~= text@);
        if i == s@.len() {
            assert(s@.take(i as int) =~= s@);
        }
    }
    i == s.len()
}

} // verus!
