//! Characters of strings, and the few operations on them that header and path
//! handling need: finding a character, cutting a list at its separators, and
//! trimming white space.

use vstd::prelude::*;
use vstd::slice::slice_subrange;

verus! {

/// The characters of a string, in order.
pub fn chars_of(s: &str) -> (chars: Vec<char>)
    ensures
        chars@ == s@,
{
    let mut chars: Vec<char> = Vec::new();
    for c in it: s.chars()
        invariant
            chars@ == it.history(),
    {
        chars.push(c);
    }
    chars
}

/// Where `c` first stands in `s` at or after `from`; the length of `s` if it
/// stands nowhere there.
pub open spec fn position_from(s: Seq<char>, c: char, from: int) -> int
    decreases s.len() - from,
{
    if 0 <= from < s.len() && s[from] != c {
        position_from(s, c, from + 1)
    } else {
        from
    }
}

/// Where `c` first stands in `s`; the length of `s` if it stands nowhere.
pub open spec fn position(s: Seq<char>, c: char) -> int {
    position_from(s, c, 0)
}

/// `position` is the least index that holds the character.
pub proof fn lemma_position(s: Seq<char>, c: char)
    ensures
        0 <= position(s, c) <= s.len(),
        position(s, c) < s.len() ==> s[position(s, c)] == c,
        forall|j: int| 0 <= j < position(s, c) ==> s[j] != c,
        position(s, c) == s.len() <==> !s.contains(c),
{
    lemma_position_from(s, c, 0);
    if position(s, c) < s.len() {
        assert(s.contains(c));
    }
}

proof fn lemma_position_from(s: Seq<char>, c: char, from: int)
    requires
        0 <= from <= s.len(),
    ensures
        from <= position_from(s, c, from) <= s.len(),
        position_from(s, c, from) < s.len() ==> s[position_from(s, c, from)] == c,
        forall|j: int| from <= j < position_from(s, c, from) ==> s[j] != c,
    decreases s.len() - from,
{
    if from < s.len() && s[from] != c {
        lemma_position_from(s, c, from + 1);
    }
}

/// The pieces of `s` between the occurrences of `sep`, in order. There is
/// always at least one piece, and a piece may be empty.
pub open spec fn pieces(s: Seq<char>, sep: char) -> Seq<Seq<char>>
    decreases s.len(),
{
    let i = position(s, sep);
    if 0 <= i < s.len() {
        seq![s.take(i)] + pieces(s.skip(i + 1), sep)
    } else {
        seq![s]
    }
}

/// No piece holds the separator, and the pieces joined by it give back the
/// whole.
pub proof fn lemma_pieces(s: Seq<char>, sep: char)
    ensures
        pieces(s, sep).len() >= 1,
        forall|k: int| 0 <= k < pieces(s, sep).len() ==> !(#[trigger] pieces(s, sep)[k]).contains(sep),
        joined(pieces(s, sep), sep) == s,
    decreases s.len(),
{
    lemma_position(s, sep);
    let i = position(s, sep);
    if 0 <= i < s.len() {
        let head = s.take(i);
        let tail = pieces(s.skip(i + 1), sep);
        lemma_pieces(s.skip(i + 1), sep);
        let all = pieces(s, sep);
        assert(all == seq![head] + tail);
        assert(all[0] == head);
        assert(!head.contains(sep));
        assert forall|k: int| 0 <= k < all.len() implies !(#[trigger] all[k]).contains(sep) by {
            if k > 0 {
                assert(all[k] == tail[k - 1]);
            }
        }
        assert(all.skip(1) =~= tail);
        assert(head + seq![sep] + s.skip(i + 1) =~= s);
    } else {
        assert(pieces(s, sep) == seq![s]);
        assert(!s.contains(sep));
    }
}

/// The pieces with the separator put back between them.
pub open spec fn joined(parts: Seq<Seq<char>>, sep: char) -> Seq<char>
    decreases parts.len(),
{
    if parts.len() == 0 {
        Seq::empty()
    } else if parts.len() == 1 {
        parts[0]
    } else {
        parts[0] + seq![sep] + joined(parts.skip(1), sep)
    }
}

/// Whether `c` is white space: a character with the Unicode property
/// `White_Space`.
pub open spec fn is_space(c: char) -> bool {
    let n = c as u32;
    ||| 0x09 <= n <= 0x0D
    ||| n == 0x20
    ||| n == 0x85
    ||| n == 0xA0
    ||| n == 0x1680
    ||| 0x2000 <= n <= 0x200A
    ||| n == 0x2028
    ||| n == 0x2029
    ||| n == 0x202F
    ||| n == 0x205F
    ||| n == 0x3000
}

/// The first index at or after `from` that holds no white space; the length
/// of `s` if there is none.
pub open spec fn after_spaces(s: Seq<char>, from: int) -> int
    decreases s.len() - from,
{
    if 0 <= from < s.len() && is_space(s[from]) {
        after_spaces(s, from + 1)
    } else {
        from
    }
}

/// The end of `s` with the white space before `to` left off: the least index
/// from which on, up to `to`, all is white space.
pub open spec fn before_spaces(s: Seq<char>, to: int) -> int
    decreases to,
{
    if 0 < to <= s.len() && is_space(s[to - 1]) {
        before_spaces(s, to - 1)
    } else {
        to
    }
}

/// `s` without the white space at its two ends.
pub open spec fn trimmed(s: Seq<char>) -> Seq<char> {
    let start = after_spaces(s, 0);
    let end = before_spaces(s, s.len() as int);
    if start < end {
        s.subrange(start, end)
    } else {
        Seq::empty()
    }
}

/// What trimming does: `s` is white space, then `trimmed(s)`, then white
/// space, and `trimmed(s)` neither starts nor ends with white space.
pub proof fn lemma_trimmed(s: Seq<char>)
    ensures
        exists|lead: Seq<char>, trail: Seq<char>|
            {
                &&& #[trigger] (lead + trimmed(s) + trail) == s
                &&& forall|j: int| 0 <= j < lead.len() ==> is_space(lead[j])
                &&& forall|j: int| 0 <= j < trail.len() ==> is_space(trail[j])
            },
        trimmed(s).len() > 0 ==> !is_space(trimmed(s).first()) && !is_space(trimmed(s).last()),
{
    let start = after_spaces(s, 0);
    let end = before_spaces(s, s.len() as int);
    lemma_after_spaces(s, 0);
    lemma_before_spaces(s, s.len() as int);
    if start < end {
        let lead = s.take(start);
        let trail = s.skip(end);
        assert(lead + trimmed(s) + trail =~= s);
        assert(trimmed(s).first() == s[start]);
        assert(trimmed(s).last() == s[end - 1]);
    } else {
        let lead = s;
        let trail = Seq::<char>::empty();
        assert(lead + trimmed(s) + trail =~= s);
        assert forall|j: int| 0 <= j < lead.len() implies is_space(lead[j]) by {
            if j < start {
            } else {
                assert(end <= j);
            }
        }
    }
}

proof fn lemma_after_spaces(s: Seq<char>, from: int)
    requires
        0 <= from <= s.len(),
    ensures
        from <= after_spaces(s, from) <= s.len(),
        after_spaces(s, from) < s.len() ==> !is_space(s[after_spaces(s, from)]),
        forall|j: int| from <= j < after_spaces(s, from) ==> is_space(s[j]),
    decreases s.len() - from,
{
    if from < s.len() && is_space(s[from]) {
        lemma_after_spaces(s, from + 1);
    }
}

proof fn lemma_before_spaces(s: Seq<char>, to: int)
    requires
        0 <= to <= s.len(),
    ensures
        0 <= before_spaces(s, to) <= to,
        before_spaces(s, to) > 0 ==> !is_space(s[before_spaces(s, to) - 1]),
        forall|j: int| before_spaces(s, to) <= j < to ==> is_space(s[j]),
    decreases to,
{
    if 0 < to && is_space(s[to - 1]) {
        lemma_before_spaces(s, to - 1);
    }
}

/// Whether `c` is white space.
pub fn is_space_char(c: char) -> (space: bool)
    ensures
        space == is_space(c),
{
    let n: u32 = c as u32;
    (0x09 <= n && n <= 0x0D) || n == 0x20 || n == 0x85 || n == 0xA0 || n == 0x1680 || (0x2000 <= n
        && n <= 0x200A) || n == 0x2028 || n == 0x2029 || n == 0x202F || n == 0x205F || n == 0x3000
}

/// Where `c` first stands in `s`; the length of `s` if it stands nowhere.
pub fn find(s: &[char], c: char) -> (index: usize)
    ensures
        index == position(s@, c),
        index <= s@.len(),
{
    let mut i: usize = 0;
    while i < s.len() && s[i] != c
        invariant
            i <= s@.len(),
            position(s@, c) == position_from(s@, c, i as int),
        decreases s@.len() - i,
    {
        i = i + 1;
    }
    i
}

/// The first piece of `s` and, where a separator follows it, what follows
/// the separator.
pub fn cut(s: &[char], sep: char) -> (parts: (&[char], Option<&[char]>))
    ensures
        match parts.1 {
            Some(rest) => {
                &&& pieces(s@, sep) == seq![parts.0@] + pieces(rest@, sep)
                &&& rest@.len() < s@.len()
            },
            None => pieces(s@, sep) == seq![parts.0@],
        },
        parts.0@ == pieces(s@, sep)[0],
{
    let i = find(s, sep);
    if i < s.len() {
        let head = slice_subrange(s, 0, i);
        let rest = slice_subrange(s, i + 1, s.len());
        assert(head@ == s@.take(i as int));
        assert(rest@ == s@.skip(i + 1));
        (head, Some(rest))
    } else {
        (s, None)
    }
}

/// `s` without the white space at its two ends.
pub fn trim(s: &[char]) -> (t: &[char])
    ensures
        t@ == trimmed(s@),
{
    let mut start: usize = 0;
    while start < s.len() && is_space_char(s[start])
        invariant
            start <= s@.len(),
            after_spaces(s@, 0) == after_spaces(s@, start as int),
        decreases s@.len() - start,
    {
        start = start + 1;
    }
    let mut end: usize = s.len();
    while end > 0 && is_space_char(s[end - 1])
        invariant
            end <= s@.len(),
            before_spaces(s@, s@.len() as int) == before_spaces(s@, end as int),
        decreases end,
    {
        end = end - 1;
    }
    if start < end {
        slice_subrange(s, start, end)
    } else {
        let t = slice_subrange(s, 0, 0);
        assert(t@ =~= Seq::empty());
        t
    }
}

/// Whether two runs of characters are the same.
pub fn same(a: &[char], b: &[char]) -> (equal: bool)
    ensures
        equal == (a@ == b@),
{
    if a.len() != b.len() {
        return false;
    }
    let mut i: usize = 0;
    while i < a.len()
        invariant
            i <= a@.len(),
            a@.len() == b@.len(),
            forall|j: int| 0 <= j < i ==> a@[j] == b@[j],
        decreases a@.len() - i,
    {
        if a[i] != b[i] {
            return false;
        }
        i = i + 1;
    }
    assert(a@ =~= b@);
    true
}

} // verus!
