//! Content negotiation: from the accepted-encodings a client sent to the one
//! coding, if any, that it is served in.
//!
//! The header is a list of items separated by commas. An item is a coding's
//! name, followed by any number of parameters, each behind a semicolon. A
//! parameter `q` whose weight is zero, or is no weight at all, refuses the
//! item. Among the items that are not refused and that name a known coding,
//! the leftmost wins: the order of the list is taken for the client's
//! preference, and weights other than zero are not compared.

use vstd::prelude::*;

use crate::algorithm::Algorithm;
use crate::text::{chars_of, cut, find, pieces, position, same, trim, trimmed};
use crate::weight::{excludes, weight_excludes};

verus! {

/// Whether a parameter refuses its item: it has the form `key=value`, cut at
/// its first `=`, the key is `q` once trimmed, and the value is a weight
/// that excludes.
pub open spec fn refuses(param: Seq<char>) -> bool {
    let i = position(param, '=');
    &&& 0 <= i < param.len()
    &&& trimmed(param.take(i)) == seq!['q']
    &&& weight_excludes(param.skip(i + 1))
}

/// Whether one of the parameters refuses.
pub open spec fn refused(params: Seq<Seq<char>>) -> bool {
    exists|k: int| 0 <= k < params.len() && refuses(#[trigger] params[k])
}

/// The coding that an item of the list asks for: none if a parameter refuses
/// the item, else the coding that the trimmed name stands for, if it is
/// known.
pub open spec fn coding(item: Seq<char>) -> Option<Algorithm> {
    let parts = pieces(item, ';');
    if refused(parts.skip(1)) {
        None
    } else {
        Algorithm::from_token(trimmed(parts[0]))
    }
}

/// The coding of the leftmost item that asks for one.
pub open spec fn first_known(items: Seq<Seq<char>>) -> Option<Algorithm>
    decreases items.len(),
{
    if items.len() == 0 {
        None
    } else {
        match coding(items[0]) {
            Some(algorithm) => Some(algorithm),
            None => first_known(items.skip(1)),
        }
    }
}

/// The items of all the header's values, in order.
pub open spec fn items(values: Seq<Seq<char>>) -> Seq<Seq<char>>
    decreases values.len(),
{
    if values.len() == 0 {
        Seq::empty()
    } else {
        pieces(values[0], ',') + items(values.skip(1))
    }
}

/// The coding negotiated from the values of the header.
pub open spec fn negotiated(values: Seq<Seq<char>>) -> Option<Algorithm> {
    first_known(items(values))
}

/// The characters of each of the values.
pub open spec fn texts(values: Seq<&str>) -> Seq<Seq<char>> {
    Seq::new(values.len(), |i: int| values[i]@)
}

/// In a list made of two, the first part is searched first.
pub proof fn lemma_first_known_concat(a: Seq<Seq<char>>, b: Seq<Seq<char>>)
    ensures
        first_known(a + b) == match first_known(a) {
            Some(algorithm) => Some(algorithm),
            None => first_known(b),
        },
    decreases a.len(),
{
    if a.len() == 0 {
        assert(a + b =~= b);
    } else {
        assert((a + b)[0] == a[0]);
        assert((a + b).skip(1) =~= a.skip(1) + b);
        lemma_first_known_concat(a.skip(1), b);
    }
}

/// The negotiated coding is that of the leftmost item that asks for one:
/// items that are refused or name nothing known are passed over, wherever
/// they stand, and end nothing. Where no item asks for a coding, none is
/// negotiated.
pub proof fn lemma_leftmost_wins(items: Seq<Seq<char>>)
    ensures
        match first_known(items) {
            Some(algorithm) => exists|i: int|
                {
                    &&& 0 <= i < items.len()
                    &&& coding(#[trigger] items[i]) == Some(algorithm)
                    &&& forall|j: int| 0 <= j < i ==> coding(#[trigger] items[j]) is None
                },
            None => forall|i: int| 0 <= i < items.len() ==> coding(#[trigger] items[i]) is None,
        },
    decreases items.len(),
{
    if items.len() > 0 {
        let rest = items.skip(1);
        lemma_leftmost_wins(rest);
        match coding(items[0]) {
            Some(algorithm) => {
                assert(coding(items[0]) == Some(algorithm));
            },
            None => {
                match first_known(rest) {
                    Some(algorithm) => {
                        let i = choose|i: int|
                            {
                                &&& 0 <= i < rest.len()
                                &&& coding(#[trigger] rest[i]) == Some(algorithm)
                                &&& forall|j: int| 0 <= j < i ==> coding(#[trigger] rest[j]) is None
                            };
                        assert(rest[i] == items[i + 1]);
                        assert forall|j: int| 0 <= j < i + 1 implies coding(
                            #[trigger] items[j],
                        ) is None by {
                            if j > 0 {
                                assert(items[j] == rest[j - 1]);
                            }
                        }
                        assert(coding(items[i + 1]) == Some(algorithm));
                    },
                    None => {
                        assert forall|i: int| 0 <= i < items.len() implies coding(
                            #[trigger] items[i],
                        ) is None by {
                            if i > 0 {
                                assert(items[i] == rest[i - 1]);
                            }
                        }
                    },
                }
            },
        }
    }
}

/// An item that asks for a known coding wins over everything behind it, and
/// over everything before it that asks for none.
pub proof fn lemma_known_after_unknown(items: Seq<Seq<char>>, i: int, algorithm: Algorithm)
    requires
        0 <= i < items.len(),
        coding(items[i]) == Some(algorithm),
        forall|j: int| 0 <= j < i ==> coding(#[trigger] items[j]) is None,
    ensures
        first_known(items) == Some(algorithm),
    decreases i,
{
    if i > 0 {
        let rest = items.skip(1);
        assert(rest[i - 1] == items[i]);
        assert forall|j: int| 0 <= j < i - 1 implies coding(#[trigger] rest[j]) is None by {
            assert(rest[j] == items[j + 1]);
        }
        lemma_known_after_unknown(rest, i - 1, algorithm);
    }
}

/// An item with a `q` parameter whose weight excludes asks for no coding,
/// whatever it names and whatever its other parameters say.
pub proof fn lemma_zero_weight_refuses(item: Seq<char>, k: int)
    requires
        1 <= k < pieces(item, ';').len(),
        refuses(pieces(item, ';')[k]),
    ensures
        coding(item) is None,
{
    let params = pieces(item, ';').skip(1);
    assert(params[k - 1] == pieces(item, ';')[k]);
}

/// An item that asks for no coding counts for nothing, wherever it stands in
/// the list.
pub proof fn lemma_refused_item_ignored(before: Seq<Seq<char>>, item: Seq<char>, after: Seq<Seq<char>>)
    requires
        coding(item) is None,
    ensures
        first_known(before + seq![item] + after) == first_known(before + after),
{
    lemma_first_known_concat(before, seq![item] + after);
    lemma_first_known_concat(seq![item], after);
    lemma_first_known_concat(before, after);
    assert(before + seq![item] + after =~= before + (seq![item] + after));
    assert(first_known(seq![item]) is None) by {
        let one = seq![item];
        assert(one[0] == item);
        assert(one.skip(1) =~= Seq::<Seq<char>>::empty());
        assert(first_known(one.skip(1)) is None);
    }
}

/// Whether a parameter refuses its item.
fn param_refuses(param: &[char]) -> (refusing: bool)
    ensures
        refusing == refuses(param@),
{
    let i = find(param, '=');
    if i < param.len() {
        let key = trim(vstd::slice::slice_subrange(param, 0, i));
        let value = vstd::slice::slice_subrange(param, i + 1, param.len());
        assert(value@ == param@.skip(i + 1));
        assert(key@ == trimmed(param@.take(i as int)));
        let q = ['q'];
        assert(q@ =~= seq!['q']);
        same(key, q.as_slice()) && excludes(value)
    } else {
        false
    }
}

/// The coding that an item of the list asks for.
pub fn coding_of(item: &[char]) -> (asked: Option<Algorithm>)
    ensures
        asked == coding(item@),
{
    let (name, tail) = cut(item, ';');
    let ghost params = pieces(item@, ';').skip(1);
    let mut rest = tail;
    proof {
        match tail {
            Some(t) => {
                assert(params =~= pieces(t@, ';'));
            },
            None => {
                assert(params =~= Seq::<Seq<char>>::empty());
            },
        }
    }
    loop
        invariant
            refused(params) == match rest {
                Some(r) => refused(pieces(r@, ';')),
                None => false,
            },
            name@ == pieces(item@, ';')[0],
            params == pieces(item@, ';').skip(1),
        decreases
            match rest {
                Some(r) => r@.len() + 1,
                None => 0,
            },
    {
        match rest {
            None => {
                return Algorithm::from_chars(trim(name));
            },
            Some(r) => {
                let (param, next) = cut(r, ';');
                let ghost all = pieces(r@, ';');
                if param_refuses(param) {
                    assert(refuses(all[0]));
                    return None;
                }
                proof {
                    match next {
                        Some(n) => {
                            let later = pieces(n@, ';');
                            assert(all == seq![param@] + later);
                            if refused(all) {
                                let k = choose|k: int| 0 <= k < all.len() && refuses(#[trigger] all[k]);
                                assert(k > 0);
                                assert(later[k - 1] == all[k]);
                            }
                            if refused(later) {
                                let k = choose|k: int|
                                    0 <= k < later.len() && refuses(#[trigger] later[k]);
                                assert(all[k + 1] == later[k]);
                            }
                        },
                        None => {
                            assert(all == seq![param@]);
                            if refused(all) {
                                let k = choose|k: int| 0 <= k < all.len() && refuses(#[trigger] all[k]);
                                assert(k == 0);
                            }
                        },
                    }
                }
                rest = next;
            },
        }
    }
}

/// The coding of the leftmost item of one header value that asks for one.
pub fn select(value: &[char]) -> (chosen: Option<Algorithm>)
    ensures
        chosen == first_known(pieces(value@, ',')),
{
    let mut rest = value;
    loop
        invariant
            first_known(pieces(value@, ',')) == first_known(pieces(rest@, ',')),
        decreases rest@.len(),
    {
        let (item, tail) = cut(rest, ',');
        let ghost all = pieces(rest@, ',');
        let asked = coding_of(item);
        match asked {
            Some(algorithm) => {
                assert(all[0] == item@);
                return Some(algorithm);
            },
            None => {},
        }
        match tail {
            Some(t) => {
                proof {
                    assert(all[0] == item@);
                    assert(all.skip(1) =~= pieces(t@, ','));
                }
                rest = t;
            },
            None => {
                proof {
                    assert(all[0] == item@);
                    assert(all.skip(1) =~= Seq::<Seq<char>>::empty());
                    assert(first_known(all.skip(1)) is None);
                }
                return None;
            },
        }
    }
}

/// The coding to serve a client in, from the values of its accepted-encodings
/// header: one string for each header line, none where the header is absent.
/// Malformed parts of the header lead to no error; they ask for no coding.
pub fn negotiate(accept: &[&str]) -> (chosen: Option<Algorithm>)
    ensures
        chosen == negotiated(texts(accept@)),
{
    let ghost all = texts(accept@);
    let mut i: usize = 0;
    proof {
        assert(all.skip(0) =~= all);
    }
    while i < accept.len()
        invariant
            i <= accept@.len(),
            all == texts(accept@),
            negotiated(all) == first_known(items(all.skip(i as int))),
        decreases accept@.len() - i,
    {
        let value = chars_of(accept[i]);
        let chosen = select(value.as_slice());
        proof {
            let here = all.skip(i as int);
            assert(here[0] == value@);
            assert(here.skip(1) =~= all.skip(i + 1));
            lemma_first_known_concat(pieces(value@, ','), items(all.skip(i + 1)));
        }
        match chosen {
            Some(algorithm) => {
                return Some(algorithm);
            },
            None => {},
        }
        i = i + 1;
    }
    proof {
        assert(all.skip(i as int) =~= Seq::<Seq<char>>::empty());
    }
    None
}

} // verus!
