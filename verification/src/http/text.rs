//! Text as sequences of characters: searching, splitting and joining.
//!
//! Every contract in this crate speaks of text through its view, a
//! `Seq<char>`. The functions here are the vocabulary of those contracts,
//! each with an executable counterpart on `&str`.

use vstd::prelude::*;

verus! {

/// `pat` stands in `s` at position `i`.
pub open spec fn occurs_at(s: Seq<char>, pat: Seq<char>, i: int) -> bool {
    0 <= i && i + pat.len() <= s.len() && s.subrange(i, i + pat.len()) == pat
}

/// `pat` stands somewhere in `s`.
pub open spec fn occurs(s: Seq<char>, pat: Seq<char>) -> bool {
    exists|i: int| occurs_at(s, pat, i)
}

/// `i` is the leftmost position at which `pat` stands in `s`.
pub open spec fn first_at(s: Seq<char>, pat: Seq<char>, i: int) -> bool {
    occurs_at(s, pat, i) && forall|j: int| 0 <= j < i ==> !occurs_at(s, pat, j)
}

/// The leftmost position at which `pat` stands in `s`, if it stands anywhere.
pub open spec fn index_of(s: Seq<char>, pat: Seq<char>) -> Option<int> {
    if occurs(s, pat) {
        Some(choose|i: int| first_at(s, pat, i))
    } else {
        None
    }
}

/// `s` begins with `pat`.
pub open spec fn starts_with(s: Seq<char>, pat: Seq<char>) -> bool {
    occurs_at(s, pat, 0)
}

/// `s` ends with `pat`.
pub open spec fn ends_with(s: Seq<char>, pat: Seq<char>) -> bool {
    occurs_at(s, pat, s.len() - pat.len())
}

/// The pieces of `s` between the occurrences of `pat`, found from left to
/// right without overlap. There is always at least one piece; an empty
/// `pat` separates nothing.
pub open spec fn pieces(s: Seq<char>, pat: Seq<char>) -> Seq<Seq<char>>
    decreases s.len(),
{
    if pat.len() == 0 {
        seq![s]
    } else {
        match index_of(s, pat) {
            None => seq![s],
            Some(i) => {
                proof {
                    lemma_index_of(s, pat);
                }
                seq![s.take(i)] + pieces(s.skip(i + pat.len()), pat)
            },
        }
    }
}

/// The pieces of `parts` in order, with `sep` between neighbours.
pub open spec fn joined(parts: Seq<Seq<char>>, sep: Seq<char>) -> Seq<char>
    decreases parts.len(),
{
    if parts.len() == 0 {
        Seq::empty()
    } else {
        let front = parts.drop_last();
        if front.len() == 0 {
            parts.last()
        } else {
            joined(front, sep) + sep + parts.last()
        }
    }
}

/// The views of a sequence of string slices.
pub open spec fn views(parts: Seq<&str>) -> Seq<Seq<char>> {
    parts.map_values(|p: &str| p@)
}

/// Below any occurrence there is a leftmost one.
proof fn lemma_leftmost_exists(s: Seq<char>, pat: Seq<char>, w: int)
    requires
        occurs_at(s, pat, w),
    ensures
        exists|i: int| first_at(s, pat, i),
    decreases w,
{
    if exists|j: int| 0 <= j < w && occurs_at(s, pat, j) {
        let j = choose|j: int| 0 <= j < w && occurs_at(s, pat, j);
        lemma_leftmost_exists(s, pat, j);
    } else {
        assert(first_at(s, pat, w));
    }
}

/// What `index_of` returns is the leftmost occurrence, and it returns
/// nothing only where there is none.
pub proof fn lemma_index_of(s: Seq<char>, pat: Seq<char>)
    ensures
        match index_of(s, pat) {
            Some(i) => first_at(s, pat, i),
            None => forall|j: int| !occurs_at(s, pat, j),
        },
{
    if occurs(s, pat) {
        let w = choose|w: int| occurs_at(s, pat, w);
        lemma_leftmost_exists(s, pat, w);
    }
}

/// A leftmost occurrence is the one `index_of` returns.
pub proof fn lemma_index_of_is(s: Seq<char>, pat: Seq<char>, i: int)
    requires
        first_at(s, pat, i),
    ensures
        index_of(s, pat) == Some(i),
{
    lemma_index_of(s, pat);
    let k = index_of(s, pat).unwrap();
    assert(!(k < i));
    assert(!(i < k));
}

/// Occurrences in a suffix are the occurrences of the whole text, shifted.
pub proof fn lemma_occurs_at_skip(s: Seq<char>, pat: Seq<char>, k: int, j: int)
    requires
        0 <= k <= s.len(),
    ensures
        occurs_at(s.skip(k), pat, j) <==> (0 <= j && occurs_at(s, pat, k + j)),
{
    if 0 <= j && j + pat.len() <= s.len() - k {
        assert(s.skip(k).subrange(j, j + pat.len()) =~= s.subrange(k + j, k + j + pat.len()));
    }
}

/// Splitting yields at least one piece, and more than one exactly where
/// the separator stands in the text.
pub proof fn lemma_pieces_len(s: Seq<char>, pat: Seq<char>)
    ensures
        pieces(s, pat).len() >= 1,
        pat.len() > 0 ==> (occurs(s, pat) <==> pieces(s, pat).len() >= 2),
    decreases s.len(),
{
    if pat.len() > 0 && occurs(s, pat) {
        lemma_index_of(s, pat);
        let i = index_of(s, pat).unwrap();
        lemma_pieces_len(s.skip(i + pat.len()), pat);
    }
}

/// The characters of `s`, in order.
pub fn chars_of(s: &str) -> (out: Vec<char>)
    ensures
        out@ == s@,
{
    let mut out: Vec<char> = Vec::new();
    for c in it: s.chars()
        invariant
            out@ == it.seq().take(it.index()),
            it.seq() == s@,
    {
        out.push(c);
    }
    out
}

/// Whether `pat` stands in `hay` at position `at`.
pub fn stands_at(hay: &Vec<char>, pat: &Vec<char>, at: usize) -> (yes: bool)
    ensures
        yes == occurs_at(hay@, pat@, at as int),
{
    let n = hay.len();
    let m = pat.len();
    if at > n || m > n - at {
        return false;
    }
    let mut k: usize = 0;
    while k < m
        invariant
            k <= m,
            m == pat.len(),
            at + m <= hay.len(),
            forall|x: int| 0 <= x < k ==> hay@[at + x] == pat@[x],
        decreases m - k,
    {
        if hay[at + k] != pat[k] {
            assert(hay@.subrange(at as int, at + m)[k as int] != pat@[k as int]);
            return false;
        }
        k += 1;
    }
    assert(hay@.subrange(at as int, at + m) =~= pat@);
    true
}

/// The leftmost position at or after `from` at which `pat` stands in `hay`.
pub fn find(hay: &Vec<char>, pat: &Vec<char>, from: usize) -> (at: Option<usize>)
    requires
        from <= hay.len(),
    ensures
        match at {
            Some(i) => from <= i <= hay.len() && index_of(hay@.skip(from as int), pat@) == Some(
                i - from,
            ),
            None => index_of(hay@.skip(from as int), pat@) is None,
        },
{
    let n = hay.len();
    let ghost rest = hay@.skip(from as int);
    let mut i: usize = from;
    while i < n
        invariant
            from <= i <= n,
            n == hay.len(),
            rest == hay@.skip(from as int),
            forall|j: int| 0 <= j < i - from ==> !occurs_at(rest, pat@, j),
        decreases n - i,
    {
        proof {
            lemma_occurs_at_skip(hay@, pat@, from as int, i - from);
        }
        if stands_at(hay, pat, i) {
            proof {
                lemma_index_of_is(rest, pat@, i - from);
            }
            return Some(i);
        }
        i += 1;
    }
    proof {
        lemma_occurs_at_skip(hay@, pat@, from as int, n - from);
    }
    if stands_at(hay, pat, n) {
        proof {
            lemma_index_of_is(rest, pat@, n - from);
        }
        return Some(n);
    }
    proof {
        lemma_index_of(rest, pat@);
    }
    None
}

/// The pieces of `s` between the occurrences of `pat`, as slices of `s`.
pub fn split<'a>(s: &'a str, pat: &str) -> (parts: Vec<&'a str>)
    ensures
        views(parts@) == pieces(s@, pat@),
{
    let hay = chars_of(s);
    let needle = chars_of(pat);
    let n = hay.len();
    let m = needle.len();
    let mut parts: Vec<&'a str> = Vec::new();
    if m == 0 {
        parts.push(s);
        assert(views(parts@) =~= seq![s@]);
        return parts;
    }
    let mut from: usize = 0;
    assert(s@.skip(0) =~= s@);
    assert(views(parts@) =~= Seq::<Seq<char>>::empty());
    loop
        invariant
            from <= n,
            n == hay.len(),
            m == needle.len(),
            m > 0,
            hay@ == s@,
            needle@ == pat@,
            pieces(s@, pat@) == views(parts@) + pieces(s@.skip(from as int), pat@),
        decreases n - from,
    {
        let ghost rest = s@.skip(from as int);
        let ghost before = views(parts@);
        match find(&hay, &needle, from) {
            Some(i) => {
                proof {
                    lemma_index_of(rest, pat@);
                    assert(rest.take(i - from) =~= s@.subrange(from as int, i as int));
                    assert(rest.skip(i - from + m) =~= s@.skip(i + m));
                }
                parts.push(s.substring_char(from, i));
                assert(views(parts@) =~= before.push(s@.subrange(from as int, i as int)));
                from = i + m;
            },
            None => {
                proof {
                    assert(rest =~= s@.subrange(from as int, n as int));
                }
                parts.push(s.substring_char(from, n));
                assert(views(parts@) =~= before.push(rest));
                return parts;
            },
        }
    }
}

/// The leftmost position at which `pat` stands in `s`.
pub fn position_of(s: &str, pat: &str) -> (at: Option<usize>)
    ensures
        match at {
            Some(i) => index_of(s@, pat@) == Some(i as int),
            None => index_of(s@, pat@) is None,
        },
{
    let hay = chars_of(s);
    let needle = chars_of(pat);
    assert(hay@.skip(0) =~= hay@);
    find(&hay, &needle, 0)
}

/// Whether `s` begins with `pat`.
pub fn begins_with(s: &str, pat: &str) -> (yes: bool)
    ensures
        yes == starts_with(s@, pat@),
{
    let hay = chars_of(s);
    let needle = chars_of(pat);
    stands_at(&hay, &needle, 0)
}

/// Whether `s` ends with `pat`.
pub fn finishes_with(s: &str, pat: &str) -> (yes: bool)
    ensures
        yes == ends_with(s@, pat@),
{
    let hay = chars_of(s);
    let needle = chars_of(pat);
    if needle.len() > hay.len() {
        return false;
    }
    stands_at(&hay, &needle, hay.len() - needle.len())
}

/// What stands before and after the leftmost occurrence of `pat` in `s`.
pub fn split_once<'a>(s: &'a str, pat: &str) -> (halves: Option<(&'a str, &'a str)>)
    ensures
        match halves {
            Some((before, after)) => index_of(s@, pat@) matches Some(i) && before@ == s@.take(i)
                && after@ == s@.skip(i + pat@.len()),
            None => index_of(s@, pat@) is None,
        },
{
    let hay = chars_of(s);
    let needle = chars_of(pat);
    assert(hay@.skip(0) =~= hay@);
    match find(&hay, &needle, 0) {
        Some(i) => {
            proof {
                lemma_index_of(s@, pat@);
                assert(s@.take(i as int) =~= s@.subrange(0, i as int));
                assert(s@.skip(i + pat@.len()) =~= s@.subrange(i + pat@.len(), s@.len() as int));
            }
            Some((s.substring_char(0, i), s.substring_char(i + needle.len(), hay.len())))
        },
        None => None,
    }
}

} // verus!
