use vstd::prelude::*;

verus! {

// Characters and strings, viewed as sequences of characters.

/// The characters of a string slice, in order.
pub fn chars_of(s: &str) -> (res: Vec<char>)
    ensures
        res@ == s@,
{
    let mut res: Vec<char> = Vec::new();
    for c in it: s.chars()
        invariant
            res@ == it.seq().take(it.index() as int),
            it.seq() == s@,
    {
        res.push(c);
    }
    res
}

/// Appends one character to a string: `String::push`.
#[verifier::external_body]
fn string_push(s: &mut String, c: char)
    ensures
        final(s)@ == old(s)@.push(c),
{
    s.push(c);
}

/// The string made of the given characters, in order.
pub fn string_of(cs: &Vec<char>) -> (res: String)
    ensures
        res@ == cs@,
{
    let mut res = String::new();
    for i in 0..cs.len()
        invariant
            res@ == cs@.take(i as int),
    {
        string_push(&mut res, cs[i]);
        assert(cs@.take(i + 1) == cs@.take(i as int).push(cs@[i as int]));
    }
    assert(cs@.take(cs@.len() as int) == cs@);
    res
}

/// `char::is_ascii`.
pub open spec fn spec_is_ascii(c: char) -> bool {
    (c as u32) < 128
}

pub fn is_ascii(c: char) -> (r: bool)
    ensures
        r == spec_is_ascii(c),
{
    c < '\u{80}'
}

/// `char::is_ascii_digit`.
pub open spec fn spec_is_ascii_digit(c: char) -> bool {
    '0' <= c <= '9'
}

pub fn is_ascii_digit(c: char) -> (r: bool)
    ensures
        r == spec_is_ascii_digit(c),
{
    '0' <= c && c <= '9'
}

/// `char::is_ascii_alphabetic`.
pub open spec fn spec_is_ascii_alphabetic(c: char) -> bool {
    ('A' <= c <= 'Z') || ('a' <= c <= 'z')
}

pub fn is_ascii_alphabetic(c: char) -> (r: bool)
    ensures
        r == spec_is_ascii_alphabetic(c),
{
    ('A' <= c && c <= 'Z') || ('a' <= c && c <= 'z')
}

/// `char::is_ascii_alphanumeric`.
pub open spec fn spec_is_ascii_alphanumeric(c: char) -> bool {
    spec_is_ascii_digit(c) || spec_is_ascii_alphabetic(c)
}

pub fn is_ascii_alphanumeric(c: char) -> (r: bool)
    ensures
        r == spec_is_ascii_alphanumeric(c),
{
    is_ascii_digit(c) || is_ascii_alphabetic(c)
}

/// `char::is_ascii_whitespace`: space, tab, line feed, form feed, carriage return.
pub open spec fn spec_is_ascii_whitespace(c: char) -> bool {
    c == ' ' || c == '\t' || c == '\n' || c == '\x0C' || c == '\r'
}

pub fn is_ascii_whitespace(c: char) -> (r: bool)
    ensures
        r == spec_is_ascii_whitespace(c),
{
    c == ' ' || c == '\t' || c == '\n' || c == '\x0C' || c == '\r'
}

/// What `char::is_alphabetic` returns: whether the character has the Unicode
/// `Alphabetic` property.
pub uninterp spec fn unicode_alphabetic(c: char) -> bool;

/// What `char::is_whitespace` returns for a character outside ASCII: whether
/// it has the Unicode `White_Space` property.
pub uninterp spec fn unicode_whitespace(c: char) -> bool;

/// `char::is_whitespace`: among ASCII characters, the Unicode `White_Space`
/// property holds of the space and of the controls from tab to carriage
/// return (tab, line feed, vertical tab, form feed, carriage return); beyond
/// ASCII it is the named answer.
pub open spec fn spec_is_whitespace(c: char) -> bool {
    if spec_is_ascii(c) {
        c == ' ' || c == '\t' || c == '\n' || c == '\x0B' || c == '\x0C' || c == '\r'
    } else {
        unicode_whitespace(c)
    }
}

/// Calls `char::is_alphabetic`; the contract claims only that the answer is
/// the one the standard library gives for this character.
#[verifier::external_body]
pub(crate) fn is_alphabetic(c: char) -> (r: bool)
    ensures
        r == unicode_alphabetic(c),
{
    c.is_alphabetic()
}

/// Calls `char::is_whitespace`. The contract claims that the answer is the
/// Unicode `White_Space` property, as the standard library documents it: for
/// an ASCII character the property as the Unicode character database lists it
/// (the space, and tab through carriage return), for any other character the
/// answer the standard library gives, which is named and not described.
#[verifier::external_body]
pub(crate) fn is_whitespace(c: char) -> (r: bool)
    ensures
        r == (if spec_is_ascii(c) {
            c == ' ' || c == '\t' || c == '\n' || c == '\x0B' || c == '\x0C' || c == '\r'
        } else {
            unicode_whitespace(c)
        }),
{
    c.is_whitespace()
}

/// Whether `p` is a prefix of `s`.
pub open spec fn has_prefix(s: Seq<char>, p: Seq<char>) -> bool {
    p.len() <= s.len() && s.take(p.len() as int) == p
}

/// Whether `p` is a suffix of `s`.
pub open spec fn has_suffix(s: Seq<char>, p: Seq<char>) -> bool {
    p.len() <= s.len() && s.skip(s.len() - p.len()) == p
}

pub fn starts_with(s: &Vec<char>, p: &Vec<char>) -> (r: bool)
    ensures
        r == has_prefix(s@, p@),
{
    if p.len() > s.len() {
        return false;
    }
    let mut i: usize = 0;
    while i < p.len()
        invariant
            p.len() <= s.len(),
            i <= p.len(),
            forall|j: int| 0 <= j < i ==> s@[j] == p@[j],
        decreases p.len() - i,
    {
        if s[i] != p[i] {
            assert(s@.take(p.len() as int)[i as int] != p@[i as int]);
            return false;
        }
        i = i + 1;
    }
    assert(s@.take(p.len() as int) =~= p@);
    true
}

pub fn ends_with(s: &Vec<char>, p: &Vec<char>) -> (r: bool)
    ensures
        r == has_suffix(s@, p@),
{
    if p.len() > s.len() {
        return false;
    }
    let d = s.len() - p.len();
    let mut i: usize = 0;
    while i < p.len()
        invariant
            p.len() <= s.len(),
            d == s.len() - p.len(),
            i <= p.len(),
            forall|j: int| 0 <= j < i ==> s@[d + j] == p@[j],
        decreases p.len() - i,
    {
        if s[d + i] != p[i] {
            assert(s@.skip(d as int)[i as int] != p@[i as int]);
            return false;
        }
        i = i + 1;
    }
    assert(s@.skip(d as int) =~= p@);
    true
}

/// The characters of `s` from position `from` up to, not including, `to`.
pub fn chars_range(s: &Vec<char>, from: usize, to: usize) -> (r: Vec<char>)
    requires
        from <= to <= s.len(),
    ensures
        r@ == s@.subrange(from as int, to as int),
{
    let mut r: Vec<char> = Vec::new();
    let mut i = from;
    while i < to
        invariant
            from <= i <= to <= s.len(),
            r@ == s@.subrange(from as int, i as int),
        decreases to - i,
    {
        r.push(s[i]);
        i = i + 1;
        assert(r@ =~= s@.subrange(from as int, i as int));
    }
    r
}

/// Appends the characters of `src` to `dst`.
pub fn push_all(dst: &mut Vec<char>, src: &Vec<char>)
    ensures
        final(dst)@ == old(dst)@ + src@,
{
    let ghost start = dst@;
    for i in 0..src.len()
        invariant
            dst@ == start + src@.take(i as int),
    {
        dst.push(src[i]);
        assert(start + src@.take(i + 1) =~= (start + src@.take(i as int)).push(src@[i as int]));
    }
    assert(src@.take(src@.len() as int) =~= src@);
}

/// `s` between double quotes.
pub open spec fn quoted(s: Seq<char>) -> Seq<char> {
    seq!['"'] + s + seq!['"']
}

pub fn quote(s: &Vec<char>) -> (r: Vec<char>)
    ensures
        r@ == quoted(s@),
{
    let mut r: Vec<char> = Vec::new();
    r.push('"');
    push_all(&mut r, s);
    r.push('"');
    assert(r@ =~= quoted(s@));
    r
}

/// Position of the first occurrence of `c` in `s`, if any.
pub open spec fn index_of<A>(s: Seq<A>, c: A) -> Option<nat>
    decreases s.len(),
{
    if s.len() == 0 {
        None
    } else if s[0] == c {
        Some(0)
    } else {
        match index_of(s.drop_first(), c) {
            Some(i) => Some(i + 1),
            None => None,
        }
    }
}

pub proof fn lemma_index_of<A>(s: Seq<A>, c: A)
    ensures
        index_of(s, c) matches Some(i) ==> i < s.len() && s[i as int] == c && forall|j: int|
            0 <= j < i ==> s[j] != c,
        index_of(s, c) is None ==> forall|j: int| 0 <= j < s.len() ==> s[j] != c,
    decreases s.len(),
{
    if s.len() > 0 && s[0] != c {
        lemma_index_of(s.drop_first(), c);
        assert forall|j: int| 0 < j < s.len() implies s[j] == s.drop_first()[j - 1] by {}
    }
}

/// The pieces of `s` between occurrences of `c`, as `str::split` gives them:
/// one more piece than there are occurrences, empty pieces included.
pub open spec fn split_on<A>(s: Seq<A>, c: A) -> Seq<Seq<A>>
    decreases s.len(),
{
    match index_of(s, c) {
        Some(i) => {
            proof {
                lemma_index_of(s, c);
            }
            seq![s.take(i as int)] + split_on(s.skip(i + 1 as int), c)
        },
        None => seq![s],
    }
}

/// Position of the first occurrence of `c` in `s` at or after `from`.
fn find_from(s: &Vec<char>, c: char, from: usize) -> (r: Option<usize>)
    requires
        from <= s.len(),
    ensures
        r matches Some(i) ==> index_of(s@.skip(from as int), c) == Some((i - from) as nat) && from
            <= i < s.len(),
        r is None ==> index_of(s@.skip(from as int), c) is None,
{
    let mut i = from;
    while i < s.len()
        invariant
            from <= i <= s.len(),
            forall|j: int| from <= j < i ==> s@[j] != c,
        decreases s.len() - i,
    {
        if s[i] == c {
            proof {
                let t = s@.skip(from as int);
                lemma_index_of(t, c);
                assert(t[i - from] == s@[i as int]);
                assert(t[i - from] == c);
                let k = index_of(t, c).unwrap();
                if k < i - from {
                    assert(t[k as int] == s@[from + k]);
                }
                assert(k == i - from);
            }
            return Some(i);
        }
        i = i + 1;
    }
    proof {
        let t = s@.skip(from as int);
        lemma_index_of(t, c);
        if let Some(k) = index_of(t, c) {
            assert(t[k as int] == s@[from + k]);
        }
    }
    None
}

/// The contents of a vector of character vectors.
pub open spec fn chars_seqs(v: Seq<Vec<char>>) -> Seq<Seq<char>> {
    v.map_values(|x: Vec<char>| x@)
}

/// Splits `s` at every occurrence of `c`, as `str::split` does.
pub fn split_chars(s: &Vec<char>, c: char) -> (r: Vec<Vec<char>>)
    ensures
        chars_seqs(r@) == split_on(s@, c),
{
    let mut out: Vec<Vec<char>> = Vec::new();
    let mut start: usize = 0;
    assert(s@.skip(0) =~= s@);
    loop
        invariant
            start <= s.len(),
            split_on(s@, c) == chars_seqs(out@) + split_on(s@.skip(start as int), c),
        decreases s.len() - start,
    {
        let ghost t = s@.skip(start as int);
        match find_from(s, c, start) {
            Some(i) => {
                let piece = chars_range(s, start, i);
                proof {
                    lemma_index_of(t, c);
                    assert(t.take(i - start) =~= piece@);
                    assert(t.skip(i - start + 1) =~= s@.skip(i + 1));
                }
                let ghost before = chars_seqs(out@);
                out.push(piece);
                assert(chars_seqs(out@) =~= before.push(piece@));
                assert(split_on(s@, c) =~= chars_seqs(out@) + split_on(s@.skip(i + 1), c));
                start = i + 1;
            },
            None => {
                let piece = chars_range(s, start, s.len());
                assert(piece@ =~= t);
                let ghost before = chars_seqs(out@);
                out.push(piece);
                assert(chars_seqs(out@) =~= before.push(piece@));
                assert(split_on(s@, c) =~= chars_seqs(out@));
                return out;
            },
        }
    }
}


proof fn lemma_index_of_push<A>(s: Seq<A>, c: A, x: A)
    ensures
        index_of(s, c) matches Some(i) ==> index_of(s.push(x), c) == Some(i),
        index_of(s, c) is None ==> index_of(s.push(x), c) == if x == c {
            Some(s.len())
        } else {
            None::<nat>
        },
    decreases s.len(),
{
    if s.len() == 0 {
        assert(s.push(x)[0] == x);
        assert(s.push(x).drop_first() =~= Seq::<A>::empty());
        assert(index_of(Seq::<A>::empty(), c) is None);
    } else {
        assert(s.push(x)[0] == s[0]);
        assert(s.push(x).drop_first() =~= s.drop_first().push(x));
        lemma_index_of_push(s.drop_first(), c, x);
    }
}

/// Extending a sequence by one item: a separator starts a new, empty piece,
/// anything else joins the last piece.
pub proof fn lemma_split_on_push<A>(s: Seq<A>, c: A, x: A)
    ensures
        split_on(s, c).len() > 0,
        split_on(s.push(x), c) == if x == c {
            split_on(s, c).push(Seq::<A>::empty())
        } else {
            split_on(s, c).update(
                split_on(s, c).len() - 1,
                split_on(s, c).last().push(x),
            )
        },
    decreases s.len(),
{
    lemma_index_of(s, c);
    lemma_index_of_push(s, c, x);
    match index_of(s, c) {
        Some(i) => {
            let i = i as int;
            assert(s.push(x).take(i) =~= s.take(i));
            assert(s.push(x).skip(i + 1) =~= s.skip(i + 1).push(x));
            lemma_split_on_push(s.skip(i + 1), c, x);
            let rest = split_on(s.skip(i + 1), c);
            if x == c {
                assert(split_on(s.push(x), c) =~= split_on(s, c).push(Seq::<A>::empty()));
            } else {
                assert(split_on(s.push(x), c) =~= split_on(s, c).update(
                    split_on(s, c).len() - 1,
                    split_on(s, c).last().push(x),
                ));
            }
        },
        None => {
            if x == c {
                let n = s.len() as int;
                assert(s.push(x).take(n) =~= s);
                assert(s.push(x).skip(n + 1) =~= Seq::<A>::empty());
                lemma_index_of(Seq::<A>::empty(), c);
                assert(split_on(Seq::<A>::empty(), c) == seq![Seq::<A>::empty()]);
                assert(split_on(s.push(x), c) =~= split_on(s, c).push(Seq::<A>::empty()));
            } else {
                assert(split_on(s.push(x), c) =~= split_on(s, c).update(
                    split_on(s, c).len() - 1,
                    split_on(s, c).last().push(x),
                ));
            }
        },
    }
}

/// The predicate that holds of everything other than `c`.
pub open spec fn other_than<A>(c: A) -> spec_fn(A) -> bool {
    |x: A| x != c
}

/// Filtering by a predicate that every item meets keeps the whole sequence.
pub proof fn lemma_filter_keeps_all<A>(s: Seq<A>, p: spec_fn(A) -> bool)
    requires
        forall|i: int| 0 <= i < s.len() ==> p(s[i]),
    ensures
        s.filter(p) == s,
    decreases s.len(),
{
    reveal(Seq::filter);
    if s.len() > 0 {
        lemma_filter_keeps_all(s.drop_last(), p);
        assert(s.drop_last().push(s.last()) =~= s);
    }
}

proof fn lemma_flatten_front<A>(a: Seq<A>, r: Seq<Seq<A>>)
    ensures
        (seq![a] + r).flatten() == a + r.flatten(),
{
    assert((seq![a] + r).drop_first() =~= r);
    assert((seq![a] + r).first() == a);
}

/// Law: no piece of a split holds the separator, and the pieces laid end to
/// end give back the sequence without its separators.
pub proof fn lemma_split_on_pieces<A>(s: Seq<A>, c: A)
    ensures
        forall|i: int, j: int|
            0 <= i < split_on(s, c).len() && 0 <= j < split_on(s, c)[i].len() ==> split_on(
                s,
                c,
            )[i][j] != c,
        split_on(s, c).flatten() == s.filter(other_than(c)),
    decreases s.len(),
{
    lemma_index_of(s, c);
    let p = other_than(c);
    match index_of(s, c) {
        Some(k) => {
            let k = k as int;
            let t = s.take(k);
            let rest = s.skip(k + 1);
            lemma_split_on_pieces(rest, c);
            assert(split_on(s, c) == seq![t] + split_on(rest, c));
            lemma_flatten_front(t, split_on(rest, c));
            assert(s =~= t + seq![c] + rest);
            Seq::filter_distributes_over_add(t + seq![c], rest, p);
            Seq::filter_distributes_over_add(t, seq![c], p);
            lemma_filter_keeps_all(t, p);
            reveal_with_fuel(Seq::filter, 2);
            assert(seq![c].drop_last() =~= Seq::<A>::empty());
            assert(seq![c].filter(p) =~= Seq::<A>::empty());
            assert(s.filter(p) =~= t + rest.filter(p));
            assert forall|i: int, j: int|
                0 <= i < split_on(s, c).len() && 0 <= j < split_on(s, c)[i].len() implies split_on(
                s,
                c,
            )[i][j] != c by {
                if i > 0 {
                    assert(split_on(s, c)[i] == split_on(rest, c)[i - 1]);
                }
            }
        },
        None => {
            lemma_filter_keeps_all(s, p);
            assert(split_on(s, c) == seq![s]);
            lemma_flatten_front(s, Seq::<Seq<A>>::empty());
            assert(s + Seq::<Seq<A>>::empty().flatten() =~= s);
        },
    }
}

/// A sequence without the separator is a single piece.
pub proof fn lemma_split_on_none<A>(s: Seq<A>, c: A)
    requires
        forall|i: int| 0 <= i < s.len() ==> s[i] != c,
    ensures
        split_on(s, c) == seq![s],
{
    lemma_index_of(s, c);
}

/// A piece free of the separator, the separator, then the rest: the piece
/// comes first, then the pieces of the rest.
pub proof fn lemma_split_on_front<A>(x: Seq<A>, y: Seq<A>, c: A)
    requires
        forall|i: int| 0 <= i < x.len() ==> x[i] != c,
    ensures
        split_on(x + seq![c] + y, c) == seq![x] + split_on(y, c),
{
    let s = x + seq![c] + y;
    lemma_index_of(s, c);
    assert(s[x.len() as int] == c);
    assert(index_of(s, c) == Some(x.len())) by {
        match index_of(s, c) {
            Some(k) => {
                if k < x.len() {
                    assert(s[k as int] == x[k as int]);
                }
            },
            None => {},
        }
    }
    assert(s.take(x.len() as int) =~= x);
    assert(s.skip(x.len() + 1int) =~= y);
}

} // verus!
