use vstd::prelude::*;
use vstd::seq_lib::lemma_flatten_concat;

use crate::text::{
    lemma_split_on_front, lemma_split_on_none, lemma_split_on_pieces, other_than,
    ends_with, has_suffix, lemma_split_on_push,
    lemma_index_of, split_chars, split_on,
    chars_of, chars_range, chars_seqs, has_prefix, is_ascii, is_ascii_alphabetic,
    is_ascii_alphanumeric, is_ascii_whitespace, is_whitespace, push_all, quote, quoted,
    spec_is_ascii, spec_is_ascii_alphabetic, spec_is_ascii_alphanumeric,
    spec_is_ascii_whitespace, spec_is_whitespace, starts_with, string_of,
};
use crate::util::func::{
    false_runs, flagged, groups_view, items, lemma_run_len, pairs_view, partition_toggle_tuple,
    run_len, split_partition, toggle_pairs,
};

verus! {

/// The spellings that each mark may be written in: for every mark (such as
/// `{`), the alternative spellings (such as `《`) that stand for it, in the
/// order they are tried.
pub struct ReplaceToMap {
    entries: Vec<(Vec<char>, Vec<Vec<char>>)>,
}

/// The table that a list of insertions builds: a later insertion of a mark
/// replaces an earlier one.
pub open spec fn entries_map(es: Seq<(Seq<char>, Seq<Seq<char>>)>) -> Map<Seq<char>, Seq<Seq<char>>>
    decreases es.len(),
{
    if es.len() == 0 {
        Map::empty()
    } else {
        entries_map(es.drop_last()).insert(es.last().0, es.last().1)
    }
}

/// A mark and the spellings of another sequence of strings, as characters.
pub open spec fn strs_view(v: Seq<&str>) -> Seq<Seq<char>> {
    v.map_values(|s: &str| s@)
}

proof fn lemma_entries_map_lookup(es: Seq<(Seq<char>, Seq<Seq<char>>)>, i: int, key: Seq<char>)
    requires
        0 <= i <= es.len(),
        forall|j: int| i <= j < es.len() ==> #[trigger] es[j].0 != key,
    ensures
        entries_map(es).contains_key(key) == entries_map(es.take(i)).contains_key(key),
        entries_map(es).contains_key(key) ==> entries_map(es)[key] == entries_map(es.take(i))[key],
    decreases es.len() - i,
{
    if i < es.len() {
        assert(es.drop_last().take(i) =~= es.take(i));
        lemma_entries_map_lookup(es.drop_last(), i, key);
        assert(es.last() == es[es.len() - 1]);
    } else {
        assert(es.take(i) =~= es);
    }
}

impl ReplaceToMap {
    pub closed spec fn entries_view(&self) -> Seq<(Seq<char>, Seq<Seq<char>>)> {
        self.entries@.map_values(|e: (Vec<char>, Vec<Vec<char>>)| (e.0@, chars_seqs(e.1@)))
    }

    /// An empty table.
    pub fn new() -> (res: Self)
        ensures
            res@ == Map::<Seq<char>, Seq<Seq<char>>>::empty(),
    {
        let res = ReplaceToMap { entries: Vec::new() };
        assert(res.entries_view() =~= Seq::<(Seq<char>, Seq<Seq<char>>)>::empty());
        res
    }

    /// Sets the spellings of `key`, replacing any it had.
    pub fn insert(&mut self, key: &str, alternatives: &[&str])
        ensures
            final(self)@ == old(self)@.insert(key@, strs_view(alternatives@)),
    {
        let k = chars_of(key);
        let mut alts: Vec<Vec<char>> = Vec::new();
        for i in 0..alternatives.len()
            invariant
                chars_seqs(alts@) == strs_view(alternatives@.take(i as int)),
        {
            let a = chars_of(alternatives[i]);
            let ghost before = chars_seqs(alts@);
            alts.push(a);
            assert(chars_seqs(alts@) =~= before.push(a@));
            assert(strs_view(alternatives@.take(i + 1)) =~= strs_view(alternatives@.take(i as int)).push(
                alternatives@[i as int]@,
            ));
        }
        assert(alternatives@.take(alternatives@.len() as int) =~= alternatives@);
        let ghost before = self.entries_view();
        self.entries.push((k, alts));
        assert(self.entries_view() =~= before.push((key@, strs_view(alternatives@))));
        assert(self.entries_view().drop_last() =~= before);
    }

    /// The spellings of `key`, if the table has it.
    pub fn get(&self, key: &Vec<char>) -> (res: Option<&Vec<Vec<char>>>)
        ensures
            res is Some == self@.contains_key(key@),
            res matches Some(v) ==> chars_seqs(v@) == self@[key@],
    {
        let ghost es = self.entries_view();
        let mut i = self.entries.len();
        while i > 0
            invariant
                i <= self.entries.len(),
                es == self.entries_view(),
                forall|j: int| i <= j < es.len() ==> #[trigger] es[j].0 != key@,
            decreases i,
        {
            let e = &self.entries[i - 1];
            if starts_with(&e.0, key) && e.0.len() == key.len() {
                proof {
                    assert(e.0@ =~= key@);
                    lemma_entries_map_lookup(es, i as int, key@);
                    assert(es.take(i as int).drop_last() =~= es.take(i - 1));
                    assert(es.take(i as int).last() == es[i - 1]);
                }
                return Some(&e.1);
            }
            proof {
                if e.0@ == key@ {
                    assert(e.0@.take(key@.len() as int) =~= e.0@);
                }
            }
            i = i - 1;
        }
        proof {
            lemma_entries_map_lookup(es, 0, key@);
            assert(es.take(0) =~= Seq::<(Seq<char>, Seq<Seq<char>>)>::empty());
        }
        None
    }
}

impl View for ReplaceToMap {
    type V = Map<Seq<char>, Seq<Seq<char>>>;

    closed spec fn view(&self) -> Self::V {
        entries_map(self.entries_view())
    }
}

/// The spellings recorded for `key`, none if the table lacks it.
pub open spec fn spellings(m: Map<Seq<char>, Seq<Seq<char>>>, key: Seq<char>) -> Seq<Seq<char>> {
    if m.contains_key(key) {
        m[key]
    } else {
        seq![]
    }
}

/// What is left of `s` after the first of `alts` that begins it.
pub open spec fn rest_after_first_prefix(alts: Seq<Seq<char>>, s: Seq<char>) -> Option<Seq<char>>
    decreases alts.len(),
{
    if alts.len() == 0 {
        None
    } else if has_prefix(s, alts[0]) {
        Some(s.skip(alts[0].len() as int))
    } else {
        rest_after_first_prefix(alts.drop_first(), s)
    }
}

/// What is left of `s` after the mark `key` that begins it, written in one of
/// its spellings or as itself (the spellings are tried first).
pub open spec fn strip_mark(
    key: Seq<char>,
    m: Map<Seq<char>, Seq<Seq<char>>>,
    s: Seq<char>,
) -> Option<Seq<char>> {
    match rest_after_first_prefix(spellings(m, key), s) {
        Some(r) => Some(r),
        None => if has_prefix(s, key) {
            Some(s.skip(key.len() as int))
        } else {
            None
        },
    }
}

/// The first of `keys` that begins `s`, with what is left of `s` after it.
pub open spec fn find_strip(
    keys: Seq<Seq<char>>,
    s: Seq<char>,
    m: Map<Seq<char>, Seq<Seq<char>>>,
) -> Option<(Seq<char>, Seq<char>)>
    decreases keys.len(),
{
    if keys.len() == 0 {
        None
    } else {
        match strip_mark(keys[0], m, s) {
            Some(r) => Some((keys[0], r)),
            None => find_strip(keys.drop_first(), s, m),
        }
    }
}

proof fn lemma_rest_after_first_prefix(alts: Seq<Seq<char>>, s: Seq<char>)
    ensures
        rest_after_first_prefix(alts, s) matches Some(r) ==> exists|j: int|
            0 <= j < alts.len() && s == #[trigger] alts[j] + r,
    decreases alts.len(),
{
    if alts.len() > 0 {
        if has_prefix(s, alts[0]) {
            assert(s =~= alts[0] + s.skip(alts[0].len() as int));
        } else {
            lemma_rest_after_first_prefix(alts.drop_first(), s);
            if let Some(r) = rest_after_first_prefix(alts.drop_first(), s) {
                let j = choose|j: int|
                    0 <= j < alts.drop_first().len() && s == #[trigger] alts.drop_first()[j] + r;
                assert(alts[j + 1] == alts.drop_first()[j]);
            }
        }
    }
}

/// Law: a mark is found wherever one of the marks begins the text, written as
/// itself, whether or not the table lists spellings for it. What is found is
/// one of the marks, the first whose own text begins the text or an earlier
/// one written in a spelling, and the rest is the text after that mark or
/// after one of the mark's spellings.
pub proof fn lemma_find_strip_marks(
    keys: Seq<Seq<char>>,
    s: Seq<char>,
    m: Map<Seq<char>, Seq<Seq<char>>>,
)
    ensures
        (exists|i: int|
            0 <= i < keys.len() && (#[trigger] keys[i]).len() <= s.len() && s.subrange(
                0,
                keys[i].len() as int,
            ) == keys[i]) ==> find_strip(keys, s, m) is Some,
        find_strip(keys, s, m) matches Some((k, r)) ==> {
            &&& exists|i: int|
                0 <= i < keys.len() && #[trigger] keys[i] == k && forall|j: int|
                    0 <= j < i ==> !((#[trigger] keys[j]).len() <= s.len() && s.subrange(
                        0,
                        keys[j].len() as int,
                    ) == keys[j])
            &&& (s == k + r || (m.contains_key(k) && exists|j: int|
                0 <= j < m[k].len() && s == #[trigger] m[k][j] + r))
        },
    decreases keys.len(),
{
    if keys.len() > 0 {
        let k0 = keys[0];
        let rest = keys.drop_first();
        lemma_find_strip_marks(rest, s, m);
        lemma_rest_after_first_prefix(spellings(m, k0), s);
        if k0.len() <= s.len() && s.subrange(0, k0.len() as int) == k0 {
            assert(s.take(k0.len() as int) =~= s.subrange(0, k0.len() as int));
        }
        match strip_mark(k0, m, s) {
            Some(r) => {
                assert(find_strip(keys, s, m) == Some((k0, r)));
                if rest_after_first_prefix(spellings(m, k0), s) is None {
                    assert(s =~= k0 + s.skip(k0.len() as int));
                }
            },
            None => {
                assert(!(k0.len() <= s.len() && s.subrange(0, k0.len() as int) == k0));
                if exists|i: int|
                    0 <= i < keys.len() && (#[trigger] keys[i]).len() <= s.len() && s.subrange(
                        0,
                        keys[i].len() as int,
                    ) == keys[i] {
                    let i = choose|i: int|
                        0 <= i < keys.len() && (#[trigger] keys[i]).len() <= s.len() && s.subrange(
                            0,
                            keys[i].len() as int,
                        ) == keys[i];
                    assert(i > 0);
                    assert(rest[i - 1] == keys[i]);
                }
                if let Some((k, r)) = find_strip(rest, s, m) {
                    let i = choose|i: int|
                        0 <= i < rest.len() && #[trigger] rest[i] == k && forall|j: int|
                            0 <= j < i ==> !((#[trigger] rest[j]).len() <= s.len() && s.subrange(
                                0,
                                rest[j].len() as int,
                            ) == rest[j]);
                    assert(keys[i + 1] == k);
                    assert forall|j: int| 0 <= j < i + 1 implies !((#[trigger] keys[j]).len() <= s.len()
                        && s.subrange(0, keys[j].len() as int) == keys[j]) by {
                        if j > 0 {
                            assert(keys[j] == rest[j - 1]);
                        }
                    }
                }
            },
        }
    }
}

fn rest_after_prefix(alts: &Vec<Vec<char>>, s: &Vec<char>) -> (r: Option<Vec<char>>)
    ensures
        r matches Some(v) ==> rest_after_first_prefix(chars_seqs(alts@), s@) == Some(v@),
        r is None ==> rest_after_first_prefix(chars_seqs(alts@), s@) is None,
{
    let ghost all = chars_seqs(alts@);
    let mut i: usize = 0;
    assert(all.skip(0) =~= all);
    while i < alts.len()
        invariant
            i <= alts.len(),
            all == chars_seqs(alts@),
            rest_after_first_prefix(all, s@) == rest_after_first_prefix(all.skip(i as int), s@),
        decreases alts.len() - i,
    {
        proof {
            assert(all.skip(i as int)[0] == all[i as int]);
            assert(all.skip(i as int).drop_first() =~= all.skip(i + 1));
        }
        if starts_with(s, &alts[i]) {
            return Some(crate::text::chars_range(s, alts[i].len(), s.len()));
        }
        i = i + 1;
    }
    assert(all.skip(i as int) =~= Seq::<Seq<char>>::empty());
    None
}

/// The first of `keys` that begins `s`, written as itself or in a spelling
/// from `m`, and what is left of `s` after it.
pub fn find_strip_chars(keys: &Vec<Vec<char>>, s: &Vec<char>, m: &ReplaceToMap) -> (r: Option<
    (Vec<char>, Vec<char>),
>)
    ensures
        r matches Some(v) ==> find_strip(chars_seqs(keys@), s@, m@) == Some((v.0@, v.1@)),
        r is None ==> find_strip(chars_seqs(keys@), s@, m@) is None,
{
    let ghost all = chars_seqs(keys@);
    let mut i: usize = 0;
    assert(all.skip(0) =~= all);
    while i < keys.len()
        invariant
            i <= keys.len(),
            all == chars_seqs(keys@),
            find_strip(all, s@, m@) == find_strip(all.skip(i as int), s@, m@),
        decreases keys.len() - i,
    {
        proof {
            assert(all.skip(i as int)[0] == all[i as int]);
            assert(all.skip(i as int).drop_first() =~= all.skip(i + 1));
        }
        let key = &keys[i];
        let from_spellings = match m.get(key) {
            Some(alts) => rest_after_prefix(alts, s),
            None => {
                proof {
                    assert(chars_seqs(Seq::<Vec<char>>::empty()) =~= Seq::<Seq<char>>::empty());
                }
                None
            },
        };
        match from_spellings {
            Some(rest) => {
                return Some((crate::text::chars_range(key, 0, key.len()), rest));
            },
            None => {
                if starts_with(s, key) {
                    let rest = crate::text::chars_range(s, key.len(), s.len());
                    return Some((crate::text::chars_range(key, 0, key.len()), rest));
                }
            },
        }
        i = i + 1;
    }
    assert(all.skip(i as int) =~= Seq::<Seq<char>>::empty());
    None
}

/// Finds the first of `strs` that begins `tostrip`, written as itself or in
/// one of its spellings from `replacetomap` (tried first, in order), and
/// returns that mark, as it is in `strs`, with what is left of `tostrip`.
pub fn find_strip_prefix(strs: &[&str], tostrip: &str, replacetomap: &ReplaceToMap) -> (r: Option<
    (String, String),
>)
    ensures
        r matches Some(v) ==> find_strip(strs_view(strs@), tostrip@, replacetomap@) == Some(
            (v.0@, v.1@),
        ),
        r is None ==> find_strip(strs_view(strs@), tostrip@, replacetomap@) is None,
{
    let mut keys: Vec<Vec<char>> = Vec::new();
    for i in 0..strs.len()
        invariant
            chars_seqs(keys@) == strs_view(strs@.take(i as int)),
    {
        let k = chars_of(strs[i]);
        let ghost before = chars_seqs(keys@);
        keys.push(k);
        assert(chars_seqs(keys@) =~= before.push(k@));
        assert(strs_view(strs@.take(i + 1)) =~= strs_view(strs@.take(i as int)).push(strs@[i as int]@));
    }
    assert(strs@.take(strs@.len() as int) =~= strs@);
    let s = chars_of(tostrip);
    match find_strip_chars(&keys, &s, replacetomap) {
        Some((k, rest)) => Some((string_of(&k), string_of(&rest))),
        None => None,
    }
}


/// The kinds of leading run that quoting measures.
#[derive(Clone, Copy)]
pub enum Lead {
    /// Whitespace other than a line break.
    InlineWhite,
    /// ASCII letters, digits and `_`.
    Word,
    /// ASCII whitespace other than a line break.
    InlineAsciiWhite,
}

pub open spec fn in_lead(c: char, k: Lead) -> bool {
    match k {
        Lead::InlineWhite => spec_is_whitespace(c) && c != '\n',
        Lead::Word => spec_is_ascii_alphanumeric(c) || c == '_',
        Lead::InlineAsciiWhite => spec_is_ascii_whitespace(c) && c != '\n',
    }
}

/// Length of the longest prefix of `s` made of characters of kind `k`.
pub open spec fn lead_len(s: Seq<char>, k: Lead) -> nat
    decreases s.len(),
{
    if s.len() > 0 && in_lead(s[0], k) {
        1 + lead_len(s.drop_first(), k)
    } else {
        0
    }
}

proof fn lemma_lead_len_bound(s: Seq<char>, k: Lead)
    ensures
        lead_len(s, k) <= s.len(),
    decreases s.len(),
{
    if s.len() > 0 && in_lead(s[0], k) {
        lemma_lead_len_bound(s.drop_first(), k);
    }
}

fn is_lead(c: char, k: Lead) -> (r: bool)
    ensures
        r == in_lead(c, k),
{
    match k {
        Lead::InlineWhite => is_whitespace(c) && c != '\n',
        Lead::Word => is_ascii_alphanumeric(c) || c == '_',
        Lead::InlineAsciiWhite => is_ascii_whitespace(c) && c != '\n',
    }
}

fn lead_count(s: &Vec<char>, from: usize, k: Lead) -> (r: usize)
    requires
        from <= s.len(),
    ensures
        r == lead_len(s@.skip(from as int), k),
        from + r <= s.len(),
{
    let mut i = from;
    assert(s@.skip(from as int).skip(0) =~= s@.skip(from as int));
    while i < s.len() && is_lead(s[i], k)
        invariant
            from <= i <= s.len(),
            lead_len(s@.skip(from as int), k) == (i - from) + lead_len(s@.skip(i as int), k),
        decreases s.len() - i,
    {
        assert(s@.skip(i as int)[0] == s@[i as int]);
        assert(s@.skip(i as int).drop_first() =~= s@.skip(i + 1));
        i = i + 1;
    }
    if i < s.len() {
        assert(s@.skip(i as int)[0] == s@[i as int]);
    } else {
        assert(s@.skip(i as int).len() == 0);
    }
    i - from
}

/// Length of the prefix of `s` up to and including its first `,` or line
/// break, or all of `s` if it has none.
pub open spec fn cut_len(s: Seq<char>) -> nat
    decreases s.len(),
{
    if s.len() == 0 {
        0
    } else if s[0] == ',' || s[0] == '\n' {
        1
    } else {
        1 + cut_len(s.drop_first())
    }
}

fn cut_count(s: &Vec<char>) -> (r: usize)
    ensures
        r == cut_len(s@),
        r <= s.len(),
{
    let mut i: usize = 0;
    assert(s@.skip(0) =~= s@);
    while i < s.len()
        invariant
            i <= s.len(),
            cut_len(s@) == i + cut_len(s@.skip(i as int)),
        decreases s.len() - i,
    {
        assert(s@.skip(i as int)[0] == s@[i as int]);
        if s[i] == ',' || s[i] == '\n' {
            return i + 1;
        }
        assert(s@.skip(i as int).drop_first() =~= s@.skip(i + 1));
        i = i + 1;
    }
    i
}

/// The marks after which the rest of a run is quoted again.
pub open spec fn open_marks() -> Seq<Seq<char>> {
    seq![seq!['{'], seq!['['], seq!['<', '-']]
}

/// The mark that introduces a value running up to the next `,` or line break.
pub open spec fn colon_marks() -> Seq<Seq<char>> {
    seq![seq![':']]
}

fn open_marks_exec() -> (r: Vec<Vec<char>>)
    ensures
        chars_seqs(r@) == open_marks(),
{
    let mut brace: Vec<char> = Vec::new();
    brace.push('{');
    let mut bracket: Vec<char> = Vec::new();
    bracket.push('[');
    let mut arrow: Vec<char> = Vec::new();
    arrow.push('<');
    arrow.push('-');
    assert(brace@ =~= seq!['{']);
    assert(bracket@ =~= seq!['[']);
    assert(arrow@ =~= seq!['<', '-']);
    let mut r: Vec<Vec<char>> = Vec::new();
    r.push(brace);
    r.push(bracket);
    r.push(arrow);
    assert(chars_seqs(r@) =~= open_marks());
    r
}

fn colon_marks_exec() -> (r: Vec<Vec<char>>)
    ensures
        chars_seqs(r@) == colon_marks(),
{
    let mut colon: Vec<char> = Vec::new();
    colon.push(':');
    let mut r: Vec<Vec<char>> = Vec::new();
    r.push(colon);
    assert(chars_seqs(r@) =~= colon_marks());
    r
}

/// The runs of `s` alternating between non-ASCII and ASCII characters: each
/// pair holds a non-ASCII run and the ASCII run that follows it.
pub open spec fn ascii_pairs(s: Seq<char>) -> Seq<(Seq<char>, Seq<char>)> {
    toggle_pairs(s.map_values(|c: char| (c, spec_is_ascii(c))))
}

/// `auto_quote` of `s`, or `None` where `auto_quote` does not return (it
/// panics, or calls itself on its own input for ever).
pub open spec fn quote_text(s: Seq<char>, n: nat, m: Map<Seq<char>, Seq<Seq<char>>>) -> Option<
    Seq<char>,
>
    decreases s.len(), 2nat, 0nat,
{
    quote_pairs(ascii_pairs(s), n, m, s.len())
}

/// The quoted pieces of `ps`, laid end to end, or `None` where one of them
/// has none. `bound` is the length of the text the pairs come from.
pub open spec fn quote_pairs(
    ps: Seq<(Seq<char>, Seq<char>)>,
    n: nat,
    m: Map<Seq<char>, Seq<Seq<char>>>,
    bound: nat,
) -> Option<Seq<char>>
    decreases bound, 1nat, ps.len(),
{
    if ps.len() == 0 {
        Some(seq![])
    } else {
        match quote_piece(ps[0].0, ps[0].1, n, m, bound) {
            Some(a) => match quote_pairs(ps.drop_first(), n, m, bound) {
                Some(b) => Some(a + b),
                None => None,
            },
            None => None,
        }
    }
}

/// How `auto_quote` rewrites one non-ASCII run and the ASCII run after it.
/// A word of non-ASCII characters (with the ASCII letters, digits and `_`
/// that follow it) is put between double quotes, and so is a lone ASCII word
/// that begins with a letter and has at least `n` characters. After an
/// opening mark (`{`, `[`, `<-`, or one of their spellings) the rest of the
/// ASCII run is rewritten again; after `:`, the value up to the next `,` or
/// line break is kept as it is and what follows is rewritten again (skipping
/// one more character when the run starts without whitespace, which does not
/// return when there is no character to skip).
pub open spec fn quote_piece(
    non: Seq<char>,
    ascii: Seq<char>,
    n: nat,
    m: Map<Seq<char>, Seq<Seq<char>>>,
    bound: nat,
) -> Option<Seq<char>>
    decreases bound, 0nat, 0nat,
{
    let lw = lead_len(ascii, Lead::InlineWhite);
    if lw == 0 {
        let w = lead_len(ascii, Lead::Word);
        let aw = lead_len(ascii.skip(w as int), Lead::InlineAsciiWhite);
        let word = ascii.take(w as int);
        let whites = ascii.subrange(w as int, (w + aw) as int);
        let ascs = ascii.skip((w + aw) as int);
        if ascs.len() > 0 {
            match find_strip(open_marks(), ascs, m) {
                Some((mark, st)) => if st.len() < bound {
                    match quote_text(st, n, m) {
                        Some(q) => Some(non + word + whites + mark + q),
                        None => None,
                    }
                } else {
                    None
                },
                None => match find_strip(colon_marks(), ascs, m) {
                    Some((mark, st)) => {
                        let c = cut_len(st);
                        let rem = st.skip(c as int);
                        if rem.len() == 0 {
                            None
                        } else if rem.len() - 1 < bound {
                            match quote_text(rem.skip(1), n, m) {
                                Some(q) => Some(non + word + whites + mark + st.take(c as int) + q),
                                None => None,
                            }
                        } else {
                            None
                        }
                    },
                    None => if non.len() > 0 {
                        Some(quoted(non + word) + whites + ascs)
                    } else {
                        Some(ascii)
                    },
                },
            }
        } else if non.len() > 0 {
            Some(quoted(non + word))
        } else if w > 0 && spec_is_ascii_alphabetic(word[0]) && w >= n {
            Some(quoted(word))
        } else {
            Some(non + ascii)
        }
    } else {
        let lws = ascii.take(lw as int);
        let ascs = ascii.skip(lw as int);
        if ascs.len() > 0 {
            match find_strip(open_marks(), ascs, m) {
                Some((mark, st)) => if st.len() < bound {
                    match quote_text(st, n, m) {
                        Some(q) => Some(non + lws + mark + q),
                        None => None,
                    }
                } else {
                    None
                },
                None => match find_strip(colon_marks(), ascs, m) {
                    Some((mark, st)) => {
                        let c = cut_len(st);
                        let rem = st.skip(c as int);
                        if rem.len() < bound {
                            match quote_text(rem, n, m) {
                                Some(q) => Some(non + lws + mark + st.take(c as int) + q),
                                None => None,
                            }
                        } else {
                            None
                        }
                    },
                    None => Some(
                        (if non.len() > 0 {
                            quoted(non)
                        } else {
                            seq![]
                        }) + lws + ascs,
                    ),
                },
            }
        } else if non.len() > 0 {
            Some(quoted(non) + lws)
        } else {
            Some(non + ascii)
        }
    }
}


proof fn lemma_run_len_all(z: Seq<(char, bool)>, b: bool)
    requires
        forall|i: int| 0 <= i < z.len() ==> #[trigger] z[i].1 == b,
    ensures
        run_len(z, b) == z.len(),
    decreases z.len(),
{
    if z.len() > 0 {
        let r = z.drop_first();
        assert forall|i: int| 0 <= i < r.len() implies #[trigger] r[i].1 == b by {
            assert(r[i] == z[i + 1]);
        }
        lemma_run_len_all(r, b);
    }
}

proof fn lemma_lead_len_all(s: Seq<char>, k: Lead)
    requires
        forall|i: int| 0 <= i < s.len() ==> in_lead(#[trigger] s[i], k),
    ensures
        lead_len(s, k) == s.len(),
    decreases s.len(),
{
    if s.len() > 0 {
        let r = s.drop_first();
        assert forall|i: int| 0 <= i < r.len() implies in_lead(#[trigger] r[i], k) by {
            assert(r[i] == s[i + 1]);
        }
        lemma_lead_len_all(r, k);
    }
}

/// A text made of ASCII characters only is one pair: no non-ASCII run, and
/// the whole text as its ASCII run.
proof fn lemma_ascii_pairs_all_ascii(s: Seq<char>)
    requires
        s.len() > 0,
        forall|i: int| 0 <= i < s.len() ==> spec_is_ascii(#[trigger] s[i]),
    ensures
        ascii_pairs(s) == seq![(Seq::<char>::empty(), s)],
{
    let z = s.map_values(|c: char| (c, spec_is_ascii(c)));
    assert forall|i: int| 0 <= i < z.len() implies #[trigger] z[i].1 == true by {
        assert(spec_is_ascii(s[i]));
    }
    lemma_run_len_all(z, true);
    assert(z.skip(0) =~= z);
    assert(run_len(z, false) == 0);
    assert(items(z.take(0)) =~= Seq::<char>::empty());
    assert(items(z.subrange(0, z.len() as int)) =~= s);
    assert(z.skip(z.len() as int) =~= Seq::<(char, bool)>::empty());
    assert(toggle_pairs(Seq::<(char, bool)>::empty()) =~= Seq::<(Seq<char>, Seq<char>)>::empty());
    assert(ascii_pairs(s) =~= seq![(Seq::<char>::empty(), s)]);
}

/// Law: a lone ASCII word (letters, digits and `_`) that begins with a letter
/// is put between double quotes when it has at least `n` characters, and is
/// kept as it is when it is shorter.
pub proof fn lemma_quote_lone_ascii_word(w: Seq<char>, n: nat, m: Map<Seq<char>, Seq<Seq<char>>>)
    requires
        w.len() > 0,
        ('A' <= w[0] <= 'Z') || ('a' <= w[0] <= 'z'),
        forall|i: int|
            0 <= i < w.len() ==> ('A' <= #[trigger] w[i] <= 'Z') || ('a' <= w[i] <= 'z') || (
            '0' <= w[i] <= '9') || w[i] == '_',
    ensures
        w.len() >= n ==> quote_text(w, n, m) == Some(seq!['"'] + w + seq!['"']),
        w.len() < n ==> quote_text(w, n, m) == Some(w),
{
    assert forall|i: int| 0 <= i < w.len() implies spec_is_ascii(#[trigger] w[i]) by {
        assert(('A' <= w[i] <= 'Z') || ('a' <= w[i] <= 'z') || ('0' <= w[i] <= '9') || w[i] == '_');
    }
    lemma_ascii_pairs_all_ascii(w);
    assert forall|i: int| 0 <= i < w.len() implies in_lead(#[trigger] w[i], Lead::Word) by {}
    lemma_lead_len_all(w, Lead::Word);
    assert(!in_lead(w[0], Lead::InlineWhite));
    assert(lead_len(w, Lead::InlineWhite) == 0);
    assert(w.take(w.len() as int) =~= w);
    assert(w.skip(w.len() as int) =~= Seq::<char>::empty());
    assert(lead_len(Seq::<char>::empty(), Lead::InlineAsciiWhite) == 0);
    let e = Seq::<char>::empty();
    let ps = seq![(e, w)];
    assert(ps.drop_first() =~= Seq::<(Seq<char>, Seq<char>)>::empty());
    assert(quote_pairs(ps.drop_first(), n, m, w.len()) == Some(e));
    if w.len() >= n {
        assert(quote_piece(e, w, n, m, w.len()) == Some(quoted(w)));
        assert(quoted(w) + e =~= seq!['"'] + w + seq!['"']);
    } else {
        assert(quote_piece(e, w, n, m, w.len()) == Some(e + w));
        assert(e + w + e =~= w);
    }
}

/// The contents of an optional character vector.
pub open spec fn opt_chars(o: Option<Vec<char>>) -> Option<Seq<char>> {
    match o {
        Some(v) => Some(v@),
        None => None,
    }
}

/// `a` in front of what `o` holds, if it holds anything.
pub open spec fn opt_cat(a: Seq<char>, o: Option<Seq<char>>) -> Option<Seq<char>> {
    match o {
        Some(b) => Some(a + b),
        None => None,
    }
}

fn copy_chars(s: &Vec<char>) -> (r: Vec<char>)
    ensures
        r@ == s@,
{
    let r = chars_range(s, 0, s.len());
    assert(r@ =~= s@);
    r
}

fn concat2(a: &Vec<char>, b: &Vec<char>) -> (r: Vec<char>)
    ensures
        r@ == a@ + b@,
{
    let mut r = copy_chars(a);
    push_all(&mut r, b);
    r
}

fn quote_piece_exec(
    non: &Vec<char>,
    ascii: &Vec<char>,
    n: usize,
    m: &ReplaceToMap,
    bound: usize,
) -> (r: Option<Vec<char>>)
    ensures
        opt_chars(r) == quote_piece(non@, ascii@, n as nat, m@, bound as nat),
    decreases bound, 0usize,
{
    assert(ascii@.skip(0) =~= ascii@);
    let lw = lead_count(ascii, 0, Lead::InlineWhite);
    if lw == 0 {
        let w = lead_count(ascii, 0, Lead::Word);
        let aw = lead_count(ascii, w, Lead::InlineAsciiWhite);
        let word = chars_range(ascii, 0, w);
        let whites = chars_range(ascii, w, w + aw);
        let ascs = chars_range(ascii, w + aw, ascii.len());
        assert(word@ =~= ascii@.take(w as int));
        assert(ascs@ =~= ascii@.skip((w + aw) as int));
        if ascs.len() > 0 {
            match find_strip_chars(&open_marks_exec(), &ascs, m) {
                Some((mark, st)) => {
                    if st.len() < bound {
                        match quote_chars(&st, n, m) {
                            Some(q) => {
                                let mut out = copy_chars(non);
                                push_all(&mut out, &word);
                                push_all(&mut out, &whites);
                                push_all(&mut out, &mark);
                                push_all(&mut out, &q);
                                Some(out)
                            },
                            None => None,
                        }
                    } else {
                        None
                    }
                },
                None => match find_strip_chars(&colon_marks_exec(), &ascs, m) {
                    Some((mark, st)) => {
                        let c = cut_count(&st);
                        let rem = chars_range(&st, c, st.len());
                        assert(rem@ =~= st@.skip(c as int));
                        if rem.len() == 0 {
                            None
                        } else if rem.len() - 1 < bound {
                            let rest = chars_range(&rem, 1, rem.len());
                            assert(rest@ =~= rem@.skip(1));
                            match quote_chars(&rest, n, m) {
                                Some(q) => {
                                    let mut out = copy_chars(non);
                                    push_all(&mut out, &word);
                                    push_all(&mut out, &whites);
                                    push_all(&mut out, &mark);
                                    let kept = chars_range(&st, 0, c);
                                    assert(kept@ =~= st@.take(c as int));
                                    push_all(&mut out, &kept);
                                    push_all(&mut out, &q);
                                    Some(out)
                                },
                                None => None,
                            }
                        } else {
                            None
                        }
                    },
                    None => {
                        if non.len() > 0 {
                            let nw = concat2(non, &word);
                            let mut out = quote(&nw);
                            push_all(&mut out, &whites);
                            push_all(&mut out, &ascs);
                            Some(out)
                        } else {
                            Some(copy_chars(ascii))
                        }
                    },
                },
            }
        } else if non.len() > 0 {
            let nw = concat2(non, &word);
            Some(quote(&nw))
        } else if w > 0 && is_ascii_alphabetic(word[0]) && w >= n {
            Some(quote(&word))
        } else {
            Some(concat2(non, ascii))
        }
    } else {
        let lws = chars_range(ascii, 0, lw);
        let ascs = chars_range(ascii, lw, ascii.len());
        assert(lws@ =~= ascii@.take(lw as int));
        assert(ascs@ =~= ascii@.skip(lw as int));
        if ascs.len() > 0 {
            match find_strip_chars(&open_marks_exec(), &ascs, m) {
                Some((mark, st)) => {
                    if st.len() < bound {
                        match quote_chars(&st, n, m) {
                            Some(q) => {
                                let mut out = copy_chars(non);
                                push_all(&mut out, &lws);
                                push_all(&mut out, &mark);
                                push_all(&mut out, &q);
                                Some(out)
                            },
                            None => None,
                        }
                    } else {
                        None
                    }
                },
                None => match find_strip_chars(&colon_marks_exec(), &ascs, m) {
                    Some((mark, st)) => {
                        let c = cut_count(&st);
                        let rem = chars_range(&st, c, st.len());
                        assert(rem@ =~= st@.skip(c as int));
                        if rem.len() < bound {
                            match quote_chars(&rem, n, m) {
                                Some(q) => {
                                    let mut out = copy_chars(non);
                                    push_all(&mut out, &lws);
                                    push_all(&mut out, &mark);
                                    let kept = chars_range(&st, 0, c);
                                    assert(kept@ =~= st@.take(c as int));
                                    push_all(&mut out, &kept);
                                    push_all(&mut out, &q);
                                    Some(out)
                                },
                                None => None,
                            }
                        } else {
                            None
                        }
                    },
                    None => {
                        let mut out = if non.len() > 0 {
                            quote(non)
                        } else {
                            Vec::new()
                        };
                        push_all(&mut out, &lws);
                        push_all(&mut out, &ascs);
                        Some(out)
                    },
                },
            }
        } else if non.len() > 0 {
            let mut out = quote(non);
            push_all(&mut out, &lws);
            Some(out)
        } else {
            Some(concat2(non, ascii))
        }
    }
}

/// Rewrites `s` as `auto_quote` does, or gives `None` where `auto_quote`
/// does not return.
pub fn quote_chars(s: &Vec<char>, n: usize, m: &ReplaceToMap) -> (r: Option<Vec<char>>)
    ensures
        opt_chars(r) == quote_text(s@, n as nat, m@),
    decreases s.len(), 1usize,
{
    let v = copy_chars(s);
    let ascii_test = |c: &char| -> (r: bool)
        ensures
            r == spec_is_ascii(*c),
        { is_ascii(*c) };
    let pairs = partition_toggle_tuple(v, &ascii_test);
    let ghost z = s@.map_values(|c: char| (c, spec_is_ascii(c)));
    proof {
        let flags = choose|flags: Seq<bool>|
            {
                &&& flags.len() == s@.len()
                &&& forall|i: int|
                    0 <= i < s@.len() ==> ascii_test.ensures((&s@[i],), #[trigger] flags[i])
                &&& pairs_view(pairs@) == toggle_pairs(flagged(s@, flags))
            };
        assert(flagged(s@, flags) =~= z);
    }
    let ghost ps = pairs_view(pairs@);
    let ghost bound = s.len() as nat;
    let mut out: Vec<char> = Vec::new();
    assert(ps.skip(0) =~= ps);
    assert(opt_cat(out@, quote_pairs(ps, n as nat, m@, bound)) == quote_pairs(ps, n as nat, m@, bound)) by {
        if let Some(b) = quote_pairs(ps, n as nat, m@, bound) {
            assert(out@ + b =~= b);
        }
    }
    for p in it: pairs.into_iter()
        invariant
            it.seq() == pairs@,
            ps == pairs_view(pairs@),
            ps == ascii_pairs(s@),
            bound == s.len(),
            quote_pairs(ps, n as nat, m@, bound) == opt_cat(
                out@,
                quote_pairs(ps.skip(it.index() as int), n as nat, m@, bound),
            ),
    {
        let ghost i = it.index() as int;
        proof {
            assert(ps.skip(i)[0] == ps[i]);
            assert(ps.skip(i).drop_first() =~= ps.skip(i + 1));
        }
        let (non, ascii) = p;
        assert(ps[i] == (non@, ascii@));
        match quote_piece_exec(&non, &ascii, n, m, s.len()) {
            Some(piece) => {
                let ghost before = out@;
                push_all(&mut out, &piece);
                proof {
                    if let Some(b) = quote_pairs(ps.skip(i + 1), n as nat, m@, bound) {
                        assert(before + (piece@ + b) =~= out@ + b);
                    }
                }
            },
            None => {
                return None;
            },
        }
    }
    assert(ps.skip(ps.len() as int) =~= Seq::<(Seq<char>, Seq<char>)>::empty());
    Some(out)
}


/// Puts double quotes around ASCII words of at least `ascii_quote_len`
/// characters that begin with a letter and around words of non-ASCII
/// characters, leaving marks, spacing and the text after `:` as they are
/// (see `quote_piece`). The spellings in `replacetomap` are read as the marks
/// they stand for, and the mark is written as itself.
pub fn auto_quote(s: &str, ascii_quote_len: usize, replacetomap: &ReplaceToMap) -> (res: String)
    requires
        quote_text(s@, ascii_quote_len as nat, replacetomap@) is Some,
    ensures
        Some(res@) == quote_text(s@, ascii_quote_len as nat, replacetomap@),
{
    let cs = chars_of(s);
    match quote_chars(&cs, ascii_quote_len, replacetomap) {
        Some(q) => string_of(&q),
        None => String::new(),
    }
}

/// `s` between single quotes.
pub open spec fn single_quoted(s: Seq<char>) -> Seq<char> {
    seq!['\''] + s + seq!['\'']
}

/// The pieces of a text outside double quotes, split at single quotes: the
/// pieces outside single quotes are rewritten by `quote_text`, the others are
/// kept between single quotes. `inside` tells whether the first piece is
/// inside single quotes.
pub open spec fn quote_segments(
    subs: Seq<Seq<char>>,
    n: nat,
    m: Map<Seq<char>, Seq<Seq<char>>>,
    inside: bool,
) -> Option<Seq<char>>
    decreases subs.len(),
{
    if subs.len() == 0 {
        Some(seq![])
    } else {
        let head = if inside {
            Some(single_quoted(subs[0]))
        } else {
            quote_text(subs[0], n, m)
        };
        match head {
            Some(a) => opt_cat(a, quote_segments(subs.drop_first(), n, m, !inside)),
            None => None,
        }
    }
}

/// The pieces of a text inside double quotes, split at single quotes, put
/// back together with single quotes around every other piece.
pub open spec fn keep_segments(subs: Seq<Seq<char>>, inside: bool) -> Seq<char>
    decreases subs.len(),
{
    if subs.len() == 0 {
        seq![]
    } else {
        (if inside {
            single_quoted(subs[0])
        } else {
            subs[0]
        }) + keep_segments(subs.drop_first(), !inside)
    }
}

/// The pieces of a text split at double quotes, rewritten: the pieces outside
/// double quotes by `quote_segments`, the others kept between double quotes.
pub open spec fn format_parts(
    parts: Seq<Seq<char>>,
    n: nat,
    m: Map<Seq<char>, Seq<Seq<char>>>,
    inside: bool,
) -> Option<Seq<char>>
    decreases parts.len(),
{
    if parts.len() == 0 {
        Some(seq![])
    } else {
        let subs = split_on(parts[0], '\'');
        let head = if inside {
            Some(quoted(keep_segments(subs, false)))
        } else {
            quote_segments(subs, n, m, false)
        };
        match head {
            Some(a) => opt_cat(a, format_parts(parts.drop_first(), n, m, !inside)),
            None => None,
        }
    }
}

/// `magic_format_cozo_script` of `text`, or `None` where it does not return.
pub open spec fn magic_format(text: Seq<char>, n: nat, m: Map<Seq<char>, Seq<Seq<char>>>) -> Option<
    Seq<char>,
> {
    format_parts(split_on(text, '"'), n, m, false)
}

/// Nothing to rewrite in an empty text.
proof fn lemma_quote_text_empty(n: nat, m: Map<Seq<char>, Seq<Seq<char>>>)
    ensures
        quote_text(Seq::<char>::empty(), n, m) == Some(Seq::<char>::empty()),
{
    let e = Seq::<char>::empty();
    let z = e.map_values(|c: char| (c, spec_is_ascii(c)));
    assert(z =~= Seq::<(char, bool)>::empty());
    assert(ascii_pairs(e) =~= Seq::<(Seq<char>, Seq<char>)>::empty());
}

/// Law: outside double quotes, a string between single quotes is kept exactly
/// as written, while the text before and after it is rewritten by
/// `auto_quote` on its own.
pub proof fn lemma_single_quoted_kept(
    a: Seq<char>,
    s: Seq<char>,
    b: Seq<char>,
    n: nat,
    m: Map<Seq<char>, Seq<Seq<char>>>,
)
    requires
        forall|i: int| 0 <= i < a.len() ==> a[i] != '\'' && a[i] != '"',
        forall|i: int| 0 <= i < s.len() ==> s[i] != '\'' && s[i] != '"',
        forall|i: int| 0 <= i < b.len() ==> b[i] != '\'' && b[i] != '"',
        quote_text(a, n, m) is Some,
        quote_text(b, n, m) is Some,
    ensures
        magic_format(a + seq!['\''] + s + seq!['\''] + b, n, m) == Some(
            quote_text(a, n, m).unwrap() + seq!['\''] + s + seq!['\''] + quote_text(
                b,
                n,
                m,
            ).unwrap(),
        ),
{
    let q = seq!['\''];
    let t = a + q + s + q + b;
    assert forall|i: int| 0 <= i < t.len() implies t[i] != '"' by {
        if i < a.len() {
            assert(t[i] == a[i]);
        } else if i == a.len() {
        } else if i < a.len() + 1 + s.len() {
            assert(t[i] == s[i - a.len() - 1]);
        } else if i == a.len() + 1 + s.len() {
        } else {
            assert(t[i] == b[i - a.len() - 2 - s.len()]);
        }
    }
    lemma_split_on_none(t, '"');
    lemma_split_on_front(a, s + q + b, '\'');
    assert(t =~= a + q + (s + q + b));
    lemma_split_on_front(s, b, '\'');
    assert(s + q + b =~= s + seq!['\''] + b);
    lemma_split_on_none(b, '\'');
    let subs = seq![a, s, b];
    assert(split_on(t, '\'') =~= subs);
    let qa = quote_text(a, n, m).unwrap();
    let qb = quote_text(b, n, m).unwrap();
    assert(subs.drop_first() =~= seq![s, b]);
    assert(seq![s, b].drop_first() =~= seq![b]);
    assert(seq![b].drop_first() =~= Seq::<Seq<char>>::empty());
    assert(quote_segments(Seq::<Seq<char>>::empty(), n, m, true) == Some(Seq::<char>::empty()));
    assert(seq![b][0] == b);
    assert(quote_segments(seq![b], n, m, false) == opt_cat(qb, quote_segments(seq![b].drop_first(), n, m, true)));
    assert(quote_segments(seq![b], n, m, false) == Some(qb + Seq::<char>::empty()));
    assert(qb + Seq::<char>::empty() =~= qb);
    assert(quote_segments(seq![s, b], n, m, true) == Some(single_quoted(s) + qb));
    assert(quote_segments(subs, n, m, false) == Some(qa + (single_quoted(s) + qb)));
    let parts = seq![t];
    assert(parts.drop_first() =~= Seq::<Seq<char>>::empty());
    assert(format_parts(Seq::<Seq<char>>::empty(), n, m, true) == Some(Seq::<char>::empty()));
    assert(parts[0] == t);
    assert(format_parts(parts, n, m, false) == opt_cat(qa + (single_quoted(s) + qb), format_parts(parts.drop_first(), n, m, true)));
    assert(magic_format(t, n, m) == Some(qa + (single_quoted(s) + qb) + Seq::<char>::empty()));
    assert(qa + (single_quoted(s) + qb) + Seq::<char>::empty() =~= qa + q + s + q + qb);
}

/// Law: a string between single quotes on its own is kept as written.
pub proof fn lemma_lone_single_quoted_kept(s: Seq<char>, n: nat, m: Map<Seq<char>, Seq<Seq<char>>>)
    requires
        forall|i: int| 0 <= i < s.len() ==> s[i] != '\'' && s[i] != '"',
    ensures
        magic_format(seq!['\''] + s + seq!['\''], n, m) == Some(seq!['\''] + s + seq!['\'']),
{
    let e = Seq::<char>::empty();
    lemma_quote_text_empty(n, m);
    lemma_single_quoted_kept(e, s, e, n, m);
    assert(e + seq!['\''] + s + seq!['\''] + e =~= seq!['\''] + s + seq!['\'']);
}

proof fn lemma_opt_cat_assoc(a: Seq<char>, b: Seq<char>, o: Option<Seq<char>>)
    ensures
        opt_cat(a, opt_cat(b, o)) == opt_cat(a + b, o),
{
    if let Some(c) = o {
        assert(a + (b + c) =~= (a + b) + c);
    }
}

proof fn lemma_opt_cat_empty(o: Option<Seq<char>>)
    ensures
        opt_cat(Seq::<char>::empty(), o) == o,
{
    if let Some(c) = o {
        assert(Seq::<char>::empty() + c =~= c);
    }
}

fn single_quote(s: &Vec<char>) -> (r: Vec<char>)
    ensures
        r@ == single_quoted(s@),
{
    let mut r: Vec<char> = Vec::new();
    r.push('\'');
    push_all(&mut r, s);
    r.push('\'');
    assert(r@ =~= single_quoted(s@));
    r
}

fn quote_segments_exec(subs: &Vec<Vec<char>>, n: usize, m: &ReplaceToMap) -> (r: Option<Vec<char>>)
    ensures
        opt_chars(r) == quote_segments(chars_seqs(subs@), n as nat, m@, false),
{
    let ghost all = chars_seqs(subs@);
    let mut out: Vec<char> = Vec::new();
    let mut inside = false;
    let mut i: usize = 0;
    assert(all.skip(0) =~= all);
    proof {
        lemma_opt_cat_empty(quote_segments(all, n as nat, m@, false));
    }
    while i < subs.len()
        invariant
            i <= subs.len(),
            all == chars_seqs(subs@),
            quote_segments(all, n as nat, m@, false) == opt_cat(
                out@,
                quote_segments(all.skip(i as int), n as nat, m@, inside),
            ),
        decreases subs.len() - i,
    {
        proof {
            assert(all.skip(i as int)[0] == all[i as int]);
            assert(all.skip(i as int).drop_first() =~= all.skip(i + 1));
        }
        let piece = if inside {
            Some(single_quote(&subs[i]))
        } else {
            quote_chars(&subs[i], n, m)
        };
        match piece {
            Some(a) => {
                let ghost before = out@;
                push_all(&mut out, &a);
                proof {
                    lemma_opt_cat_assoc(
                        before,
                        a@,
                        quote_segments(all.skip(i + 1), n as nat, m@, !inside),
                    );
                }
            },
            None => {
                return None;
            },
        }
        inside = !inside;
        i = i + 1;
    }
    assert(all.skip(i as int) =~= Seq::<Seq<char>>::empty());
    assert(out@ + Seq::<char>::empty() =~= out@);
    Some(out)
}

fn keep_segments_exec(subs: &Vec<Vec<char>>) -> (r: Vec<char>)
    ensures
        r@ == keep_segments(chars_seqs(subs@), false),
{
    let ghost all = chars_seqs(subs@);
    let mut out: Vec<char> = Vec::new();
    let mut inside = false;
    let mut i: usize = 0;
    assert(all.skip(0) =~= all);
    assert(out@ + keep_segments(all, false) =~= keep_segments(all, false));
    while i < subs.len()
        invariant
            i <= subs.len(),
            all == chars_seqs(subs@),
            keep_segments(all, false) == out@ + keep_segments(all.skip(i as int), inside),
        decreases subs.len() - i,
    {
        proof {
            assert(all.skip(i as int)[0] == all[i as int]);
            assert(all.skip(i as int).drop_first() =~= all.skip(i + 1));
        }
        let a = if inside {
            single_quote(&subs[i])
        } else {
            copy_chars(&subs[i])
        };
        let ghost before = out@;
        push_all(&mut out, &a);
        assert(before + (a@ + keep_segments(all.skip(i + 1), !inside)) =~= out@ + keep_segments(
            all.skip(i + 1),
            !inside,
        ));
        inside = !inside;
        i = i + 1;
    }
    assert(all.skip(i as int) =~= Seq::<Seq<char>>::empty());
    assert(out@ + Seq::<char>::empty() =~= out@);
    out
}

/// Rewrites `text` as `magic_format_cozo_script` does, or gives `None` where
/// it does not return.
pub fn magic_chars(text: &Vec<char>, n: usize, m: &ReplaceToMap) -> (r: Option<Vec<char>>)
    ensures
        opt_chars(r) == magic_format(text@, n as nat, m@),
{
    let parts = split_chars(text, '"');
    let ghost all = chars_seqs(parts@);
    let mut out: Vec<char> = Vec::new();
    let mut inside = false;
    let mut i: usize = 0;
    assert(all.skip(0) =~= all);
    proof {
        lemma_opt_cat_empty(format_parts(all, n as nat, m@, false));
    }
    while i < parts.len()
        invariant
            i <= parts.len(),
            all == chars_seqs(parts@),
            all == split_on(text@, '"'),
            format_parts(all, n as nat, m@, false) == opt_cat(
                out@,
                format_parts(all.skip(i as int), n as nat, m@, inside),
            ),
        decreases parts.len() - i,
    {
        proof {
            assert(all.skip(i as int)[0] == all[i as int]);
            assert(all.skip(i as int).drop_first() =~= all.skip(i + 1));
        }
        let subs = split_chars(&parts[i], '\'');
        let piece = if inside {
            let kept = keep_segments_exec(&subs);
            Some(quote(&kept))
        } else {
            quote_segments_exec(&subs, n, m)
        };
        match piece {
            Some(a) => {
                let ghost before = out@;
                push_all(&mut out, &a);
                proof {
                    lemma_opt_cat_assoc(
                        before,
                        a@,
                        format_parts(all.skip(i + 1), n as nat, m@, !inside),
                    );
                }
            },
            None => {
                return None;
            },
        }
        inside = !inside;
        i = i + 1;
    }
    assert(all.skip(i as int) =~= Seq::<Seq<char>>::empty());
    assert(out@ + Seq::<char>::empty() =~= out@);
    Some(out)
}

/// Splits a script at double quotes, then at single quotes, keeps what is
/// quoted and puts the rest through `auto_quote`.
pub fn magic_format_cozo_script(
    lines: &str,
    ascii_quote_len: usize,
    replacetomap: &ReplaceToMap,
) -> (res: String)
    requires
        magic_format(lines@, ascii_quote_len as nat, replacetomap@) is Some,
    ensures
        Some(res@) == magic_format(lines@, ascii_quote_len as nat, replacetomap@),
{
    let cs = chars_of(lines);
    match magic_chars(&cs, ascii_quote_len, replacetomap) {
        Some(q) => string_of(&q),
        None => String::new(),
    }
}


/// The contents of a vector of lines.
pub open spec fn lines_view(v: Seq<String>) -> Seq<Seq<char>> {
    v.map_values(|l: String| l@)
}

/// The contents of a vector of blocks of lines.
pub open spec fn blocks_view(v: Seq<Vec<String>>) -> Seq<Seq<Seq<char>>> {
    v.map_values(|b: Vec<String>| lines_view(b@))
}

/// Whether a block has at least one line.
pub open spec fn is_nonempty_block() -> spec_fn(Seq<Seq<char>>) -> bool {
    |b: Seq<Seq<char>>| b.len() > 0
}

/// The blocks of `lines` separated by empty lines.
pub open spec fn blocks_of(lines: Seq<Seq<char>>) -> Seq<Seq<Seq<char>>> {
    split_on(lines, Seq::<char>::empty()).filter(is_nonempty_block())
}

proof fn lemma_flatten_without_empty<A>(ss: Seq<Seq<A>>)
    ensures
        ss.filter(|b: Seq<A>| b.len() > 0).flatten() == ss.flatten(),
    decreases ss.len(),
{
    let p = |b: Seq<A>| b.len() > 0;
    if ss.len() > 0 {
        let rest = ss.drop_first();
        lemma_flatten_without_empty(rest);
        assert(ss =~= seq![ss[0]] + rest);
        rest.lemma_filter_prepend(ss[0], p);
        let head = if p(ss[0]) {
            seq![ss[0]]
        } else {
            Seq::<Seq<A>>::empty()
        };
        lemma_flatten_concat(head, rest.filter(p));
        lemma_flatten_concat(seq![ss[0]], rest);
        assert(seq![ss[0]].drop_first() =~= Seq::<Seq<A>>::empty());
        assert(seq![ss[0]].flatten() =~= ss[0]);
        assert(Seq::<Seq<A>>::empty().flatten() =~= Seq::<A>::empty());
    }
}

/// Law: no block is empty, no line of a block is empty, and the blocks laid
/// end to end give back the nonempty lines, in order.
pub proof fn lemma_blocks_of(lines: Seq<Seq<char>>)
    ensures
        forall|i: int| 0 <= i < blocks_of(lines).len() ==> blocks_of(lines)[i].len() > 0,
        forall|i: int, j: int|
            0 <= i < blocks_of(lines).len() && 0 <= j < blocks_of(lines)[i].len()
                ==> blocks_of(lines)[i][j].len() > 0,
        blocks_of(lines).flatten() == lines.filter(other_than(Seq::<char>::empty())),
{
    let e = Seq::<char>::empty();
    let ss = split_on(lines, e);
    let bs = blocks_of(lines);
    lemma_split_on_pieces(lines, e);
    assert(is_nonempty_block() == |b: Seq<Seq<char>>| b.len() > 0);
    lemma_flatten_without_empty(ss);
    assert forall|i: int| 0 <= i < bs.len() implies bs[i].len() > 0 by {
        ss.lemma_filter_pred(is_nonempty_block(), i);
    }
    assert forall|i: int, j: int| 0 <= i < bs.len() && 0 <= j < bs[i].len() implies bs[i][j].len()
        > 0 by {
        assert(bs.contains(bs[i]));
        ss.lemma_filter_contains_rev(is_nonempty_block(), bs[i]);
        let k = choose|k: int| 0 <= k < ss.len() && ss[k] == bs[i];
        assert(ss[k][j] != e);
        if bs[i][j].len() == 0 {
            assert(bs[i][j] =~= e);
        }
    }
}

/// Splits `lines` at every line equal to `sepline`: one more chunk than there
/// are such lines, empty chunks included.
pub fn linechunks(sepline: &str, lines: Vec<String>) -> (res: Vec<Vec<String>>)
    ensures
        blocks_view(res@) == split_on(lines_view(lines@), sepline@),
{
    let sep = sepline.to_owned();
    let ghost all = lines_view(lines@);
    let mut v: Vec<Vec<String>> = Vec::new();
    let mut cv: Vec<String> = Vec::new();
    proof {
        lemma_index_of(Seq::<Seq<char>>::empty(), sepline@);
        assert(all.take(0) =~= Seq::<Seq<char>>::empty());
        assert(blocks_view(v@) =~= Seq::<Seq<Seq<char>>>::empty());
        assert(lines_view(cv@) =~= Seq::<Seq<char>>::empty());
        assert(split_on(Seq::<Seq<char>>::empty(), sepline@) == seq![Seq::<Seq<char>>::empty()]);
        assert(blocks_view(v@).push(lines_view(cv@)) =~= split_on(all.take(0), sepline@));
    }
    for l in it: lines.into_iter()
        invariant
            sep@ == sepline@,
            lines_view(it.seq()) == all,
            blocks_view(v@).push(lines_view(cv@)) == split_on(all.take(it.index() as int), sepline@),
    {
        let ghost i = it.index() as int;
        proof {
            lemma_split_on_push(all.take(i), sepline@, l@);
            assert(all.take(i + 1) =~= all.take(i).push(l@));
            assert(all[i] == l@);
        }
        let ghost before_v = blocks_view(v@);
        let ghost before_cv = lines_view(cv@);
        if l == sep {
            v.push(cv);
            assert(blocks_view(v@) =~= before_v.push(before_cv));
            cv = Vec::new();
            assert(lines_view(cv@) =~= Seq::<Seq<char>>::empty());
            assert(blocks_view(v@).push(lines_view(cv@)) =~= before_v.push(before_cv).push(
                Seq::<Seq<char>>::empty(),
            ));
        } else {
            let ghost lv = l@;
            cv.push(l);
            assert(lines_view(cv@) =~= before_cv.push(lv));
            assert(blocks_view(v@).push(lines_view(cv@)) =~= before_v.push(before_cv).update(
                before_v.len() as int,
                before_cv.push(lv),
            ));
        }
    }
    let ghost before_v = blocks_view(v@);
    let ghost before_cv = lines_view(cv@);
    v.push(cv);
    assert(blocks_view(v@) =~= before_v.push(before_cv));
    assert(all.take(all.len() as int) =~= all);
    v
}

/// Splits `lines` into blocks separated by empty lines, leaving out blocks
/// with no line.
pub fn blocks(lines: Vec<String>) -> (res: Vec<Vec<String>>)
    ensures
        blocks_view(res@) == blocks_of(lines_view(lines@)),
{
    let chunks = linechunks("", lines);
    let ghost all = blocks_view(chunks@);
    let mut out: Vec<Vec<String>> = Vec::new();
    proof {
        reveal_strlit("");
        assert(""@ =~= Seq::<char>::empty());
        assert(all.take(0) =~= Seq::<Seq<Seq<char>>>::empty());
        reveal(Seq::filter);
        assert(blocks_view(out@) =~= all.take(0).filter(is_nonempty_block()));
    }
    for b in it: chunks.into_iter()
        invariant
            blocks_view(it.seq()) == all,
            blocks_view(out@) == all.take(it.index() as int).filter(is_nonempty_block()),
    {
        let ghost i = it.index() as int;
        proof {
            assert(all.take(i + 1) =~= all.take(i).push(all[i]));
            all.take(i).lemma_filter_push(all[i], is_nonempty_block());
            assert(all[i] == lines_view(b@));
        }
        if b.len() > 0 {
            let ghost before = blocks_view(out@);
            let ghost bv = lines_view(b@);
            out.push(b);
            assert(blocks_view(out@) =~= before.push(bv));
        }
    }
    assert(all.take(all.len() as int) =~= all);
    out
}

/// The lines of a block joined by line breaks.
pub open spec fn join_lines(b: Seq<Seq<char>>) -> Seq<char> {
    if b.len() == 0 {
        seq![]
    } else {
        b[0] + b.drop_first().map_values(|l: Seq<char>| seq!['\n'] + l).flatten()
    }
}

/// The lines of a block joined by line breaks.
pub fn join_block(b: &Vec<String>) -> (r: Vec<char>)
    ensures
        r@ == join_lines(lines_view(b@)),
{
    if b.len() == 0 {
        return Vec::new();
    }
    let ghost lv = lines_view(b@);
    let ghost tail = lv.drop_first().map_values(|l: Seq<char>| seq!['\n'] + l);
    let mut out = chars_of(b[0].as_str());
    let mut i: usize = 1;
    assert(tail.take(0) =~= Seq::<Seq<char>>::empty());
    assert(out@ =~= lv[0] + tail.take(0).flatten());
    while i < b.len()
        invariant
            1 <= i <= b.len(),
            lv == lines_view(b@),
            tail == lv.drop_first().map_values(|l: Seq<char>| seq!['\n'] + l),
            out@ == lv[0] + tail.take(i - 1).flatten(),
        decreases b.len() - i,
    {
        let line = chars_of(b[i].as_str());
        let ghost before = out@;
        out.push('\n');
        push_all(&mut out, &line);
        proof {
            assert(tail.take(i as int) =~= tail.take(i - 1).push(tail[i - 1]));
            tail.take(i - 1).lemma_flatten_push(tail[i - 1]);
            assert(tail[i - 1] == seq!['\n'] + line@);
            assert(out@ =~= lv[0] + tail.take(i as int).flatten());
        }
        i = i + 1;
    }
    assert(tail.take(b.len() - 1) =~= tail);
    out
}

/// Whether a block ends in a line that ends with `suffix`.
pub open spec fn is_active_block(b: Seq<Seq<char>>, suffix: Seq<char>) -> bool {
    b.len() > 0 && has_suffix(b.last(), suffix)
}

/// `s` without `suffix` at its end, or `s` if it does not end so.
pub open spec fn without_suffix(s: Seq<char>, suffix: Seq<char>) -> Seq<char> {
    if has_suffix(s, suffix) {
        s.take(s.len() - suffix.len())
    } else {
        s
    }
}

/// The script that an active block stands for.
pub open spec fn active_text(
    b: Seq<Seq<char>>,
    suffix: Seq<char>,
    n: nat,
    m: Map<Seq<char>, Seq<Seq<char>>>,
) -> Option<Seq<char>> {
    match magic_format(join_lines(b), n, m) {
        Some(t) => Some(without_suffix(t, suffix)),
        None => None,
    }
}

/// The active and the inactive blocks of `bs`, in order: an active block as
/// its script, an inactive one as its joined lines.
pub open spec fn sort_blocks(
    bs: Seq<Seq<Seq<char>>>,
    suffix: Seq<char>,
    n: nat,
    m: Map<Seq<char>, Seq<Seq<char>>>,
) -> Option<(Seq<Seq<char>>, Seq<Seq<char>>)>
    decreases bs.len(),
{
    if bs.len() == 0 {
        Some((seq![], seq![]))
    } else {
        match sort_blocks(bs.drop_first(), suffix, n, m) {
            Some((a, i)) => if is_active_block(bs[0], suffix) {
                match active_text(bs[0], suffix, n, m) {
                    Some(t) => Some((seq![t] + a, i)),
                    None => None,
                }
            } else {
                Some((a, seq![join_lines(bs[0])] + i))
            },
            None => None,
        }
    }
}

/// Whether a block is active, as a predicate on blocks.
pub open spec fn active_pred(suffix: Seq<char>) -> spec_fn(Seq<Seq<char>>) -> bool {
    |b: Seq<Seq<char>>| is_active_block(b, suffix)
}

/// Whether a block is inactive, as a predicate on blocks.
pub open spec fn inactive_pred(suffix: Seq<char>) -> spec_fn(Seq<Seq<char>>) -> bool {
    |b: Seq<Seq<char>>| !is_active_block(b, suffix)
}

/// The script of an active block, where it has one.
pub open spec fn script_of(
    suffix: Seq<char>,
    n: nat,
    m: Map<Seq<char>, Seq<Seq<char>>>,
) -> spec_fn(Seq<Seq<char>>) -> Seq<char> {
    |b: Seq<Seq<char>>| active_text(b, suffix, n, m).unwrap()
}

/// Whether every active block of `bs` has a script.
pub open spec fn all_scripted(
    bs: Seq<Seq<Seq<char>>>,
    suffix: Seq<char>,
    n: nat,
    m: Map<Seq<char>, Seq<Seq<char>>>,
) -> bool {
    forall|k: int|
        0 <= k < bs.len() && is_active_block(bs[k], suffix) ==> (#[trigger] active_text(
            bs[k],
            suffix,
            n,
            m,
        )) is Some
}

proof fn lemma_all_scripted_front(
    bs: Seq<Seq<Seq<char>>>,
    suffix: Seq<char>,
    n: nat,
    m: Map<Seq<char>, Seq<Seq<char>>>,
)
    requires
        bs.len() > 0,
    ensures
        all_scripted(bs, suffix, n, m) <==> (all_scripted(bs.drop_first(), suffix, n, m) && (
        is_active_block(bs[0], suffix) ==> active_text(bs[0], suffix, n, m) is Some)),
{
    let rest = bs.drop_first();
    if all_scripted(rest, suffix, n, m) && (is_active_block(bs[0], suffix) ==> active_text(
        bs[0],
        suffix,
        n,
        m,
    ) is Some) {
        assert forall|k: int|
            0 <= k < bs.len() && is_active_block(bs[k], suffix) implies (#[trigger] active_text(
            bs[k],
            suffix,
            n,
            m,
        )) is Some by {
            if k > 0 {
                assert(bs[k] == rest[k - 1]);
            }
        }
    }
    if all_scripted(bs, suffix, n, m) {
        assert forall|k: int|
            0 <= k < rest.len() && is_active_block(rest[k], suffix) implies (#[trigger] active_text(
            rest[k],
            suffix,
            n,
            m,
        )) is Some by {
            assert(rest[k] == bs[k + 1]);
        }
    }
}

/// Law: sorting the blocks succeeds exactly when every active block has a
/// script.
pub proof fn lemma_sort_blocks_some(
    bs: Seq<Seq<Seq<char>>>,
    suffix: Seq<char>,
    n: nat,
    m: Map<Seq<char>, Seq<Seq<char>>>,
)
    ensures
        sort_blocks(bs, suffix, n, m) is Some <==> all_scripted(bs, suffix, n, m),
    decreases bs.len(),
{
    if bs.len() > 0 {
        lemma_sort_blocks_some(bs.drop_first(), suffix, n, m);
        lemma_all_scripted_front(bs, suffix, n, m);
    }
}

/// Law: where sorting succeeds, the scripts of the active blocks stand on one
/// side and the joined lines of the inactive blocks on the other, each in the
/// order of the blocks, so that every block lands on exactly one side.
pub proof fn lemma_sort_blocks_sides(
    bs: Seq<Seq<Seq<char>>>,
    suffix: Seq<char>,
    n: nat,
    m: Map<Seq<char>, Seq<Seq<char>>>,
)
    requires
        sort_blocks(bs, suffix, n, m) is Some,
    ensures
        sort_blocks(bs, suffix, n, m).unwrap().0 == bs.filter(active_pred(suffix)).map_values(
            script_of(suffix, n, m),
        ),
        sort_blocks(bs, suffix, n, m).unwrap().1 == bs.filter(inactive_pred(suffix)).map_values(
            |b: Seq<Seq<char>>| join_lines(b),
        ),
        sort_blocks(bs, suffix, n, m).unwrap().0.len() + sort_blocks(bs, suffix, n, m).unwrap().1.len()
            == bs.len(),
    decreases bs.len(),
{
    let ap = active_pred(suffix);
    let ip = inactive_pred(suffix);
    let sf = script_of(suffix, n, m);
    let jf = |b: Seq<Seq<char>>| join_lines(b);
    if bs.len() == 0 {
        reveal(Seq::filter);
        assert(bs.filter(ap).map_values(sf) =~= Seq::<Seq<char>>::empty());
        assert(bs.filter(ip).map_values(jf) =~= Seq::<Seq<char>>::empty());
    } else {
        let rest = bs.drop_first();
        let (a, i) = sort_blocks(rest, suffix, n, m).unwrap();
        lemma_sort_blocks_sides(rest, suffix, n, m);
        assert(bs =~= seq![bs[0]] + rest);
        rest.lemma_filter_prepend(bs[0], ap);
        rest.lemma_filter_prepend(bs[0], ip);
        if is_active_block(bs[0], suffix) {
            assert(bs.filter(ap) == seq![bs[0]] + rest.filter(ap));
            assert(bs.filter(ip) =~= rest.filter(ip));
            assert((seq![bs[0]] + rest.filter(ap)).map_values(sf) =~= seq![sf(bs[0])]
                + rest.filter(ap).map_values(sf));
        } else {
            assert(bs.filter(ip) == seq![bs[0]] + rest.filter(ip));
            assert(bs.filter(ap) =~= rest.filter(ap));
            assert((seq![bs[0]] + rest.filter(ip)).map_values(jf) =~= seq![jf(bs[0])]
                + rest.filter(ip).map_values(jf));
        }
    }
}

/// Law: a block (lines with no empty line among them) is sorted by its last
/// line alone. When the last line ends with the suffix, the block becomes one
/// script on the active side and nothing on the inactive side, whatever its
/// other lines are, and this succeeds exactly when its joined lines can be
/// formatted; otherwise it is kept, its lines joined, on the inactive side.
pub proof fn lemma_block_sorted_by_last_line(
    lines: Seq<Seq<char>>,
    suffix: Seq<char>,
    n: nat,
    m: Map<Seq<char>, Seq<Seq<char>>>,
)
    requires
        lines.len() > 0,
        forall|i: int| 0 <= i < lines.len() ==> (#[trigger] lines[i]).len() > 0,
    ensures
        ({
            let last = lines[lines.len() - 1];
            last.len() >= suffix.len() && last.subrange(last.len() - suffix.len(), last.len() as int)
                == suffix
        }) ==> {
            &&& (active_inactive(lines, suffix, n, m) is Some <==> magic_format(
                join_lines(lines),
                n,
                m,
            ) is Some)
            &&& (active_inactive(lines, suffix, n, m) matches Some((a, i)) ==> a.len() == 1
                && i.len() == 0)
        },
        !({
            let last = lines[lines.len() - 1];
            last.len() >= suffix.len() && last.subrange(last.len() - suffix.len(), last.len() as int)
                == suffix
        }) ==> active_inactive(lines, suffix, n, m) == Some(
            (Seq::<Seq<char>>::empty(), seq![join_lines(lines)]),
        ),
{
    let e = Seq::<char>::empty();
    assert forall|i: int| 0 <= i < lines.len() implies lines[i] != e by {
        assert(lines[i].len() > 0);
    }
    lemma_split_on_none(lines, e);
    reveal_with_fuel(Seq::filter, 2);
    let one = seq![lines];
    assert(one.drop_last() =~= Seq::<Seq<Seq<char>>>::empty());
    assert(one.filter(is_nonempty_block()) =~= one);
    assert(blocks_of(lines) == one);
    assert(one.drop_first() =~= Seq::<Seq<Seq<char>>>::empty());
    assert(sort_blocks(Seq::<Seq<Seq<char>>>::empty(), suffix, n, m) == Some(
        (Seq::<Seq<char>>::empty(), Seq::<Seq<char>>::empty()),
    ));
    let last = lines[lines.len() - 1];
    assert(lines.last() == last);
    if last.len() >= suffix.len() {
        assert(last.skip(last.len() - suffix.len()) =~= last.subrange(
            last.len() - suffix.len(),
            last.len() as int,
        ));
    }
    assert(one[0] == lines);
    if is_active_block(lines, suffix) {
        match active_text(lines, suffix, n, m) {
            Some(t) => {
                assert(seq![t] + Seq::<Seq<char>>::empty() =~= seq![t]);
            },
            None => {},
        }
    } else {
        assert(seq![join_lines(lines)] + Seq::<Seq<char>>::empty() =~= seq![join_lines(lines)]);
    }
}

/// `active_inactive_blocks` of `lines`, or `None` where it does not return.
pub open spec fn active_inactive(
    lines: Seq<Seq<char>>,
    suffix: Seq<char>,
    n: nat,
    m: Map<Seq<char>, Seq<Seq<char>>>,
) -> Option<(Seq<Seq<char>>, Seq<Seq<char>>)> {
    sort_blocks(blocks_of(lines), suffix, n, m)
}

/// `a` and `i` in front of the two sides of what `o` holds.
pub open spec fn pair_cat(
    a: Seq<Seq<char>>,
    i: Seq<Seq<char>>,
    o: Option<(Seq<Seq<char>>, Seq<Seq<char>>)>,
) -> Option<(Seq<Seq<char>>, Seq<Seq<char>>)> {
    match o {
        Some((x, y)) => Some((a + x, i + y)),
        None => None,
    }
}

/// `active_inactive_blocks`, giving `None` where it would not return.
pub fn active_inactive_blocks_checked(
    active_block_marker_suffix: &str,
    lines: Vec<String>,
    ascii_quote_len: usize,
    replacetomap: &ReplaceToMap,
) -> (res: Option<(Vec<String>, Vec<String>)>)
    ensures
        match res {
            Some((a, i)) => active_inactive(
                lines_view(lines@),
                active_block_marker_suffix@,
                ascii_quote_len as nat,
                replacetomap@,
            ) == Some((lines_view(a@), lines_view(i@))),
            None => active_inactive(
                lines_view(lines@),
                active_block_marker_suffix@,
                ascii_quote_len as nat,
                replacetomap@,
            ) is None,
        },
{
    let suffix = chars_of(active_block_marker_suffix);
    let bs = blocks(lines);
    let ghost all = blocks_view(bs@);
    let ghost n = ascii_quote_len as nat;
    let ghost m = replacetomap@;
    let mut actives: Vec<String> = Vec::new();
    let mut inactives: Vec<String> = Vec::new();
    proof {
        assert(all.skip(0) =~= all);
        if let Some((x, y)) = sort_blocks(all, suffix@, n, m) {
            assert(Seq::<Seq<char>>::empty() + x =~= x);
            assert(Seq::<Seq<char>>::empty() + y =~= y);
        }
        assert(lines_view(actives@) =~= Seq::<Seq<char>>::empty());
        assert(lines_view(inactives@) =~= Seq::<Seq<char>>::empty());
    }
    for b in it: bs.into_iter()
        invariant
            blocks_view(it.seq()) == all,
            all == blocks_of(lines_view(lines@)),
            suffix@ == active_block_marker_suffix@,
            n == ascii_quote_len as nat,
            m == replacetomap@,
            sort_blocks(all, suffix@, n, m) == pair_cat(
                lines_view(actives@),
                lines_view(inactives@),
                sort_blocks(all.skip(it.index() as int), suffix@, n, m),
            ),
    {
        let ghost k = it.index() as int;
        proof {
            assert(all.skip(k)[0] == all[k]);
            assert(all.skip(k).drop_first() =~= all.skip(k + 1));
            assert(all[k] == lines_view(b@));
        }
        let ghost rest = sort_blocks(all.skip(k + 1), suffix@, n, m);
        let ghost before_a = lines_view(actives@);
        let ghost before_i = lines_view(inactives@);
        let joined = join_block(&b);
        let active = b.len() > 0 && ends_with(&chars_of(b[b.len() - 1].as_str()), &suffix);
        proof {
            if b.len() > 0 {
                assert(lines_view(b@).last() == b@[b.len() - 1]@);
            }
        }
        if active {
            match magic_chars(&joined, ascii_quote_len, replacetomap) {
                Some(t) => {
                    let stripped = if ends_with(&t, &suffix) {
                        chars_range(&t, 0, t.len() - suffix.len())
                    } else {
                        copy_chars(&t)
                    };
                    assert(stripped@ =~= without_suffix(t@, suffix@));
                    actives.push(string_of(&stripped));
                    proof {
                        assert(lines_view(actives@) =~= before_a.push(stripped@));
                        if let Some((x, y)) = rest {
                            assert(before_a + (seq![stripped@] + x) =~= lines_view(actives@) + x);
                        }
                    }
                },
                None => {
                    proof {
                        assert(is_active_block(all[k], suffix@));
                        assert(active_text(all[k], suffix@, n, m) is None);
                        assert(sort_blocks(all.skip(k), suffix@, n, m) is None);
                    }
                    return None;
                },
            }
        } else {
            inactives.push(string_of(&joined));
            proof {
                assert(lines_view(inactives@) =~= before_i.push(joined@));
                if let Some((x, y)) = rest {
                    assert(before_i + (seq![joined@] + y) =~= lines_view(inactives@) + y);
                }
            }
        }
    }
    proof {
        assert(all.skip(all.len() as int) =~= Seq::<Seq<Seq<char>>>::empty());
        assert(lines_view(actives@) + Seq::<Seq<char>>::empty() =~= lines_view(actives@));
        assert(lines_view(inactives@) + Seq::<Seq<char>>::empty() =~= lines_view(inactives@));
    }
    Some((actives, inactives))
}

/// Splits `lines` into blocks separated by empty lines and sorts them, in
/// order, into active blocks (whose last line ends with
/// `active_block_marker_suffix`) and inactive ones. An active block becomes
/// its lines joined by line breaks, put through `magic_format_cozo_script`,
/// without the suffix at its end; an inactive one becomes its lines joined by
/// line breaks.
pub fn active_inactive_blocks(
    active_block_marker_suffix: &str,
    lines: Vec<String>,
    ascii_quote_len: usize,
    replacetomap: &ReplaceToMap,
) -> (res: (Vec<String>, Vec<String>))
    requires
        active_inactive(
            lines_view(lines@),
            active_block_marker_suffix@,
            ascii_quote_len as nat,
            replacetomap@,
        ) is Some,
    ensures
        active_inactive(
            lines_view(lines@),
            active_block_marker_suffix@,
            ascii_quote_len as nat,
            replacetomap@,
        ) == Some((lines_view(res.0@), lines_view(res.1@))),
{
    match active_inactive_blocks_checked(
        active_block_marker_suffix,
        lines,
        ascii_quote_len,
        replacetomap,
    ) {
        Some(r) => r,
        None => (Vec::new(), Vec::new()),
    }
}


/// Each character paired with whether it is a line break.
pub open spec fn flag_newline(s: Seq<char>) -> Seq<(char, bool)> {
    s.map_values(|c: char| (c, c == '\n'))
}

/// Each character paired with whether it is whitespace.
pub open spec fn flag_white(s: Seq<char>) -> Seq<(char, bool)> {
    s.map_values(|c: char| (c, spec_is_whitespace(c)))
}

/// Each character paired with whether it is an ASCII letter or digit.
pub open spec fn flag_alnum(s: Seq<char>) -> Seq<(char, bool)> {
    s.map_values(|c: char| (c, spec_is_ascii_alphanumeric(c)))
}

/// A run of ASCII letters and digits, quoted when it is longer than `n`
/// characters and begins with a letter.
pub open spec fn quote_long_word(w: Seq<char>, n: nat) -> Seq<char> {
    if w.len() > n && spec_is_ascii_alphabetic(w[0]) {
        quoted(w)
    } else {
        w
    }
}

/// Other characters and words, in order, with long words quoted.
pub open spec fn render_word_runs(ps: Seq<(Seq<char>, Seq<char>)>, n: nat) -> Seq<char>
    decreases ps.len(),
{
    if ps.len() == 0 {
        seq![]
    } else {
        ps[0].0 + quote_long_word(ps[0].1, n) + render_word_runs(ps.drop_first(), n)
    }
}

/// Non-whitespace runs with their long words quoted, each followed by the
/// whitespace after it.
pub open spec fn render_line_runs(ps: Seq<(Seq<char>, Seq<char>)>, n: nat) -> Seq<char>
    decreases ps.len(),
{
    if ps.len() == 0 {
        seq![]
    } else {
        render_word_runs(toggle_pairs(flag_alnum(ps[0].0)), n) + ps[0].1 + render_line_runs(
            ps.drop_first(),
            n,
        )
    }
}

/// A line with its long words quoted.
pub open spec fn render_line(l: Seq<char>, n: nat) -> Seq<char> {
    render_line_runs(toggle_pairs(flag_white(l)), n)
}

/// `auto_quote_ascii` of `s`: the runs of `s` between line breaks, each with
/// its long words quoted, joined by single line breaks.
pub open spec fn quote_ascii_words(s: Seq<char>, n: nat) -> Seq<char> {
    join_lines(false_runs(toggle_pairs(flag_newline(s))).map_values(|l: Seq<char>| render_line(l, n)))
}

fn join_char_lines(b: &Vec<Vec<char>>) -> (r: Vec<char>)
    ensures
        r@ == join_lines(chars_seqs(b@)),
{
    if b.len() == 0 {
        return Vec::new();
    }
    let ghost lv = chars_seqs(b@);
    let ghost tail = lv.drop_first().map_values(|l: Seq<char>| seq!['\n'] + l);
    let mut out = copy_chars(&b[0]);
    let mut i: usize = 1;
    assert(tail.take(0) =~= Seq::<Seq<char>>::empty());
    assert(out@ =~= lv[0] + tail.take(0).flatten());
    while i < b.len()
        invariant
            1 <= i <= b.len(),
            lv == chars_seqs(b@),
            tail == lv.drop_first().map_values(|l: Seq<char>| seq!['\n'] + l),
            out@ == lv[0] + tail.take(i - 1).flatten(),
        decreases b.len() - i,
    {
        out.push('\n');
        push_all(&mut out, &b[i]);
        proof {
            assert(tail.take(i as int) =~= tail.take(i - 1).push(tail[i - 1]));
            tail.take(i - 1).lemma_flatten_push(tail[i - 1]);
            assert(out@ =~= lv[0] + tail.take(i as int).flatten());
        }
        i = i + 1;
    }
    assert(tail.take(b.len() - 1) =~= tail);
    out
}

fn render_words_exec(black: &Vec<char>, n: usize) -> (r: Vec<char>)
    ensures
        r@ == render_word_runs(toggle_pairs(flag_alnum(black@)), n as nat),
{
    let alnum = |c: &char| -> (r: bool)
        ensures
            r == spec_is_ascii_alphanumeric(*c),
        { is_ascii_alphanumeric(*c) };
    let pairs = partition_toggle_tuple(copy_chars(black), &alnum);
    proof {
        let flags = choose|flags: Seq<bool>|
            {
                &&& flags.len() == black@.len()
                &&& forall|i: int|
                    0 <= i < black@.len() ==> alnum.ensures((&black@[i],), #[trigger] flags[i])
                &&& pairs_view(pairs@) == toggle_pairs(flagged(black@, flags))
            };
        assert(flagged(black@, flags) =~= flag_alnum(black@));
    }
    let ghost ps = pairs_view(pairs@);
    let mut out: Vec<char> = Vec::new();
    assert(ps.skip(0) =~= ps);
    assert(out@ + render_word_runs(ps, n as nat) =~= render_word_runs(ps, n as nat));
    for p in it: pairs.into_iter()
        invariant
            it.seq() == pairs@,
            ps == pairs_view(pairs@),
            render_word_runs(ps, n as nat) == out@ + render_word_runs(
                ps.skip(it.index() as int),
                n as nat,
            ),
    {
        let ghost i = it.index() as int;
        proof {
            assert(ps.skip(i)[0] == ps[i]);
            assert(ps.skip(i).drop_first() =~= ps.skip(i + 1));
        }
        let (other, word) = p;
        assert(ps[i] == (other@, word@));
        let ghost before = out@;
        push_all(&mut out, &other);
        if word.len() > n && is_ascii_alphabetic(word[0]) {
            push_all(&mut out, &quote(&word));
        } else {
            push_all(&mut out, &word);
        }
        assert(before + (other@ + quote_long_word(word@, n as nat) + render_word_runs(
            ps.skip(i + 1),
            n as nat,
        )) =~= out@ + render_word_runs(ps.skip(i + 1), n as nat));
    }
    assert(ps.skip(ps.len() as int) =~= Seq::<(Seq<char>, Seq<char>)>::empty());
    assert(out@ + Seq::<char>::empty() =~= out@);
    out
}

fn render_line_exec(line: Vec<char>, n: usize) -> (r: Vec<char>)
    ensures
        r@ == render_line(line@, n as nat),
{
    let ghost lv = line@;
    let white = |c: &char| -> (r: bool)
        ensures
            r == spec_is_whitespace(*c),
        { is_whitespace(*c) };
    let pairs = partition_toggle_tuple(line, &white);
    proof {
        let flags = choose|flags: Seq<bool>|
            {
                &&& flags.len() == lv.len()
                &&& forall|i: int| 0 <= i < lv.len() ==> white.ensures((&lv[i],), #[trigger] flags[i])
                &&& pairs_view(pairs@) == toggle_pairs(flagged(lv, flags))
            };
        assert(flagged(lv, flags) =~= flag_white(lv));
    }
    let ghost ps = pairs_view(pairs@);
    let mut out: Vec<char> = Vec::new();
    assert(ps.skip(0) =~= ps);
    assert(out@ + render_line_runs(ps, n as nat) =~= render_line_runs(ps, n as nat));
    for p in it: pairs.into_iter()
        invariant
            it.seq() == pairs@,
            ps == pairs_view(pairs@),
            render_line_runs(ps, n as nat) == out@ + render_line_runs(
                ps.skip(it.index() as int),
                n as nat,
            ),
    {
        let ghost i = it.index() as int;
        proof {
            assert(ps.skip(i)[0] == ps[i]);
            assert(ps.skip(i).drop_first() =~= ps.skip(i + 1));
        }
        let (black, whites) = p;
        assert(ps[i] == (black@, whites@));
        let ghost before = out@;
        push_all(&mut out, &render_words_exec(&black, n));
        push_all(&mut out, &whites);
        assert(before + (render_word_runs(toggle_pairs(flag_alnum(black@)), n as nat) + whites@
            + render_line_runs(ps.skip(i + 1), n as nat)) =~= out@ + render_line_runs(
            ps.skip(i + 1),
            n as nat,
        ));
    }
    assert(ps.skip(ps.len() as int) =~= Seq::<(Seq<char>, Seq<char>)>::empty());
    assert(out@ + Seq::<char>::empty() =~= out@);
    out
}

/// Quotes, line by line, the runs of ASCII letters and digits that are longer
/// than `ascii_quote_len` and begin with a letter. Runs of line breaks become
/// single line breaks, and lines break only there.
pub fn auto_quote_ascii(asciis: &Vec<char>, ascii_quote_len: usize) -> (res: String)
    ensures
        res@ == quote_ascii_words(asciis@, ascii_quote_len as nat),
{
    let newline = |c: &char| -> (r: bool)
        ensures
            r == (*c == '\n'),
        { *c == '\n' };
    let lines = split_partition(copy_chars(asciis), &newline);
    let ghost ls = groups_view(lines@);
    proof {
        let flags = choose|flags: Seq<bool>|
            {
                &&& flags.len() == asciis@.len()
                &&& forall|i: int|
                    0 <= i < asciis@.len() ==> newline.ensures((&asciis@[i],), #[trigger] flags[i])
                &&& groups_view(lines@) == false_runs(toggle_pairs(flagged(asciis@, flags)))
            };
        assert(flagged(asciis@, flags) =~= flag_newline(asciis@));
    }
    let ghost rendered = ls.map_values(|l: Seq<char>| render_line(l, ascii_quote_len as nat));
    let mut out: Vec<Vec<char>> = Vec::new();
    for l in it: lines.into_iter()
        invariant
            it.seq() == lines@,
            ls == groups_view(lines@),
            rendered == ls.map_values(|l: Seq<char>| render_line(l, ascii_quote_len as nat)),
            chars_seqs(out@) == rendered.take(it.index() as int),
    {
        let ghost i = it.index() as int;
        assert(ls[i] == l@);
        let r = render_line_exec(l, ascii_quote_len);
        let ghost before = chars_seqs(out@);
        out.push(r);
        assert(chars_seqs(out@) =~= before.push(r@));
        assert(rendered.take(i + 1) =~= rendered.take(i).push(rendered[i]));
    }
    assert(rendered.take(rendered.len() as int) =~= rendered);
    string_of(&join_char_lines(&out))
}

} // verus!
