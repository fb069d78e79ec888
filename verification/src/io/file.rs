use vstd::prelude::*;

use crate::io::parse::{
    blocks, blocks_of, blocks_view, join_lines, lines_view, strs_view, without_suffix,
    ReplaceToMap,
};
use crate::text::{
    chars_of, chars_range, chars_seqs, ends_with, push_all, split_chars, split_on, string_of,
};

verus! {

/// Does nothing: the watch tool itself runs in the program around the library.
pub fn main() {
}

/// The spellings that `auto_quote` reads as braces: `《` for `{` and `》` for `}`.
pub fn default_replacetomap() -> (res: ReplaceToMap)
    ensures
        res@ == Map::<Seq<char>, Seq<Seq<char>>>::empty().insert("{"@, seq!["《"@]).insert(
            "}"@,
            seq!["》"@],
        ),
{
    let mut m = ReplaceToMap::new();
    let open: [&str; 1] = ["《"];
    let open = open.as_slice();
    assert(strs_view(open@) =~= seq!["《"@]);
    m.insert("{", open);
    let close: [&str; 1] = ["》"];
    let close = close.as_slice();
    assert(strs_view(close@) =~= seq!["》"@]);
    m.insert("}", close);
    m
}


/// The spellings of the operators of a script: `:-` for `:=`, `.=` and `←`
/// for `<-`, ` . ` for ` <- `, and `？[` for `?[`.
pub fn default_replaceallmap() -> (res: ReplaceToMap)
    ensures
        res@ == Map::<Seq<char>, Seq<Seq<char>>>::empty().insert(":="@, seq![":-"@]).insert(
            "<-"@,
            seq![".="@, "←"@],
        ).insert(" <- "@, seq![" . "@]).insert("?["@, seq!["？["@]),
{
    let mut m = ReplaceToMap::new();
    let a: [&str; 1] = [":-"];
    let a = a.as_slice();
    assert(strs_view(a@) =~= seq![":-"@]);
    m.insert(":=", a);
    let b: [&str; 2] = [".=", "←"];
    let b = b.as_slice();
    assert(strs_view(b@) =~= seq![".="@, "←"@]);
    m.insert("<-", b);
    let c: [&str; 1] = [" . "];
    let c = c.as_slice();
    assert(strs_view(c@) =~= seq![" . "@]);
    m.insert(" <- ", c);
    let d: [&str; 1] = ["？["];
    let d = d.as_slice();
    assert(strs_view(d@) =~= seq!["？["@]);
    m.insert("?[", d);
    m
}


/// `l` without a carriage return at its end.
pub open spec fn strip_cr(l: Seq<char>) -> Seq<char> {
    if l.len() > 0 && l.last() == '\r' {
        l.drop_last()
    } else {
        l
    }
}

/// The lines of `s`, as `str::lines` gives them: split at line feeds, a
/// carriage return before a line feed taken off, and no last empty line.
pub open spec fn str_lines(s: Seq<char>) -> Seq<Seq<char>> {
    let ps = split_on(s, '\n');
    let body = ps.drop_last().map_values(|l: Seq<char>| strip_cr(l));
    if ps.last().len() > 0 {
        body.push(ps.last())
    } else {
        body
    }
}

/// The heading printed above the result of a script: an arrow, the first line
/// of the script, and ` ...` when the script has more lines.
pub open spec fn caption_of(script: Seq<char>) -> Seq<char> {
    let ls = str_lines(script);
    "↓ "@ + (if ls.len() > 0 {
        ls[0]
    } else {
        seq![]
    }) + (if ls.len() > 1 {
        " ..."@
    } else {
        seq![]
    })
}

/// The heading printed above the result of a script (see `caption_of`).
pub fn script_caption(script: &str) -> (r: String)
    ensures
        r@ == caption_of(script@),
{
    let cs = chars_of(script);
    let pieces = split_chars(&cs, '\n');
    let ghost ps = chars_seqs(pieces@);
    proof {
        crate::text::lemma_split_on_push(Seq::<char>::empty(), '\n', '\n');
        lemma_split_nonempty(cs@, '\n');
    }
    let n = pieces.len();
    let last_nonempty = pieces[n - 1].len() > 0;
    let count = if last_nonempty {
        n
    } else {
        n - 1
    };
    let ghost ls = str_lines(cs@);
    assert(ls.len() == count);
    let mut out = chars_of("↓ ");
    if count > 0 {
        let first = &pieces[0];
        let line = if n > 1 && first.len() > 0 && first[first.len() - 1] == '\r' {
            chars_range(first, 0, first.len() - 1)
        } else {
            chars_range(first, 0, first.len())
        };
        proof {
            if n > 1 {
                assert(ls[0] == strip_cr(ps[0]));
            } else {
                assert(ls[0] == ps[0]);
            }
        }
        assert(line@ =~= ls[0]);
        push_all(&mut out, &line);
    }
    if count > 1 {
        push_all(&mut out, &chars_of(" ..."));
    }
    proof {
        if count == 0 {
            assert(out@ =~= "↓ "@ + Seq::<char>::empty());
        }
        if count <= 1 {
            assert(out@ =~= out@ + Seq::<char>::empty());
        }
    }
    assert(out@ =~= caption_of(script@));
    string_of(&out)
}

proof fn lemma_split_nonempty<A>(s: Seq<A>, c: A)
    ensures
        split_on(s, c).len() > 0,
    decreases s.len(),
{
    crate::text::lemma_index_of(s, c);
    if let Some(i) = crate::text::index_of(s, c) {
        lemma_split_nonempty(s.skip(i + 1 as int), c);
    }
}

/// The positions of the names that have not appeared earlier in `names`.
pub open spec fn first_occurrences(names: Seq<Seq<char>>) -> Seq<usize>
    decreases names.len(),
{
    if names.len() == 0 {
        seq![]
    } else {
        let before = first_occurrences(names.drop_last());
        if names.drop_last().contains(names.last()) {
            before
        } else {
            before.push((names.len() - 1) as usize)
        }
    }
}

/// The positions, in order, of the names that have not appeared earlier.
pub fn first_occurrence_indices(names: &Vec<String>) -> (r: Vec<usize>)
    ensures
        r@ == first_occurrences(lines_view(names@)),
{
    let ghost all = lines_view(names@);
    let mut out: Vec<usize> = Vec::new();
    let mut i: usize = 0;
    assert(all.take(0) =~= Seq::<Seq<char>>::empty());
    while i < names.len()
        invariant
            i <= names.len(),
            all == lines_view(names@),
            out@ == first_occurrences(all.take(i as int)),
        decreases names.len() - i,
    {
        let mut seen = false;
        let mut j: usize = 0;
        while j < i
            invariant
                j <= i < names.len(),
                all == lines_view(names@),
                seen == exists|k: int| 0 <= k < j && all[k] == all[i as int],
            decreases i - j,
        {
            assert(all[j as int] == names@[j as int]@);
            assert(all[i as int] == names@[i as int]@);
            if names[j] == names[i] {
                seen = true;
            }
            j = j + 1;
        }
        proof {
            let t = all.take(i + 1);
            assert(t.drop_last() =~= all.take(i as int));
            assert(t.last() == all[i as int]);
            if seen {
                let k = choose|k: int| 0 <= k < i && all[k] == all[i as int];
                assert(all.take(i as int)[k] == all[i as int]);
            } else {
                assert forall|k: int| 0 <= k < i implies all.take(i as int)[k] != all[i as int] by {
                    assert(all.take(i as int)[k] == all[k]);
                }
            }
        }
        if !seen {
            out.push(i);
        }
        i = i + 1;
    }
    assert(all.take(names.len() as int) =~= all);
    out
}

/// `parts` joined by `sep`.
pub open spec fn join_with(parts: Seq<Seq<char>>, sep: Seq<char>) -> Seq<char> {
    if parts.len() == 0 {
        seq![]
    } else {
        parts[0] + parts.drop_first().map_values(|p: Seq<char>| sep + p).flatten()
    }
}

fn join_with_exec(parts: &Vec<Vec<char>>, sep: &Vec<char>) -> (r: Vec<char>)
    ensures
        r@ == join_with(chars_seqs(parts@), sep@),
{
    if parts.len() == 0 {
        return Vec::new();
    }
    let ghost pv = chars_seqs(parts@);
    let ghost tail = pv.drop_first().map_values(|p: Seq<char>| sep@ + p);
    let mut out = chars_range(&parts[0], 0, parts[0].len());
    let mut i: usize = 1;
    assert(tail.take(0) =~= Seq::<Seq<char>>::empty());
    assert(out@ =~= pv[0] + tail.take(0).flatten());
    while i < parts.len()
        invariant
            1 <= i <= parts.len(),
            pv == chars_seqs(parts@),
            tail == pv.drop_first().map_values(|p: Seq<char>| sep@ + p),
            out@ == pv[0] + tail.take(i - 1).flatten(),
        decreases parts.len() - i,
    {
        push_all(&mut out, sep);
        push_all(&mut out, &parts[i]);
        proof {
            assert(tail.take(i as int) =~= tail.take(i - 1).push(tail[i - 1]));
            tail.take(i - 1).lemma_flatten_push(tail[i - 1]);
            assert(out@ =~= pv[0] + tail.take(i as int).flatten());
        }
        i = i + 1;
    }
    assert(tail.take(parts.len() - 1) =~= tail);
    out
}

/// The text of a file after its active blocks are made inactive: the inactive
/// blocks, then the active ones, separated by empty lines.
pub fn inactivated_text(active: Vec<String>, inactive: Vec<String>) -> (r: String)
    ensures
        r@ == join_with(lines_view(inactive@) + lines_view(active@), "\n\n"@),
{
    let mut parts: Vec<Vec<char>> = Vec::new();
    let ghost all = lines_view(inactive@) + lines_view(active@);
    for i in 0..inactive.len()
        invariant
            chars_seqs(parts@) == lines_view(inactive@).take(i as int),
    {
        let ghost before = chars_seqs(parts@);
        let cs = chars_of(inactive[i].as_str());
        parts.push(cs);
        assert(chars_seqs(parts@) =~= before.push(cs@));
        assert(chars_seqs(parts@) =~= lines_view(inactive@).take(i + 1));
    }
    assert(lines_view(inactive@).take(inactive.len() as int) =~= lines_view(inactive@));
    for i in 0..active.len()
        invariant
            chars_seqs(parts@) == lines_view(inactive@) + lines_view(active@).take(i as int),
    {
        let ghost before = chars_seqs(parts@);
        let cs = chars_of(active[i].as_str());
        parts.push(cs);
        assert(chars_seqs(parts@) =~= before.push(cs@));
        assert(chars_seqs(parts@) =~= lines_view(inactive@) + lines_view(active@).take(i + 1));
    }
    assert(lines_view(active@).take(active.len() as int) =~= lines_view(active@));
    let sep = chars_of("\n\n");
    string_of(&join_with_exec(&parts, &sep))
}

/// The text of a file after the active blocks lose their marker: every block
/// of `lines`, its lines joined by line breaks and without `suffix` at its
/// end, followed by a line break.
pub open spec fn stripped_blocks_text(suffix: Seq<char>, lines: Seq<Seq<char>>) -> Seq<char> {
    blocks_of(lines).map_values(
        |b: Seq<Seq<char>>| without_suffix(join_lines(b), suffix) + seq!['\n'],
    ).flatten()
}

/// The text of a file after the active blocks lose their marker (see
/// `stripped_blocks_text`).
pub fn remove_active_suffix(suffix: &str, lines: Vec<String>) -> (r: String)
    ensures
        r@ == stripped_blocks_text(suffix@, lines_view(lines@)),
{
    let sfx = chars_of(suffix);
    let bs = blocks(lines);
    let ghost bv = blocks_view(bs@);
    let ghost pieces = bv.map_values(
        |b: Seq<Seq<char>>| without_suffix(join_lines(b), suffix@) + seq!['\n'],
    );
    let mut out: Vec<char> = Vec::new();
    assert(pieces.take(0) =~= Seq::<Seq<char>>::empty());
    for i in 0..bs.len()
        invariant
            bv == blocks_view(bs@),
            sfx@ == suffix@,
            pieces == bv.map_values(
                |b: Seq<Seq<char>>| without_suffix(join_lines(b), suffix@) + seq!['\n'],
            ),
            out@ == pieces.take(i as int).flatten(),
    {
        let joined = crate::io::parse::join_block(&bs[i]);
        let piece = if ends_with(&joined, &sfx) {
            chars_range(&joined, 0, joined.len() - sfx.len())
        } else {
            chars_range(&joined, 0, joined.len())
        };
        push_all(&mut out, &piece);
        out.push('\n');
        proof {
            assert(bv[i as int] == lines_view(bs@[i as int]@));
            assert(piece@ + seq!['\n'] =~= pieces[i as int]);
            assert(pieces.take(i + 1) =~= pieces.take(i as int).push(pieces[i as int]));
            pieces.take(i as int).lemma_flatten_push(pieces[i as int]);
            assert(out@ =~= pieces.take(i + 1).flatten());
        }
    }
    assert(pieces.take(bs.len() as int) =~= pieces);
    string_of(&out)
}

} // verus!
