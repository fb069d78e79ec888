use vstd::prelude::*;

use crate::io::parse::strs_view;
use crate::text::{chars_of, index_of, lemma_index_of, starts_with};

verus! {

fn same_text(a: &str, b: &str) -> (r: bool)
    ensures
        r == (a@ == b@),
{
    let x = chars_of(a);
    let y = chars_of(b);
    if x.len() != y.len() {
        return false;
    }
    let r = starts_with(&x, &y);
    assert(x@.take(y@.len() as int) =~= x@);
    r
}

/// The place of the first stopper that equals the line, if one does.
pub fn find_stopper(stoppers: &Vec<&str>, line: &str) -> (r: Option<usize>)
    ensures
        match index_of(strs_view(stoppers@), line@) {
            Some(i) => r == Some(i as usize),
            None => r is None,
        },
{
    let ghost sv = strs_view(stoppers@);
    proof {
        lemma_index_of(sv, line@);
    }
    for i in 0..stoppers.len()
        invariant
            sv == strs_view(stoppers@),
            forall|j: int| 0 <= j < i ==> sv[j] != line@,
            index_of(sv, line@) matches Some(k) ==> k < sv.len() && sv[k as int] == line@
                && forall|j: int| 0 <= j < k ==> sv[j] != line@,
            index_of(sv, line@) is None ==> forall|j: int| 0 <= j < sv.len() ==> sv[j] != line@,
    {
        if same_text(stoppers[i], line) {
            assert(sv[i as int] == line@);
            return Some(i);
        }
    }
    None
}

/// One step of reading lines until a stopper comes. `read` is what the read
/// gave, `None` where it failed. A failed read ends the reading with no
/// stopper; a line equal to a stopper ends it with the place of the first such
/// stopper; any other line is kept and the reading goes on (`None`).
pub fn readlines_step(stoppers: &Vec<&str>, read: Option<String>, lines: &mut Vec<String>) -> (r:
    Option<Option<usize>>)
    ensures
        match read {
            None => r == Some(None::<usize>) && final(lines)@ == old(lines)@,
            Some(line) => match index_of(strs_view(stoppers@), line@) {
                Some(i) => r == Some(Some(i as usize)) && final(lines)@ == old(lines)@,
                None => r is None && final(lines)@ == old(lines)@.push(line),
            },
        },
{
    match read {
        None => Some(None),
        Some(line) => match find_stopper(stoppers, line.as_str()) {
            Some(i) => Some(Some(i)),
            None => {
                lines.push(line);
                None
            },
        },
    }
}

} // verus!
