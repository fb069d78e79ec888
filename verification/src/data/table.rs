use vstd::prelude::*;

use tabled::builder::Builder;

use crate::io::parse::{blocks_view, lines_view};
use crate::mode::key::{decimal, push_decimal};
use crate::text::{chars_of, push_all, string_of};

verus! {

/// What `tabled` prints for a table built from these records, one record per row.
pub uninterp spec fn tabled_text(records: Seq<Seq<Seq<char>>>) -> Seq<char>;

/// Prints records as a table with `tabled`: `Builder::from`, `Builder::build`
/// and the table's `Display`. The text is named, not described.
#[verifier::external_body]
fn table_text(records: Vec<Vec<String>>) -> (r: String)
    ensures
        r@ == tabled_text(blocks_view(records@)),
{
    Builder::from(records).build().to_string()
}

/// The rows of a query result, each cell already printed, under their column names.
pub struct NamedRowsWrap {
    pub headers: Vec<String>,
    pub rows: Vec<Vec<String>>,
}

/// The records of a result table: the column names first, then the rows.
pub open spec fn table_records(headers: Seq<Seq<char>>, rows: Seq<Seq<Seq<char>>>) -> Seq<
    Seq<Seq<char>>,
> {
    seq![headers] + rows
}

impl NamedRowsWrap {
    /// The result as a table: the column names as its first row, then the rows in order.
    pub fn into_string(self) -> (r: String)
        ensures
            r@ == tabled_text(table_records(lines_view(self.headers@), blocks_view(self.rows@))),
    {
        let ghost headers = self.headers;
        let ghost rows = self.rows@;
        let mut records: Vec<Vec<String>> = Vec::new();
        records.push(self.headers);
        for row in it: self.rows.into_iter()
            invariant
                it.seq() == rows,
                records@ == seq![headers] + it.seq().take(it.index() as int),
        {
            records.push(row);
            assert(it.seq().take(it.index() + 1) == it.seq().take(it.index() as int).push(row));
        }
        assert(rows.take(rows.len() as int) == rows);
        assert(blocks_view(records@) == table_records(lines_view(headers@), blocks_view(rows)));
        table_text(records)
    }
}

/// `true` or `false`.
pub open spec fn bool_text(b: bool) -> Seq<char> {
    if b {
        "true"@
    } else {
        "false"@
    }
}

/// The decimal form of an integer, with a leading `-` when it is negative.
pub open spec fn signed_decimal(n: int) -> Seq<char> {
    if n < 0 {
        seq!['-'] + decimal((-n) as nat)
    } else {
        decimal(n as nat)
    }
}

/// The validity of a fact: whether it is asserted, and since when.
pub struct ValidityWrap {
    pub is_assert: bool,
    pub timestamp: i64,
}

/// A validity printed over three lines, its two fields indented by a tab.
pub open spec fn validity_text(is_assert: bool, timestamp: int) -> Seq<char> {
    "Validity {\n\tis_assert: "@ + bool_text(is_assert) + "\n\ttimestamp: "@ + signed_decimal(
        timestamp,
    ) + "\n}"@
}

impl ValidityWrap {
    /// The validity as text.
    pub fn into_string(self) -> (r: String)
        ensures
            r@ == validity_text(self.is_assert, self.timestamp as int),
    {
        let head = "Validity {\n\tis_assert: ";
        let mid = "\n\ttimestamp: ";
        let tail = "\n}";
        let flag = if self.is_assert {
            "true"
        } else {
            "false"
        };
        let mut out = chars_of(head);
        push_all(&mut out, &chars_of(flag));
        push_all(&mut out, &chars_of(mid));
        let n = self.timestamp;
        if n < 0 {
            out.push('-');
            let m: u64 = ((-(n + 1)) as u64) + 1;
            assert(m == -(n as int));
            push_decimal(&mut out, m);
        } else {
            push_decimal(&mut out, n as u64);
        }
        push_all(&mut out, &chars_of(tail));
        proof {
            reveal_strlit("true");
            reveal_strlit("false");
        }
        assert(out@ =~= validity_text(self.is_assert, self.timestamp as int));
        string_of(&out)
    }
}

} // verus!
