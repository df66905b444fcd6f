//! Formats one final record: `key`, a tab, the reduced value, a newline.

use vstd::prelude::*;

verus! {

/// The text of one output record.
pub open spec fn record_spec(key: Seq<char>, value: Seq<char>) -> Seq<char> {
    key + "\t"@ + value + "\n"@
}

/// Writes one record as `key\tvalue\n`.
pub fn format_record(key: &str, value: &str) -> (r: String)
    ensures
        r@ == record_spec(key@, value@),
{
    let mut out = String::new();
    out.append(key);
    out.append("\t");
    out.append(value);
    out.append("\n");
    proof {
        assert(out@ =~= record_spec(key@, value@));
    }
    out
}

} // verus!
