use vstd::prelude::*;

verus! {

// The three reserved control separators of the save format. They sit in the
// non-printing control range so that realistic track metadata never contains
// them.
pub const END_OF_FIELD: char = '\u{1f}';

pub const END_OF_RECORD: char = '\u{1e}';

pub const END_OF_HEADER: char = '\u{1d}';

/// The field separator as a string slice, for building save data.
pub fn field_sep_str() -> (r: &'static str)
    ensures
        r@ == seq![END_OF_FIELD],
{
    let r = "\u{1f}";
    proof {
        reveal_strlit("\u{1f}");
        assert(r@ =~= seq![END_OF_FIELD]);
    }
    r
}

/// The record separator as a string slice, for building save data.
pub fn record_sep_str() -> (r: &'static str)
    ensures
        r@ == seq![END_OF_RECORD],
{
    let r = "\u{1e}";
    proof {
        reveal_strlit("\u{1e}");
        assert(r@ =~= seq![END_OF_RECORD]);
    }
    r
}

/// The header separator as a string slice, for building save data.
pub fn header_sep_str() -> (r: &'static str)
    ensures
        r@ == seq![END_OF_HEADER],
{
    let r = "\u{1d}";
    proof {
        reveal_strlit("\u{1d}");
        assert(r@ =~= seq![END_OF_HEADER]);
    }
    r
}

} // verus!
