//! Quoting of file paths inside SQL string literals.
use vstd::prelude::*;

verus! {

/// What one character of a path becomes inside a quoted SQL literal.
pub open spec fn sql_char(c: char) -> Seq<char> {
    if c == '\\' {
        seq!['/']
    } else if c == '\'' {
        seq!['\'', '\'']
    } else {
        seq![c]
    }
}

/// A path written for a quoted SQL literal: backslashes become slashes and
/// each single quote is doubled.
pub open spec fn sql_quoted(s: Seq<char>) -> Seq<char>
    decreases s.len(),
{
    if s.len() == 0 {
        Seq::empty()
    } else {
        sql_quoted(s.drop_last()) + sql_char(s.last())
    }
}

/// Writes a path for a quoted SQL literal: backslashes become slashes and each
/// single quote is doubled.
pub fn sql_path(path: &str) -> (r: String)
    ensures
        r@ == sql_quoted(path@),
{
    let n = path.unicode_len();
    let mut out = String::new();
    let mut i: usize = 0;
    proof {
        reveal_strlit("/");
        reveal_strlit("''");
    }
    assert(path@.take(0) =~= Seq::<char>::empty());
    while i < n
        invariant
            n == path@.len(),
            i <= n,
            out@ == sql_quoted(path@.take(i as int)),
            "/"@ == seq!['/'],
            "''"@ == seq!['\'', '\''],
        decreases n - i,
    {
        let c = path.get_char(i);
        assert(path@.take(i + 1).drop_last() =~= path@.take(i as int));
        assert(path@.take(i + 1).last() == c);
        if c == '\\' {
            out.append("/");
        } else if c == '\'' {
            out.append("''");
        } else {
            out.append(path.substring_char(i, i + 1));
            assert(path@.subrange(i as int, i + 1) =~= seq![c]);
        }
        i = i + 1;
    }
    assert(path@.take(n as int) =~= path@);
    out
}

} // verus!
