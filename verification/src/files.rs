use crate::text::{has_prefix, starts_with};
use vstd::prelude::*;

verus! {

/// Whether a walk through the home directory enters or lists an entry: the
/// starting directory always; a name that is not valid Unicode (`None`)
/// never; otherwise a name that does not start with a dot.
pub fn is_not_hidden(depth: usize, file_name: Option<&str>) -> (r: bool)
    ensures
        r == (file_name matches Some(n) && (depth == 0 || !has_prefix(n@, seq!['.']))),
{
    match file_name {
        Some(n) => {
            let dot = ".";
            proof {
                reveal_strlit(".");
                assert(dot@ =~= seq!['.']);
            }
            depth == 0 || !starts_with(n, dot)
        },
        None => false,
    }
}

/// Below the starting directory an entry is skipped exactly when its name
/// is not valid Unicode or its first character is a dot; the starting
/// directory itself is always entered when its name is valid Unicode.
pub proof fn law_hidden_entries(depth: usize, file_name: Option<&str>, r: bool)
    requires
        call_ensures(is_not_hidden, (depth, file_name), r),
    ensures
        r == (file_name matches Some(n) && (depth == 0 || n@.len() == 0 || n@[0] != '.')),
{
    if let Some(n) = file_name {
        if n@.len() > 0 {
            assert(seq!['.'].is_prefix_of(n@) <==> n@[0] == '.') by {
                if n@[0] == '.' {
                    assert(seq!['.'] =~= n@.subrange(0, 1));
                }
                if seq!['.'].is_prefix_of(n@) {
                    assert(n@.subrange(0, 1)[0] == n@[0]);
                    assert(seq!['.'][0] == '.');
                }
            }
        }
    }
}

} // verus!
