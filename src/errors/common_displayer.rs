//! The layout shared by the standalone error reports.
use vstd::prelude::*;

use crate::paths::{debug_path, path_debug};
use crate::text::{append_chars, decimal, decimal_chars, push_str, string_of};

verus! {

/// `name[E<code>]:`, the file as shown (`shown_file`), then the indented
/// source excerpt.
pub open spec fn common_text(name: Seq<char>, code: nat, source: Seq<char>, shown_file: Seq<char>) -> Seq<char> {
    name + "[E"@ + decimal(code) + "]:\nin "@ + shown_file + "\n\n\t"@ + source + "\n\n"@
}

/// Report header for an error named `name` with `code`, around `source`, in
/// the file shown as `shown_file`.
pub fn common_layout(name: &str, code: usize, source: &String, shown_file: &String) -> (r: String)
    ensures
        r@ == common_text(name@, code as nat, source@, shown_file@),
{
    let mut v: Vec<char> = Vec::new();
    push_str(&mut v, name);
    push_str(&mut v, "[E");
    let digits = decimal_chars(code);
    append_chars(&mut v, &digits);
    push_str(&mut v, "]:\nin ");
    push_str(&mut v, shown_file.as_str());
    push_str(&mut v, "\n\n\t");
    push_str(&mut v, source.as_str());
    push_str(&mut v, "\n\n");
    proof {
        assert(v@ =~= common_text(name@, code as nat, source@, shown_file@));
    }
    string_of(&v)
}

/// Report header for an error named `name` with `code`, found in `file`
/// around `source`; the file is shown as its `Debug` text.
pub fn common_displayer(name: &str, code: &usize, source: &String, _span: &(usize, usize), file: &String) -> (r: String)
    ensures
        r@ == common_text(name@, *code as nat, source@, path_debug(file@)),
{
    let shown = debug_path(file.as_str());
    common_layout(name, *code, source, &shown)
}

} // verus!
