//! Scripts handed to the system's scripting host.

use vstd::prelude::*;

use crate::text::{chars_of, concat_str, push_char, string_of};

verus! {

/// A character inside an AppleScript string literal: backslashes and double
/// quotes are escaped with a backslash.
pub open spec fn escape_char(c: char) -> Seq<char> {
    if c == '\\' {
        seq!['\\', '\\']
    } else if c == '"' {
        seq!['\\', '"']
    } else {
        seq![c]
    }
}

/// The escaped characters of `s`.
pub open spec fn escape_chars(s: Seq<char>) -> Seq<char>
    decreases s.len(),
{
    if s.len() == 0 {
        seq![]
    } else {
        escape_chars(s.drop_last()) + escape_char(s.last())
    }
}

/// An AppleScript string literal holding `s`.
pub open spec fn spec_applescript_string(s: Seq<char>) -> Seq<char> {
    seq!['"'] + escape_chars(s) + seq!['"']
}

/// Quotes a value as an AppleScript string literal.
pub fn applescript_string(value: &str) -> (r: String)
    ensures
        r@ == spec_applescript_string(value@),
{
    let cs = chars_of(value);
    let mut out = string_of("\"");
    proof {
        reveal_strlit("\"");
    }
    let mut i: usize = 0;
    while i < cs.len()
        invariant
            i <= cs.len(),
            cs@ == value@,
            out@ == seq!['"'] + escape_chars(cs@.subrange(0, i as int)),
        decreases cs.len() - i,
    {
        let c = cs[i];
        assert(cs@.subrange(0, i + 1).drop_last() =~= cs@.subrange(0, i as int));
        if c == '\\' {
            push_char(&mut out, '\\');
            push_char(&mut out, '\\');
        } else if c == '"' {
            push_char(&mut out, '\\');
            push_char(&mut out, '"');
        } else {
            push_char(&mut out, c);
        }
        assert(out@ =~= seq!['"'] + escape_chars(cs@.subrange(0, i + 1)));
        i = i + 1;
    }
    assert(cs@.subrange(0, cs.len() as int) =~= cs@);
    push_char(&mut out, '"');
    assert(out@ =~= spec_applescript_string(value@));
    out
}

/// The script that activates an application and asks it for a new window
/// with Command-N, when its process exists.
pub open spec fn spec_new_window_script(bundle_id: Seq<char>, process_name: Seq<char>) -> Seq<char> {
    let p = spec_applescript_string(process_name);
    "tell application id "@ + spec_applescript_string(bundle_id) + " to activate\ndelay 0.2\ntell application \"System Events\"\nif exists process "@
        + p + " then\ntell process "@ + p
        + " to keystroke \"n\" using command down\nend if\nend tell"@
}

/// The new-window script for an application.
pub fn new_window_script(bundle_id: &str, process_name: &str) -> (r: String)
    ensures
        r@ == spec_new_window_script(bundle_id@, process_name@),
{
    let b = applescript_string(bundle_id);
    let p = applescript_string(process_name);
    let s = concat_str("tell application id ", b.as_str());
    let s = concat_str(s.as_str(), " to activate\ndelay 0.2\ntell application \"System Events\"\nif exists process ");
    let s = concat_str(s.as_str(), p.as_str());
    let s = concat_str(s.as_str(), " then\ntell process ");
    let s = concat_str(s.as_str(), p.as_str());
    concat_str(s.as_str(), " to keystroke \"n\" using command down\nend if\nend tell")
}

} // verus!
