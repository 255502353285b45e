//! Stable identifiers for view-template occurrences: a template is named
//! by the path of its source file, flattened, and the line its invocation
//! starts at, so that the same occurrence keeps the same name across
//! rebuilds.

use vstd::prelude::*;
use vstd::string::StrSliceExecFns;
use vstd::string::StringExecFns;

verus! {

/// The decimal digit character of a value below ten.
pub open spec fn digit_char(d: nat) -> char {
    if d == 0 { '0' }
    else if d == 1 { '1' }
    else if d == 2 { '2' }
    else if d == 3 { '3' }
    else if d == 4 { '4' }
    else if d == 5 { '5' }
    else if d == 6 { '6' }
    else if d == 7 { '7' }
    else if d == 8 { '8' }
    else { '9' }
}

/// The decimal rendering of a number, most significant digit first, with
/// no sign and no padding.
pub open spec fn dec_digits(n: nat) -> Seq<char>
    decreases n,
{
    if n < 10 {
        seq![digit_char(n)]
    } else {
        dec_digits(n / 10).push(digit_char(n % 10))
    }
}

/// Relies on the std formatter: a `usize` displays as its plain decimal
/// digits.
#[verifier::external_body]
fn usize_to_string(n: usize) -> (r: String)
    ensures
        r@ == dec_digits(n as nat),
{
    format!("{n}")
}

/// Relies on `String::push`: appends one character at the end.
#[verifier::external_body]
fn string_push(s: &mut String, c: char)
    ensures
        final(s)@ == old(s)@.push(c),
{
    s.push(c)
}

/// Relies on `String::new`: a fresh string is empty.
#[verifier::external_body]
fn string_new() -> (r: String)
    ensures
        r@ == Seq::<char>::empty(),
{
    String::new()
}

/// A path separator flattened to a dash, any other character kept.
pub open spec fn flatten_char(c: char) -> char {
    if c == '/' || c == '\\' { '-' } else { c }
}

/// A path with every separator flattened to a dash.
pub open spec fn flatten_path(s: Seq<char>) -> Seq<char>
    decreases s.len(),
{
    if s.len() == 0 {
        Seq::empty()
    } else {
        flatten_path(s.drop_last()).push(flatten_char(s.last()))
    }
}

/// The stable identifier of a template occurrence: the flattened path, a
/// dash, and the starting line in decimal.
pub open spec fn stable_id_of(path: Seq<char>, line: nat) -> Seq<char> {
    flatten_path(path) + seq!['-'] + dec_digits(line)
}

/// Derives the stable identifier of a template occurrence from the path
/// of its source file and the line its span starts at.
pub fn span_to_stable_id(path: &str, line: usize) -> (r: String)
    ensures
        r@ == stable_id_of(path@, line as nat),
{
    let n = path.unicode_len();
    let mut out = string_new();
    for i in 0..n
        invariant
            n == path@.len(),
            out@ == flatten_path(path@.take(i as int)),
    {
        let c = path.get_char(i);
        let flat = if c == '/' || c == '\\' { '-' } else { c };
        proof {
            assert(path@.take(i + 1).drop_last() =~= path@.take(i as int));
            assert(path@.take(i + 1).last() == path@[i as int]);
        }
        string_push(&mut out, flat);
    }
    proof {
        assert(path@.take(n as int) =~= path@);
    }
    string_push(&mut out, '-');
    let digits = usize_to_string(line);
    out.append(digits.as_str());
    proof {
        assert(out@ =~= stable_id_of(path@, line as nat));
    }
    out
}

/// One occurrence of a view template in a source file: its stable
/// identifier, and the template in its serialized form.  The template
/// parser and differ around it are outside collaborators; here the
/// occurrence is plain data.
#[derive(Clone, Debug, PartialEq, Eq, Hash)]
pub struct MacroInvocation {
    pub id: String,
    pub template: String,
}

impl MacroInvocation {
    pub fn new(id: String, template: String) -> (r: Self)
        ensures
            r.id == id,
            r.template == template,
    {
        MacroInvocation { id, template }
    }
}

} // verus!
