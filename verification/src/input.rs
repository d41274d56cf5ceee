//! The rules of keyboard input: which characters count, and how a line is
//! put together from them.

use vstd::prelude::*;

verus! {

/// Whether the standard library counts `c` as alphabetic or numeric.
pub uninterp spec fn alphanumeric(c: char) -> bool;

/// Calls `char::is_alphanumeric` of the standard library.
///
/// Trusted: the answer depends on the character alone. Which characters
/// count is laid down in tables of the Unicode standard, and is not
/// restated here.
#[verifier::external_body]
pub(crate) fn is_alphanumeric(c: char) -> (r: bool)
    ensures
        r == alphanumeric(c),
{
    c.is_alphanumeric()
}

/// `String::pop` of the standard library.
///
/// Trusted: the call takes the last character off the string and returns
/// it, or returns `None` and changes nothing when the string is empty.
pub assume_specification[ String::pop ](s: &mut String) -> (r: Option<char>)
    ensures
        old(s)@.len() > 0 ==> r == Some(old(s)@.last()) && final(s)@ == old(s)@.drop_last(),
        old(s)@.len() == 0 ==> r is None && final(s)@ == old(s)@,
;

/// What becomes of a character that was typed.
#[derive(Clone, Copy, Debug, PartialEq, Eq, Structural)]
pub enum Accept {
    /// It is queued for the reader and shown on the screen.
    Echo,
    /// It is queued for the reader but not shown.
    Keep,
    /// It is dropped.
    Drop,
}

/// What becomes of a typed character: letters, digits, blanks and newlines
/// are queued and shown, a backspace is queued only, and nothing else is
/// taken.
pub open spec fn accepts(c: char) -> Accept {
    if alphanumeric(c) || c == '\n' || c == ' ' {
        Accept::Echo
    } else if c == '\x08' {
        Accept::Keep
    } else {
        Accept::Drop
    }
}

/// Decides what becomes of a character that was typed while a reader
/// waits.
pub fn accept(c: char) -> (r: Accept)
    ensures
        r == accepts(c),
{
    if is_alphanumeric(c) || c == '\n' || c == ' ' {
        Accept::Echo
    } else if c == '\x08' {
        Accept::Keep
    } else {
        Accept::Drop
    }
}

/// What a queued character did to the line being read.
#[derive(Clone, Copy, Debug, PartialEq, Eq, Structural)]
pub enum Typed {
    /// It was a newline: the line is complete.
    End,
    /// It was a backspace and took the last character off the line; that
    /// character is to be blanked on the screen.
    Erased,
    /// It was a backspace at the start of the line: nothing changed.
    Nothing,
    /// It was added to the line.
    Added,
}

/// The line after the queued character `c` was applied to `line`.
pub open spec fn typed(line: Seq<char>, c: char) -> Seq<char> {
    if c == '\n' {
        line
    } else if c == '\x08' {
        if line.len() > 0 {
            line.drop_last()
        } else {
            line
        }
    } else {
        line.push(c)
    }
}

/// Applies a queued character to the line being read: a newline ends the
/// line, a backspace takes its last character off, anything else is added.
pub fn type_char(line: &mut String, c: char) -> (r: Typed)
    ensures
        final(line)@ == typed(old(line)@, c),
        r == (if c == '\n' {
            Typed::End
        } else if c == '\x08' {
            if old(line)@.len() > 0 {
                Typed::Erased
            } else {
                Typed::Nothing
            }
        } else {
            Typed::Added
        }),
{
    if c == '\n' {
        Typed::End
    } else if c == '\x08' {
        match line.pop() {
            Some(_) => Typed::Erased,
            None => Typed::Nothing,
        }
    } else {
        line.push(c);
        Typed::Added
    }
}

} // verus!
