//! What the answers of dialogs mean.
//!
//! Showing a dialog can fail, for want of a graphical session for instance. A failed
//! dialog is an answer too: the one that changes nothing.

use vstd::prelude::*;

use crate::text::{chars_eq, chars_of, string_of, trim, trimmed};

verus! {

/// Whether the user agreed. Where the question could not be asked, the answer is no.
pub fn confirm<E>(shown: Result<bool, E>) -> (r: bool)
    ensures
        r == match shown {
            Ok(v) => v,
            Err(_) => false,
        },
{
    match shown {
        Ok(v) => v,
        Err(_) => false,
    }
}

/// Which of `count` items the user picked; `None` where there was nothing to pick
/// from, nothing was picked, or the list could not be shown.
pub fn choose_item<E>(count: usize, shown: Result<Option<usize>, E>) -> (r: Option<usize>)
    ensures
        r == match shown {
            Ok(v) => if count == 0 {
                None
            } else {
                v
            },
            Err(_) => None,
        },
{
    if count == 0 {
        return None;
    }
    match shown {
        Ok(v) => v,
        Err(_) => None,
    }
}

/// What the user typed, without surrounding white space; `None` where nothing was
/// typed or the dialog could not be shown.
pub fn prompt<E>(shown: Result<Option<String>, E>) -> (r: Option<String>)
    ensures
        match shown {
            Ok(Some(s)) => if trimmed(s@).len() > 0 {
                r matches Some(t) && t@ == trimmed(s@)
            } else {
                r is None
            },
            _ => r is None,
        },
{
    match shown {
        Ok(Some(s)) => {
            let cs = chars_of(s.as_str());
            let t = trim(&cs);
            if t.len() > 0 {
                Some(string_of(&t))
            } else {
                None
            }
        },
        _ => None,
    }
}

/// What a dialog script answered: nothing where it ended with a failure, which is how it
/// reports that the user dismissed the dialog.
pub fn script_answer(success: bool, output: String) -> (r: Option<String>)
    ensures
        r == if success {
            Some(output)
        } else {
            None
        },
{
    if success {
        Some(output)
    } else {
        None
    }
}

/// Whether a dialog script's answer names the button that agrees.
pub fn agreed(answer: &Option<String>) -> (r: bool)
    ensures
        r == (answer matches Some(s) && trimmed(s@) == "确定"@),
{
    match answer {
        Some(s) => {
            let cs = chars_of(s.as_str());
            let cs = trim(&cs);
            chars_eq(&cs, "确定")
        },
        None => false,
    }
}

/// The item that a button of a task dialog stands for: buttons are numbered from 1000
/// on, and any other number is a dismissal.
pub fn picked_button(id: i32, count: usize) -> (r: Option<usize>)
    ensures
        r == if 1000 <= id && id - 1000 < count {
            Some((id - 1000) as usize)
        } else {
            None
        },
{
    if id < 1000 {
        return None;
    }
    let i: usize = (id - 1000) as usize;
    if i < count {
        Some(i)
    } else {
        None
    }
}

} // verus!
