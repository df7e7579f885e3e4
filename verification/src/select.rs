//! The decision logic behind interactive title selection: which title a
//! start or lookup proceeds with, given the optional argument, the
//! recent titles on offer, and what the user typed. Reading the input
//! itself is the caller's business.
use crate::time::{dec_str, parse_usize, spec_parse_usize, u128_to_string};
use vstd::prelude::*;
use vstd::string::*;

verus! {

/// Picks the title handed on the command line, where one was given and
/// is non-empty; otherwise reports that a title must be chosen
/// interactively.
pub fn handle_title(title: Option<String>) -> (r: Result<String, String>)
    ensures
        (match title {
            Some(t) => t@.len() > 0,
            None => false,
        }) ==> (r matches Ok(t) && t@ == title->Some_0@),
        (match title {
            Some(t) => t@.len() == 0,
            None => true,
        }) ==> (r matches Err(m) && m@ == "Empty title"@),
{
    match title {
        Some(t) => {
            if t.as_str().is_empty() {
                Err("Empty title".to_owned())
            } else {
                Ok(t)
            }
        },
        None => Err("Empty title".to_owned()),
    }
}

/// Resolves the user's choice among the recent titles: an empty input
/// picks the first; a number from 1 picks by index; anything else is
/// rejected with a message. Where no titles are on offer, the input
/// itself is the title and must be non-empty.
pub fn choose_title(input: &str, recent_titles: &Vec<String>) -> (r: Result<String, String>)
    ensures
        recent_titles@.len() == 0 && input@.len() == 0 ==> (r matches Err(m) && m@
            == "Title cannot be empty."@),
        recent_titles@.len() == 0 && input@.len() > 0 ==> (r matches Ok(t) && t@ == input@),
        recent_titles@.len() > 0 && input@.len() == 0 ==> (r matches Ok(t) && t@
            == recent_titles@[0]@),
        recent_titles@.len() > 0 && input@.len() > 0 ==> (match spec_parse_usize(input@) {
            Some(i) => {
                if 1 <= i <= recent_titles@.len() {
                    r matches Ok(t) && t@ == recent_titles@[i - 1]@
                } else {
                    r matches Err(m) && m@ == seq!['I', 'n', 'v', 'a', 'l', 'i', 'd', ' ', 'i',
                        'n', 'd', 'e', 'x', ':', ' '] + dec_str(i as nat) + seq!['.']
                }
            },
            None => r matches Err(m) && m@ == "Invalid input: not a number."@,
        }),
{
    if recent_titles.len() == 0 {
        if input.is_empty() {
            Err("Title cannot be empty.".to_owned())
        } else {
            Ok(input.to_owned())
        }
    } else if input.is_empty() {
        Ok(recent_titles[0].clone())
    } else {
        match parse_usize(input) {
            Some(i) => {
                if 1 <= i && i <= recent_titles.len() {
                    Ok(recent_titles[i - 1].clone())
                } else {
                    let mut m = "Invalid index: ".to_owned();
                    m.append(u128_to_string(i as u128).as_str());
                    m.append(".");
                    proof {
                        reveal_strlit("Invalid index: ");
                        reveal_strlit(".");
                        assert(m@ =~= seq!['I', 'n', 'v', 'a', 'l', 'i', 'd', ' ', 'i', 'n', 'd',
                            'e', 'x', ':', ' '] + dec_str(i as nat) + seq!['.']);
                    }
                    Err(m)
                }
            },
            None => Err("Invalid input: not a number.".to_owned()),
        }
    }
}

} // verus!
