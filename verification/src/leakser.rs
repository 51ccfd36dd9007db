use vstd::prelude::*;
use crate::translate::Lang;
use crate::utils::str_eq;
use crate::parsing::spec_trim;

verus! {

/// A command-line flag of the surrounding program.
#[derive(Debug, Clone, Copy, PartialEq, Eq, Structural)]
pub enum Flag {
    Help,
    Interactive,
    Trace,
    Variables,
    Lang(Lang),
}

/// The language that an argument names, compared without regard to letter
/// case after trimming.
pub open spec fn lang_of(s: Seq<char>) -> Option<Lang> {
    let t = spec_trim(s);
    if t.len() == 2 {
        if (t[0] == 'e' || t[0] == 'E') && (t[1] == 'n' || t[1] == 'N') {
            Some(Lang::En)
        } else if (t[0] == 'f' || t[0] == 'F') && (t[1] == 'r' || t[1] == 'R') {
            Some(Lang::Fr)
        } else if (t[0] == 'i' || t[0] == 'I') && (t[1] == 't' || t[1] == 'T') {
            Some(Lang::It)
        } else {
            None
        }
    } else {
        None
    }
}

/// The flag that an argument denotes, with whether the following argument
/// was consumed as a language name.
pub open spec fn flag_of(s: Seq<char>, next: Option<Seq<char>>) -> Option<(Flag, bool)> {
    if s == "-h"@ || s == "--help"@ {
        Some((Flag::Help, false))
    } else if s == "-i"@ || s == "--interactive"@ {
        Some((Flag::Interactive, false))
    } else if s == "-t"@ || s == "--trace"@ {
        Some((Flag::Trace, false))
    } else if s == "-v"@ || s == "--variables"@ {
        Some((Flag::Variables, false))
    } else if s == "-l"@ || s == "--langage"@ {
        match next {
            Some(n) => match lang_of(n) {
                Some(l) => Some((Flag::Lang(l), true)),
                None => None,
            },
            None => None,
        }
    } else {
        None
    }
}

impl Flag {
    /// Recognises one command-line flag; a language flag consumes the
    /// following argument, which the second result reports.  An unknown
    /// flag, an unknown language, or a language flag without an argument is
    /// an error.
    pub fn from_string(string: &str, next: Option<&String>) -> (r: Result<(Flag, bool), String>)
        ensures
            ({
                let nv = match next {
                    Some(n) => Some(n@),
                    None => None::<Seq<char>>,
                };
                match flag_of(string@, nv) {
                    Some(fb) => r matches Ok(p) && p == fb,
                    None => r is Err,
                }
            }),
    {
        if str_eq(string, "-h") || str_eq(string, "--help") {
            Ok((Flag::Help, false))
        } else if str_eq(string, "-i") || str_eq(string, "--interactive") {
            Ok((Flag::Interactive, false))
        } else if str_eq(string, "-t") || str_eq(string, "--trace") {
            Ok((Flag::Trace, false))
        } else if str_eq(string, "-v") || str_eq(string, "--variables") {
            Ok((Flag::Variables, false))
        } else if str_eq(string, "-l") || str_eq(string, "--langage") {
            match next {
                Some(language) => {
                    let t = crate::parsing::trim_exec(language.as_str());
                    let n = t.as_str().unicode_len();
                    if n == 2 {
                        let c0 = t.as_str().get_char(0);
                        let c1 = t.as_str().get_char(1);
                        if (c0 == 'e' || c0 == 'E') && (c1 == 'n' || c1 == 'N') {
                            Ok((Flag::Lang(Lang::En), true))
                        } else if (c0 == 'f' || c0 == 'F') && (c1 == 'r' || c1 == 'R') {
                            Ok((Flag::Lang(Lang::Fr), true))
                        } else if (c0 == 'i' || c0 == 'I') && (c1 == 't' || c1 == 'T') {
                            Ok((Flag::Lang(Lang::It), true))
                        } else {
                            let mut e = language.clone();
                            e.append(" is unknown, try [en, fr, it]");
                            Err(e)
                        }
                    } else {
                        let mut e = language.clone();
                        e.append(" is unknown, try [en, fr, it]");
                        Err(e)
                    }
                },
                None => {
                    let mut e = String::from_str(string);
                    e.append(" need a language, try [en, fr, it]");
                    Err(e)
                },
            }
        } else {
            let mut e = String::from_str(string);
            e.append(" is an undefined flag");
            Err(e)
        }
    }
}

} // verus!
