//! Terminal colours of the console report.

use vstd::prelude::*;

use crate::model::ErrorSeverity;

verus! {

/// The ANSI escape sequence that selects graphic rendition `code`.
pub open spec fn sgr(code: Seq<char>) -> Seq<char> {
    seq!['\x1b', '['] + code + seq!['m']
}

/// The colour a sample's errors are printed in: red for High, yellow for
/// Medium, dim for Low.
pub open spec fn spec_severity_color(s: ErrorSeverity) -> Seq<char> {
    match s {
        ErrorSeverity::High => sgr(seq!['3', '1']),
        ErrorSeverity::Medium => sgr(seq!['3', '3']),
        ErrorSeverity::Low => sgr(seq!['2']),
    }
}

pub fn severity_color(s: &ErrorSeverity) -> (r: &'static str)
    ensures
        r@ == spec_severity_color(*s),
{
    match s {
        ErrorSeverity::High => {
            let c = "\x1b[31m";
            proof {
                reveal_strlit("\x1b[31m");
                assert(c@ =~= sgr(seq!['3', '1']));
            }
            c
        },
        ErrorSeverity::Medium => {
            let c = "\x1b[33m";
            proof {
                reveal_strlit("\x1b[33m");
                assert(c@ =~= sgr(seq!['3', '3']));
            }
            c
        },
        ErrorSeverity::Low => {
            let c = "\x1b[2m";
            proof {
                reveal_strlit("\x1b[2m");
                assert(c@ =~= sgr(seq!['2']));
            }
            c
        },
    }
}

/// The label a sample's severity is printed with: its name in capitals.
pub open spec fn spec_severity_label(s: ErrorSeverity) -> Seq<char> {
    match s {
        ErrorSeverity::High => seq!['H', 'I', 'G', 'H'],
        ErrorSeverity::Medium => seq!['M', 'E', 'D', 'I', 'U', 'M'],
        ErrorSeverity::Low => seq!['L', 'O', 'W'],
    }
}

pub fn severity_label(s: &ErrorSeverity) -> (r: &'static str)
    ensures
        r@ == spec_severity_label(*s),
{
    match s {
        ErrorSeverity::High => {
            let l = "HIGH";
            proof {
                reveal_strlit("HIGH");
                assert(l@ =~= spec_severity_label(*s));
            }
            l
        },
        ErrorSeverity::Medium => {
            let l = "MEDIUM";
            proof {
                reveal_strlit("MEDIUM");
                assert(l@ =~= spec_severity_label(*s));
            }
            l
        },
        ErrorSeverity::Low => {
            let l = "LOW";
            proof {
                reveal_strlit("LOW");
                assert(l@ =~= spec_severity_label(*s));
            }
            l
        },
    }
}

} // verus!
