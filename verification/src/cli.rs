//! The settings of the command line client that runs battles in a browser.
use vstd::prelude::*;
use vstd::string::*;

verus! {

/// The settings of a battle run through a web driver.
pub struct CliArg {
    /// The battle page.
    pub target_url: String,
    /// The teams, separated by newlines written as `\n`.
    pub input: String,
    /// Whether the result is printed as JSON.
    pub is_cli: bool,
    /// The web driver's address.
    pub driver_url: String,
}

/// `s` with each `\` followed by `n` (read from the left, without overlap)
/// turned into a newline.
pub open spec fn unescape_newlines(s: Seq<char>) -> Seq<char>
    decreases s.len(),
{
    if s.len() == 0 {
        s
    } else if s.len() >= 2 && s[0] == '\\' && s[1] == 'n' {
        seq!['\n'] + unescape_newlines(s.skip(2))
    } else {
        seq![s[0]] + unescape_newlines(s.skip(1))
    }
}

impl CliArg {
    /// The battle input: the input with each `\n` written out turned into a newline.
    pub fn battle_input(&self) -> (r: String)
        ensures
            r@ == unescape_newlines(self.input@),
    {
        let s = self.input.as_str();
        let n = s.unicode_len();
        let newline = "\n";
        proof {
            reveal_strlit("\n");
        }
        let mut out = String::new();
        let mut i: usize = 0;
        proof {
            assert(s@.skip(0) =~= s@);
            assert(out@ + unescape_newlines(s@) =~= unescape_newlines(s@));
        }
        while i < n
            invariant
                n == s@.len(),
                i <= n,
                s@ == self.input@,
                newline@ == seq!['\n'],
                out@ + unescape_newlines(s@.skip(i as int)) == unescape_newlines(s@),
            decreases n - i,
        {
            let ghost rest = s@.skip(i as int);
            if i + 1 < n && s.get_char(i) == '\\' && s.get_char(i + 1) == 'n' {
                proof {
                    assert(rest.skip(2) =~= s@.skip(i + 2));
                    assert(out@ + newline@ + unescape_newlines(s@.skip(i + 2)) =~= out@
                        + unescape_newlines(rest));
                }
                out.append(newline);
                i = i + 2;
            } else {
                let piece = s.substring_char(i, i + 1);
                proof {
                    assert(rest.skip(1) =~= s@.skip(i + 1));
                    assert(piece@ =~= seq![rest[0]]);
                    assert(out@ + piece@ + unescape_newlines(s@.skip(i + 1)) =~= out@
                        + unescape_newlines(rest));
                }
                out.append(piece);
                i = i + 1;
            }
        }
        proof {
            assert(s@.skip(n as int) =~= Seq::<char>::empty());
            assert(out@ + Seq::<char>::empty() =~= out@);
        }
        out
    }
}

} // verus!
