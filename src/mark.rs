use vstd::prelude::*;
use vstd::string::StrSliceExecFns;
use vstd::string::StringExecFns;

verus! {

/// A player's annotation on a cell that is still closed.
#[derive(Debug, Clone, Copy, PartialEq, Eq, Structural)]
pub enum Mark {
    Empty,
    Mine,
    Unknown,
}

/// The one-character glyph of a mark, used for display and for commands.
pub open spec fn glyph(m: Mark) -> char {
    match m {
        Mark::Empty => '*',
        Mark::Mine => 'M',
        Mark::Unknown => '?',
    }
}

/// The mark that a command token names; an unrecognised token means `Empty`.
pub open spec fn mark_of_token(token: Seq<char>) -> Mark {
    if token == seq!['M'] {
        Mark::Mine
    } else if token == seq!['?'] {
        Mark::Unknown
    } else {
        Mark::Empty
    }
}

impl Mark {
    pub fn to_string(self) -> (r: String)
        ensures
            r@ == seq![glyph(self)],
    {
        let s = match self {
            Mark::Empty => "*",
            Mark::Mine => "M",
            Mark::Unknown => "?",
        };
        proof {
            reveal_strlit("*");
            reveal_strlit("M");
            reveal_strlit("?");
        }
        let r = String::from_str(s);
        assert(r@ =~= seq![glyph(self)]);
        r
    }

    pub fn from_string(value: &str) -> (r: Mark)
        ensures
            r == mark_of_token(value@),
    {
        if value.unicode_len() != 1 {
            return Mark::Empty;
        }
        let c = value.get_char(0);
        if c == 'M' {
            assert(value@ =~= seq!['M']);
            Mark::Mine
        } else if c == '?' {
            assert(value@ =~= seq!['?']);
            Mark::Unknown
        } else {
            assert(value@ != seq!['M'] && value@ != seq!['?']) by {
                assert(seq!['M'][0] == 'M');
                assert(seq!['?'][0] == '?');
            }
            Mark::Empty
        }
    }

    /// Whether a token is the glyph of some mark; any other token is read as
    /// `Empty`.
    pub fn is_known_token(value: &str) -> (r: bool)
        ensures
            r == (value@ == seq!['*'] || value@ == seq!['M'] || value@ == seq!['?']),
    {
        if value.unicode_len() != 1 {
            return false;
        }
        let c = value.get_char(0);
        if c == '*' || c == 'M' || c == '?' {
            assert(value@ =~= seq![c]);
            true
        } else {
            assert(value@ != seq!['*'] && value@ != seq!['M'] && value@ != seq!['?']) by {
                assert(seq!['*'][0] == '*');
                assert(seq!['M'][0] == 'M');
                assert(seq!['?'][0] == '?');
            }
            false
        }
    }
}

/// Decoding the glyph of a mark gives the mark back.
pub proof fn lemma_glyph_round_trip(m: Mark)
    ensures
        mark_of_token(seq![glyph(m)]) == m,
{
    assert(seq!['*'] != seq!['M']) by { assert(seq!['*'][0] != seq!['M'][0]); }
    assert(seq!['*'] != seq!['?']) by { assert(seq!['*'][0] != seq!['?'][0]); }
    assert(seq!['M'] != seq!['?']) by { assert(seq!['M'][0] != seq!['?'][0]); }
}

} // verus!
