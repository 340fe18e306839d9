use vstd::prelude::*;
use vstd::string::StrSliceExecFns;
use vstd::string::StringExecFns;
use crate::field::{Field, FieldView, GameResult};
use crate::mark::{mark_of_token, Mark};

verus! {

/// What a command line comes to: a finished action, or a file to work on.
#[derive(Debug, PartialEq, Eq)]
pub enum Outcome {
    /// The command is done, with its result and a message for the player.
    Done(GameResult, String),
    /// The field is to be written to this file.
    Save(String),
    /// The field is to be replaced by the one in this file.
    Load(String),
}

pub enum OutcomeView {
    Done(GameResult, Seq<char>),
    Save(Seq<char>),
    Load(Seq<char>),
}

impl View for Outcome {
    type V = OutcomeView;

    open spec fn view(&self) -> OutcomeView {
        match self {
            Outcome::Done(r, m) => OutcomeView::Done(*r, m@),
            Outcome::Save(f) => OutcomeView::Save(f@),
            Outcome::Load(f) => OutcomeView::Load(f@),
        }
    }
}

pub open spec fn is_digit(c: char) -> bool {
    '0' <= c <= '9'
}

/// The number that a string of decimal digits writes.
pub open spec fn digits_value(s: Seq<char>) -> int
    decreases s.len(),
{
    if s.len() == 0 {
        0
    } else {
        digits_value(s.drop_last()) * 10 + (s.last() as int - '0' as int)
    }
}

/// The digits of an unsigned number: all after an optional leading `+`.
pub open spec fn unsigned_digits(s: Seq<char>) -> Seq<char> {
    if s.len() > 0 && s[0] == '+' {
        s.drop_first()
    } else {
        s
    }
}

/// The `usize` that `s` writes in decimal, if any.
pub open spec fn parse_unsigned(s: Seq<char>) -> Option<int> {
    let d = unsigned_digits(s);
    if d.len() > 0 && (forall|i: int| 0 <= i < d.len() ==> is_digit(#[trigger] d[i]))
        && digits_value(d) <= usize::MAX {
        Some(digits_value(d))
    } else {
        None
    }
}

/// The coordinate given as argument `i`, if there is one and it is a number.
pub open spec fn coord(args: Seq<&str>, i: int) -> Option<int> {
    if i < args.len() {
        parse_unsigned(args[i]@)
    } else {
        None
    }
}

/// Every digit string is worth at least as much as each of its prefixes.
proof fn lemma_digits_prefix(s: Seq<char>, i: int)
    requires
        0 <= i <= s.len(),
        forall|j: int| 0 <= j < s.len() ==> is_digit(#[trigger] s[j]),
    ensures
        digits_value(s.take(i)) <= digits_value(s),
        0 <= digits_value(s),
    decreases s.len(),
{
    if s.len() > 0 {
        let p = s.drop_last();
        assert forall|j: int| 0 <= j < p.len() implies is_digit(#[trigger] p[j]) by {
            assert(p[j] == s[j]);
        }
        if i < s.len() {
            lemma_digits_prefix(p, i);
            assert(p.take(i) =~= s.take(i));
        } else {
            lemma_digits_prefix(p, 0);
            assert(s.take(i) =~= s);
        }
    } else {
        assert(s.take(i) =~= s);
    }
}

/// Reads an unsigned decimal number, as `usize`'s `from_str` does.
pub fn parse_coord(s: &str) -> (r: Option<usize>)
    ensures
        r matches Some(v) ==> parse_unsigned(s@) == Some(v as int),
        r is None ==> parse_unsigned(s@) is None,
{
    let len = s.unicode_len();
    let mut i: usize = 0;
    if len > 0 && s.get_char(0) == '+' {
        i = 1;
    }
    let ghost d = unsigned_digits(s@);
    let ghost start = i as int;
    proof {
        assert(d =~= s@.subrange(start, s@.len() as int));
    }
    if i >= len {
        return None;
    }
    let mut acc: usize = 0;
    while i < len
        invariant
            len == s@.len(),
            start <= i <= len,
            start == 0 || start == 1,
            d == s@.subrange(start, len as int),
            d == unsigned_digits(s@),
            forall|j: int| start <= j < i ==> is_digit(#[trigger] s@[j]),
            acc as int == digits_value(d.take(i - start)),
        decreases len - i,
    {
        let c = s.get_char(i);
        proof {
            assert(d.take(i - start + 1).drop_last() =~= d.take(i - start));
            assert(d.take(i - start + 1).last() == c);
        }
        assert(d[i - start] == c);
        if c < '0' || c > '9' {
            assert(!is_digit(d[i - start]));
            assert(!(forall|j: int| 0 <= j < d.len() ==> is_digit(#[trigger] d[j])));
            assert(parse_unsigned(s@) is None);
            return None;
        }
        let digit = (c as u32 - '0' as u32) as usize;
        assert(digit as int == c as int - '0' as int);
        if acc > (usize::MAX - digit) / 10 {
            proof {
                assert(acc * 10 + digit > usize::MAX) by (nonlinear_arith)
                    requires
                        acc > (usize::MAX - digit) / 10,
                        digit <= 9,
                ;
                if forall|j: int| 0 <= j < d.len() ==> is_digit(#[trigger] d[j]) {
                    lemma_digits_prefix(d, i - start + 1);
                    assert(digits_value(d) > usize::MAX);
                }
                assert(parse_unsigned(s@) is None);
            }
            return None;
        }
        acc = acc * 10 + digit;
        i = i + 1;
    }
    proof {
        assert(d.take(len - start) =~= d);
        assert forall|j: int| 0 <= j < d.len() implies is_digit(#[trigger] d[j]) by {
            assert(d[j] == s@[j + start]);
        }
    }
    Some(acc)
}

/// Whether two strings hold the same characters.
fn same_text(a: &str, b: &str) -> (r: bool)
    ensures
        r == (a@ == b@),
{
    let n = a.unicode_len();
    if n != b.unicode_len() {
        return false;
    }
    let mut i: usize = 0;
    while i < n
        invariant
            n == a@.len(),
            n == b@.len(),
            i <= n,
            forall|j: int| 0 <= j < i ==> a@[j] == b@[j],
        decreases n - i,
    {
        if a.get_char(i) != b.get_char(i) {
            return false;
        }
        i = i + 1;
    }
    assert(a@ =~= b@);
    true
}

/// The text that `help` shows.
pub open spec fn help_text() -> Seq<char> {
    "Commands: open X Y | mark X Y [*|M|?] | save NAME | load NAME | help | stop"@
}

/// What a command line does to the field, and what it comes to.
pub open spec fn dispatch(v: FieldView, args: Seq<&str>) -> (FieldView, OutcomeView) {
    let name = if args.len() > 0 {
        args[0]@
    } else {
        Seq::empty()
    };
    if name == "stop"@ {
        (v, OutcomeView::Done(GameResult::Stop, ""@))
    } else if name == "open"@ || name == "mark"@ {
        match (coord(args, 1), coord(args, 2)) {
            (None, _) => (v, OutcomeView::Done(GameResult::Error, "Integer for coord x expected"@)),
            (_, None) => (v, OutcomeView::Done(GameResult::Error, "Integer for coord y expected"@)),
            (Some(x), Some(y)) => if !v.in_bounds(x, y) {
                (v, OutcomeView::Done(GameResult::Error, "Coordinates outside the field"@))
            } else if name == "open"@ {
                (v.after_open(x, y), OutcomeView::Done(v.open_result(x, y), ""@))
            } else if args.len() < 4 {
                (v, OutcomeView::Done(GameResult::Error, "Mark expected"@))
            } else {
                (
                    v.after_mark(x, y, mark_of_token(args[3]@)),
                    OutcomeView::Done(GameResult::Play, ""@),
                )
            },
        }
    } else if name == "help"@ {
        (v, OutcomeView::Done(GameResult::Info, help_text()))
    } else if name == "save"@ || name == "load"@ {
        if args.len() < 2 {
            (v, OutcomeView::Done(GameResult::Error, "File name expected"@))
        } else if name == "save"@ {
            (v, OutcomeView::Save(args[1]@ + ".ms"@))
        } else {
            (v, OutcomeView::Load(args[1]@ + ".ms"@))
        }
    } else {
        (v, OutcomeView::Done(GameResult::Error, "Unknown command"@))
    }
}

fn done(result: GameResult, message: &str) -> (r: Outcome)
    ensures
        r@ == OutcomeView::Done(result, message@),
{
    Outcome::Done(result, String::from_str(message))
}

impl Field {
    /// Carries out one command line, split into words.
    pub fn process_command_args(&mut self, args: &Vec<&str>) -> (r: Outcome)
        requires
            old(self)@.wf(),
        ensures
            final(self)@.wf(),
            (final(self)@, r@) == dispatch(old(self)@, args@),
    {
        let name: &str = if args.len() > 0 {
            args[0]
        } else {
            ""
        };
        proof {
            reveal_strlit("");
            assert(name@ == (if args@.len() > 0 { args@[0]@ } else { Seq::<char>::empty() }));
        }
        if same_text(name, "stop") {
            return done(GameResult::Stop, "");
        }
        let is_open = same_text(name, "open");
        if is_open || same_text(name, "mark") {
            let x = if args.len() > 1 {
                parse_coord(args[1])
            } else {
                None
            };
            let x = match x {
                Some(x) => x,
                None => {
                    return done(GameResult::Error, "Integer for coord x expected");
                },
            };
            let y = if args.len() > 2 {
                parse_coord(args[2])
            } else {
                None
            };
            let y = match y {
                Some(y) => y,
                None => {
                    return done(GameResult::Error, "Integer for coord y expected");
                },
            };
            if x >= self.size() || y >= self.size() {
                return done(GameResult::Error, "Coordinates outside the field");
            }
            if is_open {
                let result = self.open_cell(x, y);
                return done(result, "");
            }
            if args.len() < 4 {
                return done(GameResult::Error, "Mark expected");
            }
            let mark_as = Mark::from_string(args[3]);
            let result = self.mark_cell(x, y, mark_as);
            return done(result, "");
        }
        if same_text(name, "help") {
            return done(
                GameResult::Info,
                "Commands: open X Y | mark X Y [*|M|?] | save NAME | load NAME | help | stop",
            );
        }
        let is_save = same_text(name, "save");
        if is_save || same_text(name, "load") {
            if args.len() < 2 {
                return done(GameResult::Error, "File name expected");
            }
            let file = String::from_str(args[1]).concat(".ms");
            if is_save {
                return Outcome::Save(file);
            }
            return Outcome::Load(file);
        }
        done(GameResult::Error, "Unknown command")
    }
}

} // verus!
