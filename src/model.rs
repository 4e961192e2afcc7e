use vstd::prelude::*;

verus! {

/// How many nested word bodies one call may enter before it gives up.
pub const MAX_DEPTH: usize = 256;

/// An operation carried out by the interpreter itself rather than by source text.
#[derive(Clone, Copy, Debug, PartialEq, Eq, Structural)]
pub enum Native {
    /// Records the top cell as printed output, leaving the stack unchanged.
    Print,
    /// Pops two cells and pushes their sum.
    Add,
}

/// What can go wrong while running source text, as seen by the specification.
pub enum Fault {
    UnknownWord(Seq<char>),
    InertWord(Seq<char>),
    NestedDefinition,
    StackUnderflow,
    Overflow,
    RecursionLimit,
}

/// The meaning of a word: a native operation, or source text run on demand.
pub struct WordDef {
    pub body: Seq<char>,
    pub func: Option<Native>,
}

/// The abstract state of an interpreter.
pub struct Machine {
    pub stack: Seq<usize>,
    pub words: Map<Seq<char>, WordDef>,
    pub output: Seq<usize>,
}

/// A definition being compiled between `:` and `;`.
pub struct Pending {
    pub creating: bool,
    pub name: Seq<char>,
    pub body: Seq<char>,
}

pub open spec fn idle() -> Pending {
    Pending { creating: false, name: Seq::empty(), body: Seq::empty() }
}

pub open spec fn is_digit(c: char) -> bool {
    '0' <= c && c <= '9'
}

pub open spec fn digit_value(c: char) -> nat {
    (c as int - '0' as int) as nat
}

/// The number written by a run of decimal digits.
pub open spec fn digits_value(s: Seq<char>) -> nat
    decreases s.len(),
{
    if s.len() == 0 {
        0
    } else {
        digits_value(s.drop_last()) * 10 + digit_value(s.last())
    }
}

pub open spec fn all_digits(s: Seq<char>) -> bool {
    forall|i: int| 0 <= i < s.len() ==> is_digit(#[trigger] s[i])
}

/// The digits of a literal: the token without one leading `+`.
pub open spec fn literal_digits(t: Seq<char>) -> Seq<char> {
    if t.len() > 0 && t[0] == '+' {
        t.drop_first()
    } else {
        t
    }
}

/// The cell a token stands for, if it is a literal: an optional `+` and at
/// least one decimal digit, whose value fits in a cell.
pub open spec fn literal_value(t: Seq<char>) -> Option<usize> {
    let d = literal_digits(t);
    if d.len() > 0 && all_digits(d) && digits_value(d) <= usize::MAX {
        Some(digits_value(d) as usize)
    } else {
        None
    }
}

pub open spec fn close_word(cur: Seq<char>) -> Seq<Seq<char>> {
    if cur.len() > 0 {
        seq![cur]
    } else {
        Seq::empty()
    }
}

/// Splits `s` at single spaces into its non-empty tokens, `cur` being the
/// part of a token already read.
pub open spec fn split_words(s: Seq<char>, cur: Seq<char>) -> Seq<Seq<char>>
    decreases s.len(),
{
    if s.len() == 0 {
        close_word(cur)
    } else if s[0] == ' ' {
        close_word(cur) + split_words(s.drop_first(), Seq::empty())
    } else {
        split_words(s.drop_first(), cur.push(s[0]))
    }
}

/// The tokens of a line of source text.
pub open spec fn words_of(s: Seq<char>) -> Seq<Seq<char>> {
    split_words(s, Seq::empty())
}

pub open spec fn with_stack(m: Machine, stack: Seq<usize>) -> Machine {
    Machine { stack: stack, words: m.words, output: m.output }
}

/// The effect of a native operation.
pub open spec fn apply_native(m: Machine, op: Native) -> (Machine, Result<(), Fault>) {
    let n = m.stack.len();
    match op {
        Native::Print => {
            if n == 0 {
                (m, Err(Fault::StackUnderflow))
            } else {
                (Machine { stack: m.stack, words: m.words, output: m.output.push(m.stack.last()) }, Ok(()))
            }
        },
        Native::Add => {
            if n < 2 {
                (m, Err(Fault::StackUnderflow))
            } else if m.stack[n - 2] + m.stack[n - 1] > usize::MAX {
                (m, Err(Fault::Overflow))
            } else {
                let sum = (m.stack[n - 2] + m.stack[n - 1]) as usize;
                (with_stack(m, m.stack.subrange(0, n - 2).push(sum)), Ok(()))
            }
        },
    }
}

/// Runs one token outside a definition: a literal is pushed, a word is looked
/// up and run. Entering a word's body costs one unit of `fuel`.
pub open spec fn run_word(m: Machine, t: Seq<char>, fuel: nat) -> (Machine, Result<(), Fault>)
    decreases fuel, 0nat,
{
    match literal_value(t) {
        Some(v) => (with_stack(m, m.stack.push(v)), Ok(())),
        None => {
            if !m.words.contains_key(t) {
                (m, Err(Fault::UnknownWord(t)))
            } else {
                let d = m.words[t];
                match d.func {
                    Some(op) => apply_native(m, op),
                    None => {
                        if d.body.len() == 0 {
                            (m, Err(Fault::InertWord(t)))
                        } else if fuel == 0 {
                            (m, Err(Fault::RecursionLimit))
                        } else {
                            run_tokens(m, idle(), words_of(d.body), (fuel - 1) as nat)
                        }
                    },
                }
            }
        },
    }
}

/// Handles one token of a line: starts or ends a definition, adds to the
/// one being compiled, or runs the token. Gives the new machine, the new
/// pending definition and whether the line may go on.
pub open spec fn step_token(m: Machine, p: Pending, t: Seq<char>, fuel: nat) -> (
    Machine,
    Pending,
    Result<(), Fault>,
)
    decreases fuel, 1nat,
{
    if t == seq![':'] {
        if p.creating {
            (m, p, Err(Fault::NestedDefinition))
        } else {
            (m, Pending { creating: true, name: p.name, body: p.body }, Ok(()))
        }
    } else if t == seq![';'] {
        let w = Machine {
            stack: m.stack,
            words: m.words.insert(p.name, WordDef { body: p.body, func: None }),
            output: m.output,
        };
        (w, idle(), Ok(()))
    } else if !p.creating {
        let (m2, r) = run_word(m, t, fuel);
        (m2, p, r)
    } else if p.name.len() == 0 {
        (m, Pending { creating: true, name: t, body: p.body }, Ok(()))
    } else {
        (m, Pending { creating: true, name: p.name, body: p.body + t.push(' ') }, Ok(()))
    }
}

/// Runs a sequence of tokens, compiling definitions as they come; stops at
/// the first failure.
pub open spec fn run_tokens(m: Machine, p: Pending, toks: Seq<Seq<char>>, fuel: nat) -> (
    Machine,
    Result<(), Fault>,
)
    decreases fuel, toks.len() + 2,
{
    if toks.len() == 0 {
        (m, Ok(()))
    } else {
        let (m2, p2, r) = step_token(m, p, toks[0], fuel);
        match r {
            Ok(_) => run_tokens(m2, p2, toks.drop_first(), fuel),
            Err(e) => (m2, Err(e)),
        }
    }
}

/// Runs a line of source text.
pub open spec fn run_text(m: Machine, text: Seq<char>, fuel: nat) -> (Machine, Result<(), Fault>) {
    run_tokens(m, idle(), words_of(text), fuel)
}

} // verus!
