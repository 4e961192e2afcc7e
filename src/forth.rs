use vstd::prelude::*;
use vstd::string::*;
use crate::literal::parse_literal;
use crate::model::{
    apply_native, idle, run_text, run_tokens, run_word, split_words, step_token, with_stack, Fault,
    Machine, Native, Pending, MAX_DEPTH,
};
use crate::table::{lemma_table_absent, lemma_table_found, lemma_table_replace, table_view};
use crate::word::Word;

verus! {

/// A failure reported by the interpreter.
#[derive(Debug, PartialEq, Eq)]
pub enum ForthError {
    /// A token that is neither a literal nor a defined word.
    UnknownWord(String),
    /// A word with neither a native operation nor a body.
    InertWord(String),
    /// A `:` inside a definition that is still open.
    NestedDefinition,
    /// An operation needed more cells than the stack held.
    StackUnderflow,
    /// A sum did not fit in a cell.
    Overflow,
    /// Word bodies were nested deeper than the interpreter allows.
    RecursionLimit,
}

impl View for ForthError {
    type V = Fault;

    open spec fn view(&self) -> Fault {
        match self {
            ForthError::UnknownWord(w) => Fault::UnknownWord(w@),
            ForthError::InertWord(w) => Fault::InertWord(w@),
            ForthError::NestedDefinition => Fault::NestedDefinition,
            ForthError::StackUnderflow => Fault::StackUnderflow,
            ForthError::Overflow => Fault::Overflow,
            ForthError::RecursionLimit => Fault::RecursionLimit,
        }
    }
}

/// The abstract outcome of a call that returns nothing on success.
pub open spec fn outcome(r: Result<(), ForthError>) -> Result<(), Fault> {
    match r {
        Ok(_) => Ok(()),
        Err(e) => Err(e@),
    }
}

/// The definition being compiled while a line is read.
struct Draft {
    creating: bool,
    name: String,
    body: String,
}

impl Draft {
    spec fn pending(&self) -> Pending {
        Pending { creating: self.creating, name: self.name@, body: self.body@ }
    }
}

/// Whether a token is exactly the one character `c`.
fn is_single(tok: &str, c: char) -> (r: bool)
    ensures
        r == (tok@ == seq![c]),
{
    let n = tok.unicode_len();
    if n != 1 {
        assert(tok@.len() != seq![c].len());
        return false;
    }
    let r = tok.get_char(0) == c;
    assert(r ==> tok@ =~= seq![c]);
    assert(seq![c][0] == c);
    r
}

/// An interpreter: an operand stack, a word table and the cells printed so far.
pub struct Forth {
    stack: Vec<usize>,
    words: Vec<Word>,
    output: Vec<usize>,
}

impl View for Forth {
    type V = Machine;

    closed spec fn view(&self) -> Machine {
        Machine { stack: self.stack@, words: table_view(self.words@), output: self.output@ }
    }
}

impl Default for Forth {
    fn default() -> (f: Forth)
        ensures
            f@ == (Machine { stack: Seq::empty(), words: Map::empty(), output: Seq::empty() }),
    {
        Forth::new()
    }
}

impl Forth {
    /// An interpreter with an empty stack, no words and no output.
    pub fn new() -> (f: Forth)
        ensures
            f@ == (Machine { stack: Seq::empty(), words: Map::empty(), output: Seq::empty() }),
    {
        let f = Forth { stack: Vec::new(), words: Vec::new(), output: Vec::new() };
        assert(f@.stack =~= Seq::<usize>::empty());
        assert(f@.output =~= Seq::<usize>::empty());
        f
    }

    /// Puts a cell on top of the stack.
    pub fn push(&mut self, cell: usize)
        ensures
            final(self)@ == with_stack(old(self)@, old(self)@.stack.push(cell)),
    {
        self.stack.push(cell);
    }

    /// Removes the top cell and returns it; fails on an empty stack.
    pub fn pop(&mut self) -> (r: Result<usize, ForthError>)
        ensures
            old(self)@.stack.len() == 0 ==> r == Err::<usize, ForthError>(ForthError::StackUnderflow)
                && final(self)@ == old(self)@,
            old(self)@.stack.len() > 0 ==> r == Ok::<usize, ForthError>(old(self)@.stack.last())
                && final(self)@ == with_stack(old(self)@, old(self)@.stack.drop_last()),
    {
        match self.stack.pop() {
            Some(v) => Ok(v),
            None => Err(ForthError::StackUnderflow),
        }
    }

    /// Returns the top cell without removing it; fails on an empty stack.
    pub fn top(&self) -> (r: Result<usize, ForthError>)
        ensures
            self@.stack.len() == 0 ==> r == Err::<usize, ForthError>(ForthError::StackUnderflow),
            self@.stack.len() > 0 ==> r == Ok::<usize, ForthError>(self@.stack.last()),
    {
        let n = self.stack.len();
        if n == 0 {
            Err(ForthError::StackUnderflow)
        } else {
            Ok(self.stack[n - 1])
        }
    }

    /// Hands out the cells printed so far and forgets them.
    pub fn take_output(&mut self) -> (out: Vec<usize>)
        ensures
            out@ == old(self)@.output,
            final(self)@ == (Machine {
                stack: old(self)@.stack,
                words: old(self)@.words,
                output: Seq::empty(),
            }),
    {
        let mut out = Vec::new();
        std::mem::swap(&mut out, &mut self.output);
        assert(self@.output =~= Seq::<usize>::empty());
        out
    }

    /// The index of the entry that holds the current definition of `name`.
    fn find_word(&self, name: &str) -> (r: Option<usize>)
        ensures
            match r {
                Some(k) => {
                    &&& k < self.words@.len()
                    &&& self.words@[k as int].name@ == name@
                    &&& self@.words.contains_key(name@)
                    &&& self@.words[name@] == self.words@[k as int].def()
                    &&& forall|j: int|
                        k < j < self.words@.len() ==> (#[trigger] self.words@[j]).name@ != name@
                },
                None => !self@.words.contains_key(name@),
            },
    {
        let key = name.to_owned();
        let mut i: usize = self.words.len();
        while i > 0
            invariant
                i <= self.words@.len(),
                key@ == name@,
                forall|j: int| i <= j < self.words@.len() ==> (#[trigger] self.words@[j]).name@ != name@,
            decreases i,
        {
            i = i - 1;
            if self.words[i].name == key {
                proof {
                    lemma_table_found(self.words@, i as int, name@);
                }
                return Some(i);
            }
        }
        proof {
            lemma_table_absent(self.words@, name@);
        }
        None
    }

    /// Installs `word` under its name, replacing any earlier definition.
    pub fn add_word(&mut self, word: Word)
        ensures
            final(self)@ == (Machine {
                stack: old(self)@.stack,
                words: old(self)@.words.insert(word.name@, word.def()),
                output: old(self)@.output,
            }),
    {
        let ghost ws = self.words@;
        match self.find_word(word.name.as_str()) {
            Some(k) => {
                proof {
                    lemma_table_replace(ws, k as int, word);
                }
                self.words.set(k, word);
            },
            None => {
                self.words.push(word);
                assert(self.words@.drop_last() =~= ws);
            },
        }
    }
    /// Carries out a native operation.
    pub fn apply_native(&mut self, op: Native) -> (r: Result<(), ForthError>)
        ensures
            (final(self)@, outcome(r)) == apply_native(old(self)@, op),
    {
        let n = self.stack.len();
        match op {
            Native::Print => {
                if n == 0 {
                    return Err(ForthError::StackUnderflow);
                }
                let v = self.stack[n - 1];
                self.output.push(v);
                Ok(())
            },
            Native::Add => {
                if n < 2 {
                    return Err(ForthError::StackUnderflow);
                }
                let b = self.stack[n - 1];
                let a = self.stack[n - 2];
                match a.checked_add(b) {
                    None => Err(ForthError::Overflow),
                    Some(sum) => {
                        let ghost s0 = self.stack@;
                        self.stack.pop();
                        self.stack.pop();
                        self.stack.push(sum);
                        assert(self.stack@ =~= s0.subrange(0, n - 2).push(sum));
                        Ok(())
                    },
                }
            },
        }
    }

    /// Handles one token of a line against the definition being compiled.
    fn step(&mut self, draft: &mut Draft, tok: &str, fuel: usize) -> (r: Result<(), ForthError>)
        ensures
            (final(self)@, final(draft).pending(), outcome(r)) == step_token(
                old(self)@,
                old(draft).pending(),
                tok@,
                fuel as nat,
            ),
        decreases fuel, 1nat,
    {
        if is_single(tok, ':') {
            if draft.creating {
                return Err(ForthError::NestedDefinition);
            }
            draft.creating = true;
            Ok(())
        } else if is_single(tok, ';') {
            let w = Word { name: draft.name.clone(), body: draft.body.clone(), func: None };
            self.add_word(w);
            draft.creating = false;
            draft.name = String::new();
            draft.body = String::new();
            Ok(())
        } else if !draft.creating {
            self.run_word_at(tok, fuel)
        } else if draft.name.as_str().unicode_len() == 0 {
            draft.name = tok.to_owned();
            Ok(())
        } else {
            draft.body.append(tok);
            draft.body.append(" ");
            proof {
                reveal_strlit(" ");
            }
            assert(draft.body@ =~= old(draft).body@ + tok@.push(' '));
            Ok(())
        }
    }

    /// Runs one token with `fuel` levels of word bodies left.
    fn run_word_at(&mut self, word: &str, fuel: usize) -> (r: Result<(), ForthError>)
        ensures
            (final(self)@, outcome(r)) == run_word(old(self)@, word@, fuel as nat),
        decreases fuel, 0nat,
    {
        if let Some(v) = parse_literal(word) {
            self.push(v);
            return Ok(());
        }
        match self.find_word(word) {
            None => Err(ForthError::UnknownWord(word.to_owned())),
            Some(k) => {
                match self.words[k].func {
                    Some(op) => self.apply_native(op),
                    None => {
                        if self.words[k].body.as_str().unicode_len() == 0 {
                            Err(ForthError::InertWord(word.to_owned()))
                        } else if fuel == 0 {
                            Err(ForthError::RecursionLimit)
                        } else {
                            let body = self.words[k].body.clone();
                            self.run_text_at(body.as_str(), fuel - 1)
                        }
                    },
                }
            },
        }
    }

    /// Runs a line of source text with `fuel` levels of word bodies left.
    fn run_text_at(&mut self, code: &str, fuel: usize) -> (r: Result<(), ForthError>)
        ensures
            (final(self)@, outcome(r)) == run_text(old(self)@, code@, fuel as nat),
        decreases fuel, 2nat,
    {
        let ghost m0 = self@;
        let ghost s = code@;
        let n = code.unicode_len();
        let mut draft = Draft { creating: false, name: String::new(), body: String::new() };
        let mut start: usize = 0;
        let mut i: usize = 0;
        assert(s.subrange(0, n as int) =~= s);
        assert(s.subrange(0, 0) =~= Seq::<char>::empty());
        assert(draft.pending() == idle());
        while i < n
            invariant
                start <= i <= n,
                n == s.len(),
                s == code@,
                m0 == old(self)@,
                run_tokens(
                    self@,
                    draft.pending(),
                    split_words(s.subrange(i as int, n as int), s.subrange(start as int, i as int)),
                    fuel as nat,
                ) == run_text(m0, s, fuel as nat),
            decreases n - i,
        {
            let c = code.get_char(i);
            let ghost rest = s.subrange(i as int, n as int);
            let ghost cur = s.subrange(start as int, i as int);
            assert(rest.drop_first() =~= s.subrange(i + 1, n as int));
            assert(rest[0] == c);
            if c == ' ' {
                if start < i {
                    let tok = code.substring_char(start, i);
                    let ghost toks = split_words(s.subrange(i + 1, n as int), Seq::empty());
                    assert(seq![cur] + toks =~= split_words(rest, cur));
                    assert((seq![cur] + toks).drop_first() =~= toks);
                    assert((seq![cur] + toks)[0] == cur);
                    assert((seq![cur] + toks).len() > 0);
                    let ghost m1 = self@;
                    let ghost p1 = draft.pending();
                    let r = self.step(&mut draft, tok, fuel);
                    if r.is_err() {
                        assert(run_tokens(m1, p1, seq![cur] + toks, fuel as nat) == (self@, outcome(r)));
                        return r;
                    }
                } else {
                    assert(cur =~= Seq::<char>::empty());
                    assert(Seq::<Seq<char>>::empty() + split_words(s.subrange(i + 1, n as int), Seq::empty())
                        =~= split_words(s.subrange(i + 1, n as int), Seq::empty()));
                }
                start = i + 1;
                i = i + 1;
                assert(s.subrange(start as int, i as int) =~= Seq::<char>::empty());
            } else {
                assert(cur.push(c) =~= s.subrange(start as int, i + 1));
                i = i + 1;
            }
        }
        let ghost cur = s.subrange(start as int, n as int);
        assert(s.subrange(n as int, n as int) =~= Seq::<char>::empty());
        assert(split_words(s.subrange(n as int, n as int), cur) == crate::model::close_word(cur));
        if start < n {
            let tok = code.substring_char(start, n);
            let ghost m1 = self@;
            let ghost p1 = draft.pending();
            assert(seq![cur].drop_first() =~= Seq::<Seq<char>>::empty());
            assert(seq![cur][0] == cur);
            let r = self.step(&mut draft, tok, fuel);
            if r.is_err() {
                return r;
            }
            assert(run_tokens(self@, draft.pending(), Seq::empty(), fuel as nat) == (self@, Ok::<(), Fault>(())));
        } else {
            assert(cur =~= Seq::<char>::empty());
        }
        Ok(())
    }

    /// Runs a single token: pushes a literal, or looks up a word and runs it.
    pub fn exec_word(&mut self, word: &str) -> (r: Result<(), ForthError>)
        ensures
            (final(self)@, outcome(r)) == run_word(old(self)@, word@, MAX_DEPTH as nat),
    {
        self.run_word_at(word, MAX_DEPTH)
    }

    /// Runs a line of source text, tokens separated by spaces, compiling
    /// `: name ... ;` definitions as they come; stops at the first failure.
    pub fn exec(&mut self, code: &str) -> (r: Result<(), ForthError>)
        ensures
            (final(self)@, outcome(r)) == run_text(old(self)@, code@, MAX_DEPTH as nat),
    {
        self.run_text_at(code, MAX_DEPTH)
    }
}

} // verus!
