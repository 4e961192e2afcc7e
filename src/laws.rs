use vstd::prelude::*;
use crate::model::{
    close_word, idle, literal_value, run_text, run_tokens, run_word, split_words, step_token,
    with_stack, words_of, Fault, Machine, Native, Pending, WordDef,
};

verus! {

/// A token as the tokenizer yields it: non-empty and without spaces.
pub open spec fn plain(t: Seq<char>) -> bool {
    t.len() > 0 && forall|i: int| 0 <= i < t.len() ==> #[trigger] t[i] != ' '
}

/// Tokens joined by single spaces into a line.
pub open spec fn unwords(ts: Seq<Seq<char>>) -> Seq<char>
    decreases ts.len(),
{
    if ts.len() == 0 {
        Seq::empty()
    } else if ts.len() == 1 {
        ts[0]
    } else {
        ts[0] + seq![' '] + unwords(ts.drop_first())
    }
}

/// The stack after pushing each of `p` in order onto `s`.
pub open spec fn push_all(s: Seq<usize>, p: Seq<usize>) -> Seq<usize>
    decreases p.len(),
{
    if p.len() == 0 {
        s
    } else {
        push_all(s, p.drop_last()).push(p.last())
    }
}

/// The cells that `n` successive pops return, first pop first.
pub open spec fn pop_values(s: Seq<usize>, n: nat) -> Seq<usize>
    decreases n,
{
    if n == 0 || s.len() == 0 {
        Seq::empty()
    } else {
        seq![s.last()] + pop_values(s.drop_last(), (n - 1) as nat)
    }
}

/// The stack left after `n` successive pops.
pub open spec fn pop_rest(s: Seq<usize>, n: nat) -> Seq<usize>
    decreases n,
{
    if n == 0 || s.len() == 0 {
        s
    } else {
        pop_rest(s.drop_last(), (n - 1) as nat)
    }
}

proof fn lemma_push_all(s: Seq<usize>, p: Seq<usize>)
    ensures
        push_all(s, p) == s + p,
    decreases p.len(),
{
    if p.len() > 0 {
        lemma_push_all(s, p.drop_last());
        assert(s + p =~= (s + p.drop_last()).push(p.last()));
    }
}

/// Popping as many times as cells were pushed returns them in reverse order
/// and leaves the stack as it was before the pushes.
pub proof fn lemma_pops_reverse_pushes(s: Seq<usize>, p: Seq<usize>)
    ensures
        pop_values(push_all(s, p), p.len()).len() == p.len(),
        forall|i: int|
            0 <= i < p.len() ==> #[trigger] pop_values(push_all(s, p), p.len())[i] == p[p.len() - 1 - i],
        pop_rest(push_all(s, p), p.len()) == s,
    decreases p.len(),
{
    lemma_push_all(s, p);
    if p.len() > 0 {
        let q = p.drop_last();
        lemma_pops_reverse_pushes(s, q);
        lemma_push_all(s, q);
        assert((s + p).drop_last() =~= s + q);
        assert((s + p).last() == p.last());
        let v = pop_values(s + p, p.len());
        assert(v == seq![p.last()] + pop_values(s + q, q.len()));
        assert forall|i: int| 0 <= i < p.len() implies #[trigger] v[i] == p[p.len() - 1 - i] by {
            if i > 0 {
                assert(v[i] == pop_values(s + q, q.len())[i - 1]);
                assert(q[q.len() - 1 - (i - 1)] == p[p.len() - 1 - i]);
            }
        }
    } else {
        assert(s + p =~= s);
    }
}

proof fn lemma_split_plain(x: Seq<char>, rest: Seq<char>, cur: Seq<char>)
    requires
        forall|i: int| 0 <= i < x.len() ==> #[trigger] x[i] != ' ',
    ensures
        split_words(x + rest, cur) == split_words(rest, cur + x),
    decreases x.len(),
{
    if x.len() == 0 {
        assert(x + rest =~= rest);
        assert(cur + x =~= cur);
    } else {
        let y = x.drop_first();
        assert((x + rest)[0] == x[0]);
        assert((x + rest).drop_first() =~= y + rest);
        assert forall|i: int| 0 <= i < y.len() implies #[trigger] y[i] != ' ' by {
            assert(y[i] == x[i + 1]);
        }
        lemma_split_plain(y, rest, cur.push(x[0]));
        assert(cur.push(x[0]) + y =~= cur + x);
    }
}

/// Splitting tokens joined by single spaces gives the tokens back.
pub proof fn lemma_words_of_unwords(ts: Seq<Seq<char>>)
    requires
        forall|i: int| 0 <= i < ts.len() ==> plain(#[trigger] ts[i]),
    ensures
        words_of(unwords(ts)) == ts,
    decreases ts.len(),
{
    let e = Seq::<char>::empty();
    if ts.len() == 0 {
        assert(words_of(unwords(ts)) =~= ts);
    } else if ts.len() == 1 {
        assert(plain(ts[0]));
        lemma_split_plain(ts[0], e, e);
        assert(ts[0] + e =~= ts[0]);
        assert(e + ts[0] =~= ts[0]);
        assert(split_words(e, ts[0]) == seq![ts[0]]);
        assert(seq![ts[0]] =~= ts);
    } else {
        let r = ts.drop_first();
        assert forall|i: int| 0 <= i < r.len() implies plain(#[trigger] r[i]) by {
            assert(r[i] == ts[i + 1]);
        }
        lemma_words_of_unwords(r);
        let u = unwords(r);
        let sp = seq![' '] + u;
        assert(plain(ts[0]));
        assert(ts[0] + seq![' '] + u =~= ts[0] + sp);
        lemma_split_plain(ts[0], sp, e);
        assert(e + ts[0] =~= ts[0]);
        assert(sp[0] == ' ');
        assert(sp.drop_first() =~= u);
        assert(split_words(sp, ts[0]) == seq![ts[0]] + split_words(u, e));
        assert(seq![ts[0]] + r =~= ts);
    }
}

/// Running a line that starts with `t` takes one step, then goes on only
/// if that step succeeded.
pub proof fn lemma_run_cons(m: Machine, p: Pending, t: Seq<char>, rest: Seq<Seq<char>>, fuel: nat)
    ensures
        run_tokens(m, p, seq![t] + rest, fuel) == ({
            let (m2, p2, r) = step_token(m, p, t, fuel);
            match r {
                Ok(_) => run_tokens(m2, p2, rest, fuel),
                Err(e) => (m2, Err(e)),
            }
        }),
{
    let ts = seq![t] + rest;
    assert(ts[0] == t);
    assert(ts.drop_first() =~= rest);
}

/// A literal is a single token, and neither `:` nor `;`.
pub proof fn lemma_literal_plain(t: Seq<char>)
    requires
        literal_value(t) is Some,
    ensures
        plain(t),
        t != seq![':'],
        t != seq![';'],
{
    let d = crate::model::literal_digits(t);
    assert forall|i: int| 0 <= i < t.len() implies #[trigger] t[i] != ' ' by {
        if t[0] == '+' {
            if i > 0 {
                assert(t[i] == d[i - 1]);
                assert(crate::model::is_digit(d[i - 1]));
            }
        } else {
            assert(crate::model::is_digit(d[i]));
        }
    }
    if t == seq![':'] || t == seq![';'] {
        assert(d == t);
        assert(crate::model::is_digit(d[0]));
    }
}

#[verifier::rlimit(40)]
/// Two literals followed by `+`, where `+` is the native addition, leave
/// exactly their sum on top of the stack, the cells below untouched.
pub proof fn lemma_add_literals(m: Machine, a: Seq<char>, b: Seq<char>, fuel: nat)
    requires
        literal_value(a) is Some,
        literal_value(b) is Some,
        literal_value(a)->0 + literal_value(b)->0 <= usize::MAX,
        m.words.contains_key(seq!['+']),
        m.words[seq!['+']].func == Some(Native::Add),
    ensures
        run_text(m, a + seq![' '] + b + seq![' ', '+'], fuel) == (
            with_stack(m, m.stack.push((literal_value(a)->0 + literal_value(b)->0) as usize)),
            Ok::<(), Fault>(()),
        ),
{
    let pl = seq!['+'];
    let va = literal_value(a)->0;
    let vb = literal_value(b)->0;
    lemma_literal_plain(a);
    lemma_literal_plain(b);
    assert(crate::model::literal_digits(pl) =~= Seq::<char>::empty());
    assert(literal_value(pl) is None);
    assert(pl != seq![':'] && pl != seq![';']) by {
        assert(seq![':'][0] == ':');
        assert(seq![';'][0] == ';');
    }
    let ts = seq![a, b, pl];
    assert forall|i: int| 0 <= i < ts.len() implies plain(#[trigger] ts[i]) by {
        if i == 2 {
            assert(ts[i] == pl);
        }
    }
    lemma_words_of_unwords(ts);
    assert(ts.drop_first() =~= seq![b, pl]);
    assert(seq![b, pl].drop_first() =~= seq![pl]);
    assert(unwords(seq![pl]) == pl);
    assert(unwords(seq![b, pl]) == b + seq![' '] + pl);
    assert(unwords(ts) == a + seq![' '] + (b + seq![' '] + pl));
    assert(a + seq![' '] + (b + seq![' '] + pl) =~= a + seq![' '] + b + seq![' ', '+']);
    let e = Seq::<Seq<char>>::empty();
    assert(ts =~= seq![a] + seq![b, pl]);
    assert(seq![b, pl] =~= seq![b] + seq![pl]);
    assert(seq![pl] =~= seq![pl] + e);
    let m1 = with_stack(m, m.stack.push(va));
    let m2 = with_stack(m1, m1.stack.push(vb));
    lemma_run_cons(m, idle(), a, seq![b, pl], fuel);
    lemma_run_cons(m1, idle(), b, seq![pl], fuel);
    lemma_run_cons(m2, idle(), pl, e, fuel);
    let n = m2.stack.len();
    assert(m2.stack[n - 2] == va && m2.stack[n - 1] == vb);
    assert(m2.stack.subrange(0, n - 2) =~= m.stack);
}

/// A plain token other than `:` and `;`.
pub open spec fn ordinary(t: Seq<char>) -> bool {
    plain(t) && t != seq![':'] && t != seq![';']
}

proof fn lemma_markers_plain()
    ensures
        ordinary(seq!['+']),
        plain(seq![':']),
        plain(seq![';']),
        seq![':'] != seq![';'],
{
    assert(seq![':'][0] == ':');
    assert(seq![';'][0] == ';');
    assert(seq!['+'][0] == '+');
}

/// `: w b ;` followed by more tokens installs `w` with body `b` and goes on
/// with an idle compiler.
proof fn lemma_define(m: Machine, w: Seq<char>, b: Seq<char>, rest: Seq<Seq<char>>, fuel: nat)
    requires
        ordinary(w),
        ordinary(b),
    ensures
        run_tokens(m, idle(), seq![seq![':'], w, b, seq![';']] + rest, fuel) == run_tokens(
            Machine {
                stack: m.stack,
                words: m.words.insert(w, WordDef { body: b.push(' '), func: None }),
                output: m.output,
            },
            idle(),
            rest,
            fuel,
        ),
{
    lemma_markers_plain();
    let c = seq![':'];
    let sc = seq![';'];
    let t4 = seq![c, w, b, sc] + rest;
    assert(t4 =~= seq![c] + (seq![w, b, sc] + rest));
    assert(seq![w, b, sc] + rest =~= seq![w] + (seq![b, sc] + rest));
    assert(seq![b, sc] + rest =~= seq![b] + (seq![sc] + rest));
    let p1 = Pending { creating: true, name: Seq::empty(), body: Seq::empty() };
    let p2 = Pending { creating: true, name: w, body: Seq::empty() };
    let p3 = Pending { creating: true, name: w, body: b.push(' ') };
    lemma_run_cons(m, idle(), c, seq![w, b, sc] + rest, fuel);
    lemma_run_cons(m, p1, w, seq![b, sc] + rest, fuel);
    lemma_run_cons(m, p2, b, seq![sc] + rest, fuel);
    assert(Seq::<char>::empty() + b.push(' ') =~= b.push(' '));
    lemma_run_cons(m, p3, sc, rest, fuel);
}

/// A name that is neither a literal nor defined fails as an unknown word;
/// once `: name ;` gives it an empty body, it fails as an inert word.
pub proof fn lemma_unknown_then_inert(m: Machine, n: Seq<char>, fuel: nat)
    requires
        ordinary(n),
        literal_value(n) is None,
        !m.words.contains_key(n),
    ensures
        run_text(m, n, fuel) == (m, Err::<(), Fault>(Fault::UnknownWord(n))),
        ({
            let (m2, r) = run_text(m, seq![':', ' '] + n + seq![' ', ';'], fuel);
            &&& r == Ok::<(), Fault>(())
            &&& m2.words == m.words.insert(n, WordDef { body: Seq::empty(), func: None })
            &&& run_text(m2, n, fuel) == (m2, Err::<(), Fault>(Fault::InertWord(n)))
        }),
{
    lemma_markers_plain();
    let c = seq![':'];
    let sc = seq![';'];
    let e = Seq::<Seq<char>>::empty();
    let one = seq![n];
    assert(plain(one[0]));
    lemma_words_of_unwords(one);
    assert(one =~= seq![n] + e);
    lemma_run_cons(m, idle(), n, e, fuel);
    let ts = seq![c, n, sc];
    assert forall|i: int| 0 <= i < ts.len() implies plain(#[trigger] ts[i]) by {
        if i == 0 {
            assert(ts[i] == c);
        } else if i == 2 {
            assert(ts[i] == sc);
        }
    }
    lemma_words_of_unwords(ts);
    assert(ts.drop_first() =~= seq![n, sc]);
    assert(seq![n, sc].drop_first() =~= seq![sc]);
    assert(unwords(seq![sc]) == sc);
    assert(unwords(seq![n, sc]) == n + seq![' '] + sc);
    assert(unwords(ts) == c + seq![' '] + (n + seq![' '] + sc));
    assert(c + seq![' '] + (n + seq![' '] + sc) =~= seq![':', ' '] + n + seq![' ', ';']);
    let p1 = Pending { creating: true, name: Seq::empty(), body: Seq::empty() };
    let p2 = Pending { creating: true, name: n, body: Seq::empty() };
    assert(ts =~= seq![c] + seq![n, sc]);
    assert(seq![n, sc] =~= seq![n] + seq![sc]);
    assert(seq![sc] =~= seq![sc] + e);
    lemma_run_cons(m, idle(), c, seq![n, sc], fuel);
    lemma_run_cons(m, p1, n, seq![sc], fuel);
    lemma_run_cons(m, p2, sc, e, fuel);
    let m2 = Machine {
        stack: m.stack,
        words: m.words.insert(n, WordDef { body: Seq::empty(), func: None }),
        output: m.output,
    };
    lemma_run_cons(m2, idle(), n, e, fuel);
}

/// A word is looked up when it is run, not when a body that calls it is
/// compiled: running a word whose body is the single token `w` does what
/// running `w` does at that moment, one level of nesting deeper.
pub proof fn lemma_late_binding(m: Machine, c: Seq<char>, w: Seq<char>, fuel: nat)
    requires
        literal_value(c) is None,
        m.words.contains_key(c),
        m.words[c] == (WordDef { body: w.push(' '), func: None }),
        ordinary(w),
        fuel > 0,
    ensures
        run_word(m, c, fuel) == run_word(m, w, (fuel - 1) as nat),
{
    let e = Seq::<char>::empty();
    lemma_split_plain(w, seq![' '], e);
    assert(w + seq![' '] =~= w.push(' '));
    assert(e + w =~= w);
    assert(seq![' '].drop_first() =~= e);
    assert(split_words(seq![' '], w) == close_word(w) + split_words(e, e));
    assert(words_of(w.push(' ')) =~= seq![w] + Seq::<Seq<char>>::empty());
    let f1 = (fuel - 1) as nat;
    lemma_run_cons(m, idle(), w, Seq::empty(), f1);
    assert(seq![w] + Seq::<Seq<char>>::empty() =~= seq![w]);
    let (m2, r) = run_word(m, w, f1);
    assert(step_token(m, idle(), w, f1) == (m2, idle(), r));
    assert(run_tokens(m2, idle(), Seq::empty(), f1) == (m2, Ok::<(), Fault>(())));
    match r {
        Ok(u) => {
            assert(u == ());
            assert(run_tokens(m, idle(), seq![w], f1) == (m2, r));
        },
        Err(x) => {
            assert(run_tokens(m, idle(), seq![w], f1) == (m2, r));
        },
    }
    assert(m.words[c].body.len() > 0);
    assert(run_word(m, c, fuel) == run_tokens(m, idle(), words_of(w.push(' ')), f1));
}

/// After `: w b1 ; : w b2 ;` the table holds the second definition of `w`
/// alone, and running `w` does what running `b2` does.
pub proof fn lemma_last_definition_wins(
    m: Machine,
    w: Seq<char>,
    b1: Seq<char>,
    b2: Seq<char>,
    fuel: nat,
)
    requires
        ordinary(w),
        ordinary(b1),
        ordinary(b2),
        literal_value(w) is None,
    ensures
        ({
            let (m2, r) = run_text(
                m,
                unwords(seq![seq![':'], w, b1, seq![';'], seq![':'], w, b2, seq![';']]),
                fuel,
            );
            &&& r == Ok::<(), Fault>(())
            &&& m2 == (Machine {
                stack: m.stack,
                words: m.words.insert(w, WordDef { body: b2.push(' '), func: None }),
                output: m.output,
            })
            &&& run_word(m2, w, fuel + 1) == run_word(m2, b2, fuel)
        }),
{
    lemma_markers_plain();
    let c = seq![':'];
    let sc = seq![';'];
    let e = Seq::<Seq<char>>::empty();
    let ts = seq![c, w, b1, sc, c, w, b2, sc];
    assert forall|i: int| 0 <= i < ts.len() implies plain(#[trigger] ts[i]) by {
        if i == 0 || i == 4 {
            assert(ts[i] == c);
        } else if i == 3 || i == 7 {
            assert(ts[i] == sc);
        }
    }
    lemma_words_of_unwords(ts);
    let second = seq![c, w, b2, sc];
    assert(ts =~= seq![c, w, b1, sc] + second);
    assert(second =~= second + e);
    lemma_define(m, w, b1, second, fuel);
    let m1 = Machine {
        stack: m.stack,
        words: m.words.insert(w, WordDef { body: b1.push(' '), func: None }),
        output: m.output,
    };
    lemma_define(m1, w, b2, e, fuel);
    let m2 = Machine {
        stack: m.stack,
        words: m.words.insert(w, WordDef { body: b2.push(' '), func: None }),
        output: m.output,
    };
    assert(m1.words.insert(w, WordDef { body: b2.push(' '), func: None }) =~= m2.words);
    lemma_late_binding(m2, w, b2, fuel + 1);
}

/// A `:` inside an open definition is refused, and nothing of that
/// definition is installed.
pub proof fn lemma_nested_definition_rejected(m: Machine, a: Seq<char>, b: Seq<char>, fuel: nat)
    requires
        ordinary(a),
        plain(b),
    ensures
        run_text(m, unwords(seq![seq![':'], a, seq![':'], b, seq![';']]), fuel) == (
            m,
            Err::<(), Fault>(Fault::NestedDefinition),
        ),
{
    lemma_markers_plain();
    let c = seq![':'];
    let sc = seq![';'];
    let ts = seq![c, a, c, b, sc];
    assert forall|i: int| 0 <= i < ts.len() implies plain(#[trigger] ts[i]) by {
        if i == 0 || i == 2 {
            assert(ts[i] == c);
        } else if i == 4 {
            assert(ts[i] == sc);
        }
    }
    lemma_words_of_unwords(ts);
    let p1 = Pending { creating: true, name: Seq::empty(), body: Seq::empty() };
    let p2 = Pending { creating: true, name: a, body: Seq::empty() };
    assert(ts =~= seq![c] + seq![a, c, b, sc]);
    assert(seq![a, c, b, sc] =~= seq![a] + seq![c, b, sc]);
    assert(seq![c, b, sc] =~= seq![c] + seq![b, sc]);
    lemma_run_cons(m, idle(), c, seq![a, c, b, sc], fuel);
    lemma_run_cons(m, p1, a, seq![c, b, sc], fuel);
    lemma_run_cons(m, p2, c, seq![b, sc], fuel);
}

} // verus!
