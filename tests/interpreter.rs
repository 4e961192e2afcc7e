use forth::{parse_literal, Forth, ForthError, Native, Word, MAX_DEPTH};

fn with_builtins() -> Forth {
    let mut f = Forth::new();
    f.add_word(Word::new(".").func(Native::Print));
    f.add_word(Word::new("+").func(Native::Add));
    f
}

fn drain(f: &mut Forth) -> Vec<usize> {
    let mut cells = Vec::new();
    while let Ok(v) = f.pop() {
        cells.push(v);
    }
    cells.reverse();
    cells
}

#[test]
fn pops_return_pushes_in_reverse() {
    let mut f = Forth::new();
    for v in [4usize, 8, 15, 16, 23, 42] {
        f.push(v);
    }
    for v in [42usize, 23, 16, 15, 8, 4] {
        assert_eq!(f.pop(), Ok(v));
    }
    assert_eq!(f.pop(), Err(ForthError::StackUnderflow));
}

#[test]
fn top_does_not_remove() {
    let mut f = Forth::new();
    assert_eq!(f.top(), Err(ForthError::StackUnderflow));
    f.push(7);
    assert_eq!(f.top(), Ok(7));
    assert_eq!(f.top(), Ok(7));
    assert_eq!(f.pop(), Ok(7));
}

#[test]
fn adding_two_literals_leaves_one_cell() {
    let mut f = with_builtins();
    f.push(9);
    assert_eq!(f.exec("2 3 +"), Ok(()));
    assert_eq!(drain(&mut f), vec![9, 5]);
}

#[test]
fn adding_zero_and_large_literal() {
    let mut f = with_builtins();
    assert_eq!(f.exec("0 1000000 +"), Ok(()));
    assert_eq!(drain(&mut f), vec![1000000]);
}

#[test]
fn defined_word_add1() {
    let mut f = with_builtins();
    assert_eq!(f.exec(": add1 1 + ;"), Ok(()));
    assert_eq!(f.exec("5 add1"), Ok(()));
    assert_eq!(f.top(), Ok(6));
}

#[test]
fn alias_behaves_like_plus() {
    let mut f = with_builtins();
    assert_eq!(f.exec(": add + ;"), Ok(()));
    assert_eq!(f.exec("2 3 add"), Ok(()));
    assert_eq!(f.top(), Ok(5));
    let mut g = with_builtins();
    assert_eq!(g.exec("2 3 +"), Ok(()));
    assert_eq!(g.top(), Ok(5));
}

#[test]
fn alias_built_with_body() {
    let mut f = with_builtins();
    f.add_word(Word::new("add").body("+"));
    assert_eq!(f.exec("1 1 add ."), Ok(()));
    assert_eq!(f.take_output(), vec![2]);
    assert_eq!(f.take_output(), Vec::<usize>::new());
}

#[test]
fn unknown_then_inert_word() {
    let mut f = with_builtins();
    assert_eq!(f.exec("foo"), Err(ForthError::UnknownWord("foo".to_string())));
    assert_eq!(f.exec(": foo ;"), Ok(()));
    assert_eq!(f.exec("foo"), Err(ForthError::InertWord("foo".to_string())));
}

#[test]
fn last_definition_wins() {
    let mut f = with_builtins();
    assert_eq!(f.exec(": w 1 ; : w 2 ;"), Ok(()));
    assert_eq!(f.exec("w"), Ok(()));
    assert_eq!(drain(&mut f), vec![2]);
}

#[test]
fn callers_see_redefinition() {
    let mut f = with_builtins();
    assert_eq!(f.exec(": w 1 ;"), Ok(()));
    assert_eq!(f.exec(": caller w w + ;"), Ok(()));
    assert_eq!(f.exec("caller"), Ok(()));
    assert_eq!(f.pop(), Ok(2));
    assert_eq!(f.exec(": w 2 ;"), Ok(()));
    assert_eq!(f.exec("caller"), Ok(()));
    assert_eq!(drain(&mut f), vec![4]);
}

#[test]
fn nested_definition_is_rejected() {
    let mut f = with_builtins();
    assert_eq!(f.exec(": a : b ;"), Err(ForthError::NestedDefinition));
    assert_eq!(f.exec("b"), Err(ForthError::UnknownWord("b".to_string())));
    assert_eq!(f.exec("a"), Err(ForthError::UnknownWord("a".to_string())));
}

#[test]
fn failure_stops_the_line() {
    let mut f = with_builtins();
    assert_eq!(f.exec("1 2 nope 3"), Err(ForthError::UnknownWord("nope".to_string())));
    assert_eq!(drain(&mut f), vec![1, 2]);
}

#[test]
fn extra_spaces_make_no_tokens() {
    let mut f = with_builtins();
    assert_eq!(f.exec("  1   2  "), Ok(()));
    assert_eq!(drain(&mut f), vec![1, 2]);
    assert_eq!(f.exec(""), Ok(()));
    assert_eq!(f.exec("   "), Ok(()));
    assert_eq!(drain(&mut f), Vec::<usize>::new());
}

#[test]
fn literal_forms() {
    assert_eq!(parse_literal("0"), Some(0));
    assert_eq!(parse_literal("+5"), Some(5));
    assert_eq!(parse_literal("007"), Some(7));
    assert_eq!(parse_literal("+"), None);
    assert_eq!(parse_literal(""), None);
    assert_eq!(parse_literal("-1"), None);
    assert_eq!(parse_literal("1a"), None);
    assert_eq!(parse_literal("++1"), None);
    let max = usize::MAX.to_string();
    assert_eq!(parse_literal(&max), Some(usize::MAX));
    let over = format!("{}0", max);
    assert_eq!(parse_literal(&over), None);
}

#[test]
fn oversized_literal_is_looked_up() {
    let mut f = with_builtins();
    let over = format!("{}0", usize::MAX);
    assert_eq!(f.exec(&over), Err(ForthError::UnknownWord(over.clone())));
}

#[test]
fn numeric_name_is_unreachable() {
    let mut f = with_builtins();
    assert_eq!(f.exec(": 5 6 ;"), Ok(()));
    assert_eq!(f.exec("5"), Ok(()));
    assert_eq!(drain(&mut f), vec![5]);
}

#[test]
fn print_records_top() {
    let mut f = with_builtins();
    assert_eq!(f.exec("1 1 + ."), Ok(()));
    assert_eq!(f.take_output(), vec![2]);
    assert_eq!(f.top(), Ok(2));
}

#[test]
fn print_on_empty_stack_underflows() {
    let mut f = with_builtins();
    assert_eq!(f.exec("."), Err(ForthError::StackUnderflow));
}

#[test]
fn add_underflow_keeps_stack() {
    let mut f = with_builtins();
    assert_eq!(f.exec("4 +"), Err(ForthError::StackUnderflow));
    assert_eq!(drain(&mut f), vec![4]);
}

#[test]
fn add_overflow_keeps_stack() {
    let mut f = with_builtins();
    f.push(usize::MAX);
    f.push(1);
    assert_eq!(f.exec("+"), Err(ForthError::Overflow));
    assert_eq!(drain(&mut f), vec![usize::MAX, 1]);
}

#[test]
fn endless_recursion_hits_limit() {
    let mut f = with_builtins();
    assert_eq!(f.exec(": forever forever ;"), Ok(()));
    assert_eq!(f.exec("forever"), Err(ForthError::RecursionLimit));
}

#[test]
fn recursion_within_limit() {
    let mut f = with_builtins();
    assert_eq!(f.exec(": d0 1 ;"), Ok(()));
    let mut prev = String::from("d0");
    for i in 1..MAX_DEPTH {
        let name = format!("d{}", i);
        assert_eq!(f.exec(&format!(": {} {} ;", name, prev)), Ok(()));
        prev = name;
    }
    assert_eq!(f.exec(&prev), Ok(()));
    assert_eq!(drain(&mut f), vec![1]);
}

#[test]
fn exec_word_runs_one_token() {
    let mut f = with_builtins();
    assert_eq!(f.exec_word("3"), Ok(()));
    assert_eq!(f.exec_word("4"), Ok(()));
    assert_eq!(f.exec_word("+"), Ok(()));
    assert_eq!(f.top(), Ok(7));
    assert_eq!(f.exec_word("zap"), Err(ForthError::UnknownWord("zap".to_string())));
}

#[test]
fn native_takes_precedence_over_body() {
    let mut f = Forth::new();
    f.add_word(Word::new("both").body("99").func(Native::Add));
    f.push(1);
    f.push(2);
    assert_eq!(f.exec("both"), Ok(()));
    assert_eq!(drain(&mut f), vec![3]);
}

#[test]
fn word_builder_sets_fields() {
    let w = Word::new("sq").body("dup *");
    assert_eq!(w.name, "sq");
    assert_eq!(w.body, "dup *");
    assert_eq!(w.func, None);
    let n = Word::new("p").func(Native::Print);
    assert_eq!(n.body, "");
    assert_eq!(n.func, Some(Native::Print));
}

#[test]
fn unterminated_definition_is_dropped() {
    let mut f = with_builtins();
    assert_eq!(f.exec(": x 1"), Ok(()));
    assert_eq!(f.exec("x"), Err(ForthError::UnknownWord("x".to_string())));
}

#[test]
fn body_with_several_tokens() {
    let mut f = with_builtins();
    assert_eq!(f.exec(": three 1 1 + 1 + ;"), Ok(()));
    assert_eq!(f.exec("three three +"), Ok(()));
    assert_eq!(drain(&mut f), vec![6]);
}

#[test]
fn direct_native_call() {
    let mut f = Forth::default();
    f.push(20);
    f.push(22);
    assert_eq!(f.apply_native(Native::Add), Ok(()));
    assert_eq!(f.apply_native(Native::Print), Ok(()));
    assert_eq!(f.take_output(), vec![42]);
}
