use brainrust::lexer::{lex, render, tokenize};
use brainrust::token::{char_to_token, BfError, Token};

#[test]
fn char_to_token_maps_each_symbol() {
    assert_eq!(char_to_token(&'>'), Some(Token::MoveRight));
    assert_eq!(char_to_token(&'<'), Some(Token::MoveLeft));
    assert_eq!(char_to_token(&'+'), Some(Token::Increment));
    assert_eq!(char_to_token(&'-'), Some(Token::Decrement));
    assert_eq!(char_to_token(&'.'), Some(Token::Output));
    assert_eq!(char_to_token(&','), Some(Token::Input));
    assert_eq!(char_to_token(&'['), Some(Token::LoopOpen(0)));
    assert_eq!(char_to_token(&']'), Some(Token::LoopClose(0)));
}

#[test]
fn char_to_token_rejects_other_characters() {
    assert_eq!(char_to_token(&'a'), None);
    assert_eq!(char_to_token(&' '), None);
    assert_eq!(char_to_token(&'\n'), None);
    assert_eq!(char_to_token(&'é'), None);
}

#[test]
fn lex_drops_everything_outside_the_language() {
    let p = lex("a+ b-\n[x]\t.,<>#");
    assert_eq!(
        p,
        vec![
            Token::Increment,
            Token::Decrement,
            Token::LoopOpen(0),
            Token::LoopClose(0),
            Token::Output,
            Token::Input,
            Token::MoveLeft,
            Token::MoveRight,
        ]
    );
}

#[test]
fn lex_empty_text() {
    assert_eq!(lex(""), Vec::<Token>::new());
}

#[test]
fn lex_text_without_language_characters_is_empty() {
    assert_eq!(lex("hello world\nno symbols here!"), Vec::<Token>::new());
}

#[test]
fn render_writes_one_character_per_instruction() {
    let p = vec![Token::Increment, Token::LoopOpen(3), Token::MoveLeft, Token::LoopClose(1), Token::Output];
    assert_eq!(render(&p), "+[<].");
}

#[test]
fn lexing_rendered_program_gives_it_back() {
    let p = lex("comment +[->+<] more ,. text >>");
    let text = render(&p);
    assert_eq!(text, "+[->+<],.>>");
    assert_eq!(lex(&text), p);
}

#[test]
fn tokenize_resolves_loops() {
    let p = tokenize("+[-]").unwrap();
    assert_eq!(p, vec![Token::Increment, Token::LoopOpen(3), Token::Decrement, Token::LoopClose(1)]);
}

#[test]
fn tokenize_reports_unmatched_bracket() {
    assert_eq!(tokenize("+[-"), Err(BfError::UnmatchedOpen(1)));
    assert_eq!(tokenize("+-]"), Err(BfError::UnmatchedClose(2)));
}
