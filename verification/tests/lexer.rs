use delta_inc::diff::VecDelta;
use delta_inc::lex::{Span, Tokenisation, TokenIterator, Tokeniser};

#[derive(Clone, Copy, Debug, PartialEq)]
enum Kind {
    Identifier,
    LeftBrace,
    Number,
    RightBrace,
}

#[derive(Clone, Copy, Debug, PartialEq)]
struct Token {
    kind: Kind,
    start: usize,
    end: usize,
}

impl Span for Token {
    fn start(&self) -> usize {
        self.start
    }

    fn end(&self) -> usize {
        self.end
    }
}

fn is_identifier_start(c: char) -> bool {
    c.is_ascii_alphabetic() || c == '_'
}

fn is_identifier_middle(c: char) -> bool {
    c.is_ascii_digit() || is_identifier_start(c)
}

/// A lexer recognising braces, digit runs and identifier runs.
struct Lexer;

impl Tokeniser for Lexer {
    type Input = char;
    type Output = Token;
    type Error = ();

    fn scan(&self, seq: &[char], index: usize) -> Result<Token, ()> {
        if index >= seq.len() {
            return Err(());
        }
        let c = seq[index];
        if c == '(' {
            Ok(Token { kind: Kind::LeftBrace, start: index, end: index })
        } else if c == ')' {
            Ok(Token { kind: Kind::RightBrace, start: index, end: index })
        } else if c.is_ascii_digit() {
            let mut end = index;
            while end + 1 < seq.len() && seq[end + 1].is_ascii_digit() {
                end += 1;
            }
            Ok(Token { kind: Kind::Number, start: index, end })
        } else if is_identifier_start(c) {
            let mut end = index;
            while end + 1 < seq.len() && is_identifier_middle(seq[end + 1]) {
                end += 1;
            }
            Ok(Token { kind: Kind::Identifier, start: index, end })
        } else {
            Err(())
        }
    }
}

fn tokens(t: &Tokenisation<Lexer>) -> Vec<Token> {
    let mut it = t.iter();
    let mut out = Vec::new();
    while let Some(tok) = it.next() {
        out.push(tok);
    }
    out
}

#[test]
fn test_tokenisation_01() {
    let t = Tokenisation::new(vec!['(', '1', '2', '3', ')'], Lexer).unwrap();
    assert!(t.validate().is_ok());
    let toks = tokens(&t);
    assert_eq!(
        toks,
        vec![
            Token { kind: Kind::LeftBrace, start: 0, end: 0 },
            Token { kind: Kind::Number, start: 1, end: 3 },
            Token { kind: Kind::RightBrace, start: 4, end: 4 },
        ]
    );
}

#[test]
fn test_tokenisation_02() {
    // An unknown character fails construction.
    assert!(Tokenisation::new(vec!['a', '*'], Lexer).is_err());
}

#[test]
fn test_tokenisation_03() {
    // Insert a digit before an identifier: the digit becomes its own
    // token and the identifier shifts right.
    let mut t = Tokenisation::new(vec!['a', 'b'], Lexer).unwrap();
    assert_eq!(
        tokens(&t),
        vec![Token { kind: Kind::Identifier, start: 0, end: 1 }]
    );
    let mut d = VecDelta::new();
    d.push_raw(0..0, &['1']);
    assert!(t.transform(&d).is_ok());
    assert!(t.validate().is_ok());
    assert_eq!(
        tokens(&t),
        vec![
            Token { kind: Kind::Number, start: 0, end: 0 },
            Token { kind: Kind::Identifier, start: 1, end: 2 },
        ]
    );
    // Inserting an unknown character surfaces the tokeniser's error.
    let mut d2 = VecDelta::new();
    d2.push_raw(0..0, &['*']);
    assert!(t.transform(&d2).is_err());
}

#[test]
fn test_tokenisation_04() {
    // Replace the middle of a number with letters: the trailing digit
    // is swallowed by the new identifier run.
    let mut t = Tokenisation::new(vec!['1', '2', '3', '4'], Lexer).unwrap();
    let mut d = VecDelta::new();
    d.push_raw(1..3, &['a', 'b']);
    assert!(t.transform(&d).is_ok());
    assert!(t.validate().is_ok());
    assert_eq!(
        tokens(&t),
        vec![
            Token { kind: Kind::Number, start: 0, end: 0 },
            Token { kind: Kind::Identifier, start: 1, end: 3 },
        ]
    );
}

#[test]
fn test_token_iterator_01() {
    let items = vec!['0', '1', '2', '3', '(', 'a', 'b', 'c'];
    let lexer = Lexer;
    let mut it = TokenIterator::new(&items, &lexer);
    assert_eq!(it.next(), Some(Token { kind: Kind::Number, start: 0, end: 3 }));
    assert_eq!(it.next(), Some(Token { kind: Kind::LeftBrace, start: 4, end: 4 }));
    assert_eq!(it.next(), Some(Token { kind: Kind::Identifier, start: 5, end: 7 }));
    assert_eq!(it.next(), None);
}

#[test]
fn test_token_iterator_02() {
    // Iteration stops at an unknown character, treating it as
    // end-of-stream.
    let items = vec!['a', '+', '1'];
    let lexer = Lexer;
    let mut it = TokenIterator::new(&items, &lexer);
    assert_eq!(it.next(), Some(Token { kind: Kind::Identifier, start: 0, end: 0 }));
    assert_eq!(it.next(), None);
    assert_eq!(it.next(), None);
}
