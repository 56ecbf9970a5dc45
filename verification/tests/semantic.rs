use minilang::semantic_tokens::{
    to_semantic_tokens, to_token_type, Position, Range, RangedTokenType, SemanticToken,
};
use minilang::tokens::Token;

fn ranged(token_type: u32, line: u32, from: u32, to: u32) -> RangedTokenType {
    RangedTokenType {
        token_type,
        range: Range {
            start: Position { line, character: from },
            end: Position { line, character: to },
        },
    }
}

#[test]
fn token_categories() {
    assert_eq!(to_token_type(&Token::Fn), Some("keyword".to_string()));
    assert_eq!(to_token_type(&Token::Var), Some("keyword".to_string()));
    assert_eq!(to_token_type(&Token::If), Some("keyword".to_string()));
    assert_eq!(to_token_type(&Token::Else), Some("keyword".to_string()));
    assert_eq!(to_token_type(&Token::Return), Some("keyword".to_string()));
    assert_eq!(
        to_token_type(&Token::Ident("x".to_string())),
        Some("variable".to_string())
    );
    assert_eq!(
        to_token_type(&Token::Num("1".to_string())),
        Some("number".to_string())
    );
    assert_eq!(
        to_token_type(&Token::Op("+".to_string())),
        Some("operator".to_string())
    );
    assert_eq!(
        to_token_type(&Token::Comment("// c".to_string())),
        Some("comment".to_string())
    );
    assert_eq!(to_token_type(&Token::Ctrl('(')), None);
}

#[test]
fn semantic_tokens_relative_encoding() {
    let types = vec![ranged(5, 0, 0, 2), ranged(1, 0, 3, 4), ranged(2, 1, 0, 6)];
    let out = to_semantic_tokens(types);
    assert_eq!(
        out[0],
        SemanticToken {
            delta_line: 0,
            delta_start: 0,
            length: 2,
            token_type: 5,
            token_modifiers_bitset: 0
        }
    );
    // same line: character delta against the previous record's start
    assert_eq!(
        out[1],
        SemanticToken {
            delta_line: 0,
            delta_start: 3,
            length: 1,
            token_type: 1,
            token_modifiers_bitset: 0
        }
    );
    // new line: absolute character offset
    assert_eq!(
        out[2],
        SemanticToken {
            delta_line: 1,
            delta_start: 0,
            length: 6,
            token_type: 2,
            token_modifiers_bitset: 0
        }
    );
}
