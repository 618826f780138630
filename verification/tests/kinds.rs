//! Tests that the numbers of node and token kinds are those of the parser.

use analyzer_core::kinds;
use analyzer_core::kinds::{is_in_class, is_trivia, Class};
use compactp_ast::AstNode;
use compactp_syntax::SyntaxKind;

/// The number of a kind.
fn number(kind: SyntaxKind) -> u16 {
    kind.into()
}

/// Every kind there is.
fn all() -> Vec<SyntaxKind> {
    (0..=number(SyntaxKind::VERSION_PAREN_EXPR))
        .map(SyntaxKind::from)
        .collect()
}

#[test]
fn kinds_have_the_numbers_of_the_parser() {
    assert_eq!(kinds::WHITESPACE, number(SyntaxKind::WHITESPACE));
    assert_eq!(kinds::LINE_COMMENT, number(SyntaxKind::LINE_COMMENT));
    assert_eq!(kinds::BLOCK_COMMENT, number(SyntaxKind::BLOCK_COMMENT));
    assert_eq!(kinds::STRING_LIT, number(SyntaxKind::STRING_LIT));
    assert_eq!(kinds::TRUE_KW, number(SyntaxKind::TRUE_KW));
    assert_eq!(kinds::FALSE_KW, number(SyntaxKind::FALSE_KW));
    assert_eq!(kinds::EXPORT_KW, number(SyntaxKind::EXPORT_KW));
    assert_eq!(kinds::AS_KW, number(SyntaxKind::AS_KW));
    assert_eq!(kinds::EQ_EQ, number(SyntaxKind::EQ_EQ));
    assert_eq!(kinds::BANG_EQ, number(SyntaxKind::BANG_EQ));
    assert_eq!(kinds::LT, number(SyntaxKind::LT));
    assert_eq!(kinds::LT_EQ, number(SyntaxKind::LT_EQ));
    assert_eq!(kinds::GT, number(SyntaxKind::GT));
    assert_eq!(kinds::GT_EQ, number(SyntaxKind::GT_EQ));
    assert_eq!(kinds::AMP_AMP, number(SyntaxKind::AMP_AMP));
    assert_eq!(kinds::PIPE_PIPE, number(SyntaxKind::PIPE_PIPE));
    assert_eq!(kinds::PLUS, number(SyntaxKind::PLUS));
    assert_eq!(kinds::MINUS, number(SyntaxKind::MINUS));
    assert_eq!(kinds::STAR, number(SyntaxKind::STAR));
    assert_eq!(kinds::SLASH, number(SyntaxKind::SLASH));
    assert_eq!(kinds::DOT, number(SyntaxKind::DOT));
    assert_eq!(kinds::L_PAREN, number(SyntaxKind::L_PAREN));
    assert_eq!(kinds::L_BRACE, number(SyntaxKind::L_BRACE));
    assert_eq!(kinds::HASH, number(SyntaxKind::HASH));
    assert_eq!(kinds::IDENT, number(SyntaxKind::IDENT));
    assert_eq!(kinds::SOURCE_FILE, number(SyntaxKind::SOURCE_FILE));
    assert_eq!(kinds::PRAGMA, number(SyntaxKind::PRAGMA));
    assert_eq!(kinds::INCLUDE, number(SyntaxKind::INCLUDE));
    assert_eq!(kinds::IMPORT, number(SyntaxKind::IMPORT));
    assert_eq!(kinds::IMPORT_SPECIFIER, number(SyntaxKind::IMPORT_SPECIFIER));
    assert_eq!(kinds::EXPORT_LIST, number(SyntaxKind::EXPORT_LIST));
    assert_eq!(kinds::MODULE_DEF, number(SyntaxKind::MODULE_DEF));
    assert_eq!(kinds::LEDGER_DECL, number(SyntaxKind::LEDGER_DECL));
    assert_eq!(kinds::CONSTRUCTOR_DEF, number(SyntaxKind::CONSTRUCTOR_DEF));
    assert_eq!(kinds::CIRCUIT_DEF, number(SyntaxKind::CIRCUIT_DEF));
    assert_eq!(kinds::CIRCUIT_DECL, number(SyntaxKind::CIRCUIT_DECL));
    assert_eq!(kinds::WITNESS_DECL, number(SyntaxKind::WITNESS_DECL));
    assert_eq!(kinds::CONTRACT_DECL, number(SyntaxKind::CONTRACT_DECL));
    assert_eq!(kinds::CONTRACT_CIRCUIT, number(SyntaxKind::CONTRACT_CIRCUIT));
    assert_eq!(kinds::STRUCT_DEF, number(SyntaxKind::STRUCT_DEF));
    assert_eq!(kinds::STRUCT_FIELD, number(SyntaxKind::STRUCT_FIELD));
    assert_eq!(kinds::ENUM_DEF, number(SyntaxKind::ENUM_DEF));
    assert_eq!(kinds::ENUM_VARIANT, number(SyntaxKind::ENUM_VARIANT));
    assert_eq!(kinds::TYPE_DECL, number(SyntaxKind::TYPE_DECL));
    assert_eq!(kinds::TYPE_REF, number(SyntaxKind::TYPE_REF));
    assert_eq!(kinds::BOOLEAN_TYPE, number(SyntaxKind::BOOLEAN_TYPE));
    assert_eq!(kinds::FIELD_TYPE, number(SyntaxKind::FIELD_TYPE));
    assert_eq!(kinds::UINT_TYPE, number(SyntaxKind::UINT_TYPE));
    assert_eq!(kinds::UNSIGNED_INTEGER_TYPE, number(SyntaxKind::UNSIGNED_INTEGER_TYPE));
    assert_eq!(kinds::BYTES_TYPE, number(SyntaxKind::BYTES_TYPE));
    assert_eq!(kinds::OPAQUE_TYPE, number(SyntaxKind::OPAQUE_TYPE));
    assert_eq!(kinds::VECTOR_TYPE, number(SyntaxKind::VECTOR_TYPE));
    assert_eq!(kinds::TUPLE_TYPE, number(SyntaxKind::TUPLE_TYPE));
    assert_eq!(kinds::RECORD_TYPE, number(SyntaxKind::RECORD_TYPE));
    assert_eq!(kinds::GENERIC_ARG_LIST, number(SyntaxKind::GENERIC_ARG_LIST));
    assert_eq!(kinds::GENERIC_ARG, number(SyntaxKind::GENERIC_ARG));
    assert_eq!(kinds::GENERIC_PARAM_LIST, number(SyntaxKind::GENERIC_PARAM_LIST));
    assert_eq!(kinds::GENERIC_PARAM, number(SyntaxKind::GENERIC_PARAM));
    assert_eq!(kinds::TYPE_SIZE, number(SyntaxKind::TYPE_SIZE));
    assert_eq!(kinds::IDENT_PAT, number(SyntaxKind::IDENT_PAT));
    assert_eq!(kinds::TUPLE_PAT, number(SyntaxKind::TUPLE_PAT));
    assert_eq!(kinds::TUPLE_PAT_ELT, number(SyntaxKind::TUPLE_PAT_ELT));
    assert_eq!(kinds::STRUCT_PAT, number(SyntaxKind::STRUCT_PAT));
    assert_eq!(kinds::STRUCT_PAT_FIELD, number(SyntaxKind::STRUCT_PAT_FIELD));
    assert_eq!(kinds::BLOCK, number(SyntaxKind::BLOCK));
    assert_eq!(kinds::ASSIGN_STMT, number(SyntaxKind::ASSIGN_STMT));
    assert_eq!(kinds::EXPR_STMT, number(SyntaxKind::EXPR_STMT));
    assert_eq!(kinds::RETURN_STMT, number(SyntaxKind::RETURN_STMT));
    assert_eq!(kinds::IF_STMT, number(SyntaxKind::IF_STMT));
    assert_eq!(kinds::FOR_STMT, number(SyntaxKind::FOR_STMT));
    assert_eq!(kinds::ASSERT_STMT, number(SyntaxKind::ASSERT_STMT));
    assert_eq!(kinds::CONST_STMT, number(SyntaxKind::CONST_STMT));
    assert_eq!(kinds::MULTI_CONST_STMT, number(SyntaxKind::MULTI_CONST_STMT));
    assert_eq!(kinds::LITERAL_EXPR, number(SyntaxKind::LITERAL_EXPR));
    assert_eq!(kinds::NAME_EXPR, number(SyntaxKind::NAME_EXPR));
    assert_eq!(kinds::TERNARY_EXPR, number(SyntaxKind::TERNARY_EXPR));
    assert_eq!(kinds::BINARY_EXPR, number(SyntaxKind::BINARY_EXPR));
    assert_eq!(kinds::UNARY_EXPR, number(SyntaxKind::UNARY_EXPR));
    assert_eq!(kinds::CAST_EXPR, number(SyntaxKind::CAST_EXPR));
    assert_eq!(kinds::CALL_EXPR, number(SyntaxKind::CALL_EXPR));
    assert_eq!(kinds::MEMBER_EXPR, number(SyntaxKind::MEMBER_EXPR));
    assert_eq!(kinds::INDEX_EXPR, number(SyntaxKind::INDEX_EXPR));
    assert_eq!(kinds::PAREN_EXPR, number(SyntaxKind::PAREN_EXPR));
    assert_eq!(kinds::ARRAY_EXPR, number(SyntaxKind::ARRAY_EXPR));
    assert_eq!(kinds::BYTES_EXPR, number(SyntaxKind::BYTES_EXPR));
    assert_eq!(kinds::SPREAD_EXPR, number(SyntaxKind::SPREAD_EXPR));
    assert_eq!(kinds::STRUCT_EXPR, number(SyntaxKind::STRUCT_EXPR));
    assert_eq!(kinds::STRUCT_FIELD_INIT, number(SyntaxKind::STRUCT_FIELD_INIT));
    assert_eq!(kinds::STRUCT_UPDATE, number(SyntaxKind::STRUCT_UPDATE));
    assert_eq!(kinds::DEFAULT_EXPR, number(SyntaxKind::DEFAULT_EXPR));
    assert_eq!(kinds::MAP_EXPR, number(SyntaxKind::MAP_EXPR));
    assert_eq!(kinds::FOLD_EXPR, number(SyntaxKind::FOLD_EXPR));
    assert_eq!(kinds::DISCLOSE_EXPR, number(SyntaxKind::DISCLOSE_EXPR));
    assert_eq!(kinds::PAD_EXPR, number(SyntaxKind::PAD_EXPR));
    assert_eq!(kinds::SLICE_EXPR, number(SyntaxKind::SLICE_EXPR));
    assert_eq!(kinds::LAMBDA_EXPR, number(SyntaxKind::LAMBDA_EXPR));
    assert_eq!(kinds::PARAM_LIST, number(SyntaxKind::PARAM_LIST));
    assert_eq!(kinds::PARAM, number(SyntaxKind::PARAM));
    assert_eq!(kinds::PREFIX_DECL, number(SyntaxKind::PREFIX_DECL));
}

#[test]
fn trivia_are_the_parser_s() {
    for kind in all() {
        assert_eq!(is_trivia(number(kind)), kind.is_trivia());
    }
}

#[test]
fn classes_hold_what_can_be_cast() {
    for kind in all() {
        let k = number(kind);
        assert_eq!(is_in_class(Class::Expr, k), compactp_ast::expr::Expr::can_cast(kind));
        assert_eq!(is_in_class(Class::Type, k), compactp_ast::Type::can_cast(kind));
        assert_eq!(is_in_class(Class::Pat, k), compactp_ast::Pat::can_cast(kind));
        assert_eq!(is_in_class(Class::Stmt, k), compactp_ast::Stmt::can_cast(kind));
        assert_eq!(is_in_class(Class::Item, k), compactp_ast::Item::can_cast(kind));
        assert!(is_in_class(Class::Any, k));
        assert_eq!(
            is_in_class(Class::Kind(kinds::BLOCK), k),
            kind == SyntaxKind::BLOCK
        );
    }
}
