//! Kind numbers of syntax nodes and tokens.
//!
//! They are the numbers that `u16::from` gives for the variants of
//! `compactp_syntax::SyntaxKind` with the same names.

use vstd::prelude::*;

verus! {

pub const WHITESPACE: u16 = 0;

pub const LINE_COMMENT: u16 = 1;

pub const BLOCK_COMMENT: u16 = 2;

pub const STRING_LIT: u16 = 7;

pub const TRUE_KW: u16 = 9;

pub const FALSE_KW: u16 = 10;

pub const EXPORT_KW: u16 = 16;

pub const AS_KW: u16 = 33;

pub const EQ_EQ: u16 = 54;

pub const BANG_EQ: u16 = 55;

pub const LT: u16 = 56;

pub const LT_EQ: u16 = 57;

pub const GT: u16 = 58;

pub const GT_EQ: u16 = 59;

pub const AMP_AMP: u16 = 60;

pub const PIPE_PIPE: u16 = 61;

pub const PLUS: u16 = 62;

pub const MINUS: u16 = 63;

pub const STAR: u16 = 64;

pub const SLASH: u16 = 65;

pub const DOT: u16 = 69;

pub const L_PAREN: u16 = 72;

pub const L_BRACE: u16 = 74;

pub const HASH: u16 = 81;

pub const IDENT: u16 = 82;

pub const SOURCE_FILE: u16 = 85;

pub const PRAGMA: u16 = 86;

pub const INCLUDE: u16 = 87;

pub const IMPORT: u16 = 88;

pub const IMPORT_SPECIFIER: u16 = 89;

pub const EXPORT_LIST: u16 = 91;

pub const MODULE_DEF: u16 = 92;

pub const LEDGER_DECL: u16 = 93;

pub const CONSTRUCTOR_DEF: u16 = 94;

pub const CIRCUIT_DEF: u16 = 95;

pub const CIRCUIT_DECL: u16 = 96;

pub const WITNESS_DECL: u16 = 97;

pub const CONTRACT_DECL: u16 = 98;

pub const CONTRACT_CIRCUIT: u16 = 99;

pub const STRUCT_DEF: u16 = 100;

pub const STRUCT_FIELD: u16 = 101;

pub const ENUM_DEF: u16 = 102;

pub const ENUM_VARIANT: u16 = 103;

pub const TYPE_DECL: u16 = 104;

pub const TYPE_REF: u16 = 105;

pub const BOOLEAN_TYPE: u16 = 106;

pub const FIELD_TYPE: u16 = 107;

pub const UINT_TYPE: u16 = 108;

pub const UNSIGNED_INTEGER_TYPE: u16 = 109;

pub const BYTES_TYPE: u16 = 110;

pub const OPAQUE_TYPE: u16 = 111;

pub const VECTOR_TYPE: u16 = 112;

pub const TUPLE_TYPE: u16 = 113;

pub const RECORD_TYPE: u16 = 114;

pub const GENERIC_ARG_LIST: u16 = 115;

pub const GENERIC_ARG: u16 = 116;

pub const GENERIC_PARAM_LIST: u16 = 117;

pub const GENERIC_PARAM: u16 = 118;

pub const TYPE_SIZE: u16 = 119;

pub const IDENT_PAT: u16 = 120;

pub const TUPLE_PAT: u16 = 121;

pub const TUPLE_PAT_ELT: u16 = 122;

pub const STRUCT_PAT: u16 = 123;

pub const STRUCT_PAT_FIELD: u16 = 124;

pub const BLOCK: u16 = 126;

pub const ASSIGN_STMT: u16 = 127;

pub const EXPR_STMT: u16 = 130;

pub const RETURN_STMT: u16 = 131;

pub const IF_STMT: u16 = 132;

pub const FOR_STMT: u16 = 133;

pub const ASSERT_STMT: u16 = 134;

pub const CONST_STMT: u16 = 135;

pub const MULTI_CONST_STMT: u16 = 136;

pub const LITERAL_EXPR: u16 = 137;

pub const NAME_EXPR: u16 = 138;

pub const TERNARY_EXPR: u16 = 139;

pub const BINARY_EXPR: u16 = 140;

pub const UNARY_EXPR: u16 = 141;

pub const CAST_EXPR: u16 = 142;

pub const CALL_EXPR: u16 = 143;

pub const MEMBER_EXPR: u16 = 144;

pub const INDEX_EXPR: u16 = 145;

pub const PAREN_EXPR: u16 = 146;

pub const ARRAY_EXPR: u16 = 148;

pub const BYTES_EXPR: u16 = 149;

pub const SPREAD_EXPR: u16 = 150;

pub const STRUCT_EXPR: u16 = 151;

pub const STRUCT_FIELD_INIT: u16 = 152;

pub const STRUCT_UPDATE: u16 = 153;

pub const DEFAULT_EXPR: u16 = 154;

pub const MAP_EXPR: u16 = 155;

pub const FOLD_EXPR: u16 = 156;

pub const DISCLOSE_EXPR: u16 = 157;

pub const PAD_EXPR: u16 = 158;

pub const SLICE_EXPR: u16 = 159;

pub const LAMBDA_EXPR: u16 = 160;

pub const PARAM_LIST: u16 = 161;

pub const PARAM: u16 = 162;

pub const PREFIX_DECL: u16 = 164;

/// Whether `kind` is whitespace or a comment.
pub open spec fn trivia(kind: u16) -> bool {
    kind == WHITESPACE || kind == LINE_COMMENT || kind == BLOCK_COMMENT
}

/// Whether `kind` is whitespace or a comment.
pub fn is_trivia(kind: u16) -> (r: bool)
    ensures
        r == trivia(kind),
{
    kind == WHITESPACE || kind == LINE_COMMENT || kind == BLOCK_COMMENT
}

/// A family of node kinds.
#[derive(Clone, Copy, Debug, PartialEq, Eq, Structural)]
pub enum Class {
    /// One kind.
    Kind(u16),
    /// Any expression.
    Expr,
    /// Any type.
    Type,
    /// Any pattern.
    Pat,
    /// Any statement.
    Stmt,
    /// Any top-level item.
    Item,
    /// Any node.
    Any,
}

/// Whether `k` belongs to `class`.
pub open spec fn in_class(class: Class, k: u16) -> bool {
    match class {
        Class::Kind(x) => k == x,
        Class::Expr => k == LITERAL_EXPR
            || k == NAME_EXPR
            || k == TERNARY_EXPR
            || k == BINARY_EXPR
            || k == UNARY_EXPR
            || k == CAST_EXPR
            || k == CALL_EXPR
            || k == MEMBER_EXPR
            || k == INDEX_EXPR
            || k == ARRAY_EXPR
            || k == BYTES_EXPR
            || k == SPREAD_EXPR
            || k == STRUCT_EXPR
            || k == DEFAULT_EXPR
            || k == MAP_EXPR
            || k == FOLD_EXPR
            || k == DISCLOSE_EXPR
            || k == PAD_EXPR
            || k == SLICE_EXPR
            || k == LAMBDA_EXPR
            || k == PAREN_EXPR,
        Class::Type => k == TYPE_REF
            || k == BOOLEAN_TYPE
            || k == FIELD_TYPE
            || k == UINT_TYPE
            || k == BYTES_TYPE
            || k == OPAQUE_TYPE
            || k == VECTOR_TYPE
            || k == TUPLE_TYPE
            || k == UNSIGNED_INTEGER_TYPE
            || k == RECORD_TYPE,
        Class::Pat => k == IDENT_PAT
            || k == TUPLE_PAT
            || k == STRUCT_PAT,
        Class::Stmt => k == BLOCK
            || k == ASSIGN_STMT
            || k == CONST_STMT
            || k == MULTI_CONST_STMT
            || k == EXPR_STMT
            || k == RETURN_STMT
            || k == IF_STMT
            || k == FOR_STMT
            || k == ASSERT_STMT,
        Class::Item => k == PRAGMA
            || k == INCLUDE
            || k == IMPORT
            || k == EXPORT_LIST
            || k == LEDGER_DECL
            || k == CONSTRUCTOR_DEF
            || k == CIRCUIT_DEF
            || k == CIRCUIT_DECL
            || k == WITNESS_DECL
            || k == CONTRACT_DECL
            || k == STRUCT_DEF
            || k == ENUM_DEF
            || k == MODULE_DEF
            || k == TYPE_DECL,
        Class::Any => true,
    }
}

/// Whether `k` belongs to `class`.
pub fn is_in_class(class: Class, k: u16) -> (r: bool)
    ensures
        r == in_class(class, k),
{
    match class {
        Class::Kind(x) => k == x,
        Class::Expr => k == LITERAL_EXPR
            || k == NAME_EXPR
            || k == TERNARY_EXPR
            || k == BINARY_EXPR
            || k == UNARY_EXPR
            || k == CAST_EXPR
            || k == CALL_EXPR
            || k == MEMBER_EXPR
            || k == INDEX_EXPR
            || k == ARRAY_EXPR
            || k == BYTES_EXPR
            || k == SPREAD_EXPR
            || k == STRUCT_EXPR
            || k == DEFAULT_EXPR
            || k == MAP_EXPR
            || k == FOLD_EXPR
            || k == DISCLOSE_EXPR
            || k == PAD_EXPR
            || k == SLICE_EXPR
            || k == LAMBDA_EXPR
            || k == PAREN_EXPR,
        Class::Type => k == TYPE_REF
            || k == BOOLEAN_TYPE
            || k == FIELD_TYPE
            || k == UINT_TYPE
            || k == BYTES_TYPE
            || k == OPAQUE_TYPE
            || k == VECTOR_TYPE
            || k == TUPLE_TYPE
            || k == UNSIGNED_INTEGER_TYPE
            || k == RECORD_TYPE,
        Class::Pat => k == IDENT_PAT
            || k == TUPLE_PAT
            || k == STRUCT_PAT,
        Class::Stmt => k == BLOCK
            || k == ASSIGN_STMT
            || k == CONST_STMT
            || k == MULTI_CONST_STMT
            || k == EXPR_STMT
            || k == RETURN_STMT
            || k == IF_STMT
            || k == FOR_STMT
            || k == ASSERT_STMT,
        Class::Item => k == PRAGMA
            || k == INCLUDE
            || k == IMPORT
            || k == EXPORT_LIST
            || k == LEDGER_DECL
            || k == CONSTRUCTOR_DEF
            || k == CIRCUIT_DEF
            || k == CIRCUIT_DECL
            || k == WITNESS_DECL
            || k == CONTRACT_DECL
            || k == STRUCT_DEF
            || k == ENUM_DEF
            || k == MODULE_DEF
            || k == TYPE_DECL,
        Class::Any => true,
    }
}

} // verus!
