//! What the node kinds of the grammars are in the languages they parse.
//!
//! [`crate::languages`] has a table for every language. Here the same is said the other
//! way round, of the kinds: which of them form a function in which grammar, which open a
//! scope, which name something, which write a literal and which are comments. The two
//! agree, for every kind there is.

use vstd::prelude::*;
use vstd::string::*;

use crate::extract::{
    extraction_of, forms_unit, lemma_every_unit_is_extracted, lies_under, named_under,
    tells_every_unit, tells_node, UnitView,
};
use crate::lang::{
    claiming, language_of, lookup, named, registry, Grammar, LanguageView, LiteralTag, Role,
    OPERATOR_TOKENS,
};
use crate::languages::{
    c_tables, cpp_tables, csharp_tables, go_tables, java_tables, javascript_tables, php_tables,
    python_tables, ruby_tables, rust_tables, tsx_tables, typescript_tables,
};
use crate::path::lemma_extension_follows_the_last_dot;
use crate::sort::views;
use crate::syntax::NodeView;
use crate::text::{ascii_lowered, lacks, lemma_lower_case_changes_capital_letters};
use crate::vocab::source_extension;

verus! {

// ------------------------------------------------------------------------- meanings

/// Nodes of this kind form a function in the grammar: functions and methods that are
/// declared, and those that are written in place, such as lambdas, closures, arrow
/// functions and blocks.
pub open spec fn forms_function(g: Grammar, kind: Seq<char>) -> bool {
    ||| (g is C || g is Cpp || g is Php || g is Python) && kind == "function_definition"@
    ||| (g is Cpp || g is CSharp || g is Java) && kind == "lambda_expression"@
    ||| (g is CSharp || g is Go || g is Java || g is Php) && kind == "method_declaration"@
    ||| (g is CSharp || g is Java) && kind == "constructor_declaration"@
    ||| g is CSharp && (kind == "local_function_statement"@
        || kind == "anonymous_method_expression"@)
    ||| (g is Go || g is JavaScript || g is Tsx || g is TypeScript)
        && kind == "function_declaration"@
    ||| g is Go && kind == "func_literal"@
    ||| (g is JavaScript || g is Tsx || g is TypeScript)
        && (kind == "generator_function_declaration"@ || kind == "function_expression"@
        || kind == "method_definition"@)
    ||| (g is JavaScript || g is Php || g is Tsx || g is TypeScript) && kind == "arrow_function"@
    ||| g is Php && kind == "anonymous_function"@
    ||| g is Ruby && (kind == "method"@ || kind == "singleton_method"@ || kind == "lambda"@
        || kind == "block"@ || kind == "do_block"@)
    ||| g is Rust && (kind == "function_item"@ || kind == "closure_expression"@)
}

/// Nodes of this kind give their name to what lies in them: types and modules, and
/// functions that are declared.
pub open spec fn opens_scope(g: Grammar, kind: Seq<char>) -> bool {
    ||| (g is C || g is Cpp) && (kind == "struct_specifier"@ || kind == "union_specifier"@
        || kind == "enum_specifier"@)
    ||| (g is C || g is Cpp || g is Php || g is Python) && kind == "function_definition"@
    ||| g is Cpp && kind == "class_specifier"@
    ||| (g is Cpp || g is Php) && kind == "namespace_definition"@
    ||| (g is CSharp || g is Java || g is JavaScript || g is Php || g is Tsx || g is TypeScript)
        && kind == "class_declaration"@
    ||| (g is CSharp || g is Java || g is Php || g is Tsx || g is TypeScript)
        && kind == "interface_declaration"@
    ||| g is CSharp && (kind == "struct_declaration"@ || kind == "namespace_declaration"@
        || kind == "local_function_statement"@)
    ||| (g is CSharp || g is Go || g is Java || g is Php) && kind == "method_declaration"@
    ||| (g is CSharp || g is Java) && kind == "constructor_declaration"@
    ||| g is Go && kind == "type_spec"@
    ||| (g is Go || g is JavaScript || g is Tsx || g is TypeScript)
        && kind == "function_declaration"@
    ||| (g is Java || g is Php) && kind == "enum_declaration"@
    ||| (g is JavaScript || g is Tsx || g is TypeScript) && (kind == "variable_declarator"@
        || kind == "generator_function_declaration"@ || kind == "method_definition"@)
    ||| g is Php && kind == "trait_declaration"@
    ||| g is Python && kind == "class_definition"@
    ||| g is Ruby && (kind == "module"@ || kind == "class"@ || kind == "method"@
        || kind == "singleton_method"@)
    ||| g is Rust && (kind == "struct_item"@ || kind == "trait_item"@ || kind == "impl_item"@
        || kind == "mod_item"@ || kind == "function_item"@)
    ||| (g is Tsx || g is TypeScript) && kind == "internal_module"@
}

/// What a node of this kind is called stands under this field: under the declarator of a
/// C function, under the type of a Rust implementation, and under the name of anything
/// else.
pub open spec fn is_named_under(g: Grammar, kind: Seq<char>, field: Seq<char>) -> bool {
    if (g is C || g is Cpp) && kind == "function_definition"@ {
        field == "declarator"@
    } else if g is Rust && kind == "impl_item"@ {
        field == "type"@
    } else {
        field == "name"@
    }
}

/// Nodes of this kind are names that someone chose.
pub open spec fn is_name(g: Grammar, kind: Seq<char>) -> bool {
    ||| (g is C || g is Cpp || g is CSharp || g is Go || g is Java || g is JavaScript
        || g is Python || g is Ruby || g is Rust || g is Tsx || g is TypeScript)
        && kind == "identifier"@
    ||| (g is C || g is Cpp || g is Go || g is Rust) && kind == "field_identifier"@
    ||| (g is C || g is Cpp || g is Go || g is Java || g is Rust || g is Tsx || g is TypeScript)
        && kind == "type_identifier"@
    ||| (g is C || g is Cpp) && kind == "statement_identifier"@
    ||| g is Cpp && kind == "namespace_identifier"@
    ||| g is Go && (kind == "package_identifier"@ || kind == "blank_identifier"@)
    ||| (g is JavaScript || g is Tsx || g is TypeScript) && (kind == "property_identifier"@
        || kind == "private_property_identifier"@ || kind == "shorthand_property_identifier"@
        || kind == "shorthand_property_identifier_pattern"@)
    ||| g is Php && kind == "name"@
    ||| g is Ruby && (kind == "constant"@ || kind == "instance_variable"@
        || kind == "class_variable"@ || kind == "global_variable"@)
    ||| g is Rust && kind == "shorthand_field_identifier"@
}

/// Nodes of this kind write a literal of this sort.
pub open spec fn writes_literal(g: Grammar, kind: Seq<char>, tag: LiteralTag) -> bool {
    ||| (g is C || g is Cpp) && kind == "number_literal"@ && tag is Number
    ||| (g is C || g is Cpp || g is CSharp || g is Java || g is Rust) && kind == "string_literal"@
        && tag is String
    ||| (g is C || g is Cpp || g is Rust) && kind == "char_literal"@ && tag is String
    ||| (g is C || g is Cpp || g is Go || g is Java || g is JavaScript || g is Python || g is Ruby
        || g is Tsx || g is TypeScript) && (kind == "true"@ || kind == "false"@) && tag is Boolean
    ||| (g is C || g is Cpp || g is JavaScript || g is Php || g is Tsx || g is TypeScript)
        && kind == "null"@ && tag is Nil
    ||| (g is Cpp || g is CSharp || g is Go || g is Rust) && kind == "raw_string_literal"@
        && tag is String
    ||| (g is CSharp || g is Rust) && kind == "integer_literal"@ && tag is Number
    ||| g is CSharp && kind == "real_literal"@ && tag is Number
    ||| g is CSharp && kind == "verbatim_string_literal"@ && tag is String
    ||| (g is CSharp || g is Java) && kind == "character_literal"@ && tag is String
    ||| (g is CSharp || g is Rust) && kind == "boolean_literal"@ && tag is Boolean
    ||| (g is CSharp || g is Java) && kind == "null_literal"@ && tag is Nil
    ||| g is Go && (kind == "int_literal"@ || kind == "imaginary_literal"@) && tag is Number
    ||| (g is Go || g is Rust) && kind == "float_literal"@ && tag is Number
    ||| g is Go && (kind == "interpreted_string_literal"@ || kind == "rune_literal"@)
        && tag is String
    ||| (g is Go || g is Ruby) && kind == "nil"@ && tag is Nil
    ||| g is Java && (kind == "decimal_integer_literal"@ || kind == "hex_integer_literal"@
        || kind == "octal_integer_literal"@ || kind == "binary_integer_literal"@
        || kind == "decimal_floating_point_literal"@ || kind == "hex_floating_point_literal"@)
        && tag is Number
    ||| (g is JavaScript || g is Tsx || g is TypeScript) && kind == "number"@ && tag is Number
    ||| (g is JavaScript || g is Php || g is Python || g is Ruby || g is Tsx || g is TypeScript)
        && kind == "string"@ && tag is String
    ||| (g is JavaScript || g is Tsx || g is TypeScript) && kind == "template_string"@
        && tag is String
    ||| (g is JavaScript || g is Tsx || g is TypeScript) && kind == "regex"@ && tag is Other
    ||| (g is JavaScript || g is Tsx || g is TypeScript) && kind == "undefined"@ && tag is Nil
    ||| (g is Php || g is Python || g is Ruby) && (kind == "integer"@ || kind == "float"@)
        && tag is Number
    ||| g is Php && (kind == "encapsed_string"@ || kind == "heredoc"@ || kind == "nowdoc"@)
        && tag is String
    ||| g is Php && kind == "boolean"@ && tag is Boolean
    ||| g is Python && kind == "concatenated_string"@ && tag is String
    ||| g is Python && kind == "none"@ && tag is Nil
    ||| g is Python && kind == "ellipsis"@ && tag is Other
    ||| g is Ruby && (kind == "simple_symbol"@ || kind == "bare_symbol"@
        || kind == "delimited_symbol"@ || kind == "hash_key_symbol"@) && tag is Other
}

/// Nodes of this kind are comments.
pub open spec fn is_comment(g: Grammar, kind: Seq<char>) -> bool {
    if g is Java || g is Rust {
        kind == "line_comment"@ || kind == "block_comment"@
    } else {
        kind == "comment"@
    }
}

/// Files with this extension, in lower case, are in the language that the grammar parses.
pub open spec fn is_extension(g: Grammar, ext: Seq<char>) -> bool {
    ||| g is C && (ext == "c"@ || ext == "h"@)
    ||| g is Cpp && (ext == "cpp"@ || ext == "cc"@ || ext == "cxx"@ || ext == "hpp"@
        || ext == "hh"@ || ext == "hxx"@)
    ||| g is CSharp && ext == "cs"@
    ||| g is Go && ext == "go"@
    ||| g is Java && ext == "java"@
    ||| g is JavaScript && (ext == "js"@ || ext == "mjs"@ || ext == "cjs"@ || ext == "jsx"@)
    ||| g is Php && ext == "php"@
    ||| g is Python && (ext == "py"@ || ext == "pyi"@)
    ||| g is Ruby && ext == "rb"@
    ||| g is Rust && ext == "rs"@
    ||| g is Tsx && ext == "tsx"@
    ||| g is TypeScript && ext == "ts"@
}

/// What the language that a grammar parses is called.
pub open spec fn is_called(g: Grammar, name: Seq<char>) -> bool {
    ||| g is C && name == "c"@
    ||| g is Cpp && name == "cpp"@
    ||| g is CSharp && name == "csharp"@
    ||| g is Go && name == "go"@
    ||| g is Java && name == "java"@
    ||| g is JavaScript && name == "javascript"@
    ||| g is Php && name == "php"@
    ||| g is Python && name == "python"@
    ||| g is Ruby && name == "ruby"@
    ||| g is Rust && name == "rust"@
    ||| g is Tsx && name == "tsx"@
    ||| g is TypeScript && name == "typescript"@
}

/// A token that computes, compares, combines or assigns: what is not named in a grammar
/// and matters all the same.
pub open spec fn is_operator(kind: Seq<char>) -> bool {
    // arithmetic
    ||| kind == "+"@
    ||| kind == "-"@
    ||| kind == "*"@
    ||| kind == "/"@
    ||| kind == "%"@
    ||| kind == "**"@
    ||| kind == "//"@
    // comparison
    ||| kind == "=="@
    ||| kind == "!="@
    ||| kind == "<"@
    ||| kind == ">"@
    ||| kind == "<="@
    ||| kind == ">="@
    ||| kind == "<=>"@
    ||| kind == "==="@
    ||| kind == "!=="@
    // logic
    ||| kind == "&&"@
    ||| kind == "||"@
    ||| kind == "!"@
    ||| kind == "and"@
    ||| kind == "or"@
    ||| kind == "not"@
    // membership and identity
    ||| kind == "in"@
    ||| kind == "is"@
    // bits
    ||| kind == "&"@
    ||| kind == "|"@
    ||| kind == "^"@
    ||| kind == "~"@
    ||| kind == "<<"@
    ||| kind == ">>"@
    ||| kind == ">>>"@
    // assignment
    ||| kind == "="@
    ||| kind == "+="@
    ||| kind == "-="@
    ||| kind == "*="@
    ||| kind == "/="@
    ||| kind == "%="@
    ||| kind == "**="@
    ||| kind == "//="@
    ||| kind == "&="@
    ||| kind == "|="@
    ||| kind == "^="@
    ||| kind == "<<="@
    ||| kind == ">>="@
    ||| kind == "&&="@
    ||| kind == "||="@
    // null handling, ranges and spreads
    ||| kind == "??"@
    ||| kind == "??="@
    ||| kind == "?."@
    ||| kind == "?"@
    ||| kind == ".."@
    ||| kind == "..."@
    ||| kind == "..="@
    ||| kind == "=>"@
}

// ---------------------------------------------------------------------------- laws

/// What the first entry for a key holds stands in the table.
proof fn lemma_lookup_entry<B>(table: Seq<(Seq<char>, B)>, key: Seq<char>)
    ensures
        lookup(table, key) matches Some(v) ==> exists|k: int|
            0 <= k < table.len() && #[trigger] table[k] == (key, v),
        (exists|k: int| 0 <= k < table.len() && (#[trigger] table[k]).0 == key) ==> lookup(
            table,
            key,
        ) is Some,
    decreases table.len(),
{
    if table.len() > 0 {
        let rest = table.drop_first();
        lemma_lookup_entry(rest, key);
        if table[0].0 == key {
            assert(table[0] == (key, table[0].1));
        } else {
            if let Some(v) = lookup(rest, key) {
                let k = choose|k: int| 0 <= k < rest.len() && #[trigger] rest[k] == (key, v);
                assert(table[k + 1] == (key, v));
            }
            if exists|k: int| 0 <= k < table.len() && (#[trigger] table[k]).0 == key {
                let k = choose|k: int| 0 <= k < table.len() && (#[trigger] table[k]).0 == key;
                assert(rest[k - 1] == table[k]);
            }
        }
    }
}

/// A language has its kinds mean what they do in its grammar.
pub open spec fn means(l: LanguageView, kind: Seq<char>) -> bool {
    &&& lookup(l.unit_kinds, kind) is Some <==> forms_function(l.grammar, kind)
    &&& lookup(l.unit_kinds, kind) matches Some(f) ==> is_named_under(l.grammar, kind, f)
    &&& lookup(l.scope_kinds, kind) is Some <==> opens_scope(l.grammar, kind)
    &&& lookup(l.scope_kinds, kind) matches Some(f) ==> is_named_under(l.grammar, kind, f)
    &&& l.identifier_kinds.contains(kind) <==> is_name(l.grammar, kind)
    &&& lookup(l.literal_kinds, kind) matches Some(t) ==> writes_literal(l.grammar, kind, t)
    &&& forall|t: LiteralTag| #[trigger]
        writes_literal(l.grammar, kind, t) ==> lookup(l.literal_kinds, kind) is Some
    &&& l.ignored_kinds.contains(kind) <==> is_comment(l.grammar, kind)
    &&& l.extensions.contains(kind) <==> is_extension(l.grammar, kind)
    &&& is_called(l.grammar, l.name)
}

proof fn lemma_c_means(kind: Seq<char>)
    ensures
        means(c_tables(), kind),
        c_tables().grammar is C,
{
    let l = c_tables();
    lemma_lookup_entry(l.unit_kinds, kind);
    lemma_lookup_entry(l.scope_kinds, kind);
    lemma_lookup_entry(l.literal_kinds, kind);
    assert(l.unit_kinds[0] == ("function_definition"@, "declarator"@));
    assert(l.scope_kinds[0] == ("struct_specifier"@, "name"@));
    assert(l.scope_kinds[1] == ("union_specifier"@, "name"@));
    assert(l.scope_kinds[2] == ("enum_specifier"@, "name"@));
    assert(l.scope_kinds[3] == ("function_definition"@, "declarator"@));
    assert(l.literal_kinds[0] == ("number_literal"@, LiteralTag::Number));
    assert(l.literal_kinds[1] == ("string_literal"@, LiteralTag::String));
    assert(l.literal_kinds[2] == ("char_literal"@, LiteralTag::String));
    assert(l.literal_kinds[3] == ("true"@, LiteralTag::Boolean));
    assert(l.literal_kinds[4] == ("false"@, LiteralTag::Boolean));
    assert(l.literal_kinds[5] == ("null"@, LiteralTag::Nil));
    assert(l.identifier_kinds[0] == "identifier"@);
    assert(l.identifier_kinds[1] == "field_identifier"@);
    assert(l.identifier_kinds[2] == "type_identifier"@);
    assert(l.identifier_kinds[3] == "statement_identifier"@);
    assert(l.ignored_kinds[0] == "comment"@);
    assert(l.extensions[0] == "c"@);
    assert(l.extensions[1] == "h"@);
    reveal_strlit("function_definition");
    reveal_strlit("struct_specifier");
    reveal_strlit("union_specifier");
    reveal_strlit("enum_specifier");
    assert("function_definition"@.len() != "struct_specifier"@.len()
        || "function_definition"@[0] != "struct_specifier"@[0]);
    assert("function_definition"@.len() != "union_specifier"@.len()
        || "function_definition"@[0] != "union_specifier"@[0]);
    assert("function_definition"@.len() != "enum_specifier"@.len()
        || "function_definition"@[0] != "enum_specifier"@[0]);
}

proof fn lemma_cpp_means(kind: Seq<char>)
    ensures
        means(cpp_tables(), kind),
        cpp_tables().grammar is Cpp,
{
    let l = cpp_tables();
    lemma_lookup_entry(l.unit_kinds, kind);
    lemma_lookup_entry(l.scope_kinds, kind);
    lemma_lookup_entry(l.literal_kinds, kind);
    assert(l.unit_kinds[0] == ("function_definition"@, "declarator"@));
    assert(l.unit_kinds[1] == ("lambda_expression"@, "name"@));
    assert(l.scope_kinds[0] == ("struct_specifier"@, "name"@));
    assert(l.scope_kinds[1] == ("class_specifier"@, "name"@));
    assert(l.scope_kinds[2] == ("union_specifier"@, "name"@));
    assert(l.scope_kinds[3] == ("enum_specifier"@, "name"@));
    assert(l.scope_kinds[4] == ("namespace_definition"@, "name"@));
    assert(l.scope_kinds[5] == ("function_definition"@, "declarator"@));
    assert(l.literal_kinds[0] == ("number_literal"@, LiteralTag::Number));
    assert(l.literal_kinds[1] == ("string_literal"@, LiteralTag::String));
    assert(l.literal_kinds[2] == ("raw_string_literal"@, LiteralTag::String));
    assert(l.literal_kinds[3] == ("char_literal"@, LiteralTag::String));
    assert(l.literal_kinds[4] == ("true"@, LiteralTag::Boolean));
    assert(l.literal_kinds[5] == ("false"@, LiteralTag::Boolean));
    assert(l.literal_kinds[6] == ("null"@, LiteralTag::Nil));
    assert(l.identifier_kinds[0] == "identifier"@);
    assert(l.identifier_kinds[1] == "field_identifier"@);
    assert(l.identifier_kinds[2] == "type_identifier"@);
    assert(l.identifier_kinds[3] == "statement_identifier"@);
    assert(l.identifier_kinds[4] == "namespace_identifier"@);
    assert(l.ignored_kinds[0] == "comment"@);
    assert(l.extensions[0] == "cpp"@);
    assert(l.extensions[1] == "cc"@);
    assert(l.extensions[2] == "cxx"@);
    assert(l.extensions[3] == "hpp"@);
    assert(l.extensions[4] == "hh"@);
    assert(l.extensions[5] == "hxx"@);
    reveal_strlit("function_definition");
    reveal_strlit("lambda_expression");
    reveal_strlit("struct_specifier");
    reveal_strlit("class_specifier");
    reveal_strlit("union_specifier");
    reveal_strlit("enum_specifier");
    reveal_strlit("namespace_definition");
    assert("function_definition"@.len() != "lambda_expression"@.len()
        || "function_definition"@[0] != "lambda_expression"@[0]);
    assert("function_definition"@.len() != "struct_specifier"@.len()
        || "function_definition"@[0] != "struct_specifier"@[0]);
    assert("function_definition"@.len() != "class_specifier"@.len()
        || "function_definition"@[0] != "class_specifier"@[0]);
    assert("function_definition"@.len() != "union_specifier"@.len()
        || "function_definition"@[0] != "union_specifier"@[0]);
    assert("function_definition"@.len() != "enum_specifier"@.len()
        || "function_definition"@[0] != "enum_specifier"@[0]);
    assert("function_definition"@.len() != "namespace_definition"@.len()
        || "function_definition"@[0] != "namespace_definition"@[0]);
}

proof fn lemma_csharp_means(kind: Seq<char>)
    ensures
        means(csharp_tables(), kind),
        csharp_tables().grammar is CSharp,
{
    let l = csharp_tables();
    lemma_lookup_entry(l.unit_kinds, kind);
    lemma_lookup_entry(l.scope_kinds, kind);
    lemma_lookup_entry(l.literal_kinds, kind);
    assert(l.unit_kinds[0] == ("method_declaration"@, "name"@));
    assert(l.unit_kinds[1] == ("constructor_declaration"@, "name"@));
    assert(l.unit_kinds[2] == ("local_function_statement"@, "name"@));
    assert(l.unit_kinds[3] == ("lambda_expression"@, "name"@));
    assert(l.unit_kinds[4] == ("anonymous_method_expression"@, "name"@));
    assert(l.scope_kinds[0] == ("class_declaration"@, "name"@));
    assert(l.scope_kinds[1] == ("interface_declaration"@, "name"@));
    assert(l.scope_kinds[2] == ("struct_declaration"@, "name"@));
    assert(l.scope_kinds[3] == ("namespace_declaration"@, "name"@));
    assert(l.scope_kinds[4] == ("method_declaration"@, "name"@));
    assert(l.scope_kinds[5] == ("constructor_declaration"@, "name"@));
    assert(l.scope_kinds[6] == ("local_function_statement"@, "name"@));
    assert(l.literal_kinds[0] == ("integer_literal"@, LiteralTag::Number));
    assert(l.literal_kinds[1] == ("real_literal"@, LiteralTag::Number));
    assert(l.literal_kinds[2] == ("string_literal"@, LiteralTag::String));
    assert(l.literal_kinds[3] == ("verbatim_string_literal"@, LiteralTag::String));
    assert(l.literal_kinds[4] == ("raw_string_literal"@, LiteralTag::String));
    assert(l.literal_kinds[5] == ("character_literal"@, LiteralTag::String));
    assert(l.literal_kinds[6] == ("boolean_literal"@, LiteralTag::Boolean));
    assert(l.literal_kinds[7] == ("null_literal"@, LiteralTag::Nil));
    assert(l.identifier_kinds[0] == "identifier"@);
    assert(l.ignored_kinds[0] == "comment"@);
    assert(l.extensions[0] == "cs"@);
}

proof fn lemma_go_means(kind: Seq<char>)
    ensures
        means(go_tables(), kind),
        go_tables().grammar is Go,
{
    let l = go_tables();
    lemma_lookup_entry(l.unit_kinds, kind);
    lemma_lookup_entry(l.scope_kinds, kind);
    lemma_lookup_entry(l.literal_kinds, kind);
    assert(l.unit_kinds[0] == ("function_declaration"@, "name"@));
    assert(l.unit_kinds[1] == ("method_declaration"@, "name"@));
    assert(l.unit_kinds[2] == ("func_literal"@, "name"@));
    assert(l.scope_kinds[0] == ("type_spec"@, "name"@));
    assert(l.scope_kinds[1] == ("function_declaration"@, "name"@));
    assert(l.scope_kinds[2] == ("method_declaration"@, "name"@));
    assert(l.literal_kinds[0] == ("int_literal"@, LiteralTag::Number));
    assert(l.literal_kinds[1] == ("float_literal"@, LiteralTag::Number));
    assert(l.literal_kinds[2] == ("imaginary_literal"@, LiteralTag::Number));
    assert(l.literal_kinds[3] == ("interpreted_string_literal"@, LiteralTag::String));
    assert(l.literal_kinds[4] == ("raw_string_literal"@, LiteralTag::String));
    assert(l.literal_kinds[5] == ("rune_literal"@, LiteralTag::String));
    assert(l.literal_kinds[6] == ("true"@, LiteralTag::Boolean));
    assert(l.literal_kinds[7] == ("false"@, LiteralTag::Boolean));
    assert(l.literal_kinds[8] == ("nil"@, LiteralTag::Nil));
    assert(l.identifier_kinds[0] == "identifier"@);
    assert(l.identifier_kinds[1] == "field_identifier"@);
    assert(l.identifier_kinds[2] == "type_identifier"@);
    assert(l.identifier_kinds[3] == "package_identifier"@);
    assert(l.identifier_kinds[4] == "blank_identifier"@);
    assert(l.ignored_kinds[0] == "comment"@);
    assert(l.extensions[0] == "go"@);
}

proof fn lemma_java_means(kind: Seq<char>)
    ensures
        means(java_tables(), kind),
        java_tables().grammar is Java,
{
    let l = java_tables();
    lemma_lookup_entry(l.unit_kinds, kind);
    lemma_lookup_entry(l.scope_kinds, kind);
    lemma_lookup_entry(l.literal_kinds, kind);
    assert(l.unit_kinds[0] == ("method_declaration"@, "name"@));
    assert(l.unit_kinds[1] == ("constructor_declaration"@, "name"@));
    assert(l.unit_kinds[2] == ("lambda_expression"@, "name"@));
    assert(l.scope_kinds[0] == ("class_declaration"@, "name"@));
    assert(l.scope_kinds[1] == ("interface_declaration"@, "name"@));
    assert(l.scope_kinds[2] == ("enum_declaration"@, "name"@));
    assert(l.scope_kinds[3] == ("method_declaration"@, "name"@));
    assert(l.scope_kinds[4] == ("constructor_declaration"@, "name"@));
    assert(l.literal_kinds[0] == ("decimal_integer_literal"@, LiteralTag::Number));
    assert(l.literal_kinds[1] == ("hex_integer_literal"@, LiteralTag::Number));
    assert(l.literal_kinds[2] == ("octal_integer_literal"@, LiteralTag::Number));
    assert(l.literal_kinds[3] == ("binary_integer_literal"@, LiteralTag::Number));
    assert(l.literal_kinds[4] == ("decimal_floating_point_literal"@, LiteralTag::Number));
    assert(l.literal_kinds[5] == ("hex_floating_point_literal"@, LiteralTag::Number));
    assert(l.literal_kinds[6] == ("string_literal"@, LiteralTag::String));
    assert(l.literal_kinds[7] == ("character_literal"@, LiteralTag::String));
    assert(l.literal_kinds[8] == ("true"@, LiteralTag::Boolean));
    assert(l.literal_kinds[9] == ("false"@, LiteralTag::Boolean));
    assert(l.literal_kinds[10] == ("null_literal"@, LiteralTag::Nil));
    assert(l.identifier_kinds[0] == "identifier"@);
    assert(l.identifier_kinds[1] == "type_identifier"@);
    assert(l.ignored_kinds[0] == "line_comment"@);
    assert(l.ignored_kinds[1] == "block_comment"@);
    assert(l.extensions[0] == "java"@);
}

proof fn lemma_javascript_means(kind: Seq<char>)
    ensures
        means(javascript_tables(), kind),
        javascript_tables().grammar is JavaScript,
{
    let l = javascript_tables();
    lemma_lookup_entry(l.unit_kinds, kind);
    lemma_lookup_entry(l.scope_kinds, kind);
    lemma_lookup_entry(l.literal_kinds, kind);
    assert(l.unit_kinds[0] == ("function_declaration"@, "name"@));
    assert(l.unit_kinds[1] == ("generator_function_declaration"@, "name"@));
    assert(l.unit_kinds[2] == ("function_expression"@, "name"@));
    assert(l.unit_kinds[3] == ("method_definition"@, "name"@));
    assert(l.unit_kinds[4] == ("arrow_function"@, "name"@));
    assert(l.scope_kinds[0] == ("class_declaration"@, "name"@));
    assert(l.scope_kinds[1] == ("variable_declarator"@, "name"@));
    assert(l.scope_kinds[2] == ("function_declaration"@, "name"@));
    assert(l.scope_kinds[3] == ("generator_function_declaration"@, "name"@));
    assert(l.scope_kinds[4] == ("method_definition"@, "name"@));
    assert(l.literal_kinds[0] == ("number"@, LiteralTag::Number));
    assert(l.literal_kinds[1] == ("string"@, LiteralTag::String));
    assert(l.literal_kinds[2] == ("template_string"@, LiteralTag::String));
    assert(l.literal_kinds[3] == ("regex"@, LiteralTag::Other));
    assert(l.literal_kinds[4] == ("true"@, LiteralTag::Boolean));
    assert(l.literal_kinds[5] == ("false"@, LiteralTag::Boolean));
    assert(l.literal_kinds[6] == ("null"@, LiteralTag::Nil));
    assert(l.literal_kinds[7] == ("undefined"@, LiteralTag::Nil));
    assert(l.identifier_kinds[0] == "identifier"@);
    assert(l.identifier_kinds[1] == "property_identifier"@);
    assert(l.identifier_kinds[2] == "private_property_identifier"@);
    assert(l.identifier_kinds[3] == "shorthand_property_identifier"@);
    assert(l.identifier_kinds[4] == "shorthand_property_identifier_pattern"@);
    assert(l.ignored_kinds[0] == "comment"@);
    assert(l.extensions[0] == "js"@);
    assert(l.extensions[1] == "mjs"@);
    assert(l.extensions[2] == "cjs"@);
    assert(l.extensions[3] == "jsx"@);
}

proof fn lemma_php_means(kind: Seq<char>)
    ensures
        means(php_tables(), kind),
        php_tables().grammar is Php,
{
    let l = php_tables();
    lemma_lookup_entry(l.unit_kinds, kind);
    lemma_lookup_entry(l.scope_kinds, kind);
    lemma_lookup_entry(l.literal_kinds, kind);
    assert(l.unit_kinds[0] == ("method_declaration"@, "name"@));
    assert(l.unit_kinds[1] == ("function_definition"@, "name"@));
    assert(l.unit_kinds[2] == ("anonymous_function"@, "name"@));
    assert(l.unit_kinds[3] == ("arrow_function"@, "name"@));
    assert(l.scope_kinds[0] == ("class_declaration"@, "name"@));
    assert(l.scope_kinds[1] == ("interface_declaration"@, "name"@));
    assert(l.scope_kinds[2] == ("trait_declaration"@, "name"@));
    assert(l.scope_kinds[3] == ("namespace_definition"@, "name"@));
    assert(l.scope_kinds[4] == ("enum_declaration"@, "name"@));
    assert(l.scope_kinds[5] == ("method_declaration"@, "name"@));
    assert(l.scope_kinds[6] == ("function_definition"@, "name"@));
    assert(l.literal_kinds[0] == ("integer"@, LiteralTag::Number));
    assert(l.literal_kinds[1] == ("float"@, LiteralTag::Number));
    assert(l.literal_kinds[2] == ("string"@, LiteralTag::String));
    assert(l.literal_kinds[3] == ("encapsed_string"@, LiteralTag::String));
    assert(l.literal_kinds[4] == ("heredoc"@, LiteralTag::String));
    assert(l.literal_kinds[5] == ("nowdoc"@, LiteralTag::String));
    assert(l.literal_kinds[6] == ("boolean"@, LiteralTag::Boolean));
    assert(l.literal_kinds[7] == ("null"@, LiteralTag::Nil));
    assert(l.identifier_kinds[0] == "name"@);
    assert(l.ignored_kinds[0] == "comment"@);
    assert(l.extensions[0] == "php"@);
}

proof fn lemma_python_means(kind: Seq<char>)
    ensures
        means(python_tables(), kind),
        python_tables().grammar is Python,
{
    let l = python_tables();
    lemma_lookup_entry(l.unit_kinds, kind);
    lemma_lookup_entry(l.scope_kinds, kind);
    lemma_lookup_entry(l.literal_kinds, kind);
    assert(l.unit_kinds[0] == ("function_definition"@, "name"@));
    assert(l.scope_kinds[0] == ("class_definition"@, "name"@));
    assert(l.scope_kinds[1] == ("function_definition"@, "name"@));
    assert(l.literal_kinds[0] == ("integer"@, LiteralTag::Number));
    assert(l.literal_kinds[1] == ("float"@, LiteralTag::Number));
    assert(l.literal_kinds[2] == ("string"@, LiteralTag::String));
    assert(l.literal_kinds[3] == ("concatenated_string"@, LiteralTag::String));
    assert(l.literal_kinds[4] == ("true"@, LiteralTag::Boolean));
    assert(l.literal_kinds[5] == ("false"@, LiteralTag::Boolean));
    assert(l.literal_kinds[6] == ("none"@, LiteralTag::Nil));
    assert(l.literal_kinds[7] == ("ellipsis"@, LiteralTag::Other));
    assert(l.identifier_kinds[0] == "identifier"@);
    assert(l.ignored_kinds[0] == "comment"@);
    assert(l.extensions[0] == "py"@);
    assert(l.extensions[1] == "pyi"@);
}

proof fn lemma_ruby_means(kind: Seq<char>)
    ensures
        means(ruby_tables(), kind),
        ruby_tables().grammar is Ruby,
{
    let l = ruby_tables();
    lemma_lookup_entry(l.unit_kinds, kind);
    lemma_lookup_entry(l.scope_kinds, kind);
    lemma_lookup_entry(l.literal_kinds, kind);
    assert(l.unit_kinds[0] == ("method"@, "name"@));
    assert(l.unit_kinds[1] == ("singleton_method"@, "name"@));
    assert(l.unit_kinds[2] == ("lambda"@, "name"@));
    assert(l.unit_kinds[3] == ("block"@, "name"@));
    assert(l.unit_kinds[4] == ("do_block"@, "name"@));
    assert(l.scope_kinds[0] == ("module"@, "name"@));
    assert(l.scope_kinds[1] == ("class"@, "name"@));
    assert(l.scope_kinds[2] == ("method"@, "name"@));
    assert(l.scope_kinds[3] == ("singleton_method"@, "name"@));
    assert(l.literal_kinds[0] == ("integer"@, LiteralTag::Number));
    assert(l.literal_kinds[1] == ("float"@, LiteralTag::Number));
    assert(l.literal_kinds[2] == ("string"@, LiteralTag::String));
    assert(l.literal_kinds[3] == ("true"@, LiteralTag::Boolean));
    assert(l.literal_kinds[4] == ("false"@, LiteralTag::Boolean));
    assert(l.literal_kinds[5] == ("nil"@, LiteralTag::Nil));
    assert(l.literal_kinds[6] == ("simple_symbol"@, LiteralTag::Other));
    assert(l.literal_kinds[7] == ("bare_symbol"@, LiteralTag::Other));
    assert(l.literal_kinds[8] == ("delimited_symbol"@, LiteralTag::Other));
    assert(l.literal_kinds[9] == ("hash_key_symbol"@, LiteralTag::Other));
    assert(l.identifier_kinds[0] == "identifier"@);
    assert(l.identifier_kinds[1] == "constant"@);
    assert(l.identifier_kinds[2] == "instance_variable"@);
    assert(l.identifier_kinds[3] == "class_variable"@);
    assert(l.identifier_kinds[4] == "global_variable"@);
    assert(l.ignored_kinds[0] == "comment"@);
    assert(l.extensions[0] == "rb"@);
}

proof fn lemma_rust_means(kind: Seq<char>)
    ensures
        means(rust_tables(), kind),
        rust_tables().grammar is Rust,
{
    let l = rust_tables();
    lemma_lookup_entry(l.unit_kinds, kind);
    lemma_lookup_entry(l.scope_kinds, kind);
    lemma_lookup_entry(l.literal_kinds, kind);
    assert(l.unit_kinds[0] == ("function_item"@, "name"@));
    assert(l.unit_kinds[1] == ("closure_expression"@, "name"@));
    assert(l.scope_kinds[0] == ("struct_item"@, "name"@));
    assert(l.scope_kinds[1] == ("trait_item"@, "name"@));
    assert(l.scope_kinds[2] == ("impl_item"@, "type"@));
    assert(l.scope_kinds[3] == ("mod_item"@, "name"@));
    assert(l.scope_kinds[4] == ("function_item"@, "name"@));
    assert(l.literal_kinds[0] == ("integer_literal"@, LiteralTag::Number));
    assert(l.literal_kinds[1] == ("float_literal"@, LiteralTag::Number));
    assert(l.literal_kinds[2] == ("string_literal"@, LiteralTag::String));
    assert(l.literal_kinds[3] == ("raw_string_literal"@, LiteralTag::String));
    assert(l.literal_kinds[4] == ("char_literal"@, LiteralTag::String));
    assert(l.literal_kinds[5] == ("boolean_literal"@, LiteralTag::Boolean));
    assert(l.identifier_kinds[0] == "identifier"@);
    assert(l.identifier_kinds[1] == "type_identifier"@);
    assert(l.identifier_kinds[2] == "field_identifier"@);
    assert(l.identifier_kinds[3] == "shorthand_field_identifier"@);
    assert(l.ignored_kinds[0] == "line_comment"@);
    assert(l.ignored_kinds[1] == "block_comment"@);
    assert(l.extensions[0] == "rs"@);
    reveal_strlit("impl_item");
    reveal_strlit("function_item");
    reveal_strlit("closure_expression");
    reveal_strlit("struct_item");
    reveal_strlit("trait_item");
    reveal_strlit("mod_item");
    assert("impl_item"@.len() != "function_item"@.len() || "impl_item"@[0] != "function_item"@[0]);
    assert("impl_item"@.len() != "closure_expression"@.len()
        || "impl_item"@[0] != "closure_expression"@[0]);
    assert("impl_item"@.len() != "struct_item"@.len() || "impl_item"@[0] != "struct_item"@[0]);
    assert("impl_item"@.len() != "trait_item"@.len() || "impl_item"@[0] != "trait_item"@[0]);
    assert("impl_item"@.len() != "mod_item"@.len() || "impl_item"@[0] != "mod_item"@[0]);
}

proof fn lemma_tsx_means(kind: Seq<char>)
    ensures
        means(tsx_tables(), kind),
        tsx_tables().grammar is Tsx,
{
    let l = tsx_tables();
    lemma_lookup_entry(l.unit_kinds, kind);
    lemma_lookup_entry(l.scope_kinds, kind);
    lemma_lookup_entry(l.literal_kinds, kind);
    assert(l.unit_kinds[0] == ("function_declaration"@, "name"@));
    assert(l.unit_kinds[1] == ("generator_function_declaration"@, "name"@));
    assert(l.unit_kinds[2] == ("function_expression"@, "name"@));
    assert(l.unit_kinds[3] == ("method_definition"@, "name"@));
    assert(l.unit_kinds[4] == ("arrow_function"@, "name"@));
    assert(l.scope_kinds[0] == ("class_declaration"@, "name"@));
    assert(l.scope_kinds[1] == ("variable_declarator"@, "name"@));
    assert(l.scope_kinds[2] == ("function_declaration"@, "name"@));
    assert(l.scope_kinds[3] == ("generator_function_declaration"@, "name"@));
    assert(l.scope_kinds[4] == ("method_definition"@, "name"@));
    assert(l.scope_kinds[5] == ("interface_declaration"@, "name"@));
    assert(l.scope_kinds[6] == ("internal_module"@, "name"@));
    assert(l.literal_kinds[0] == ("number"@, LiteralTag::Number));
    assert(l.literal_kinds[1] == ("string"@, LiteralTag::String));
    assert(l.literal_kinds[2] == ("template_string"@, LiteralTag::String));
    assert(l.literal_kinds[3] == ("regex"@, LiteralTag::Other));
    assert(l.literal_kinds[4] == ("true"@, LiteralTag::Boolean));
    assert(l.literal_kinds[5] == ("false"@, LiteralTag::Boolean));
    assert(l.literal_kinds[6] == ("null"@, LiteralTag::Nil));
    assert(l.literal_kinds[7] == ("undefined"@, LiteralTag::Nil));
    assert(l.identifier_kinds[0] == "identifier"@);
    assert(l.identifier_kinds[1] == "property_identifier"@);
    assert(l.identifier_kinds[2] == "private_property_identifier"@);
    assert(l.identifier_kinds[3] == "shorthand_property_identifier"@);
    assert(l.identifier_kinds[4] == "shorthand_property_identifier_pattern"@);
    assert(l.identifier_kinds[5] == "type_identifier"@);
    assert(l.ignored_kinds[0] == "comment"@);
    assert(l.extensions[0] == "tsx"@);
}

proof fn lemma_typescript_means(kind: Seq<char>)
    ensures
        means(typescript_tables(), kind),
        typescript_tables().grammar is TypeScript,
{
    let l = typescript_tables();
    lemma_lookup_entry(l.unit_kinds, kind);
    lemma_lookup_entry(l.scope_kinds, kind);
    lemma_lookup_entry(l.literal_kinds, kind);
    assert(l.unit_kinds[0] == ("function_declaration"@, "name"@));
    assert(l.unit_kinds[1] == ("generator_function_declaration"@, "name"@));
    assert(l.unit_kinds[2] == ("function_expression"@, "name"@));
    assert(l.unit_kinds[3] == ("method_definition"@, "name"@));
    assert(l.unit_kinds[4] == ("arrow_function"@, "name"@));
    assert(l.scope_kinds[0] == ("class_declaration"@, "name"@));
    assert(l.scope_kinds[1] == ("variable_declarator"@, "name"@));
    assert(l.scope_kinds[2] == ("function_declaration"@, "name"@));
    assert(l.scope_kinds[3] == ("generator_function_declaration"@, "name"@));
    assert(l.scope_kinds[4] == ("method_definition"@, "name"@));
    assert(l.scope_kinds[5] == ("interface_declaration"@, "name"@));
    assert(l.scope_kinds[6] == ("internal_module"@, "name"@));
    assert(l.literal_kinds[0] == ("number"@, LiteralTag::Number));
    assert(l.literal_kinds[1] == ("string"@, LiteralTag::String));
    assert(l.literal_kinds[2] == ("template_string"@, LiteralTag::String));
    assert(l.literal_kinds[3] == ("regex"@, LiteralTag::Other));
    assert(l.literal_kinds[4] == ("true"@, LiteralTag::Boolean));
    assert(l.literal_kinds[5] == ("false"@, LiteralTag::Boolean));
    assert(l.literal_kinds[6] == ("null"@, LiteralTag::Nil));
    assert(l.literal_kinds[7] == ("undefined"@, LiteralTag::Nil));
    assert(l.identifier_kinds[0] == "identifier"@);
    assert(l.identifier_kinds[1] == "property_identifier"@);
    assert(l.identifier_kinds[2] == "private_property_identifier"@);
    assert(l.identifier_kinds[3] == "shorthand_property_identifier"@);
    assert(l.identifier_kinds[4] == "shorthand_property_identifier_pattern"@);
    assert(l.identifier_kinds[5] == "type_identifier"@);
    assert(l.ignored_kinds[0] == "comment"@);
    assert(l.extensions[0] == "ts"@);
}

/// In every registered language every node kind means what it does in the grammar that
/// parses the language: which kinds form a function, open a scope, name something, write
/// a literal or are comments, and which extensions are its own.
pub proof fn lemma_kinds_mean_what_they_do(l: LanguageView, kind: Seq<char>)
    requires
        registry().contains(l),
    ensures
        means(l, kind),
{
    lemma_c_means(kind);
    lemma_cpp_means(kind);
    lemma_csharp_means(kind);
    lemma_go_means(kind);
    lemma_java_means(kind);
    lemma_javascript_means(kind);
    lemma_php_means(kind);
    lemma_python_means(kind);
    lemma_ruby_means(kind);
    lemma_rust_means(kind);
    lemma_tsx_means(kind);
    lemma_typescript_means(kind);
    let i = choose|i: int| 0 <= i < registry().len() && registry()[i] == l;
    lemma_registry();
    assert(registry()[i] == l);
}

proof fn lemma_registry()
    ensures
        registry().len() == 12,
        registry()[0] == c_tables(),
        registry()[1] == cpp_tables(),
        registry()[2] == csharp_tables(),
        registry()[3] == go_tables(),
        registry()[4] == java_tables(),
        registry()[5] == javascript_tables(),
        registry()[6] == php_tables(),
        registry()[7] == python_tables(),
        registry()[8] == ruby_tables(),
        registry()[9] == rust_tables(),
        registry()[10] == tsx_tables(),
        registry()[11] == typescript_tables(),
{
}

/// Every grammar parses a registered language, and only one.
pub proof fn lemma_every_grammar_has_its_language(g: Grammar)
    ensures
        exists|i: int| 0 <= i < registry().len() && (#[trigger] registry()[i]).grammar == g,
        forall|i: int, j: int|
            0 <= i < registry().len() && 0 <= j < registry().len() && (
            #[trigger] registry()[i]).grammar == (#[trigger] registry()[j]).grammar ==> i == j,
{
    lemma_registry();
    let r = registry();
    assert(r[0].grammar is C);
    assert(r[1].grammar is Cpp);
    assert(r[2].grammar is CSharp);
    assert(r[3].grammar is Go);
    assert(r[4].grammar is Java);
    assert(r[5].grammar is JavaScript);
    assert(r[6].grammar is Php);
    assert(r[7].grammar is Python);
    assert(r[8].grammar is Ruby);
    assert(r[9].grammar is Rust);
    assert(r[10].grammar is Tsx);
    assert(r[11].grammar is TypeScript);
}

/// The operators are the unnamed tokens that are kept.
pub proof fn lemma_operators_are_kept(kind: Seq<char>)
    ensures
        views(OPERATOR_TOKENS@).contains(kind) <==> is_operator(kind),
{
    let list = views(OPERATOR_TOKENS@);
    assert(list.len() == 54);
    assert(list[0] == "+"@);
    assert(list[1] == "-"@);
    assert(list[2] == "*"@);
    assert(list[3] == "/"@);
    assert(list[4] == "%"@);
    assert(list[5] == "**"@);
    assert(list[6] == "//"@);
    assert(list[7] == "=="@);
    assert(list[8] == "!="@);
    assert(list[9] == "<"@);
    assert(list[10] == ">"@);
    assert(list[11] == "<="@);
    assert(list[12] == ">="@);
    assert(list[13] == "<=>"@);
    assert(list[14] == "==="@);
    assert(list[15] == "!=="@);
    assert(list[16] == "&&"@);
    assert(list[17] == "||"@);
    assert(list[18] == "!"@);
    assert(list[19] == "and"@);
    assert(list[20] == "or"@);
    assert(list[21] == "not"@);
    assert(list[22] == "in"@);
    assert(list[23] == "is"@);
    assert(list[24] == "&"@);
    assert(list[25] == "|"@);
    assert(list[26] == "^"@);
    assert(list[27] == "~"@);
    assert(list[28] == "<<"@);
    assert(list[29] == ">>"@);
    assert(list[30] == ">>>"@);
    assert(list[31] == "="@);
    assert(list[32] == "+="@);
    assert(list[33] == "-="@);
    assert(list[34] == "*="@);
    assert(list[35] == "/="@);
    assert(list[36] == "%="@);
    assert(list[37] == "**="@);
    assert(list[38] == "//="@);
    assert(list[39] == "&="@);
    assert(list[40] == "|="@);
    assert(list[41] == "^="@);
    assert(list[42] == "<<="@);
    assert(list[43] == ">>="@);
    assert(list[44] == "&&="@);
    assert(list[45] == "||="@);
    assert(list[46] == "??"@);
    assert(list[47] == "??="@);
    assert(list[48] == "?."@);
    assert(list[49] == "?"@);
    assert(list[50] == ".."@);
    assert(list[51] == "..."@);
    assert(list[52] == "..="@);
    assert(list[53] == "=>"@);
}

/// What a node contributes to a token stream in a registered language: nothing where it
/// is a comment, or neither named nor an operator; the placeholder where it is a name;
/// the tag of its sort where it writes a literal; and its own kind otherwise.
pub proof fn lemma_what_a_node_contributes(l: LanguageView, kind: Seq<char>, is_named: bool)
    requires
        registry().contains(l),
    ensures
        ({
            let g = l.grammar;
            let role = l.role(kind, is_named);
            &&& role is Ignored <==> is_comment(g, kind) || (!is_named && !is_operator(kind))
            &&& role is Identifier <==> !is_comment(g, kind) && is_named && is_name(g, kind)
            &&& role matches Role::Literal(tag) ==> writes_literal(g, kind, tag)
            &&& role is Literal <==> !is_comment(g, kind) && is_named && !is_name(g, kind)
                && exists|tag: LiteralTag| #[trigger] writes_literal(g, kind, tag)
        }),
{
    lemma_kinds_mean_what_they_do(l, kind);
    lemma_operators_are_kept(kind);
    if lookup(l.literal_kinds, kind) is Some {
        assert(writes_literal(l.grammar, kind, lookup(l.literal_kinds, kind)->0));
    }
}

/// Every function of a file in a registered language is extracted, whatever it is called
/// and wherever it stands: every node below the root whose kind forms a function in the
/// grammar, and that has as many named nodes as are asked for, is one of the units.
pub proof fn lemma_every_function_is_extracted(
    nodes: Seq<NodeView>,
    l: LanguageView,
    path: Seq<char>,
    known: Seq<Seq<char>>,
    min_nodes: nat,
    i: int,
)
    requires
        registry().contains(l),
        0 < i,
        lies_under(nodes, 0, i),
        forms_function(l.grammar, nodes[i].kind),
        named_under(nodes, i).len() >= min_nodes,
    ensures
        exists|k: int|
            0 <= k < extraction_of(nodes, l, path, known, min_nodes).units.len() && tells_node(
                #[trigger] extraction_of(nodes, l, path, known, min_nodes).units[k],
                nodes,
                l,
                path,
                i,
            ),
{
    let units = extraction_of(nodes, l, path, known, min_nodes).units;
    lemma_every_unit_is_extracted(nodes, l, path, known, min_nodes);
    lemma_kinds_mean_what_they_do(l, nodes[i].kind);
    lemma_lookup_entry(l.unit_kinds, nodes[i].kind);
    assert(forms_unit(nodes, l, min_nodes, i));
    let (found, at) = choose|found: Seq<UnitView>, at: Seq<int>|
        {
            &&& #[trigger] tells_every_unit(found, nodes, l, path, min_nodes, at)
            &&& units.len() == found.len()
            &&& forall|u: UnitView| #[trigger]
                units.contains(u) <==> found.contains(u)
        };
    let k = choose|k: int| 0 <= k < at.len() && at[k] == i;
    assert(forms_unit(nodes, l, min_nodes, at[k]));
    assert(found.contains(found[k]));
    assert(units.contains(found[k]));
}

/// Only functions are extracted: every unit of a file in a registered language is a node
/// whose kind forms a function in the grammar.
pub proof fn lemma_only_functions_are_extracted(
    nodes: Seq<NodeView>,
    l: LanguageView,
    path: Seq<char>,
    known: Seq<Seq<char>>,
    min_nodes: nat,
    k: int,
)
    requires
        registry().contains(l),
        0 <= k < extraction_of(nodes, l, path, known, min_nodes).units.len(),
    ensures
        exists|i: int|
            0 < i && #[trigger] lies_under(nodes, 0, i) && forms_function(
                l.grammar,
                nodes[i].kind,
            ) && tells_node(
                extraction_of(nodes, l, path, known, min_nodes).units[k],
                nodes,
                l,
                path,
                i,
            ),
{
    let units = extraction_of(nodes, l, path, known, min_nodes).units;
    lemma_every_unit_is_extracted(nodes, l, path, known, min_nodes);
    let (found, at) = choose|found: Seq<UnitView>, at: Seq<int>|
        {
            &&& #[trigger] tells_every_unit(found, nodes, l, path, min_nodes, at)
            &&& units.len() == found.len()
            &&& forall|u: UnitView| #[trigger]
                units.contains(u) <==> found.contains(u)
        };
    assert(units.contains(units[k]));
    let x = choose|x: int| 0 <= x < found.len() && found[x] == units[k];
    let i = at[x];
    assert(forms_unit(nodes, l, min_nodes, i));
    lemma_kinds_mean_what_they_do(l, nodes[i].kind);
    lemma_lookup_entry(l.unit_kinds, nodes[i].kind);
    assert(lies_under(nodes, 0, i));
}

/// JavaScript and TypeScript form functions alike, with JSX and without, and TypeScript
/// reads the same with JSX and without: what is written in one is compared as in the
/// others.
pub proof fn lemma_dialects_agree()
    ensures
        javascript_tables().unit_kinds == typescript_tables().unit_kinds,
        typescript_tables().unit_kinds == tsx_tables().unit_kinds,
        typescript_tables().scope_kinds == tsx_tables().scope_kinds,
        typescript_tables().identifier_kinds == tsx_tables().identifier_kinds,
        typescript_tables().literal_kinds == tsx_tables().literal_kinds,
        typescript_tables().literal_kinds == javascript_tables().literal_kinds,
        typescript_tables().ignored_kinds == tsx_tables().ignored_kinds,
{
}

/// The language of an extension is the one that it is an extension of, and a language is
/// found under its own name.
pub proof fn lemma_languages_are_found(ext: Seq<char>)
    ensures
        claiming(registry(), ext) matches Some(l) ==> registry().contains(l) && is_extension(
            l.grammar,
            ext,
        ),
        forall|g: Grammar| #[trigger] is_extension(g, ext) ==> claiming(registry(), ext) is Some,
        named(registry(), ext) matches Some(l) ==> registry().contains(l) && is_called(
            l.grammar,
            ext,
        ),
        forall|g: Grammar| #[trigger] is_called(g, ext) ==> named(registry(), ext) is Some,
{
    lemma_claiming(registry(), ext);
    lemma_named(registry(), ext);
    lemma_registry();
    assert forall|i: int| 0 <= i < registry().len() implies means(
        #[trigger] registry()[i],
        ext,
    ) by {
        assert(registry().contains(registry()[i]));
        lemma_kinds_mean_what_they_do(registry()[i], ext);
    }
    assert forall|g: Grammar| #[trigger] is_extension(g, ext) implies claiming(registry(), ext)
        is Some by {
        lemma_every_grammar_has_its_language(g);
    }
    if let Some(l) = claiming(registry(), ext) {
        lemma_kinds_mean_what_they_do(l, ext);
    }
    if let Some(l) = named(registry(), ext) {
        lemma_kinds_mean_what_they_do(l, ext);
    }
    assert forall|g: Grammar| #[trigger] is_called(g, ext) implies named(
        registry(),
        ext,
    ) is Some by {
        lemma_every_grammar_has_its_language(g);
        let i = choose|i: int|
            0 <= i < registry().len() && (#[trigger] registry()[i]).grammar == g;
        assert(means(registry()[i], ext));
        assert(is_called(g, registry()[i].name));
        assert(registry()[i].name == ext);
    }
}

proof fn lemma_claiming(list: Seq<LanguageView>, ext: Seq<char>)
    ensures
        claiming(list, ext) matches Some(l) ==> list.contains(l) && l.extensions.contains(ext),
        claiming(list, ext) is None ==> forall|i: int|
            0 <= i < list.len() ==> !(#[trigger] list[i]).extensions.contains(ext),
    decreases list.len(),
{
    if list.len() > 0 {
        let rest = list.drop_first();
        lemma_claiming(rest, ext);
        if list[0].extensions.contains(ext) {
            assert(list.contains(list[0]));
        } else if let Some(l) = claiming(rest, ext) {
            let k = choose|k: int| 0 <= k < rest.len() && rest[k] == l;
            assert(list[k + 1] == l);
        } else {
            assert forall|i: int| 0 <= i < list.len() implies !(
            #[trigger] list[i]).extensions.contains(ext) by {
                if i > 0 {
                    assert(list[i] == rest[i - 1]);
                }
            }
        }
    }
}

proof fn lemma_named(list: Seq<LanguageView>, name: Seq<char>)
    ensures
        named(list, name) matches Some(l) ==> list.contains(l) && l.name == name,
        named(list, name) is None ==> forall|i: int|
            0 <= i < list.len() ==> (#[trigger] list[i]).name != name,
    decreases list.len(),
{
    if list.len() > 0 {
        let rest = list.drop_first();
        lemma_named(rest, name);
        if list[0].name == name {
            assert(list.contains(list[0]));
        } else if let Some(l) = named(rest, name) {
            let k = choose|k: int| 0 <= k < rest.len() && rest[k] == l;
            assert(list[k + 1] == l);
        } else {
            assert forall|i: int| 0 <= i < list.len() implies (#[trigger] list[i]).name != name by {
                if i > 0 {
                    assert(list[i] == rest[i - 1]);
                }
            }
        }
    }
}

/// What is dropped from a reference is the extension of some language.
pub proof fn lemma_every_extension_is_a_source_extension(ext: Seq<char>)
    ensures
        source_extension(ext) <==> exists|g: Grammar| #[trigger] is_extension(g, ext),
{
    lemma_registry();
    assert forall|i: int| 0 <= i < registry().len() implies means(
        #[trigger] registry()[i],
        ext,
    ) by {
        assert(registry().contains(registry()[i]));
        lemma_kinds_mean_what_they_do(registry()[i], ext);
    }
    if source_extension(ext) {
        let i = choose|i: int|
            0 <= i < registry().len() && (#[trigger] registry()[i]).extensions.contains(ext);
        assert(is_extension(registry()[i].grammar, ext));
    }
    if exists|g: Grammar| #[trigger] is_extension(g, ext) {
        let g = choose|g: Grammar| #[trigger] is_extension(g, ext);
        lemma_every_grammar_has_its_language(g);
    }
}

/// A file is claimed by the language that its extension, in lower case, is one of, and by
/// none where there is no such language.
pub proof fn lemma_files_are_claimed_by_their_extension(
    dir: Seq<char>,
    stem: Seq<char>,
    ext: Seq<char>,
    lower: Seq<char>,
)
    requires
        dir.len() == 0 || dir.last() == '/',
        stem.len() > 0,
        lacks(stem, '/'),
        ext.len() > 0,
        lacks(ext, '/'),
        lacks(ext, '.'),
        lower.len() == ext.len(),
        forall|i: int|
            0 <= i < ext.len() ==> (if 'A' <= ext[i] <= 'Z' {
                #[trigger] lower[i] as int == ext[i] as int + 32
            } else {
                lower[i] == ext[i]
            }),
    ensures
        language_of(dir + stem + seq!['.'] + ext) matches Some(l) ==> registry().contains(l)
            && is_extension(l.grammar, lower),
        forall|g: Grammar| #[trigger]
            is_extension(g, lower) ==> language_of(dir + stem + seq!['.'] + ext) is Some,
{
    lemma_extension_follows_the_last_dot(dir, stem, ext);
    assert(ascii_lowered(ext) =~= lower) by {
        assert forall|i: int| 0 <= i < ext.len() implies ascii_lowered(ext)[i] == lower[i] by {
            lemma_lower_case_changes_capital_letters(ext, i);
        }
    }
    lemma_languages_are_found(lower);
}

} // verus!
