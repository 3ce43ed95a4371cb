//! The languages: what each grammar's node kinds mean.
//!
//! Adding a language means adding a variant to [`Grammar`], its tables here, and
//! one entry to [`crate::lang::all`].

use vstd::prelude::*;
use vstd::string::*;

use crate::lang::{kinds, pairs, tags, Grammar, Language, LanguageView, LiteralTag};

verus! {

/// The tables of [`c`].
pub open spec fn c_tables() -> LanguageView {
    LanguageView {
        name: "c"@,
        grammar: Grammar::C,
        extensions: seq![
            "c"@, "h"@,
        ],
        unit_kinds: seq![
            ("function_definition"@, "declarator"@),
        ],
        scope_kinds: seq![
            ("struct_specifier"@, "name"@), ("union_specifier"@, "name"@),
            ("enum_specifier"@, "name"@), ("function_definition"@, "declarator"@),
        ],
        identifier_kinds: seq![
            "identifier"@, "field_identifier"@, "type_identifier"@, "statement_identifier"@,
        ],
        literal_kinds: seq![
            ("number_literal"@, LiteralTag::Number), ("string_literal"@, LiteralTag::String),
            ("char_literal"@, LiteralTag::String), ("true"@, LiteralTag::Boolean),
            ("false"@, LiteralTag::Boolean), ("null"@, LiteralTag::Nil),
        ],
        ignored_kinds: seq![
            "comment"@,
        ],
    }
}

/// C.
///
/// `function_definition` has no `name` field: C names a function through a nested
/// `function_declarator`, so the qualified-name segment is that declarator's own
/// text — the name *and* its parameter list, `add(int a, int b)` rather than `add`.
/// `struct`, `union` and `enum` are scopes for types declared inside another, and
/// `function_definition` for a function nested in one.
pub fn c() -> (l: Language)
    ensures
        l@ == c_tables(),
{
    let l = Language {
        name: "c",
        grammar: Grammar::C,
        extensions: vec![
            "c", "h",
        ],
        unit_kinds: vec![
            ("function_definition", "declarator"),
        ],
        scope_kinds: vec![
            ("struct_specifier", "name"), ("union_specifier", "name"),
            ("enum_specifier", "name"), ("function_definition", "declarator"),
        ],
        identifier_kinds: vec![
            "identifier", "field_identifier", "type_identifier", "statement_identifier",
        ],
        literal_kinds: vec![
            ("number_literal", LiteralTag::Number), ("string_literal", LiteralTag::String),
            ("char_literal", LiteralTag::String), ("true", LiteralTag::Boolean),
            ("false", LiteralTag::Boolean), ("null", LiteralTag::Nil),
        ],
        ignored_kinds: vec![
            "comment",
        ],
    };
    proof {
        let t = c_tables();
        assert(kinds(l.extensions@) =~= t.extensions);
        assert(pairs(l.unit_kinds@) =~= t.unit_kinds);
        assert(pairs(l.scope_kinds@) =~= t.scope_kinds);
        assert(kinds(l.identifier_kinds@) =~= t.identifier_kinds);
        assert(tags(l.literal_kinds@) =~= t.literal_kinds);
        assert(kinds(l.ignored_kinds@) =~= t.ignored_kinds);
    }
    l
}

/// The tables of [`cpp`].
pub open spec fn cpp_tables() -> LanguageView {
    LanguageView {
        name: "cpp"@,
        grammar: Grammar::Cpp,
        extensions: seq![
            "cpp"@, "cc"@, "cxx"@, "hpp"@, "hh"@, "hxx"@,
        ],
        unit_kinds: seq![
            ("function_definition"@, "declarator"@), ("lambda_expression"@, "name"@),
        ],
        scope_kinds: seq![
            ("struct_specifier"@, "name"@), ("class_specifier"@, "name"@),
            ("union_specifier"@, "name"@), ("enum_specifier"@, "name"@),
            ("namespace_definition"@, "name"@), ("function_definition"@, "declarator"@),
        ],
        identifier_kinds: seq![
            "identifier"@, "field_identifier"@, "type_identifier"@, "statement_identifier"@,
            "namespace_identifier"@,
        ],
        literal_kinds: seq![
            ("number_literal"@, LiteralTag::Number), ("string_literal"@, LiteralTag::String),
            ("raw_string_literal"@, LiteralTag::String), ("char_literal"@, LiteralTag::String),
            ("true"@, LiteralTag::Boolean), ("false"@, LiteralTag::Boolean),
            ("null"@, LiteralTag::Nil),
        ],
        ignored_kinds: seq![
            "comment"@,
        ],
    }
}

/// C++.
///
/// Shares C's declarator-naming quirk for free functions *and* methods. A lambda's
/// `declarator` field is its parameter list, not a name, so it is registered under
/// `name`, a field it lacks, and stays anonymous.
pub fn cpp() -> (l: Language)
    ensures
        l@ == cpp_tables(),
{
    let l = Language {
        name: "cpp",
        grammar: Grammar::Cpp,
        extensions: vec![
            "cpp", "cc", "cxx", "hpp", "hh", "hxx",
        ],
        unit_kinds: vec![
            ("function_definition", "declarator"), ("lambda_expression", "name"),
        ],
        scope_kinds: vec![
            ("struct_specifier", "name"), ("class_specifier", "name"),
            ("union_specifier", "name"), ("enum_specifier", "name"),
            ("namespace_definition", "name"), ("function_definition", "declarator"),
        ],
        identifier_kinds: vec![
            "identifier", "field_identifier", "type_identifier", "statement_identifier",
            "namespace_identifier",
        ],
        literal_kinds: vec![
            ("number_literal", LiteralTag::Number), ("string_literal", LiteralTag::String),
            ("raw_string_literal", LiteralTag::String), ("char_literal", LiteralTag::String),
            ("true", LiteralTag::Boolean), ("false", LiteralTag::Boolean),
            ("null", LiteralTag::Nil),
        ],
        ignored_kinds: vec![
            "comment",
        ],
    };
    proof {
        let t = cpp_tables();
        assert(kinds(l.extensions@) =~= t.extensions);
        assert(pairs(l.unit_kinds@) =~= t.unit_kinds);
        assert(pairs(l.scope_kinds@) =~= t.scope_kinds);
        assert(kinds(l.identifier_kinds@) =~= t.identifier_kinds);
        assert(tags(l.literal_kinds@) =~= t.literal_kinds);
        assert(kinds(l.ignored_kinds@) =~= t.ignored_kinds);
    }
    l
}

/// The tables of [`csharp`].
pub open spec fn csharp_tables() -> LanguageView {
    LanguageView {
        name: "csharp"@,
        grammar: Grammar::CSharp,
        extensions: seq![
            "cs"@,
        ],
        unit_kinds: seq![
            ("method_declaration"@, "name"@), ("constructor_declaration"@, "name"@),
            ("local_function_statement"@, "name"@), ("lambda_expression"@, "name"@),
            ("anonymous_method_expression"@, "name"@),
        ],
        scope_kinds: seq![
            ("class_declaration"@, "name"@), ("interface_declaration"@, "name"@),
            ("struct_declaration"@, "name"@), ("namespace_declaration"@, "name"@),
            ("method_declaration"@, "name"@), ("constructor_declaration"@, "name"@),
            ("local_function_statement"@, "name"@),
        ],
        identifier_kinds: seq![
            "identifier"@,
        ],
        literal_kinds: seq![
            ("integer_literal"@, LiteralTag::Number), ("real_literal"@, LiteralTag::Number),
            ("string_literal"@, LiteralTag::String),
            ("verbatim_string_literal"@, LiteralTag::String),
            ("raw_string_literal"@, LiteralTag::String),
            ("character_literal"@, LiteralTag::String),
            ("boolean_literal"@, LiteralTag::Boolean), ("null_literal"@, LiteralTag::Nil),
        ],
        ignored_kinds: seq![
            "comment"@,
        ],
    }
}

/// C#.
pub fn csharp() -> (l: Language)
    ensures
        l@ == csharp_tables(),
{
    let l = Language {
        name: "csharp",
        grammar: Grammar::CSharp,
        extensions: vec![
            "cs",
        ],
        unit_kinds: vec![
            ("method_declaration", "name"), ("constructor_declaration", "name"),
            ("local_function_statement", "name"), ("lambda_expression", "name"),
            ("anonymous_method_expression", "name"),
        ],
        scope_kinds: vec![
            ("class_declaration", "name"), ("interface_declaration", "name"),
            ("struct_declaration", "name"), ("namespace_declaration", "name"),
            ("method_declaration", "name"), ("constructor_declaration", "name"),
            ("local_function_statement", "name"),
        ],
        identifier_kinds: vec![
            "identifier",
        ],
        literal_kinds: vec![
            ("integer_literal", LiteralTag::Number), ("real_literal", LiteralTag::Number),
            ("string_literal", LiteralTag::String),
            ("verbatim_string_literal", LiteralTag::String),
            ("raw_string_literal", LiteralTag::String),
            ("character_literal", LiteralTag::String),
            ("boolean_literal", LiteralTag::Boolean), ("null_literal", LiteralTag::Nil),
        ],
        ignored_kinds: vec![
            "comment",
        ],
    };
    proof {
        let t = csharp_tables();
        assert(kinds(l.extensions@) =~= t.extensions);
        assert(pairs(l.unit_kinds@) =~= t.unit_kinds);
        assert(pairs(l.scope_kinds@) =~= t.scope_kinds);
        assert(kinds(l.identifier_kinds@) =~= t.identifier_kinds);
        assert(tags(l.literal_kinds@) =~= t.literal_kinds);
        assert(kinds(l.ignored_kinds@) =~= t.ignored_kinds);
    }
    l
}

/// The tables of [`go`].
pub open spec fn go_tables() -> LanguageView {
    LanguageView {
        name: "go"@,
        grammar: Grammar::Go,
        extensions: seq![
            "go"@,
        ],
        unit_kinds: seq![
            ("function_declaration"@, "name"@), ("method_declaration"@, "name"@),
            ("func_literal"@, "name"@),
        ],
        scope_kinds: seq![
            ("type_spec"@, "name"@), ("function_declaration"@, "name"@),
            ("method_declaration"@, "name"@),
        ],
        identifier_kinds: seq![
            "identifier"@, "field_identifier"@, "type_identifier"@, "package_identifier"@,
            "blank_identifier"@,
        ],
        literal_kinds: seq![
            ("int_literal"@, LiteralTag::Number), ("float_literal"@, LiteralTag::Number),
            ("imaginary_literal"@, LiteralTag::Number),
            ("interpreted_string_literal"@, LiteralTag::String),
            ("raw_string_literal"@, LiteralTag::String), ("rune_literal"@, LiteralTag::String),
            ("true"@, LiteralTag::Boolean), ("false"@, LiteralTag::Boolean),
            ("nil"@, LiteralTag::Nil),
        ],
        ignored_kinds: seq![
            "comment"@,
        ],
    }
}

/// Go.
///
/// A method's receiver type is a sibling field of its `name`, not an ancestor node,
/// so a Go method's qualified name is its bare name.
pub fn go() -> (l: Language)
    ensures
        l@ == go_tables(),
{
    let l = Language {
        name: "go",
        grammar: Grammar::Go,
        extensions: vec![
            "go",
        ],
        unit_kinds: vec![
            ("function_declaration", "name"), ("method_declaration", "name"),
            ("func_literal", "name"),
        ],
        scope_kinds: vec![
            ("type_spec", "name"), ("function_declaration", "name"),
            ("method_declaration", "name"),
        ],
        identifier_kinds: vec![
            "identifier", "field_identifier", "type_identifier", "package_identifier",
            "blank_identifier",
        ],
        literal_kinds: vec![
            ("int_literal", LiteralTag::Number), ("float_literal", LiteralTag::Number),
            ("imaginary_literal", LiteralTag::Number),
            ("interpreted_string_literal", LiteralTag::String),
            ("raw_string_literal", LiteralTag::String), ("rune_literal", LiteralTag::String),
            ("true", LiteralTag::Boolean), ("false", LiteralTag::Boolean),
            ("nil", LiteralTag::Nil),
        ],
        ignored_kinds: vec![
            "comment",
        ],
    };
    proof {
        let t = go_tables();
        assert(kinds(l.extensions@) =~= t.extensions);
        assert(pairs(l.unit_kinds@) =~= t.unit_kinds);
        assert(pairs(l.scope_kinds@) =~= t.scope_kinds);
        assert(kinds(l.identifier_kinds@) =~= t.identifier_kinds);
        assert(tags(l.literal_kinds@) =~= t.literal_kinds);
        assert(kinds(l.ignored_kinds@) =~= t.ignored_kinds);
    }
    l
}

/// The tables of [`java`].
pub open spec fn java_tables() -> LanguageView {
    LanguageView {
        name: "java"@,
        grammar: Grammar::Java,
        extensions: seq![
            "java"@,
        ],
        unit_kinds: seq![
            ("method_declaration"@, "name"@), ("constructor_declaration"@, "name"@),
            ("lambda_expression"@, "name"@),
        ],
        scope_kinds: seq![
            ("class_declaration"@, "name"@), ("interface_declaration"@, "name"@),
            ("enum_declaration"@, "name"@), ("method_declaration"@, "name"@),
            ("constructor_declaration"@, "name"@),
        ],
        identifier_kinds: seq![
            "identifier"@, "type_identifier"@,
        ],
        literal_kinds: seq![
            ("decimal_integer_literal"@, LiteralTag::Number),
            ("hex_integer_literal"@, LiteralTag::Number),
            ("octal_integer_literal"@, LiteralTag::Number),
            ("binary_integer_literal"@, LiteralTag::Number),
            ("decimal_floating_point_literal"@, LiteralTag::Number),
            ("hex_floating_point_literal"@, LiteralTag::Number),
            ("string_literal"@, LiteralTag::String),
            ("character_literal"@, LiteralTag::String), ("true"@, LiteralTag::Boolean),
            ("false"@, LiteralTag::Boolean), ("null_literal"@, LiteralTag::Nil),
        ],
        ignored_kinds: seq![
            "line_comment"@, "block_comment"@,
        ],
    }
}

/// Java.
///
/// `method_declaration` also matches an interface method signature, which has no
/// body; `min_nodes` filters out the near-empty ones.
pub fn java() -> (l: Language)
    ensures
        l@ == java_tables(),
{
    let l = Language {
        name: "java",
        grammar: Grammar::Java,
        extensions: vec![
            "java",
        ],
        unit_kinds: vec![
            ("method_declaration", "name"), ("constructor_declaration", "name"),
            ("lambda_expression", "name"),
        ],
        scope_kinds: vec![
            ("class_declaration", "name"), ("interface_declaration", "name"),
            ("enum_declaration", "name"), ("method_declaration", "name"),
            ("constructor_declaration", "name"),
        ],
        identifier_kinds: vec![
            "identifier", "type_identifier",
        ],
        literal_kinds: vec![
            ("decimal_integer_literal", LiteralTag::Number),
            ("hex_integer_literal", LiteralTag::Number),
            ("octal_integer_literal", LiteralTag::Number),
            ("binary_integer_literal", LiteralTag::Number),
            ("decimal_floating_point_literal", LiteralTag::Number),
            ("hex_floating_point_literal", LiteralTag::Number),
            ("string_literal", LiteralTag::String), ("character_literal", LiteralTag::String),
            ("true", LiteralTag::Boolean), ("false", LiteralTag::Boolean),
            ("null_literal", LiteralTag::Nil),
        ],
        ignored_kinds: vec![
            "line_comment", "block_comment",
        ],
    };
    proof {
        let t = java_tables();
        assert(kinds(l.extensions@) =~= t.extensions);
        assert(pairs(l.unit_kinds@) =~= t.unit_kinds);
        assert(pairs(l.scope_kinds@) =~= t.scope_kinds);
        assert(kinds(l.identifier_kinds@) =~= t.identifier_kinds);
        assert(tags(l.literal_kinds@) =~= t.literal_kinds);
        assert(kinds(l.ignored_kinds@) =~= t.ignored_kinds);
    }
    l
}

/// The tables of [`javascript`].
pub open spec fn javascript_tables() -> LanguageView {
    LanguageView {
        name: "javascript"@,
        grammar: Grammar::JavaScript,
        extensions: seq![
            "js"@, "mjs"@, "cjs"@, "jsx"@,
        ],
        unit_kinds: seq![
            ("function_declaration"@, "name"@), ("generator_function_declaration"@, "name"@),
            ("function_expression"@, "name"@), ("method_definition"@, "name"@),
            ("arrow_function"@, "name"@),
        ],
        scope_kinds: seq![
            ("class_declaration"@, "name"@), ("variable_declarator"@, "name"@),
            ("function_declaration"@, "name"@), ("generator_function_declaration"@, "name"@),
            ("method_definition"@, "name"@),
        ],
        identifier_kinds: seq![
            "identifier"@, "property_identifier"@, "private_property_identifier"@,
            "shorthand_property_identifier"@, "shorthand_property_identifier_pattern"@,
        ],
        literal_kinds: seq![
            ("number"@, LiteralTag::Number), ("string"@, LiteralTag::String),
            ("template_string"@, LiteralTag::String), ("regex"@, LiteralTag::Other),
            ("true"@, LiteralTag::Boolean), ("false"@, LiteralTag::Boolean),
            ("null"@, LiteralTag::Nil), ("undefined"@, LiteralTag::Nil),
        ],
        ignored_kinds: seq![
            "comment"@,
        ],
    }
}

/// JavaScript.
///
/// An `arrow_function` and an anonymous `function_expression` are real units that no
/// grammar field can name. `variable_declarator` is a scope so that
/// `const add = (x, y) => …` reports as `add.<anonymous@…>`.
pub fn javascript() -> (l: Language)
    ensures
        l@ == javascript_tables(),
{
    let l = Language {
        name: "javascript",
        grammar: Grammar::JavaScript,
        extensions: vec![
            "js", "mjs", "cjs", "jsx",
        ],
        unit_kinds: vec![
            ("function_declaration", "name"), ("generator_function_declaration", "name"),
            ("function_expression", "name"), ("method_definition", "name"),
            ("arrow_function", "name"),
        ],
        scope_kinds: vec![
            ("class_declaration", "name"), ("variable_declarator", "name"),
            ("function_declaration", "name"), ("generator_function_declaration", "name"),
            ("method_definition", "name"),
        ],
        identifier_kinds: vec![
            "identifier", "property_identifier", "private_property_identifier",
            "shorthand_property_identifier", "shorthand_property_identifier_pattern",
        ],
        literal_kinds: vec![
            ("number", LiteralTag::Number), ("string", LiteralTag::String),
            ("template_string", LiteralTag::String), ("regex", LiteralTag::Other),
            ("true", LiteralTag::Boolean), ("false", LiteralTag::Boolean),
            ("null", LiteralTag::Nil), ("undefined", LiteralTag::Nil),
        ],
        ignored_kinds: vec![
            "comment",
        ],
    };
    proof {
        let t = javascript_tables();
        assert(kinds(l.extensions@) =~= t.extensions);
        assert(pairs(l.unit_kinds@) =~= t.unit_kinds);
        assert(pairs(l.scope_kinds@) =~= t.scope_kinds);
        assert(kinds(l.identifier_kinds@) =~= t.identifier_kinds);
        assert(tags(l.literal_kinds@) =~= t.literal_kinds);
        assert(kinds(l.ignored_kinds@) =~= t.ignored_kinds);
    }
    l
}

/// The tables of [`php`].
pub open spec fn php_tables() -> LanguageView {
    LanguageView {
        name: "php"@,
        grammar: Grammar::Php,
        extensions: seq![
            "php"@,
        ],
        unit_kinds: seq![
            ("method_declaration"@, "name"@), ("function_definition"@, "name"@),
            ("anonymous_function"@, "name"@), ("arrow_function"@, "name"@),
        ],
        scope_kinds: seq![
            ("class_declaration"@, "name"@), ("interface_declaration"@, "name"@),
            ("trait_declaration"@, "name"@), ("namespace_definition"@, "name"@),
            ("enum_declaration"@, "name"@), ("method_declaration"@, "name"@),
            ("function_definition"@, "name"@),
        ],
        identifier_kinds: seq![
            "name"@,
        ],
        literal_kinds: seq![
            ("integer"@, LiteralTag::Number), ("float"@, LiteralTag::Number),
            ("string"@, LiteralTag::String), ("encapsed_string"@, LiteralTag::String),
            ("heredoc"@, LiteralTag::String), ("nowdoc"@, LiteralTag::String),
            ("boolean"@, LiteralTag::Boolean), ("null"@, LiteralTag::Nil),
        ],
        ignored_kinds: seq![
            "comment"@,
        ],
    }
}

/// PHP.
///
/// The grammar names every declaration and every variable with the same `name` kind.
pub fn php() -> (l: Language)
    ensures
        l@ == php_tables(),
{
    let l = Language {
        name: "php",
        grammar: Grammar::Php,
        extensions: vec![
            "php",
        ],
        unit_kinds: vec![
            ("method_declaration", "name"), ("function_definition", "name"),
            ("anonymous_function", "name"), ("arrow_function", "name"),
        ],
        scope_kinds: vec![
            ("class_declaration", "name"), ("interface_declaration", "name"),
            ("trait_declaration", "name"), ("namespace_definition", "name"),
            ("enum_declaration", "name"), ("method_declaration", "name"),
            ("function_definition", "name"),
        ],
        identifier_kinds: vec![
            "name",
        ],
        literal_kinds: vec![
            ("integer", LiteralTag::Number), ("float", LiteralTag::Number),
            ("string", LiteralTag::String), ("encapsed_string", LiteralTag::String),
            ("heredoc", LiteralTag::String), ("nowdoc", LiteralTag::String),
            ("boolean", LiteralTag::Boolean), ("null", LiteralTag::Nil),
        ],
        ignored_kinds: vec![
            "comment",
        ],
    };
    proof {
        let t = php_tables();
        assert(kinds(l.extensions@) =~= t.extensions);
        assert(pairs(l.unit_kinds@) =~= t.unit_kinds);
        assert(pairs(l.scope_kinds@) =~= t.scope_kinds);
        assert(kinds(l.identifier_kinds@) =~= t.identifier_kinds);
        assert(tags(l.literal_kinds@) =~= t.literal_kinds);
        assert(kinds(l.ignored_kinds@) =~= t.ignored_kinds);
    }
    l
}

/// The tables of [`python`].
pub open spec fn python_tables() -> LanguageView {
    LanguageView {
        name: "python"@,
        grammar: Grammar::Python,
        extensions: seq![
            "py"@, "pyi"@,
        ],
        unit_kinds: seq![
            ("function_definition"@, "name"@),
        ],
        scope_kinds: seq![
            ("class_definition"@, "name"@), ("function_definition"@, "name"@),
        ],
        identifier_kinds: seq![
            "identifier"@,
        ],
        literal_kinds: seq![
            ("integer"@, LiteralTag::Number), ("float"@, LiteralTag::Number),
            ("string"@, LiteralTag::String), ("concatenated_string"@, LiteralTag::String),
            ("true"@, LiteralTag::Boolean), ("false"@, LiteralTag::Boolean),
            ("none"@, LiteralTag::Nil), ("ellipsis"@, LiteralTag::Other),
        ],
        ignored_kinds: seq![
            "comment"@,
        ],
    }
}

/// Python.
pub fn python() -> (l: Language)
    ensures
        l@ == python_tables(),
{
    let l = Language {
        name: "python",
        grammar: Grammar::Python,
        extensions: vec![
            "py", "pyi",
        ],
        unit_kinds: vec![
            ("function_definition", "name"),
        ],
        scope_kinds: vec![
            ("class_definition", "name"), ("function_definition", "name"),
        ],
        identifier_kinds: vec![
            "identifier",
        ],
        literal_kinds: vec![
            ("integer", LiteralTag::Number), ("float", LiteralTag::Number),
            ("string", LiteralTag::String), ("concatenated_string", LiteralTag::String),
            ("true", LiteralTag::Boolean), ("false", LiteralTag::Boolean),
            ("none", LiteralTag::Nil), ("ellipsis", LiteralTag::Other),
        ],
        ignored_kinds: vec![
            "comment",
        ],
    };
    proof {
        let t = python_tables();
        assert(kinds(l.extensions@) =~= t.extensions);
        assert(pairs(l.unit_kinds@) =~= t.unit_kinds);
        assert(pairs(l.scope_kinds@) =~= t.scope_kinds);
        assert(kinds(l.identifier_kinds@) =~= t.identifier_kinds);
        assert(tags(l.literal_kinds@) =~= t.literal_kinds);
        assert(kinds(l.ignored_kinds@) =~= t.ignored_kinds);
    }
    l
}

/// The tables of [`ruby`].
pub open spec fn ruby_tables() -> LanguageView {
    LanguageView {
        name: "ruby"@,
        grammar: Grammar::Ruby,
        extensions: seq![
            "rb"@,
        ],
        unit_kinds: seq![
            ("method"@, "name"@), ("singleton_method"@, "name"@), ("lambda"@, "name"@),
            ("block"@, "name"@), ("do_block"@, "name"@),
        ],
        scope_kinds: seq![
            ("module"@, "name"@), ("class"@, "name"@), ("method"@, "name"@),
            ("singleton_method"@, "name"@),
        ],
        identifier_kinds: seq![
            "identifier"@, "constant"@, "instance_variable"@, "class_variable"@,
            "global_variable"@,
        ],
        literal_kinds: seq![
            ("integer"@, LiteralTag::Number), ("float"@, LiteralTag::Number),
            ("string"@, LiteralTag::String), ("true"@, LiteralTag::Boolean),
            ("false"@, LiteralTag::Boolean), ("nil"@, LiteralTag::Nil),
            ("simple_symbol"@, LiteralTag::Other), ("bare_symbol"@, LiteralTag::Other),
            ("delimited_symbol"@, LiteralTag::Other), ("hash_key_symbol"@, LiteralTag::Other),
        ],
        ignored_kinds: seq![
            "comment"@,
        ],
    }
}

/// Ruby.
///
/// Blocks and lambdas have no name field and stay anonymous. A symbol is not a
/// string — it is an interned name — so it is tagged as neither.
pub fn ruby() -> (l: Language)
    ensures
        l@ == ruby_tables(),
{
    let l = Language {
        name: "ruby",
        grammar: Grammar::Ruby,
        extensions: vec![
            "rb",
        ],
        unit_kinds: vec![
            ("method", "name"), ("singleton_method", "name"), ("lambda", "name"),
            ("block", "name"), ("do_block", "name"),
        ],
        scope_kinds: vec![
            ("module", "name"), ("class", "name"), ("method", "name"),
            ("singleton_method", "name"),
        ],
        identifier_kinds: vec![
            "identifier", "constant", "instance_variable", "class_variable", "global_variable",
        ],
        literal_kinds: vec![
            ("integer", LiteralTag::Number), ("float", LiteralTag::Number),
            ("string", LiteralTag::String), ("true", LiteralTag::Boolean),
            ("false", LiteralTag::Boolean), ("nil", LiteralTag::Nil),
            ("simple_symbol", LiteralTag::Other), ("bare_symbol", LiteralTag::Other),
            ("delimited_symbol", LiteralTag::Other), ("hash_key_symbol", LiteralTag::Other),
        ],
        ignored_kinds: vec![
            "comment",
        ],
    };
    proof {
        let t = ruby_tables();
        assert(kinds(l.extensions@) =~= t.extensions);
        assert(pairs(l.unit_kinds@) =~= t.unit_kinds);
        assert(pairs(l.scope_kinds@) =~= t.scope_kinds);
        assert(kinds(l.identifier_kinds@) =~= t.identifier_kinds);
        assert(tags(l.literal_kinds@) =~= t.literal_kinds);
        assert(kinds(l.ignored_kinds@) =~= t.ignored_kinds);
    }
    l
}

/// The tables of [`rust`].
pub open spec fn rust_tables() -> LanguageView {
    LanguageView {
        name: "rust"@,
        grammar: Grammar::Rust,
        extensions: seq![
            "rs"@,
        ],
        unit_kinds: seq![
            ("function_item"@, "name"@), ("closure_expression"@, "name"@),
        ],
        scope_kinds: seq![
            ("struct_item"@, "name"@), ("trait_item"@, "name"@), ("impl_item"@, "type"@),
            ("mod_item"@, "name"@), ("function_item"@, "name"@),
        ],
        identifier_kinds: seq![
            "identifier"@, "type_identifier"@, "field_identifier"@,
            "shorthand_field_identifier"@,
        ],
        literal_kinds: seq![
            ("integer_literal"@, LiteralTag::Number), ("float_literal"@, LiteralTag::Number),
            ("string_literal"@, LiteralTag::String),
            ("raw_string_literal"@, LiteralTag::String), ("char_literal"@, LiteralTag::String),
            ("boolean_literal"@, LiteralTag::Boolean),
        ],
        ignored_kinds: seq![
            "line_comment"@, "block_comment"@,
        ],
    }
}

/// Rust.
///
/// `impl_item` names its subject through `type`, so a method qualifies by the type it
/// is implemented for whichever trait it implements. `primitive_type` is a keyword,
/// not a name somebody chose, and stays structural.
pub fn rust() -> (l: Language)
    ensures
        l@ == rust_tables(),
{
    let l = Language {
        name: "rust",
        grammar: Grammar::Rust,
        extensions: vec![
            "rs",
        ],
        unit_kinds: vec![
            ("function_item", "name"), ("closure_expression", "name"),
        ],
        scope_kinds: vec![
            ("struct_item", "name"), ("trait_item", "name"), ("impl_item", "type"),
            ("mod_item", "name"), ("function_item", "name"),
        ],
        identifier_kinds: vec![
            "identifier", "type_identifier", "field_identifier", "shorthand_field_identifier",
        ],
        literal_kinds: vec![
            ("integer_literal", LiteralTag::Number), ("float_literal", LiteralTag::Number),
            ("string_literal", LiteralTag::String), ("raw_string_literal", LiteralTag::String),
            ("char_literal", LiteralTag::String), ("boolean_literal", LiteralTag::Boolean),
        ],
        ignored_kinds: vec![
            "line_comment", "block_comment",
        ],
    };
    proof {
        let t = rust_tables();
        assert(kinds(l.extensions@) =~= t.extensions);
        assert(pairs(l.unit_kinds@) =~= t.unit_kinds);
        assert(pairs(l.scope_kinds@) =~= t.scope_kinds);
        assert(kinds(l.identifier_kinds@) =~= t.identifier_kinds);
        assert(tags(l.literal_kinds@) =~= t.literal_kinds);
        assert(kinds(l.ignored_kinds@) =~= t.ignored_kinds);
    }
    l
}

/// The tables of [`tsx`].
pub open spec fn tsx_tables() -> LanguageView {
    LanguageView {
        name: "tsx"@,
        grammar: Grammar::Tsx,
        extensions: seq![
            "tsx"@,
        ],
        unit_kinds: seq![
            ("function_declaration"@, "name"@), ("generator_function_declaration"@, "name"@),
            ("function_expression"@, "name"@), ("method_definition"@, "name"@),
            ("arrow_function"@, "name"@),
        ],
        scope_kinds: seq![
            ("class_declaration"@, "name"@), ("variable_declarator"@, "name"@),
            ("function_declaration"@, "name"@), ("generator_function_declaration"@, "name"@),
            ("method_definition"@, "name"@), ("interface_declaration"@, "name"@),
            ("internal_module"@, "name"@),
        ],
        identifier_kinds: seq![
            "identifier"@, "property_identifier"@, "private_property_identifier"@,
            "shorthand_property_identifier"@, "shorthand_property_identifier_pattern"@,
            "type_identifier"@,
        ],
        literal_kinds: seq![
            ("number"@, LiteralTag::Number), ("string"@, LiteralTag::String),
            ("template_string"@, LiteralTag::String), ("regex"@, LiteralTag::Other),
            ("true"@, LiteralTag::Boolean), ("false"@, LiteralTag::Boolean),
            ("null"@, LiteralTag::Nil), ("undefined"@, LiteralTag::Nil),
        ],
        ignored_kinds: seq![
            "comment"@,
        ],
    }
}

/// TSX — TypeScript with JSX. JSX is ambiguous with generic arguments and the two
/// grammars resolve it differently, so the dialect has an entry of its own.
pub fn tsx() -> (l: Language)
    ensures
        l@ == tsx_tables(),
{
    let l = Language {
        name: "tsx",
        grammar: Grammar::Tsx,
        extensions: vec![
            "tsx",
        ],
        unit_kinds: vec![
            ("function_declaration", "name"), ("generator_function_declaration", "name"),
            ("function_expression", "name"), ("method_definition", "name"),
            ("arrow_function", "name"),
        ],
        scope_kinds: vec![
            ("class_declaration", "name"), ("variable_declarator", "name"),
            ("function_declaration", "name"), ("generator_function_declaration", "name"),
            ("method_definition", "name"), ("interface_declaration", "name"),
            ("internal_module", "name"),
        ],
        identifier_kinds: vec![
            "identifier", "property_identifier", "private_property_identifier",
            "shorthand_property_identifier", "shorthand_property_identifier_pattern",
            "type_identifier",
        ],
        literal_kinds: vec![
            ("number", LiteralTag::Number), ("string", LiteralTag::String),
            ("template_string", LiteralTag::String), ("regex", LiteralTag::Other),
            ("true", LiteralTag::Boolean), ("false", LiteralTag::Boolean),
            ("null", LiteralTag::Nil), ("undefined", LiteralTag::Nil),
        ],
        ignored_kinds: vec![
            "comment",
        ],
    };
    proof {
        let t = tsx_tables();
        assert(kinds(l.extensions@) =~= t.extensions);
        assert(pairs(l.unit_kinds@) =~= t.unit_kinds);
        assert(pairs(l.scope_kinds@) =~= t.scope_kinds);
        assert(kinds(l.identifier_kinds@) =~= t.identifier_kinds);
        assert(tags(l.literal_kinds@) =~= t.literal_kinds);
        assert(kinds(l.ignored_kinds@) =~= t.ignored_kinds);
    }
    l
}

/// The tables of [`typescript`].
pub open spec fn typescript_tables() -> LanguageView {
    LanguageView {
        name: "typescript"@,
        grammar: Grammar::TypeScript,
        extensions: seq![
            "ts"@,
        ],
        unit_kinds: seq![
            ("function_declaration"@, "name"@), ("generator_function_declaration"@, "name"@),
            ("function_expression"@, "name"@), ("method_definition"@, "name"@),
            ("arrow_function"@, "name"@),
        ],
        scope_kinds: seq![
            ("class_declaration"@, "name"@), ("variable_declarator"@, "name"@),
            ("function_declaration"@, "name"@), ("generator_function_declaration"@, "name"@),
            ("method_definition"@, "name"@), ("interface_declaration"@, "name"@),
            ("internal_module"@, "name"@),
        ],
        identifier_kinds: seq![
            "identifier"@, "property_identifier"@, "private_property_identifier"@,
            "shorthand_property_identifier"@, "shorthand_property_identifier_pattern"@,
            "type_identifier"@,
        ],
        literal_kinds: seq![
            ("number"@, LiteralTag::Number), ("string"@, LiteralTag::String),
            ("template_string"@, LiteralTag::String), ("regex"@, LiteralTag::Other),
            ("true"@, LiteralTag::Boolean), ("false"@, LiteralTag::Boolean),
            ("null"@, LiteralTag::Nil), ("undefined"@, LiteralTag::Nil),
        ],
        ignored_kinds: seq![
            "comment"@,
        ],
    }
}

/// TypeScript.
///
/// A type annotation wraps an *anonymous* child spelled `number` or `string`, the very
/// words of two literal kinds; only named nodes are matched against those.
pub fn typescript() -> (l: Language)
    ensures
        l@ == typescript_tables(),
{
    let l = Language {
        name: "typescript",
        grammar: Grammar::TypeScript,
        extensions: vec![
            "ts",
        ],
        unit_kinds: vec![
            ("function_declaration", "name"), ("generator_function_declaration", "name"),
            ("function_expression", "name"), ("method_definition", "name"),
            ("arrow_function", "name"),
        ],
        scope_kinds: vec![
            ("class_declaration", "name"), ("variable_declarator", "name"),
            ("function_declaration", "name"), ("generator_function_declaration", "name"),
            ("method_definition", "name"), ("interface_declaration", "name"),
            ("internal_module", "name"),
        ],
        identifier_kinds: vec![
            "identifier", "property_identifier", "private_property_identifier",
            "shorthand_property_identifier", "shorthand_property_identifier_pattern",
            "type_identifier",
        ],
        literal_kinds: vec![
            ("number", LiteralTag::Number), ("string", LiteralTag::String),
            ("template_string", LiteralTag::String), ("regex", LiteralTag::Other),
            ("true", LiteralTag::Boolean), ("false", LiteralTag::Boolean),
            ("null", LiteralTag::Nil), ("undefined", LiteralTag::Nil),
        ],
        ignored_kinds: vec![
            "comment",
        ],
    };
    proof {
        let t = typescript_tables();
        assert(kinds(l.extensions@) =~= t.extensions);
        assert(pairs(l.unit_kinds@) =~= t.unit_kinds);
        assert(pairs(l.scope_kinds@) =~= t.scope_kinds);
        assert(kinds(l.identifier_kinds@) =~= t.identifier_kinds);
        assert(tags(l.literal_kinds@) =~= t.literal_kinds);
        assert(kinds(l.ignored_kinds@) =~= t.ignored_kinds);
    }
    l
}

} // verus!
