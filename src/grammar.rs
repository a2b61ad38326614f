use vstd::prelude::*;

use crate::config::LintError;

verus! {

#[verifier::external_type_specification]
#[verifier::external_body]
pub struct ExLanguage(tree_sitter::Language);

#[verifier::external_type_specification]
#[verifier::external_body]
pub struct ExLanguageError(tree_sitter::LanguageError);

#[verifier::external_type_specification]
#[verifier::external_body]
pub struct ExParser(tree_sitter::Parser);

#[verifier::external_type_specification]
#[verifier::external_body]
pub struct ExTree(tree_sitter::Tree);

/// Relies on `tree_sitter_java::language`: the compiled Java grammar.
pub assume_specification[ tree_sitter_java::language ]() -> tree_sitter::Language;

/// Relies on `Language::node_kind_count`: how many node kinds a grammar has.
pub assume_specification[ tree_sitter::Language::node_kind_count ](
    language: &tree_sitter::Language,
) -> usize;

/// Relies on `Parser::new`: a parser with no grammar yet.
pub assume_specification[ tree_sitter::Parser::new ]() -> tree_sitter::Parser;

/// Relies on `Parser::set_language`: fails where the grammar's version does
/// not suit the parser.
pub assume_specification[ tree_sitter::Parser::set_language ](
    parser: &mut tree_sitter::Parser,
    language: &tree_sitter::Language,
) -> Result<(), tree_sitter::LanguageError>;

/// Relies on `Parser::parse` with no earlier tree: the syntax tree of the
/// text, or `None` where the parser stopped.
#[verifier::external_body]
fn parse_text(parser: &mut tree_sitter::Parser, source: &str) -> Option<tree_sitter::Tree> {
    parser.parse(source, None)
}

/// Loads the Java grammar; a grammar without node kinds is refused.
pub fn java_language() -> (r: Result<tree_sitter::Language, LintError>)
    ensures
        r is Err ==> r->Err_0 == LintError::Language,
{
    let lang = tree_sitter_java::language();
    if lang.node_kind_count() == 0 {
        return Err(LintError::Language);
    }
    Ok(lang)
}

/// Parses `source` as Java. Fails with `Language` where the grammar cannot
/// be loaded into a parser, and with `Parse` where the parser gives no tree.
pub fn parse_java(source: &str) -> (r: Result<tree_sitter::Tree, LintError>)
    ensures
        r is Err ==> (r->Err_0 == LintError::Language || r->Err_0 == LintError::Parse),
{
    let lang = match java_language() {
        Ok(l) => l,
        Err(e) => return Err(e),
    };
    let mut parser = tree_sitter::Parser::new();
    if parser.set_language(&lang).is_err() {
        return Err(LintError::Language);
    }
    match parse_text(&mut parser, source) {
        Some(tree) => Ok(tree),
        None => Err(LintError::Parse),
    }
}

} // verus!
