use yoakke::token_defs::{lexer_data, AttrSpec, LexerDataError, VariantSpec};

fn variant(name: &str, attrs: Vec<AttrSpec>) -> VariantSpec {
    VariantSpec { name: name.to_string(), is_unit: true, attrs }
}

fn basic() -> Vec<VariantSpec> {
    vec![
        variant("Error", vec![AttrSpec::Error]),
        variant("End", vec![AttrSpec::End]),
        variant("Ws", vec![AttrSpec::Regex("[ ]".to_string()), AttrSpec::Ignore]),
        variant("Ident", vec![AttrSpec::CIdent]),
        variant("Plus", vec![AttrSpec::Token("a+(".to_string())]),
        variant("Other", vec![]),
    ]
}

#[test]
fn definitions_follow_the_variants() {
    let d = lexer_data("Kind".to_string(), basic()).ok().unwrap();
    assert_eq!(d.enum_name, "Kind");
    assert_eq!(d.err_variant, "Error");
    assert_eq!(d.end_variant, "End");
    let got: Vec<(String, String, usize, bool)> =
        d.tokens.iter().map(|t| (t.variant.clone(), t.regex.clone(), t.precedence, t.ignore)).collect();
    assert_eq!(
        got,
        vec![
            ("Ws".to_string(), "[ ]".to_string(), 0, true),
            ("Ident".to_string(), "[A-Za-z_][A-Za-z0-9_]*".to_string(), 0, false),
            ("Plus".to_string(), r"a\+\(".to_string(), 1, false),
        ]
    );
}

fn error_of(vs: Vec<VariantSpec>) -> LexerDataError {
    match lexer_data("Kind".to_string(), vs) {
        Ok(_) => panic!("accepted"),
        Err(e) => e,
    }
}

#[test]
fn refused_definitions() {
    let mut vs = basic();
    vs[5].is_unit = false;
    assert_eq!(error_of(vs), LexerDataError::NonUnitVariant);
    let mut vs = basic();
    vs[1].attrs.push(AttrSpec::Ignore);
    assert_eq!(error_of(vs), LexerDataError::EndWithOther);
    let mut vs = basic();
    vs[0].attrs.push(AttrSpec::CIdent);
    assert_eq!(error_of(vs), LexerDataError::ErrorWithOther);
    let mut vs = basic();
    vs[3].attrs.push(AttrSpec::Regex("x".to_string()));
    assert_eq!(error_of(vs), LexerDataError::MultipleDefinitions);
    let mut vs = basic();
    vs[5].attrs.push(AttrSpec::Ignore);
    assert_eq!(error_of(vs), LexerDataError::IgnoreWithoutDefinition);
    let mut vs = basic();
    vs[2].attrs = vec![AttrSpec::Ignore, AttrSpec::Regex("[ ]".to_string())];
    assert_eq!(error_of(vs), LexerDataError::IgnoreWithoutDefinition);
    let mut vs = basic();
    vs.push(variant("End2", vec![AttrSpec::End]));
    assert_eq!(error_of(vs), LexerDataError::DuplicateEnd);
    let mut vs = basic();
    vs.push(variant("Error2", vec![AttrSpec::Error]));
    assert_eq!(error_of(vs), LexerDataError::DuplicateError);
    let mut vs = basic();
    vs.remove(1);
    assert_eq!(error_of(vs), LexerDataError::MissingEnd);
    let mut vs = basic();
    vs.remove(0);
    assert_eq!(error_of(vs), LexerDataError::MissingError);
}
