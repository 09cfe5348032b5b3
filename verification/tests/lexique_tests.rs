use vocab_generator::lexique::{
    parse_cgram, parse_genre, parse_infover, parse_infover_mode, parse_infover_personne,
    parse_infover_temps, parse_nombre, parse_vec_cgram, parse_vec_infover, Cgram, Genre, Infover,
    InfoverMode, InfoverPersonne, InfoverTemps, Nombre,
};
use vocab_generator::words::split_on;
use vocab_generator::normalize::normalize;

fn b(s: &str) -> Vec<u8> {
    s.as_bytes().to_vec()
}

#[test]
fn parse_cgram_known_tokens() {
    assert_eq!(parse_cgram(&b("ADJ")).unwrap(), Cgram::Adj);
    assert_eq!(parse_cgram(&b("ADJ:dem")).unwrap(), Cgram::AdjDem);
    assert_eq!(parse_cgram(&b("ADV")).unwrap(), Cgram::Adv);
    assert_eq!(parse_cgram(&b("ART:def")).unwrap(), Cgram::ArtDef);
    assert_eq!(parse_cgram(&b("AUX")).unwrap(), Cgram::Aux);
    assert_eq!(parse_cgram(&b("NOM")).unwrap(), Cgram::Nom);
    assert_eq!(parse_cgram(&b("PRO:rel")).unwrap(), Cgram::ProRel);
    assert_eq!(parse_cgram(&b("VER")).unwrap(), Cgram::Ver);
}

#[test]
fn parse_cgram_unknown_token() {
    let err = parse_cgram(&b("XYZ")).unwrap_err();
    assert_eq!(err.name, b("cgram"));
    assert_eq!(err.token, b("XYZ"));
    assert_eq!(err.context, b("XYZ"));
}

#[test]
fn parse_genre_and_nombre() {
    assert_eq!(parse_genre(&b("m")).unwrap(), Genre::M);
    assert_eq!(parse_genre(&b("f")).unwrap(), Genre::F);
    assert_eq!(parse_genre(&b("x")).unwrap_err().name, b("genre"));
    assert_eq!(parse_nombre(&b("s")).unwrap(), Nombre::S);
    assert_eq!(parse_nombre(&b("p")).unwrap(), Nombre::P);
    assert_eq!(parse_nombre(&b("q")).unwrap_err().name, b("nombre"));
}

#[test]
fn parse_infover_pieces() {
    assert_eq!(parse_infover_mode(&b("inf")).unwrap(), InfoverMode::Inf);
    assert_eq!(parse_infover_mode(&b("par")).unwrap(), InfoverMode::Par);
    assert_eq!(parse_infover_mode(&b("zzz")).unwrap_err().name, b("infover mode"));
    assert_eq!(parse_infover_temps(&b("pre")).unwrap(), InfoverTemps::Pre);
    assert_eq!(parse_infover_temps(&b("pas")).unwrap(), InfoverTemps::Pas);
    assert_eq!(parse_infover_temps(&b("zzz")).unwrap_err().name, b("infover temps"));
    assert_eq!(parse_infover_personne(&b("1s")).unwrap(), InfoverPersonne::S1);
    assert_eq!(parse_infover_personne(&b("3p")).unwrap(), InfoverPersonne::P3);
    assert_eq!(parse_infover_personne(&b("9x")).unwrap_err().name, b("infover personne"));
}

#[test]
fn parse_infover_segment() {
    assert_eq!(
        parse_infover(&b("inf")).unwrap(),
        Infover { mode: InfoverMode::Inf, temps: None, personne: None },
    );
    assert_eq!(
        parse_infover(&b("par:pas")).unwrap(),
        Infover { mode: InfoverMode::Par, temps: Some(InfoverTemps::Pas), personne: None },
    );
    assert_eq!(
        parse_infover(&b("ind:pre:3p")).unwrap(),
        Infover {
            mode: InfoverMode::Ind,
            temps: Some(InfoverTemps::Pre),
            personne: Some(InfoverPersonne::P3),
        },
    );
    let err = parse_infover(&b("ind:zzz:3p")).unwrap_err();
    assert_eq!(err.name, b("infover temps"));
    assert_eq!(err.token, b("zzz"));
}

#[test]
fn parse_vec_infover_segments() {
    let v = parse_vec_infover(&b("inf;par:pas;")).unwrap();
    assert_eq!(
        v.0,
        vec![
            Infover { mode: InfoverMode::Inf, temps: None, personne: None },
            Infover { mode: InfoverMode::Par, temps: Some(InfoverTemps::Pas), personne: None },
        ],
    );
    assert_eq!(parse_vec_infover(&b("")).unwrap().0, vec![]);
    let err = parse_vec_infover(&b("inf;zzz")).unwrap_err();
    assert_eq!(err.name, b("infover mode"));
    assert_eq!(err.token, b("zzz"));
}

#[test]
fn parse_vec_cgram_segments() {
    assert_eq!(parse_vec_cgram(&b("")).unwrap().0, vec![]);
    assert_eq!(parse_vec_cgram(&b("ADJ,VER")).unwrap().0, vec![Cgram::Adj, Cgram::Ver]);
    let err = parse_vec_cgram(&b("ADJ,ZZZ")).unwrap_err();
    assert_eq!(err.name, b("cgram"));
    assert_eq!(err.token, b("ZZZ"));
}

#[test]
fn split_on_separators() {
    assert_eq!(split_on(&b("a:bc:"), b':'), vec![b("a"), b("bc"), b("")]);
    assert_eq!(split_on(&b(""), b';'), vec![b("")]);
    assert_eq!(split_on(&b("abc"), b','), vec![b("abc")]);
}

#[test]
fn normalize_lowercases_and_strips_diacritics() {
    assert_eq!(normalize("Abaisser").unwrap(), b("abaisser"));
    assert_eq!(normalize("\u{c9}l\u{e9}phant").unwrap(), b("elephant"));
    assert_eq!(normalize("c\u{153}ur").unwrap(), b("coeur"));
    assert_eq!(normalize("d\u{e9}j\u{e0}-v\u{fc}").unwrap(), b("deja-vu"));
    assert_eq!(normalize("\u{e6}on").unwrap(), b("aeon"));
    assert_eq!(normalize("").unwrap(), b(""));
}

#[test]
fn normalize_rejects_unknown_characters() {
    assert_eq!(normalize("na\u{ef}ve").unwrap(), b("naive"));
    let err = normalize("w\u{1d6}rd").unwrap_err();
    // U+01D6 lowercases to itself and has no ASCII replacement.
    assert_eq!(err, '\u{1d6}');
}
