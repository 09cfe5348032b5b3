//! Grammatical metadata of the word corpus: the category and verb-form
//! enumerations and the parsers for their column codes.
//!
//! Tokens are byte strings; each parser states exactly which tokens it
//! accepts and which error it reports for every other token.

use vstd::prelude::*;

verus! {

use crate::words::{word_views, split_bytes, split_on, copy_bytes};

/// Parse error: the field name, the offending token and its context.
#[derive(Debug, Clone, PartialEq)]
pub struct ParseError {
    pub name: Vec<u8>,
    pub token: Vec<u8>,
    pub context: Vec<u8>,
}

impl ParseError {
    /// Bundle a field name with the token that failed and where it stood.
    pub fn new(name: Vec<u8>, token: Vec<u8>, context: Vec<u8>) -> (r: Self)
        ensures
            r.name@ == name@,
            r.token@ == token@,
            r.context@ == context@,
    {
        Self { name, token, context }
    }
}

/// Grammatical category.
#[derive(Debug, Clone, Copy, PartialEq, Eq, Structural)]
pub enum Cgram {
    /// Adjective
    Adj,
    /// Demonstrative adjective
    AdjDem,
    /// Indefinite adjective
    AdjInd,
    /// Interrogative adjective
    AdjInt,
    /// Numeral adjective
    AdjNum,
    /// Possessive adjective
    AdjPos,
    /// Adverb
    Adv,
    /// Definite article
    ArtDef,
    /// Indefinite article
    ArtInd,
    /// Auxiliary
    Aux,
    /// Conjunction
    Con,
    /// Euphonic liaison
    Lia,
    /// Common noun
    Nom,
    /// Onomatopoeia
    Ono,
    /// Preposition
    Pre,
    /// Demonstrative pronoun
    ProDem,
    /// Indefinite pronoun
    ProInd,
    /// Interrogative pronoun
    ProInt,
    /// Personal pronoun
    ProPer,
    /// Possessive pronoun
    ProPos,
    /// Relative pronoun
    ProRel,
    /// Verb
    Ver,
}

/// Grammatical gender.
#[derive(Debug, Clone, Copy, PartialEq, Eq, Structural)]
pub enum Genre {
    /// Masculine
    M,
    /// Feminine
    F,
}

/// Grammatical number.
#[derive(Debug, Clone, Copy, PartialEq, Eq, Structural)]
pub enum Nombre {
    /// Singular
    S,
    /// Plural
    P,
}

/// Verb mood.
#[derive(Debug, Clone, Copy, PartialEq, Eq, Structural)]
pub enum InfoverMode {
    /// Indicative
    Ind,
    /// Conditional
    Cnd,
    /// Subjunctive
    Sub,
    /// Participle
    Par,
    /// Infinitive
    Inf,
    /// Imperative
    Imp,
}

/// Verb tense.
#[derive(Debug, Clone, Copy, PartialEq, Eq, Structural)]
pub enum InfoverTemps {
    /// Present
    Pre,
    /// Future
    Fut,
    /// Imperfect
    Imp,
    /// Past
    Pas,
}

/// Verb person.
#[derive(Debug, Clone, Copy, PartialEq, Eq, Structural)]
pub enum InfoverPersonne {
    /// First person singular
    S1,
    /// Second person singular
    S2,
    /// Third person singular
    S3,
    /// First person plural
    P1,
    /// Second person plural
    P2,
    /// Third person plural
    P3,
}

/// One verb-form annotation: mood, optional tense, optional person.
#[derive(Debug, Clone, Copy, PartialEq, Eq, Structural)]
pub struct Infover {
    pub mode: InfoverMode,
    pub temps: Option<InfoverTemps>,
    pub personne: Option<InfoverPersonne>,
}

/// The verb-form annotations of one record.
#[derive(Debug, Clone, PartialEq)]
pub struct VecInfover(pub Vec<Infover>);

/// The possible categories of one spelling.
#[derive(Debug, Clone, PartialEq)]
pub struct VecCgram(pub Vec<Cgram>);

/// Does `s` hold exactly the one given byte?
fn eq1(s: &Vec<u8>, a: u8) -> (r: bool)
    ensures
        r == (s@ == seq![a]),
{
    if s.len() == 1 && s[0] == a {
        proof {
            assert(s@ =~= seq![a]);
        }
        true
    } else {
        proof {
            if s@ == seq![a] {
                assert(s@.len() == 1);
                assert(s@[0] == a);
            }
        }
        false
    }
}

/// Does `s` hold exactly the two given bytes?
fn eq2(s: &Vec<u8>, a: u8, b: u8) -> (r: bool)
    ensures
        r == (s@ == seq![a, b]),
{
    if s.len() == 2 && s[0] == a && s[1] == b {
        proof {
            assert(s@ =~= seq![a, b]);
        }
        true
    } else {
        proof {
            if s@ == seq![a, b] {
                assert(s@.len() == 2);
                assert(s@[0] == a && s@[1] == b);
            }
        }
        false
    }
}

/// Does `s` hold exactly the three given bytes?
fn eq3(s: &Vec<u8>, a: u8, b: u8, c: u8) -> (r: bool)
    ensures
        r == (s@ == seq![a, b, c]),
{
    if s.len() == 3 && s[0] == a && s[1] == b && s[2] == c {
        proof {
            assert(s@ =~= seq![a, b, c]);
        }
        true
    } else {
        proof {
            if s@ == seq![a, b, c] {
                assert(s@.len() == 3);
                assert(s@[0] == a && s@[1] == b && s@[2] == c);
            }
        }
        false
    }
}

/// Does `s` hold exactly the seven given bytes?
fn eq7(s: &Vec<u8>, a: u8, b: u8, c: u8, d: u8, e: u8, f: u8, g: u8) -> (r: bool)
    ensures
        r == (s@ == seq![a, b, c, d, e, f, g]),
{
    if s.len() == 7 && s[0] == a && s[1] == b && s[2] == c && s[3] == d && s[4] == e && s[5] == f
        && s[6] == g {
        proof {
            assert(s@ =~= seq![a, b, c, d, e, f, g]);
        }
        true
    } else {
        proof {
            if s@ == seq![a, b, c, d, e, f, g] {
                assert(s@.len() == 7);
                assert(s@[0] == a && s@[1] == b && s@[2] == c && s@[3] == d && s@[4] == e && s@[5]
                    == f && s@[6] == g);
            }
        }
        false
    }
}

/// The category code each token names, `None` for an unknown token.
pub open spec fn spec_parse_cgram(s: Seq<u8>) -> Option<Cgram> {
    if s == seq![65u8, 68u8, 74u8] {  // ADJ
        Some(Cgram::Adj)
    } else if s == seq![65u8, 68u8, 74u8, 58u8, 100u8, 101u8, 109u8] {  // ADJ:dem
        Some(Cgram::AdjDem)
    } else if s == seq![65u8, 68u8, 74u8, 58u8, 105u8, 110u8, 100u8] {  // ADJ:ind
        Some(Cgram::AdjInd)
    } else if s == seq![65u8, 68u8, 74u8, 58u8, 105u8, 110u8, 116u8] {  // ADJ:int
        Some(Cgram::AdjInt)
    } else if s == seq![65u8, 68u8, 74u8, 58u8, 110u8, 117u8, 109u8] {  // ADJ:num
        Some(Cgram::AdjNum)
    } else if s == seq![65u8, 68u8, 74u8, 58u8, 112u8, 111u8, 115u8] {  // ADJ:pos
        Some(Cgram::AdjPos)
    } else if s == seq![65u8, 68u8, 86u8] {  // ADV
        Some(Cgram::Adv)
    } else if s == seq![65u8, 82u8, 84u8, 58u8, 100u8, 101u8, 102u8] {  // ART:def
        Some(Cgram::ArtDef)
    } else if s == seq![65u8, 82u8, 84u8, 58u8, 105u8, 110u8, 100u8] {  // ART:ind
        Some(Cgram::ArtInd)
    } else if s == seq![65u8, 85u8, 88u8] {  // AUX
        Some(Cgram::Aux)
    } else if s == seq![67u8, 79u8, 78u8] {  // CON
        Some(Cgram::Con)
    } else if s == seq![76u8, 73u8, 65u8] {  // LIA
        Some(Cgram::Lia)
    } else if s == seq![78u8, 79u8, 77u8] {  // NOM
        Some(Cgram::Nom)
    } else if s == seq![79u8, 78u8, 79u8] {  // ONO
        Some(Cgram::Ono)
    } else if s == seq![80u8, 82u8, 69u8] {  // PRE
        Some(Cgram::Pre)
    } else if s == seq![80u8, 82u8, 79u8, 58u8, 100u8, 101u8, 109u8] {  // PRO:dem
        Some(Cgram::ProDem)
    } else if s == seq![80u8, 82u8, 79u8, 58u8, 105u8, 110u8, 100u8] {  // PRO:ind
        Some(Cgram::ProInd)
    } else if s == seq![80u8, 82u8, 79u8, 58u8, 105u8, 110u8, 116u8] {  // PRO:int
        Some(Cgram::ProInt)
    } else if s == seq![80u8, 82u8, 79u8, 58u8, 112u8, 101u8, 114u8] {  // PRO:per
        Some(Cgram::ProPer)
    } else if s == seq![80u8, 82u8, 79u8, 58u8, 112u8, 111u8, 115u8] {  // PRO:pos
        Some(Cgram::ProPos)
    } else if s == seq![80u8, 82u8, 79u8, 58u8, 114u8, 101u8, 108u8] {  // PRO:rel
        Some(Cgram::ProRel)
    } else if s == seq![86u8, 69u8, 82u8] {  // VER
        Some(Cgram::Ver)
    } else {
        None
    }
}

/// Parse the grammatical-category field.
pub fn parse_cgram(s: &Vec<u8>) -> (r: Result<Cgram, ParseError>)
    ensures
        r matches Ok(c) ==> spec_parse_cgram(s@) == Some(c),
        r is Err <==> spec_parse_cgram(s@) is None,
        r matches Err(e) ==> e.name@ == seq![99u8, 103u8, 114u8, 97u8, 109u8]  // cgram
            && e.token@ == s@ && e.context@ == s@,
{
    if eq3(s, 65, 68, 74) {
        Ok(Cgram::Adj)
    } else if eq7(s, 65, 68, 74, 58, 100, 101, 109) {
        Ok(Cgram::AdjDem)
    } else if eq7(s, 65, 68, 74, 58, 105, 110, 100) {
        Ok(Cgram::AdjInd)
    } else if eq7(s, 65, 68, 74, 58, 105, 110, 116) {
        Ok(Cgram::AdjInt)
    } else if eq7(s, 65, 68, 74, 58, 110, 117, 109) {
        Ok(Cgram::AdjNum)
    } else if eq7(s, 65, 68, 74, 58, 112, 111, 115) {
        Ok(Cgram::AdjPos)
    } else if eq3(s, 65, 68, 86) {
        Ok(Cgram::Adv)
    } else if eq7(s, 65, 82, 84, 58, 100, 101, 102) {
        Ok(Cgram::ArtDef)
    } else if eq7(s, 65, 82, 84, 58, 105, 110, 100) {
        Ok(Cgram::ArtInd)
    } else if eq3(s, 65, 85, 88) {
        Ok(Cgram::Aux)
    } else if eq3(s, 67, 79, 78) {
        Ok(Cgram::Con)
    } else if eq3(s, 76, 73, 65) {
        Ok(Cgram::Lia)
    } else if eq3(s, 78, 79, 77) {
        Ok(Cgram::Nom)
    } else if eq3(s, 79, 78, 79) {
        Ok(Cgram::Ono)
    } else if eq3(s, 80, 82, 69) {
        Ok(Cgram::Pre)
    } else if eq7(s, 80, 82, 79, 58, 100, 101, 109) {
        Ok(Cgram::ProDem)
    } else if eq7(s, 80, 82, 79, 58, 105, 110, 100) {
        Ok(Cgram::ProInd)
    } else if eq7(s, 80, 82, 79, 58, 105, 110, 116) {
        Ok(Cgram::ProInt)
    } else if eq7(s, 80, 82, 79, 58, 112, 101, 114) {
        Ok(Cgram::ProPer)
    } else if eq7(s, 80, 82, 79, 58, 112, 111, 115) {
        Ok(Cgram::ProPos)
    } else if eq7(s, 80, 82, 79, 58, 114, 101, 108) {
        Ok(Cgram::ProRel)
    } else if eq3(s, 86, 69, 82) {
        Ok(Cgram::Ver)
    } else {
        let name = vec![99u8, 103u8, 114u8, 97u8, 109u8];
        proof {
            assert(name@ =~= seq![99u8, 103u8, 114u8, 97u8, 109u8]);
        }
        Err(ParseError::new(name, copy_bytes(s), copy_bytes(s)))
    }
}

/// The gender each token names.
pub open spec fn spec_parse_genre(s: Seq<u8>) -> Option<Genre> {
    if s == seq![109u8] {  // m
        Some(Genre::M)
    } else if s == seq![102u8] {  // f
        Some(Genre::F)
    } else {
        None
    }
}

/// Parse the gender field.
pub fn parse_genre(s: &Vec<u8>) -> (r: Result<Genre, ParseError>)
    ensures
        r matches Ok(c) ==> spec_parse_genre(s@) == Some(c),
        r is Err <==> spec_parse_genre(s@) is None,
        r matches Err(e) ==> e.name@ == seq![103u8, 101u8, 110u8, 114u8, 101u8]  // genre
            && e.token@ == s@ && e.context@ == s@,
{
    if eq1(s, 109) {
        Ok(Genre::M)
    } else if eq1(s, 102) {
        Ok(Genre::F)
    } else {
        let name = vec![103u8, 101u8, 110u8, 114u8, 101u8];
        proof {
            assert(name@ =~= seq![103u8, 101u8, 110u8, 114u8, 101u8]);
        }
        Err(ParseError::new(name, copy_bytes(s), copy_bytes(s)))
    }
}

/// The number each token names.
pub open spec fn spec_parse_nombre(s: Seq<u8>) -> Option<Nombre> {
    if s == seq![115u8] {  // s
        Some(Nombre::S)
    } else if s == seq![112u8] {  // p
        Some(Nombre::P)
    } else {
        None
    }
}

/// Parse the number field.
pub fn parse_nombre(s: &Vec<u8>) -> (r: Result<Nombre, ParseError>)
    ensures
        r matches Ok(c) ==> spec_parse_nombre(s@) == Some(c),
        r is Err <==> spec_parse_nombre(s@) is None,
        r matches Err(e) ==> e.name@ == seq![110u8, 111u8, 109u8, 98u8, 114u8, 101u8]  // nombre
            && e.token@ == s@ && e.context@ == s@,
{
    if eq1(s, 115) {
        Ok(Nombre::S)
    } else if eq1(s, 112) {
        Ok(Nombre::P)
    } else {
        let name = vec![110u8, 111u8, 109u8, 98u8, 114u8, 101u8];
        proof {
            assert(name@ =~= seq![110u8, 111u8, 109u8, 98u8, 114u8, 101u8]);
        }
        Err(ParseError::new(name, copy_bytes(s), copy_bytes(s)))
    }
}

/// The mood each token names.
pub open spec fn spec_parse_infover_mode(s: Seq<u8>) -> Option<InfoverMode> {
    if s == seq![105u8, 110u8, 100u8] {  // ind
        Some(InfoverMode::Ind)
    } else if s == seq![99u8, 110u8, 100u8] {  // cnd
        Some(InfoverMode::Cnd)
    } else if s == seq![115u8, 117u8, 98u8] {  // sub
        Some(InfoverMode::Sub)
    } else if s == seq![112u8, 97u8, 114u8] {  // par
        Some(InfoverMode::Par)
    } else if s == seq![105u8, 110u8, 102u8] {  // inf
        Some(InfoverMode::Inf)
    } else if s == seq![105u8, 109u8, 112u8] {  // imp
        Some(InfoverMode::Imp)
    } else {
        None
    }
}

/// Parse a mood value of the verb-form field.
pub fn parse_infover_mode(s: &Vec<u8>) -> (r: Result<InfoverMode, ParseError>)
    ensures
        r matches Ok(c) ==> spec_parse_infover_mode(s@) == Some(c),
        r is Err <==> spec_parse_infover_mode(s@) is None,
        r matches Err(e) ==> e.name@ == seq![
            105u8, 110u8, 102u8, 111u8, 118u8, 101u8, 114u8, 32u8, 109u8, 111u8, 100u8, 101u8,
        ]  // infover mode
            && e.token@ == s@ && e.context@ == s@,
{
    if eq3(s, 105, 110, 100) {
        Ok(InfoverMode::Ind)
    } else if eq3(s, 99, 110, 100) {
        Ok(InfoverMode::Cnd)
    } else if eq3(s, 115, 117, 98) {
        Ok(InfoverMode::Sub)
    } else if eq3(s, 112, 97, 114) {
        Ok(InfoverMode::Par)
    } else if eq3(s, 105, 110, 102) {
        Ok(InfoverMode::Inf)
    } else if eq3(s, 105, 109, 112) {
        Ok(InfoverMode::Imp)
    } else {
        let name = vec![105u8, 110u8, 102u8, 111u8, 118u8, 101u8, 114u8, 32u8, 109u8, 111u8, 100u8, 101u8];
        proof {
            assert(name@ =~= seq![
                105u8, 110u8, 102u8, 111u8, 118u8, 101u8, 114u8, 32u8, 109u8, 111u8, 100u8, 101u8,
            ]);
        }
        Err(ParseError::new(name, copy_bytes(s), copy_bytes(s)))
    }
}

/// The tense each token names.
pub open spec fn spec_parse_infover_temps(s: Seq<u8>) -> Option<InfoverTemps> {
    if s == seq![112u8, 114u8, 101u8] {  // pre
        Some(InfoverTemps::Pre)
    } else if s == seq![102u8, 117u8, 116u8] {  // fut
        Some(InfoverTemps::Fut)
    } else if s == seq![105u8, 109u8, 112u8] {  // imp
        Some(InfoverTemps::Imp)
    } else if s == seq![112u8, 97u8, 115u8] {  // pas
        Some(InfoverTemps::Pas)
    } else {
        None
    }
}

/// Parse a tense value of the verb-form field.
pub fn parse_infover_temps(s: &Vec<u8>) -> (r: Result<InfoverTemps, ParseError>)
    ensures
        r matches Ok(c) ==> spec_parse_infover_temps(s@) == Some(c),
        r is Err <==> spec_parse_infover_temps(s@) is None,
        r matches Err(e) ==> e.name@ == seq![
            105u8, 110u8, 102u8, 111u8, 118u8, 101u8, 114u8, 32u8, 116u8, 101u8, 109u8, 112u8,
            115u8,
        ]  // infover temps
            && e.token@ == s@ && e.context@ == s@,
{
    if eq3(s, 112, 114, 101) {
        Ok(InfoverTemps::Pre)
    } else if eq3(s, 102, 117, 116) {
        Ok(InfoverTemps::Fut)
    } else if eq3(s, 105, 109, 112) {
        Ok(InfoverTemps::Imp)
    } else if eq3(s, 112, 97, 115) {
        Ok(InfoverTemps::Pas)
    } else {
        let name = vec![
            105u8, 110u8, 102u8, 111u8, 118u8, 101u8, 114u8, 32u8, 116u8, 101u8, 109u8, 112u8,
            115u8,
        ];
        proof {
            assert(name@ =~= seq![
                105u8, 110u8, 102u8, 111u8, 118u8, 101u8, 114u8, 32u8, 116u8, 101u8, 109u8, 112u8,
                115u8,
            ]);
        }
        Err(ParseError::new(name, copy_bytes(s), copy_bytes(s)))
    }
}

/// The person each token names.
pub open spec fn spec_parse_infover_personne(s: Seq<u8>) -> Option<InfoverPersonne> {
    if s == seq![49u8, 115u8] {  // 1s
        Some(InfoverPersonne::S1)
    } else if s == seq![50u8, 115u8] {  // 2s
        Some(InfoverPersonne::S2)
    } else if s == seq![51u8, 115u8] {  // 3s
        Some(InfoverPersonne::S3)
    } else if s == seq![49u8, 112u8] {  // 1p
        Some(InfoverPersonne::P1)
    } else if s == seq![50u8, 112u8] {  // 2p
        Some(InfoverPersonne::P2)
    } else if s == seq![51u8, 112u8] {  // 3p
        Some(InfoverPersonne::P3)
    } else {
        None
    }
}

/// Parse a person value of the verb-form field.
pub fn parse_infover_personne(s: &Vec<u8>) -> (r: Result<InfoverPersonne, ParseError>)
    ensures
        r matches Ok(c) ==> spec_parse_infover_personne(s@) == Some(c),
        r is Err <==> spec_parse_infover_personne(s@) is None,
        r matches Err(e) ==> e.name@ == seq![
            105u8, 110u8, 102u8, 111u8, 118u8, 101u8, 114u8, 32u8, 112u8, 101u8, 114u8, 115u8,
            111u8, 110u8, 110u8, 101u8,
        ]  // infover personne
            && e.token@ == s@ && e.context@ == s@,
{
    if eq2(s, 49, 115) {
        Ok(InfoverPersonne::S1)
    } else if eq2(s, 50, 115) {
        Ok(InfoverPersonne::S2)
    } else if eq2(s, 51, 115) {
        Ok(InfoverPersonne::S3)
    } else if eq2(s, 49, 112) {
        Ok(InfoverPersonne::P1)
    } else if eq2(s, 50, 112) {
        Ok(InfoverPersonne::P2)
    } else if eq2(s, 51, 112) {
        Ok(InfoverPersonne::P3)
    } else {
        let name = vec![
            105u8, 110u8, 102u8, 111u8, 118u8, 101u8, 114u8, 32u8, 112u8, 101u8, 114u8, 115u8,
            111u8, 110u8, 110u8, 101u8,
        ];
        proof {
            assert(name@ =~= seq![
                105u8, 110u8, 102u8, 111u8, 118u8, 101u8, 114u8, 32u8, 112u8, 101u8, 114u8, 115u8,
                111u8, 110u8, 110u8, 101u8,
            ]);
        }
        Err(ParseError::new(name, copy_bytes(s), copy_bytes(s)))
    }
}

/// Field-name and token of a reported error, as a pair of byte strings.
pub open spec fn spec_error_at(e: ParseError, name: Seq<u8>, token: Seq<u8>) -> bool {
    e.name@ == name && e.token@ == token && e.context@ == token
}

/// What one verb-form segment parses to: the mood from the first colon-split
/// piece, then an optional tense and an optional person; `None` as soon as a
/// piece is unknown.  Pieces beyond the third are ignored.
pub open spec fn spec_parse_infover(seg: Seq<u8>) -> Option<Infover> {
    let parts = split_bytes(seg, 58);
    match spec_parse_infover_mode(parts[0]) {
        Option::None => Option::None,
        Option::Some(mode) => if parts.len() >= 2 {
            match spec_parse_infover_temps(parts[1]) {
                Option::None => Option::None,
                Option::Some(t) => if parts.len() >= 3 {
                    match spec_parse_infover_personne(parts[2]) {
                        Option::None => Option::None,
                        Option::Some(p) => Option::Some(
                            Infover { mode, temps: Option::Some(t), personne: Option::Some(p) },
                        ),
                    }
                } else {
                    Option::Some(Infover { mode, temps: Option::Some(t), personne: Option::None })
                },
            }
        } else {
            Option::Some(Infover { mode, temps: Option::None, personne: Option::None })
        },
    }
}

/// The name and token of the first failing piece of a verb-form segment.
pub open spec fn spec_infover_error(seg: Seq<u8>) -> (Seq<u8>, Seq<u8>)
    recommends
        spec_parse_infover(seg) is None,
{
    let parts = split_bytes(seg, 58);
    if spec_parse_infover_mode(parts[0]) is None {
        (
            seq![105u8, 110u8, 102u8, 111u8, 118u8, 101u8, 114u8, 32u8, 109u8, 111u8, 100u8, 101u8],
            parts[0],
        )
    } else if parts.len() >= 2 && spec_parse_infover_temps(parts[1]) is None {
        (
            seq![
                105u8, 110u8, 102u8, 111u8, 118u8, 101u8, 114u8, 32u8, 116u8, 101u8, 109u8, 112u8,
                115u8,
            ],
            parts[1],
        )
    } else {
        (
            seq![
                105u8, 110u8, 102u8, 111u8, 118u8, 101u8, 114u8, 32u8, 112u8, 101u8, 114u8, 115u8,
                111u8, 110u8, 110u8, 101u8,
            ],
            parts[2],
        )
    }
}

/// Parse one segment of the verb-form field.
pub fn parse_infover(seg: &Vec<u8>) -> (r: Result<Infover, ParseError>)
    ensures
        r matches Ok(v) ==> spec_parse_infover(seg@) == Some(v),
        r is Err <==> spec_parse_infover(seg@) is None,
        r matches Err(e) ==> spec_error_at(e, spec_infover_error(seg@).0, spec_infover_error(seg@).1),
{
    let parts = split_on(seg, 58);
    proof {
        assert(split_bytes(seg@, 58).len() >= 1);
        assert(parts@.len() >= 1);
        assert(parts@[0]@ == split_bytes(seg@, 58)[0]);
    }
    let mode = match parse_infover_mode(&parts[0]) {
        Ok(m) => m,
        Err(e) => {
            return Err(e);
        },
    };
    let temps = if parts.len() >= 2 {
        proof {
            assert(parts@[1]@ == split_bytes(seg@, 58)[1]);
        }
        match parse_infover_temps(&parts[1]) {
            Ok(t) => Some(t),
            Err(e) => {
                return Err(e);
            },
        }
    } else {
        None
    };
    let personne = if parts.len() >= 3 {
        proof {
            assert(parts@[2]@ == split_bytes(seg@, 58)[2]);
        }
        match parse_infover_personne(&parts[2]) {
            Ok(p) => Some(p),
            Err(e) => {
                return Err(e);
            },
        }
    } else {
        None
    };
    Ok(Infover { mode, temps, personne })
}

/// What a whole verb-form field parses to: its semicolon-split segments, the
/// empty ones dropped, each parsed in order; `None` as soon as one fails.
pub open spec fn spec_infover_list(segs: Seq<Seq<u8>>) -> Option<Seq<Infover>>
    decreases segs.len(),
{
    if segs.len() == 0 {
        Option::Some(Seq::empty())
    } else if segs[0].len() == 0 {
        spec_infover_list(segs.drop_first())
    } else {
        match spec_parse_infover(segs[0]) {
            Option::None => Option::None,
            Option::Some(v) => match spec_infover_list(segs.drop_first()) {
                Option::None => Option::None,
                Option::Some(rest) => Option::Some(seq![v] + rest),
            },
        }
    }
}

/// The name and token of the first failure in a verb-form field.
pub open spec fn spec_infover_list_error(segs: Seq<Seq<u8>>) -> (Seq<u8>, Seq<u8>)
    decreases segs.len(),
{
    if segs.len() == 0 {
        (Seq::empty(), Seq::empty())
    } else if segs[0].len() == 0 || spec_parse_infover(segs[0]) is Some {
        spec_infover_list_error(segs.drop_first())
    } else {
        spec_infover_error(segs[0])
    }
}

/// The verb-form field parses to this sequence of annotations.
pub open spec fn spec_parse_vec_infover(s: Seq<u8>) -> Option<Seq<Infover>> {
    spec_infover_list(split_bytes(s, 59))
}

/// Parse the verb-form field: semicolon-separated segments, empty ones
/// skipped.
pub fn parse_vec_infover(s: &Vec<u8>) -> (r: Result<VecInfover, ParseError>)
    ensures
        r matches Ok(v) ==> spec_parse_vec_infover(s@) == Some(v.0@),
        r is Err <==> spec_parse_vec_infover(s@) is None,
        r matches Err(e) ==> spec_error_at(
            e,
            spec_infover_list_error(split_bytes(s@, 59)).0,
            spec_infover_list_error(split_bytes(s@, 59)).1,
        ),
{
    let segs = split_on(s, 59);
    let ghost sv = split_bytes(s@, 59);
    let mut out: Vec<Infover> = Vec::new();
    let mut i: usize = 0;
    proof {
        assert(sv.skip(0) =~= sv);
    }
    while i < segs.len()
        invariant
            i <= segs@.len(),
            word_views(segs@) == sv,
            sv == split_bytes(s@, 59),
            spec_infover_list(sv.skip(i as int)) matches Some(rest) ==> spec_infover_list(sv)
                == Some(out@ + rest),
            spec_infover_list(sv.skip(i as int)) is None ==> spec_infover_list(sv) is None
                && spec_infover_list_error(sv) == spec_infover_list_error(sv.skip(i as int)),
        decreases segs@.len() - i,
    {
        proof {
            assert(segs@[i as int]@ == sv[i as int]);
            assert(sv.skip(i as int)[0] == sv[i as int]);
            assert(sv.skip(i as int).drop_first() =~= sv.skip(i + 1));
        }
        if segs[i].len() > 0 {
            match parse_infover(&segs[i]) {
                Ok(v) => {
                    out.push(v);
                    proof {
                        if spec_infover_list(sv.skip(i + 1)) is Some {
                            let rest = spec_infover_list(sv.skip(i + 1)).unwrap();
                            assert(spec_infover_list(sv.skip(i as int)) == Some(seq![v] + rest));
                            assert(out@ + rest =~= out@.drop_last() + (seq![v] + rest));
                        }
                    }
                },
                Err(e) => {
                    proof {
                        assert(spec_parse_infover(sv[i as int]) is None);
                        assert(spec_infover_list(sv.skip(i as int)) is None);
                        assert(spec_infover_list_error(sv.skip(i as int)) == spec_infover_error(
                            sv[i as int],
                        ));
                    }
                    return Err(e);
                },
            }
        }
        i = i + 1;
    }
    proof {
        assert(sv.skip(sv.len() as int) =~= Seq::<Seq<u8>>::empty());
        assert(spec_infover_list(sv.skip(sv.len() as int)) == Some(Seq::<Infover>::empty()));
        assert(out@ + Seq::<Infover>::empty() =~= out@);
    }
    Ok(VecInfover(out))
}

/// What a category-list field parses to: its comma-split segments, each a
/// category code; `None` as soon as one is unknown.  An empty field parses to
/// the empty list.
pub open spec fn spec_cgram_list(segs: Seq<Seq<u8>>) -> Option<Seq<Cgram>>
    decreases segs.len(),
{
    if segs.len() == 0 {
        Option::Some(Seq::empty())
    } else {
        match spec_parse_cgram(segs[0]) {
            Option::None => Option::None,
            Option::Some(c) => match spec_cgram_list(segs.drop_first()) {
                Option::None => Option::None,
                Option::Some(rest) => Option::Some(seq![c] + rest),
            },
        }
    }
}

/// The first unknown category token of a category-list field.
pub open spec fn spec_cgram_list_error(segs: Seq<Seq<u8>>) -> Seq<u8>
    decreases segs.len(),
{
    if segs.len() == 0 {
        Seq::empty()
    } else if spec_parse_cgram(segs[0]) is Some {
        spec_cgram_list_error(segs.drop_first())
    } else {
        segs[0]
    }
}

/// The category-list field parses to this sequence of categories.
pub open spec fn spec_parse_vec_cgram(s: Seq<u8>) -> Option<Seq<Cgram>> {
    if s.len() == 0 {
        Option::Some(Seq::empty())
    } else {
        spec_cgram_list(split_bytes(s, 44))
    }
}

/// Parse the category-list field: comma-separated category codes, or the
/// empty list for an empty field.
pub fn parse_vec_cgram(s: &Vec<u8>) -> (r: Result<VecCgram, ParseError>)
    ensures
        r matches Ok(v) ==> spec_parse_vec_cgram(s@) == Some(v.0@),
        r is Err <==> spec_parse_vec_cgram(s@) is None,
        r matches Err(e) ==> e.name@ == seq![99u8, 103u8, 114u8, 97u8, 109u8] && e.token@
            == spec_cgram_list_error(split_bytes(s@, 44)) && e.context@ == e.token@,
{
    if s.len() == 0 {
        let empty: Vec<Cgram> = Vec::new();
        proof {
            assert(empty@ =~= Seq::<Cgram>::empty());
        }
        return Ok(VecCgram(empty));
    }
    let segs = split_on(s, 44);
    let ghost sv = split_bytes(s@, 44);
    let mut out: Vec<Cgram> = Vec::new();
    let mut i: usize = 0;
    proof {
        assert(sv.skip(0) =~= sv);
    }
    while i < segs.len()
        invariant
            i <= segs@.len(),
            word_views(segs@) == sv,
            sv == split_bytes(s@, 44),
            s@.len() > 0,
            spec_cgram_list(sv.skip(i as int)) matches Some(rest) ==> spec_cgram_list(sv) == Some(
                out@ + rest,
            ),
            spec_cgram_list(sv.skip(i as int)) is None ==> spec_cgram_list(sv) is None
                && spec_cgram_list_error(sv) == spec_cgram_list_error(sv.skip(i as int)),
        decreases segs@.len() - i,
    {
        proof {
            assert(segs@[i as int]@ == sv[i as int]);
            assert(sv.skip(i as int)[0] == sv[i as int]);
            assert(sv.skip(i as int).drop_first() =~= sv.skip(i + 1));
        }
        match parse_cgram(&segs[i]) {
            Ok(c) => {
                out.push(c);
                proof {
                    if spec_cgram_list(sv.skip(i + 1)) is Some {
                        let rest = spec_cgram_list(sv.skip(i + 1)).unwrap();
                        assert(spec_cgram_list(sv.skip(i as int)) == Some(seq![c] + rest));
                        assert(out@ + rest =~= out@.drop_last() + (seq![c] + rest));
                    }
                }
            },
            Err(e) => {
                proof {
                    assert(spec_parse_cgram(sv[i as int]) is None);
                    assert(spec_cgram_list(sv.skip(i as int)) is None);
                    assert(spec_cgram_list_error(sv.skip(i as int)) == sv[i as int]);
                }
                return Err(e);
            },
        }
        i = i + 1;
    }
    proof {
        assert(sv.skip(sv.len() as int) =~= Seq::<Seq<u8>>::empty());
        assert(spec_cgram_list(sv.skip(sv.len() as int)) == Some(Seq::<Cgram>::empty()));
        assert(out@ + Seq::<Cgram>::empty() =~= out@);
    }
    Ok(VecCgram(out))
}

} // verus!
