use champ_select::string_map::StringMap;
use champ_select::util::{
    parse_and_validate, replace_if_pseudonym, result_rows, rotation_champs_for_level,
    split_riot_id, split_string,
};

fn s(x: &str) -> String {
    x.to_string()
}

#[test]
fn split_string_cuts_on_the_separator() {
    assert_eq!(split_string(&s("a,b,c"), ','), vec![s("a"), s("b"), s("c")]);
    assert_eq!(split_string(&s("abc"), ','), vec![s("abc")]);
    assert_eq!(split_string(&s("a,,b"), ','), vec![s("a"), s(""), s("b")]);
    assert_eq!(split_string(&s(""), ','), vec![s("")]);
    assert_eq!(split_string(&s("x/y/z"), '/'), vec![s("x"), s("y"), s("z")]);
}

#[test]
fn parse_and_validate_accepts_two_full_teams() {
    let table = StringMap::new();
    let (t1, t2) = parse_and_validate(&s("a,b,c,d,e/f,g,h,i,j"), &table).unwrap();
    assert_eq!(t1, vec![s("a"), s("b"), s("c"), s("d"), s("e")]);
    assert_eq!(t2, vec![s("f"), s("g"), s("h"), s("i"), s("j")]);
}

#[test]
fn parse_and_validate_applies_pseudonyms() {
    let mut table = StringMap::new();
    table.set(s("a"), s("summoner one#NA1"));
    let (t1, _t2) = parse_and_validate(&s("a,b,c,d,e/f,g,h,i,j"), &table).unwrap();
    assert_eq!(t1[0], s("summoner one#NA1"));
    assert_eq!(t1[1], s("b"));
}

#[test]
fn parse_and_validate_rejects_missing_separator() {
    let table = StringMap::new();
    let e = parse_and_validate(&s("a,b,c,d,e"), &table).unwrap_err();
    assert_eq!(e.0, s("Unable to separate teams. See formatting rules with /help"));
}

#[test]
fn parse_and_validate_rejects_wrong_team_size() {
    let table = StringMap::new();
    let e = parse_and_validate(&s("a,b,c,d/f,g,h,i,j"), &table).unwrap_err();
    assert_eq!(e.0, s("Failed to separate teams. Please see /help for formatting rules"));
}

#[test]
fn parse_and_validate_rejects_duplicates_within_a_team() {
    // A name repeated in one team collapses, leaving the team short.
    let table = StringMap::new();
    assert!(parse_and_validate(&s("a,a,b,c,d/f,g,h,i,j"), &table).is_err());
}

#[test]
fn parse_and_validate_ignores_text_after_second_separator() {
    let table = StringMap::new();
    let r = parse_and_validate(&s("a,b,c,d,e/f,g,h,i,j/ignored"), &table);
    assert!(r.is_ok());
}

#[test]
fn replace_if_pseudonym_leaves_unknown_names() {
    let mut table = StringMap::new();
    table.set(s("shorty"), s("Long Proper Name#EUW"));
    assert_eq!(replace_if_pseudonym(s("shorty"), &table), s("Long Proper Name#EUW"));
    assert_eq!(replace_if_pseudonym(s("unknown"), &table), s("unknown"));
}

#[test]
fn split_riot_id_needs_a_tagline() {
    assert_eq!(split_riot_id(&s("Name#NA1")), Some((s("Name"), s("NA1"))));
    assert_eq!(split_riot_id(&s("NoTagline")), None);
    assert_eq!(split_riot_id(&s("A#B#C")), Some((s("A"), s("B"))));
}

#[test]
fn rotation_list_depends_on_summoner_level() {
    let newbies = vec![s("n1"), s("n2")];
    let regulars = vec![s("r1"), s("r2")];
    assert_eq!(
        rotation_champs_for_level(5, 10, newbies.clone(), regulars.clone()),
        newbies
    );
    assert_eq!(rotation_champs_for_level(30, 10, newbies.clone(), regulars.clone()), regulars);
    assert_eq!(rotation_champs_for_level(10, 10, newbies, regulars.clone()), regulars);
}

#[test]
fn result_rows_pairs_the_teams() {
    let mut selection = StringMap::new();
    selection.set(s("A"), s("x"));
    selection.set(s("B"), s("y"));
    let rows = result_rows(&vec![s("A")], &vec![s("B")], &selection);
    assert_eq!(rows, vec![(s("A"), s("x"), s("B"), s("y"))]);
}

#[test]
fn string_map_overwrites_and_looks_up() {
    let mut m = StringMap::new();
    assert_eq!(m.get(&s("k")), None);
    m.set(s("k"), s("v1"));
    m.set(s("k"), s("v2"));
    m.set(s("other"), s("w"));
    assert_eq!(m.get(&s("k")), Some(s("v2")));
    assert_eq!(m.get(&s("other")), Some(s("w")));
}
