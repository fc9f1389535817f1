use geosearch::search::search_terms;
use geosearch::terms::normalized_terms;

#[test]
fn folds_accents_for_spanish_search() {
    assert_eq!(
        normalized_terms("Bogotá Medellín"),
        vec!["bogota", "medellin"]
    );
}

#[test]
fn terms_do_not_depend_on_accents_and_case() {
    assert_eq!(normalized_terms("ÁÀÄÂáàäâ ÉÈËÊéèëê"), vec!["aaaaaaaa", "eeeeeeee"]);
    assert_eq!(normalized_terms("ÍÌÏÎíìïî ÓÒÖÔóòöô"), vec!["iiiiiiii", "oooooooo"]);
    assert_eq!(normalized_terms("ÚÙÜÛúùüû ÑñZz09"), vec!["uuuuuuuu", "nnzz09"]);
    assert_eq!(normalized_terms("Bogotá"), normalized_terms("bogota"));
}

#[test]
fn other_characters_divide_terms() {
    assert_eq!(normalized_terms("Cra. 7 #72-41, piso_3ç"), vec!["cra", "7", "72", "41", "piso", "3"]);
    assert!(normalized_terms("").is_empty());
    assert!(normalized_terms(" ¿?… ").is_empty());
}

#[test]
fn terms_of_terms_are_the_same() {
    let terms = normalized_terms("Plaza de Bolívar, Bogotá D.C.");
    assert_eq!(terms, vec!["plaza", "de", "bolivar", "bogota", "d", "c"]);
    assert_eq!(normalized_terms(&terms.join(" ")), terms);
}

#[test]
fn a_search_without_terms_is_none() {
    assert_eq!(search_terms("--"), None);
    assert_eq!(search_terms("Calle 72"), Some(vec!["calle".to_string(), "72".to_string()]));
}
