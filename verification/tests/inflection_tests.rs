use dictionary_engine::inflection::split_on_char;
use dictionary_engine::inflection::InflectionIndex;

#[test]
fn well_formed_lines_build_the_index_and_malformed_lines_are_skipped() {
    let source = "\
# comment line\n\
running\trun\tVBG\n\
\n\
   \n\
short\tline\n\
geese\tgoose\tNNS\n\
ran\trun\tVBD\textra\tfields\n";
    let idx = InflectionIndex::from_source(source);
    assert_eq!(
        idx.pairs_of("running"),
        vec![("run".to_string(), "VBG".to_string())]
    );
    assert_eq!(
        idx.pairs_of("geese"),
        vec![("goose".to_string(), "NNS".to_string())]
    );
    // a fourth and fifth field are allowed and ignored
    assert_eq!(
        idx.pairs_of("ran"),
        vec![("run".to_string(), "VBD".to_string())]
    );
    // the comment, the blank lines and the two-field line contribute nothing
    assert_eq!(idx.pairs_of("# comment line"), Vec::new());
    assert_eq!(idx.pairs_of("short"), Vec::new());
    assert_eq!(idx.pairs_of(""), Vec::new());
}

#[test]
fn lines_sharing_a_form_append_in_source_order() {
    let source = "better\tgood\tJJR\nbetter\twell\tRBR\nbetter\tgood\tX";
    let idx = InflectionIndex::from_source(source);
    assert_eq!(
        idx.pairs_of("better"),
        vec![
            ("good".to_string(), "JJR".to_string()),
            ("well".to_string(), "RBR".to_string()),
            ("good".to_string(), "X".to_string())
        ]
    );
    assert_eq!(
        idx.lemmas_of("better"),
        Some(vec![
            "good".to_string(),
            "well".to_string(),
            "good".to_string()
        ])
    );
    assert_eq!(idx.lemmas_of("worse"), None);
}

#[test]
fn forms_and_lemmas_are_lowercased_but_tags_are_not() {
    let idx = InflectionIndex::from_source("Geese\tGOOSE\tNNS");
    assert_eq!(
        idx.pairs_of("geese"),
        vec![("goose".to_string(), "NNS".to_string())]
    );
    // the stored key is the lowercased form; the original casing is gone
    assert_eq!(idx.pairs_of("Geese"), Vec::new());
}

#[test]
fn carriage_returns_are_stripped_from_line_ends() {
    let idx = InflectionIndex::from_source("running\trun\tVBG\r\ngeese\tgoose\tNNS\r\n");
    assert_eq!(
        idx.pairs_of("running"),
        vec![("run".to_string(), "VBG".to_string())]
    );
    assert_eq!(
        idx.pairs_of("geese"),
        vec![("goose".to_string(), "NNS".to_string())]
    );
}

#[test]
fn empty_source_yields_an_empty_index() {
    let idx = InflectionIndex::from_source("");
    assert_eq!(idx.pairs_of("anything"), Vec::new());
    assert_eq!(idx.lemmas_of("anything"), None);
}

#[test]
fn clear_empties_the_index() {
    let mut idx = InflectionIndex::from_source("running\trun\tVBG");
    idx.clear();
    assert_eq!(idx.pairs_of("running"), Vec::new());
}

#[test]
fn splitting_keeps_empty_fields() {
    assert_eq!(split_on_char("a\tb\tc", '\t'), vec!["a", "b", "c"]);
    assert_eq!(split_on_char("", '\t'), vec![""]);
    assert_eq!(split_on_char("a\t\tc\t", '\t'), vec!["a", "", "c", ""]);
    assert_eq!(split_on_char("one line", '\n'), vec!["one line"]);
    assert_eq!(split_on_char("a\nb\n", '\n'), vec!["a", "b", ""]);
}
