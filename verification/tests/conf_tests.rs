use autorct::conf::{
    bind, bind_all_exec, clean_conf, command_of_value, fmap_section_lines, function_table,
    functions_from_captures, global_definitions, has_fmap, ignore_section, parse_conf,
    parse_fmap_line, parse_sections, substitute, ConfError, FN_PATTERN,
};

fn pairs(v: &[(&str, &str)]) -> Vec<(String, String)> {
    v.iter().map(|(a, b)| (a.to_string(), b.to_string())).collect()
}

fn strings(v: &[&str]) -> Vec<String> {
    v.iter().map(|s| s.to_string()).collect()
}

#[test]
fn clean_trims_lines_and_drops_blank_ones() {
    assert_eq!(clean_conf("  a  \n\n  // c\nb\n"), "a\n// c\nb");
    assert_eq!(clean_conf(""), "");
    assert_eq!(clean_conf("\n \n\t\n"), "");
}

#[test]
fn fmap_tag_is_found() {
    assert!(has_fmap("x\n@FMAP{\n}"));
    assert!(!has_fmap("@FMA P"));
}

#[test]
fn global_definitions_outside_blocks() {
    let text = "A := 1\nB := CMD echo hi\nFUNC f() {\nC := 2\n}\nD:=3\nE := {x}";
    assert_eq!(
        global_definitions(text),
        pairs(&[("A", "1"), ("B", "CMD echo hi"), ("D", "3")])
    );
    assert_eq!(global_definitions("no definitions"), Vec::<(String, String)>::new());
}

#[test]
fn command_values() {
    assert_eq!(command_of_value("CMD echo hi"), Some(Some("echo hi".to_string())));
    assert_eq!(command_of_value("CMDx"), Some(Some(String::new())));
    assert_eq!(command_of_value("CMD"), Some(None));
    assert_eq!(command_of_value("ls"), None);
}

#[test]
fn later_definition_replaces_earlier() {
    assert_eq!(
        bind_all_exec(&pairs(&[("A", "1"), ("B", "2"), ("A", "3")])),
        pairs(&[("A", "3"), ("B", "2")])
    );
    let mut sc = pairs(&[("X", "1")]);
    bind(&mut sc, "Y".to_string(), "2".to_string());
    bind(&mut sc, "X".to_string(), "5".to_string());
    assert_eq!(sc, pairs(&[("X", "5"), ("Y", "2")]));
}

#[test]
fn substitution_in_binding_order() {
    assert_eq!(substitute("x=@A y=@B", &pairs(&[("A", "1"), ("B", "2")])), "x=1 y=2");
    assert_eq!(substitute("@AB", &pairs(&[("A", "1"), ("AB", "2")])), "1B");
    assert_eq!(substitute("@A@A", &pairs(&[("A", "@A")])), "@A@A");
    assert_eq!(substitute("none", &Vec::new()), "none");
}

#[test]
fn function_definitions_are_read() {
    let fs = function_table("FUNC foo(a, b) { X := 1 }\nFUNC bar() {}").unwrap();
    assert_eq!(fs.len(), 2);
    assert_eq!(fs[0].name, "foo");
    assert_eq!(fs[0].params, "a, b");
    assert_eq!(fs[0].body, " X := 1 ");
    assert_eq!(fs[1].name, "bar");
    assert_eq!(fs[1].params, "");
    assert_eq!(fs[1].body, "");
    assert_eq!(function_table("nothing here").unwrap().len(), 0);
    assert!(FN_PATTERN.starts_with("(?s)FUNC"));
}

#[test]
fn captures_without_a_group_are_refused() {
    let good = vec![vec![
        Some("FUNC f() {}".to_string()),
        Some("f".to_string()),
        Some(String::new()),
        Some(String::new()),
    ]];
    let fs = functions_from_captures(&good).unwrap();
    assert_eq!(fs[0].name, "f");
    let bad = vec![vec![Some("x".to_string()), Some("f".to_string()), None, Some(String::new())]];
    assert!(functions_from_captures(&bad).is_none());
}

#[test]
fn ignore_block_is_read_and_cut() {
    let (names, rest) = ignore_section("@IGNORE{a.txt, b.txt\nc}\n@FMAP{}").unwrap();
    assert_eq!(names, strings(&["{a.txt", "b.txt", "c"]));
    assert_eq!(rest, "}\n@FMAP{}");
    let (names, rest) = ignore_section("@IGNORE{\nx,x\n}").unwrap();
    assert_eq!(names, strings(&["{", "x"]));
    assert_eq!(rest, "}");
    let (names, rest) = ignore_section("@FMAP{}").unwrap();
    assert!(names.is_empty());
    assert_eq!(rest, "@FMAP{}");
}

#[test]
fn ignore_block_errors() {
    assert_eq!(ignore_section("@IGNORE a").err(), Some(ConfError::IgnoreUnopened));
    assert_eq!(ignore_section("@IGNORE {a").err(), Some(ConfError::IgnoreUnclosed));
}

#[test]
fn fmap_block_lines() {
    assert_eq!(fmap_section_lines("@FMAP{\nl1\nl2\n}").unwrap(), strings(&["{", "l1", "l2"]));
    assert_eq!(fmap_section_lines("x").err(), Some(ConfError::NoFmap));
    assert_eq!(fmap_section_lines("@FMAP x").err(), Some(ConfError::FmapUnopened));
    assert_eq!(fmap_section_lines("@FMAP {x").err(), Some(ConfError::FmapUnclosed));
}

#[test]
fn mapping_line_errors() {
    let e = |l: &str| parse_fmap_line(l).err();
    assert_eq!(e("no arrow here"), Some(ConfError::NoArrow));
    assert_eq!(e("rs -> [a,b,c,d,e,f]"), Some(ConfError::BadExtension));
    assert_eq!(e("'\"rs\"' -> a,b"), Some(ConfError::BadFields));
    assert_eq!(e("'\"rs\"' -> [a,b]"), Some(ConfError::FieldCount));
    assert_eq!(e("'\"rs\"' -> [\"\",b,c,d,e,f]"), Some(ConfError::NoRoute));
    assert_eq!(e("'\"rs\"' -> [src,,cargo build,,,rw]"), Some(ConfError::NoMonitorDir));
    assert_eq!(e("'\"rs\"' -> [src,,,,,,here]"), Some(ConfError::FieldCount));
}

#[test]
fn sections_never_give_a_config() {
    let r = parse_sections("@FMAP{\n'\"rs\"' -> [src,,,,,rw]\n}");
    assert_eq!(r.err(), Some(ConfError::NoArrow));
    let r = parse_sections("@FMAP{'\"rs\"' -> [src,,,,,rw]}");
    assert_eq!(r.err(), Some(ConfError::BadExtension));
    let r = parse_sections("@IGNORE{a}\n@FMAP{}");
    assert_eq!(r.err(), Some(ConfError::NoArrow));
}

#[test]
fn whole_configuration() {
    let file = "  X := src  \n\n@FMAP{\n'\"rs\"' -> [@X,,,,,rw]\n}\n";
    let cleaned = clean_conf(file);
    assert!(has_fmap(&cleaned));
    let defs = global_definitions(&cleaned);
    assert_eq!(defs, pairs(&[("X", "src")]));
    assert_eq!(parse_conf(&cleaned, &defs).err(), Some(ConfError::NoArrow));
    assert_eq!(parse_conf("nothing", &Vec::new()).err(), Some(ConfError::NoFmap));
    assert_eq!(parse_conf("@FMAP", &Vec::new()).err(), Some(ConfError::FmapUnopened));
    assert_eq!(parse_conf("@FMAP{", &Vec::new()).err(), Some(ConfError::FmapUnclosed));
}
