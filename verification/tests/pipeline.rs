use namegen::gen::{attempt_entries, plan_source};
use namegen::keys::sanitize_key;
use namegen::parser::Expander;
use namegen::repair::{balance, repair};
use namegen::table::KeyTable;

#[test]
fn sanitize_maps_punctuation_and_uppercases() {
    assert_eq!(sanitize_key("Elora"), "ELORA");
    assert_eq!(sanitize_key("Thal'rin"), "THAL_RIN");
    assert_eq!(sanitize_key("a b-c!d\"e"), "A_B_C_D_E");
    assert_eq!(sanitize_key("x9Z"), "X9Z");
    assert_eq!(sanitize_key("café"), "CAF_");
    assert_eq!(sanitize_key(""), "");
}

#[test]
fn sanitize_is_idempotent_on_samples() {
    for name in ["Elora", "Thal'rin", "a b-c!d\"e", "wéïrd", "", "ALREADY_OK_9"] {
        let once = sanitize_key(name);
        let twice = sanitize_key(&once);
        assert_eq!(twice, once);
    }
}

#[test]
fn sanitize_output_alphabet() {
    let out = sanitize_key("Some wild-name! with ümlauts \"quoted\"");
    assert!(out
        .chars()
        .all(|c| c == '_' || c.is_ascii_uppercase() || c.is_ascii_digit()));
}

#[test]
fn repair_truncated_mid_array() {
    let fixed = repair("{\"names\": [\"A\", \"B\",");
    assert_eq!(fixed, "{\"names\": [\"A\", \"B\"]}");
}

#[test]
fn repaired_buffer_parses() {
    let entries = attempt_entries("{\"names\": [\"A\", \"B\",", "").expect("repaired buffer parses");
    let keys: Vec<&str> = entries.iter().map(|e| e.0.as_str()).collect();
    let names: Vec<&str> = entries.iter().map(|e| e.1.as_str()).collect();
    assert_eq!(keys, ["A", "B"]);
    assert_eq!(names, ["A", "B"]);
}

#[test]
fn repair_balances_exact_deficit() {
    let buf: Vec<char> = "{\"names\": [[\"A\"".chars().collect();
    let out = balance(buf, '[', ']');
    let s: String = out.into_iter().collect();
    assert_eq!(s, "{\"names\": [[\"A\"]]");

    let buf2: Vec<char> = "{{{".chars().collect();
    let out2 = balance(buf2, '{', '}');
    let s2: String = out2.into_iter().collect();
    assert_eq!(s2, "{{{}}}");

    let balanced: Vec<char> = "[x]".chars().collect();
    let out3 = balance(balanced, '[', ']');
    let s3: String = out3.into_iter().collect();
    assert_eq!(s3, "[x]");
}

#[test]
fn repair_closes_odd_quote_and_drops_preamble() {
    assert_eq!(repair("noise {\"names\": [\"A"), "{\"names\": [\"A\"]}");
}

#[test]
fn repair_drops_trailing_empty_item() {
    assert_eq!(repair("{\"names\": [\"A\",\"\""), "{\"names\": [\"A\"]}");
}

#[test]
fn unparseable_buffer_yields_no_entries() {
    assert!(attempt_entries("no braces at all", "").is_none());
    assert!(attempt_entries("{\"other\": [\"A\"]}", "").is_none());
    assert!(attempt_entries("{\"names\": \"not an array\"}", "").is_none());
}

#[test]
fn normalizer_drops_blank_names_and_prefixes() {
    let entries = attempt_entries("{\"names\": [\"  \", \" Bob \", \"\"]}", "HUM_").unwrap();
    assert_eq!(entries.len(), 1);
    assert_eq!(entries[0].0, "HUM_BOB");
    assert_eq!(entries[0].1, "Bob");
}

#[test]
fn cache_short_circuit() {
    assert_eq!(
        plan_source(Some("  cached text ".to_string())),
        Some("  cached text ".to_string())
    );
    assert_eq!(plan_source(Some("   \n\t ".to_string())), None);
    assert_eq!(plan_source(None), None);
}

#[test]
fn first_write_wins() {
    let mut table = KeyTable::new();
    table.insert("K".to_string(), "first".to_string());
    table.insert("K".to_string(), "second".to_string());
    table.insert("L".to_string(), "other".to_string());
    let entries = table.entries();
    assert_eq!(entries.len(), 2);
    assert_eq!(entries[0], ("K".to_string(), "first".to_string()));
    assert_eq!(entries[1], ("L".to_string(), "other".to_string()));
}

#[test]
fn scenario_elves_block() {
    let mut ex = Expander::new();
    assert!(ex.step("# Elves").is_none());
    assert!(ex.step("elves = {").is_none());
    let req = ex.step("}").expect("leaf close raises a request");
    assert_eq!(req.theme, "Elves");
    assert_eq!(req.prefix, "");
    assert_eq!(req.cache_name, "elves");
    let entries = attempt_entries("{\"names\": [\"Elora\", \"Thal'rin\"]}", &req.prefix).unwrap();
    ex.provide(entries);
    let out = ex.output_doc();
    assert!(out.contains("    ELORA,"));
    assert!(out.contains("    THAL_RIN,"));
    assert_eq!(out, "elves = {\n    ELORA,\n    THAL_RIN,\n}");
    let loc = ex.localisation_doc();
    assert!(loc.contains("    ELORA:0 \"Elora\""));
    assert!(loc.contains("    THAL_RIN:0 \"Thal'rin\""));
    assert_eq!(
        loc,
        "l_english:\n    ELORA:0 \"Elora\"\n    THAL_RIN:0 \"Thal'rin\"\n"
    );
}

#[test]
fn scenario_nested_prefix() {
    let mut ex = Expander::new();
    assert!(ex.step("# prefix: HUM").is_none());
    assert!(ex.step("humans = {").is_none());
    assert!(ex.step("    # Human first names").is_none());
    assert!(ex.step("    names = {").is_none());
    let req = ex.step("    }").expect("inner leaf raises a request");
    assert_eq!(req.theme, "Human first names");
    assert_eq!(req.prefix, "HUM");
    assert_eq!(req.cache_name, "humans_names");
    let entries = attempt_entries("{\"names\": [\"Ana\"]}", &req.prefix).unwrap();
    ex.provide(entries);
    assert!(ex.step("}").is_none(), "outer scope no longer qualifies");
    let out = ex.output_doc();
    assert!(out.contains("        HUM_ANA,"));
    let loc = ex.localisation_doc();
    assert!(loc.contains("    HUM_ANA:0 \"Ana\""));
}

#[test]
fn literal_content_suppresses_generation() {
    let mut ex = Expander::new();
    ex.step("# Elves");
    ex.step("elves = {");
    ex.step("    speed = 5");
    assert!(ex.step("}").is_none(), "content line disqualifies the scope");
    assert_eq!(ex.output_doc(), "elves = {\n    speed = 5\n}");
}

#[test]
fn child_scope_suppresses_generation() {
    let mut ex = Expander::new();
    ex.step("# Outer theme");
    ex.step("outer = {");
    ex.step("    inner = {");
    assert!(ex.step("    }").is_none(), "inner has no theme");
    assert!(ex.step("}").is_none(), "closed child disqualifies the outer scope");
}

#[test]
fn kv_comment_becomes_literal_insertion() {
    let mut ex = Expander::new();
    ex.step("# speed =  5");
    ex.step("block = {");
    ex.step("}");
    assert_eq!(ex.output_doc(), "block = {\n    speed = 5\n}");
}

#[test]
fn unmatched_close_is_tolerated() {
    let mut ex = Expander::new();
    assert!(ex.step("}").is_none());
    assert!(ex.step("stray line").is_none());
    assert_eq!(ex.output_doc(), "}\nstray line");
}

#[test]
fn empty_document_yields_empty_output() {
    let ex = Expander::new();
    assert_eq!(ex.output_doc(), "");
    assert_eq!(ex.localisation_doc(), "l_english:\n");
}

#[test]
fn open_line_without_assignment_keeps_whole_line_as_key() {
    let mut ex = Expander::new();
    ex.step("# Things");
    ex.step("things {");
    let req = ex.step("}").expect("leaf close raises a request");
    assert_eq!(req.cache_name, "things {");
}

#[test]
fn only_last_pending_theme_survives() {
    let mut ex = Expander::new();
    ex.step("# First theme");
    ex.step("# Second theme");
    ex.step("block = {");
    let req = ex.step("}").expect("leaf close raises a request");
    assert_eq!(req.theme, "Second theme");
}

#[test]
fn pending_metadata_is_cleared_by_an_open() {
    let mut ex = Expander::new();
    ex.step("# Only for the first block");
    ex.step("first = {");
    ex.step("}");
    ex.step("second = {");
    assert!(
        ex.step("}").is_none(),
        "the second scope has no theme of its own"
    );
}

#[test]
fn pending_prefix_overrides_inherited_prefix() {
    let mut ex = Expander::new();
    ex.step("# prefix: OUT");
    ex.step("outer = {");
    ex.step("    # prefix: IN");
    ex.step("    # Inner theme");
    ex.step("    inner = {");
    let req = ex.step("    }").expect("inner leaf raises a request");
    assert_eq!(req.prefix, "IN");
    let entries = attempt_entries("{\"names\": [\"Zoe\"]}", &req.prefix).unwrap();
    ex.provide(entries);
    ex.step("}");
    assert!(ex.localisation_doc().contains("    IN_ZOE:0 \"Zoe\""));
}

#[test]
fn prefix_with_trailing_underscore_is_stripped_once() {
    let entries = attempt_entries("{\"names\": [\"Ana\"]}", "HUM___").unwrap();
    assert_eq!(entries[0].0, "HUM_ANA");
}

#[test]
fn comma_line_marks_scope_as_holding_data() {
    let mut ex = Expander::new();
    ex.step("# Theme");
    ex.step("block = {");
    ex.step("    ALPHA,");
    assert!(ex.step("}").is_none(), "a separator line disqualifies the scope");
}
