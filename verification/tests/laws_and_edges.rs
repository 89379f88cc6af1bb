use exlex::parser::{hash, ExlexParser};
use exlex::{ErrorCode, Exlex, ExlexSection};

const DOC: &str = "\"name\": \"app\"\nsect \"Server\" {\n    \"host\": \"127.0.0.1\"\n    \"port\": \"8080\"\n    sect \"Tls\" {\n        \"cert\": \"a.pem\"\n    }\n}\nsect \"Client\" {\n    \"retries\": \"3\"\n}\n";

fn parse(data: &str) -> Exlex {
    Exlex::init_reader(data, None, None, None, None).unwrap()
}

fn parse_err(data: &str) -> (ErrorCode, usize) {
    let e = Exlex::init_reader(data, None, None, None, None).unwrap_err();
    (e.code, e.index)
}

// ── Laws on concrete values ───────────────────────────────────────

#[test]
fn test_update_then_get_every_kind_of_key() {
    let doc = parse(DOC);
    let mut m = doc.init_mutator().unwrap();
    // a property of the document
    m.update_prop("port", "9090", 1);
    assert_eq!(m.get_property("port", 1).unwrap(), "9090");
    // the same property again
    m.update_prop("port", "9191", 1);
    assert_eq!(m.get_property("port", 1).unwrap(), "9191");
    // a new property, then again
    m.update_prop("timeout", "30", 1);
    assert_eq!(m.get_property("timeout", 1).unwrap(), "30");
    m.update_prop("timeout", "45", 1);
    assert_eq!(m.get_property("timeout", 1).unwrap(), "45");
}

#[test]
fn test_update_keeps_other_properties() {
    let doc = parse(DOC);
    let mut m = doc.init_mutator().unwrap();
    m.update_prop("host", "10.0.0.1", 1);
    assert_eq!(m.get_property("port", 1).unwrap(), "8080");
    assert_eq!(m.get_property("name", 0).unwrap(), "app");
    // the same key in another section is another property
    assert!(m.get_property("host", 3).is_err());
    m.update_prop("retries", "5", 1);
    assert_eq!(m.get_property("retries", 3).unwrap(), "3");
    assert_eq!(m.get_property("retries", 1).unwrap(), "5");
}

#[test]
fn test_fresh_mutator_reads_like_reader() {
    let doc = parse(DOC);
    let m = doc.init_mutator().unwrap();
    let cases: [(&str, usize); 6] =
        [("name", 0), ("host", 1), ("port", 1), ("cert", 2), ("retries", 3), ("host", 3)];
    for (key, s) in cases {
        let from_reader = doc.get_section_property(key, ExlexSection(s));
        let from_mutator = m.get_property(key, s);
        assert_eq!(from_reader.is_ok(), from_mutator.is_ok());
        if let (Ok(a), Ok(b)) = (from_reader, from_mutator) {
            assert_eq!(a, b);
        }
    }
}

#[test]
fn test_delete_succeeds_exactly_when_found() {
    let doc = parse(DOC);
    let mut m = doc.init_mutator().unwrap();
    m.update_prop("port", "1", 1);
    m.update_prop("extra", "x", 3);
    assert!(m.delete_property("host", 1).is_ok());
    assert!(m.delete_property("port", 1).is_ok());
    assert!(m.delete_property("extra", 3).is_ok());
    let e = m.delete_property("missing", 1).unwrap_err();
    assert_eq!(e.code, ErrorCode::PropertyNotFound);
    assert_eq!(e.index, usize::MAX);
    let e = m.get_property("missing", 1).unwrap_err();
    assert_eq!(e.code, ErrorCode::PropertyNotFound);
}

#[test]
fn test_get_after_delete_reads_recorded_value() {
    // Deletion only marks the property for `save`; reads still see it.
    let doc = parse(DOC);
    let mut m = doc.init_mutator().unwrap();
    m.delete_property("host", 1).unwrap();
    assert_eq!(m.get_property("host", 1).unwrap(), "127.0.0.1");
}

#[test]
fn test_new_section_twice_and_elsewhere() {
    let doc = parse(DOC);
    let mut m = doc.init_mutator().unwrap();
    m.new_section("Db", 0).unwrap();
    let e = m.new_section("Db", 0).unwrap_err();
    assert_eq!(e.code, ErrorCode::AlreadyCreatedSection);
    assert_eq!(e.index, usize::MAX);
    assert!(m.new_section("Db", 1).is_ok());
    assert!(m.new_section("Other", 0).is_ok());
    let e = m.new_section("Tls", 1).unwrap_err();
    assert_eq!(e.code, ErrorCode::DuplicateSectionsNotAllowed);
    // after moving Tls away, its old parent may get a new one of that name
    m.move_section(2, 3);
    assert!(m.new_section("Tls", 1).is_ok());
    assert_eq!(m.new_section("Tls", 3).unwrap_err().code, ErrorCode::DuplicateSectionsNotAllowed);
}

#[test]
fn test_parse_has_root() {
    for data in ["", DOC, "# nothing\n", "\"k\": \"v\""] {
        let doc = parse(data);
        assert_eq!(doc.get_section_by_id(0), "ROOT");
        assert_eq!(doc.get_root().0, 0);
    }
}

#[test]
fn test_root_path_and_prefix() {
    let doc = parse(DOC);
    assert_eq!(doc.get_section_id("ROOT").unwrap(), 0);
    assert_eq!(doc.get_section_id("ROOT.Server").unwrap(), doc.get_section_id("Server").unwrap());
    assert_eq!(
        doc.get_section_id("ROOT.Server.Tls").unwrap(),
        doc.get_section_id("Server.Tls").unwrap()
    );
    assert_eq!(doc.get_section_id("Server.Tls").unwrap(), 2);
    // the root's children are searched over every section of the document
    assert_eq!(doc.get_section_id("Tls").unwrap(), 2);
    assert_eq!(doc.get_section_id("Nope").unwrap_err().code, ErrorCode::SectionNotFound);
}

#[test]
fn test_walk_concat() {
    let doc = parse(DOC);
    let root = doc.get_root();
    let whole = doc.get_child_path(&["Server", "Tls"], root).unwrap();
    let first = doc.get_child_path(&["Server"], root).unwrap();
    let rest = doc.get_child_path(&["Tls"], first).unwrap();
    assert_eq!(whole.0, rest.0);
    assert_eq!(whole.0, 2);
    assert_eq!(doc.get_child_path(&[], root).unwrap().0, 0);
    let e = doc.get_child_path(&["Server", "Nope"], root).unwrap_err();
    assert_eq!(e.code, ErrorCode::SectionNotFound);
}

// ── Saving ────────────────────────────────────────────────────────

#[test]
fn test_save_fresh_exact() {
    let doc = parse(DOC);
    let mut m = doc.init_mutator().unwrap();
    let out = m.save();
    assert_eq!(
        out,
        "\"name\": \"app\"\nsect \"Server\" {\n\"host\": \"127.0.0.1\"\n\"port\": \"8080\"\nsect \"Tls\" {\n\"cert\": \"a.pem\"\n}\n}\nsect \"Client\" {\n\"retries\": \"3\"\n}\n"
    );
    // saving again gives the same text
    assert_eq!(m.save(), out);
}

#[test]
fn test_save_after_edits_exact() {
    let doc = parse(DOC);
    let mut m = doc.init_mutator().unwrap();
    m.update_prop("port", "9090", 1);
    m.update_prop("timeout", "30", 1);
    m.delete_property("name", 0).unwrap();
    m.new_section("Db", 0).unwrap();
    // the new section's id follows the document's four sections
    m.update_prop("url", "pg://x", 4);
    assert_eq!(m.get_property("url", 4).unwrap(), "pg://x");
    m.move_section(2, 3);
    let out = m.save();
    assert_eq!(
        out,
        "sect \"Server\" {\n\"host\": \"127.0.0.1\"\n\"port\": \"9090\"\n\"timeout\": \"30\"\n}\nsect \"Client\" {\n\"retries\": \"3\"\nsect \"Tls\" {\n\"cert\": \"a.pem\"\n}\n}\nsect \"Db\" {\n\"url\": \"pg://x\"\n}\n"
    );
}

#[test]
fn test_save_deleted_section_drops_its_content() {
    let doc = parse(DOC);
    let mut m = doc.init_mutator().unwrap();
    m.delete_section(1);
    let out = m.save();
    assert_eq!(out, "\"name\": \"app\"\nsect \"Client\" {\n\"retries\": \"3\"\n}\n");
}

#[test]
fn test_save_deleted_new_and_updated_keys() {
    let doc = parse(DOC);
    let mut m = doc.init_mutator().unwrap();
    m.update_prop("fresh", "1", 3);
    m.update_prop("retries", "7", 3);
    m.delete_property("fresh", 3).unwrap();
    m.delete_property("retries", 3).unwrap();
    m.delete_section(1);
    let out = m.save();
    assert_eq!(out, "\"name\": \"app\"\nsect \"Client\" {\n}\n");
}

#[test]
fn test_save_keeps_non_ascii_text() {
    let doc = parse("\"greeting\": \"héllo\"\n");
    let mut m = doc.init_mutator().unwrap();
    m.update_prop("farewell", "adiós", 0);
    assert_eq!(m.get_property("farewell", 0).unwrap(), "adiós");
    assert_eq!(m.save(), "\"greeting\": \"héllo\"\n\"farewell\": \"adiós\"\n");
}

#[test]
fn test_moved_section_into_own_child_is_not_saved() {
    // Section 1 is moved under its own child 2: neither is reachable from
    // the root any more, and saving still ends.
    let doc = parse(DOC);
    let mut m = doc.init_mutator().unwrap();
    m.move_section(1, 2);
    assert_eq!(m.save(), "\"name\": \"app\"\nsect \"Client\" {\n\"retries\": \"3\"\n}\n");
}

// ── Parse errors, one per code ────────────────────────────────────

#[test]
fn test_error_missing_colon() {
    assert_eq!(parse_err("\"k\" \"v\""), (ErrorCode::InvalidSyntax, 4));
}

#[test]
fn test_error_unquoted_value() {
    assert_eq!(parse_err("\"k\": v"), (ErrorCode::InvalidSyntax, 5));
}

#[test]
fn test_error_nothing_after_colon() {
    assert_eq!(parse_err("\"k\":"), (ErrorCode::InvalidSyntax, 4));
}

#[test]
fn test_error_section_without_brace() {
    assert_eq!(parse_err("sect \"a\" x"), (ErrorCode::InvalidSyntax, 9));
}

#[test]
fn test_error_section_name_inside_character() {
    assert_eq!(parse_err("sect é\"x\" {"), (ErrorCode::InvalidCharacter, 6));
}

#[test]
fn test_error_stray_closing_brace() {
    assert_eq!(parse_err("}"), (ErrorCode::InvalidBracket, 0));
    assert_eq!(parse_err("sect \"a\" {\n}\n}"), (ErrorCode::InvalidBracket, 13));
}

#[test]
fn test_error_escape_runs_past_end() {
    assert_eq!(parse_err("\"a\\b"), (ErrorCode::UnclosedQuote, 4));
}

#[test]
fn test_error_literal_never_closed() {
    assert_eq!(parse_err("\"abc"), (ErrorCode::MalformedLiteral, 1));
}

// ── Reader edges ──────────────────────────────────────────────────

#[test]
fn test_comment_without_newline() {
    let doc = parse("# only a comment");
    assert_eq!(doc.total_properties(), 0);
    let doc = parse("\"a\": \"1\" # trailing\n\"b\": \"2\"");
    assert_eq!(doc.total_properties(), 2);
    assert_eq!(doc.get_section_property("b", ExlexSection(0)).unwrap(), "2");
}

#[test]
fn test_comment_at_end_without_newline_only_skips_its_mark() {
    // With no newline after it, only the `#` itself is passed over.
    let doc = parse("# \"a\": \"b\"");
    assert_eq!(doc.total_properties(), 1);
    assert_eq!(doc.get_section_property("a", ExlexSection(0)).unwrap(), "b");
}

#[test]
fn test_escaped_quote_kept_raw() {
    let doc = parse("\"q\": \"a\\\"b\"");
    assert_eq!(doc.get_section_property("q", ExlexSection(0)).unwrap(), "a\\\"b");
}

#[test]
fn test_hints_do_not_change_the_document() {
    let a = parse(DOC);
    let b = Exlex::init_reader(DOC, Some(true), Some(2), Some(3), Some(1)).unwrap();
    assert_eq!(a.total_properties(), b.total_properties());
    assert_eq!(a.get_section_id("Server.Tls").unwrap(), b.get_section_id("Server.Tls").unwrap());
    assert_eq!(
        a.get_section_property("cert", ExlexSection(2)).unwrap(),
        b.get_section_property("cert", ExlexSection(2)).unwrap()
    );
}

#[test]
fn test_iter_section_properties_in_order() {
    let doc = parse(DOC);
    let props = doc.iter_section_properties(ExlexSection(1));
    assert_eq!(props, vec![("host", "127.0.0.1"), ("port", "8080")]);
    assert!(doc.iter_section_properties(ExlexSection(2)).len() == 1);
}

#[test]
fn test_section_property_out_of_range_section() {
    let doc = parse(DOC);
    let e = doc.get_section_property("host", ExlexSection(99)).unwrap_err();
    assert_eq!(e.code, ErrorCode::SectionNotFound);
    let e = doc.get_section_property("nope", ExlexSection(1)).unwrap_err();
    assert_eq!(e.code, ErrorCode::PropertyNotFound);
}

#[test]
fn test_get_property_as_typed() {
    let doc = parse(DOC);
    let port: u16 = doc.get_property_as("port", ExlexSection(1)).unwrap();
    assert_eq!(port, 8080);
    let e = doc.get_property_as::<u16>("host", ExlexSection(1)).unwrap_err();
    assert_eq!(e.code, ErrorCode::MalformedLiteral);
    let e = doc.get_property_as::<u16>("nope", ExlexSection(1)).unwrap_err();
    assert_eq!(e.code, ErrorCode::PropertyNotFound);
}

#[test]
fn test_nested_property_through_path() {
    let doc = parse(DOC);
    assert_eq!(doc.get_nested_property(&["Server", "Tls"], "cert").unwrap(), "a.pem");
    assert_eq!(doc.get_nested_property(&[], "name").unwrap(), "app");
    assert_eq!(doc.get_property("cert", "Server.Tls").unwrap(), "a.pem");
}

#[test]
fn test_hash_values() {
    assert_eq!(hash(""), 0);
    assert_eq!(hash("a"), 16160435425421689461);
    assert_eq!(hash("ROOT"), 12293122946843770658);
    assert_eq!(hash("abcdefghij"), 17272861733096558656);
}

#[test]
fn test_move_back_restores_save() {
    let doc = parse(DOC);
    let mut m = doc.init_mutator().unwrap();
    let before = m.save();
    m.move_section(2, 3);
    assert_ne!(m.save(), before);
    m.move_section(2, 1);
    assert_eq!(m.save(), before);
}

#[test]
fn test_deleted_new_key_stays_out_after_other_update() {
    let doc = parse("\"host\" : \"localhost\"\n\"port\" : \"8080\"\n");
    let mut m = doc.init_mutator().unwrap();
    m.update_prop("n", "1", 0);
    m.delete_property("n", 0).unwrap();
    m.update_prop("host", "h", 0);
    m.update_prop("extra", "e", 0);
    m.update_prop("port", "1", 0);
    let out = m.save();
    assert!(!out.contains("\"n\""));
    assert_eq!(out, "\"host\": \"h\"\n\"port\": \"1\"\n\"extra\": \"e\"\n");
}

#[test]
fn test_failed_parse_keeps_what_was_read() {
    let d = "\"a\": \"1\"\n\"k\" \"v\"";
    let mut p = ExlexParser::new(d, d.as_bytes(), None, None, None, None);
    let e = p.parse().unwrap_err();
    assert_eq!(e.code, ErrorCode::InvalidSyntax);
    assert_eq!(p.sections, vec!["ROOT"]);
    assert_eq!(p.prop_keys, vec!["a"]);
    assert_eq!(p.prop_values, vec!["1"]);
    assert_eq!(p.properties_hash.len(), 1);
    let d = "sect \"A\"";
    let mut p = ExlexParser::new(d, d.as_bytes(), None, None, None, None);
    assert_eq!(p.parse().unwrap_err().code, ErrorCode::InvalidSyntax);
    assert_eq!(p.sections, vec!["ROOT"]);
}

#[test]
fn test_huge_hints_do_not_panic() {
    let doc = Exlex::init_reader(DOC, Some(true), Some(usize::MAX), Some(usize::MAX), Some(usize::MAX))
        .unwrap();
    assert_eq!(doc.total_properties(), 5);
}

#[test]
fn test_parse_of_fresh_save_gives_same_document() {
    let texts: [(&str, usize); 2] = [
        (DOC, 4),
        (
            "\"a\": \"x\\\"y\"\nsect \"A\" {\n  \"k\": \"1\"\n  sect \"B\" {\n    sect \"C\" {\n      \"z\": \"\"\n    }\n  }\n  \"after\": \"2\"\n}\nsect \"D\" {\n}\n",
            5,
        ),
    ];
    for (text, n) in texts {
        let doc = parse(text);
        let mut m = doc.init_mutator().unwrap();
        let out = m.save();
        let again = parse(&out);
        assert_eq!(again.total_properties(), doc.total_properties());
        for s in 0..n {
            assert_eq!(doc.get_section_by_id(s), again.get_section_by_id(s));
            assert_eq!(
                doc.iter_section_properties(ExlexSection(s)),
                again.iter_section_properties(ExlexSection(s))
            );
        }
        assert_eq!(doc.get_section_ids("C"), again.get_section_ids("C"));
    }
}

#[test]
fn test_parse_of_edited_save_reads_written_tree() {
    let doc = parse(DOC);
    let mut m = doc.init_mutator().unwrap();
    m.update_prop("port", "9090", 1);
    m.delete_property("name", 0).unwrap();
    m.new_section("Db", 0).unwrap();
    m.update_prop("url", "pg://x", 4);
    m.move_section(2, 3);
    let out = m.save();
    let again = parse(&out);
    // written order: Server, Client, Tls (now inside Client), Db
    assert_eq!(again.get_section_by_id(1), "Server");
    assert_eq!(again.get_section_by_id(2), "Client");
    assert_eq!(again.get_section_by_id(3), "Tls");
    assert_eq!(again.get_section_by_id(4), "Db");
    assert_eq!(again.get_section_id("Client.Tls").unwrap(), 3);
    assert_eq!(again.get_property("port", "Server").unwrap(), "9090");
    assert_eq!(again.get_property("url", "Db").unwrap(), "pg://x");
    assert!(again.get_property("name", "ROOT").is_err());
}
