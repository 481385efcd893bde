use migrate::parser::{is_select_query, parse_text};

#[test]
fn test_parse_text() {
    let input = r#"
        CREATE TABLE "User" (
            id BIGSERIAL PRIMARY KEY,
            username VARCHAR(255) NOT NULL,
            email VARCHAR(255) NOT NULL UNIQUE,
            password VARCHAR(255) NOT NULL,
            email_confirmed_at VARCHAR(255),
            created_at TIMESTAMP NOT NULL DEFAULT CURRENT_TIMESTAMP,
            updated_at TIMESTAMP NOT NULL DEFAULT CURRENT_TIMESTAMP
        );

        CREATE OR REPLACE FUNCTION update_user_updated_at_column()
        RETURNS TRIGGER AS $$
        BEGIN
            NEW.updated_at = NOW();
            RETURN NEW;
        END;
        $$ LANGUAGE plpgsql;

        CREATE TRIGGER update_user_updated_at BEFORE UPDATE ON "User"
        FOR EACH ROW EXECUTE FUNCTION update_user_updated_at_column();"#;

    let sentences = parse_text(input);

    let exepected = vec![
        r#"CREATE TABLE "User" (
            id BIGSERIAL PRIMARY KEY,
            username VARCHAR(255) NOT NULL,
            email VARCHAR(255) NOT NULL UNIQUE,
            password VARCHAR(255) NOT NULL,
            email_confirmed_at VARCHAR(255),
            created_at TIMESTAMP NOT NULL DEFAULT CURRENT_TIMESTAMP,
            updated_at TIMESTAMP NOT NULL DEFAULT CURRENT_TIMESTAMP
        )"#,
        r#"CREATE OR REPLACE FUNCTION update_user_updated_at_column()
        RETURNS TRIGGER AS $$
        BEGIN
            NEW.updated_at = NOW();
            RETURN NEW;
        END;
        $$ LANGUAGE plpgsql"#,
        r#"CREATE TRIGGER update_user_updated_at BEFORE UPDATE ON "User"
        FOR EACH ROW EXECUTE FUNCTION update_user_updated_at_column()"#,
    ];

    assert_eq!(
        sentences.len(),
        exepected.len(),
        "The number of sentences does not match the expected number."
    );

    for (i, sentence) in sentences.iter().enumerate() {
        assert_eq!(sentence, &exepected[i]);
    }
}

#[test]
fn test_plain_statements() {
    assert_eq!(parse_text("A; B; C;"), vec!["A", "B", "C"]);
}

#[test]
fn test_trailing_statement_without_semicolon() {
    assert_eq!(parse_text("A; B"), vec!["A", "B"]);
}

#[test]
fn test_dollar_quote_contains_semicolons() {
    let script =
        "CREATE FUNCTION f() RETURNS trigger AS $$ BEGIN a; b; END; $$ LANGUAGE plpgsql;";
    assert_eq!(
        parse_text(script),
        vec!["CREATE FUNCTION f() RETURNS trigger AS $$ BEGIN a; b; END; $$ LANGUAGE plpgsql"]
    );
}

#[test]
fn test_tagged_dollar_quote() {
    assert_eq!(
        parse_text("$fn$ a; b $fn$; Z"),
        vec!["$fn$ a; b $fn$", "Z"]
    );
}

#[test]
fn test_semicolon_in_single_quotes() {
    assert_eq!(
        parse_text("INSERT INTO t VALUES ('a;b'); X"),
        vec!["INSERT INTO t VALUES ('a;b')", "X"]
    );
}

#[test]
fn test_semicolon_in_double_quotes() {
    assert_eq!(
        parse_text("SELECT \"a;b\" FROM t; X"),
        vec!["SELECT \"a;b\" FROM t", "X"]
    );
}

#[test]
fn test_semicolon_in_block_comment() {
    assert_eq!(
        parse_text("A /* x; y */ B; C"),
        vec!["A /* x; y */ B", "C"]
    );
}

#[test]
fn test_empty_input() {
    assert_eq!(parse_text(""), Vec::<String>::new());
    assert_eq!(parse_text("   \n\t "), Vec::<String>::new());
}

#[test]
fn test_empty_statements_between_semicolons() {
    assert_eq!(parse_text("A;;B"), vec!["A", "", "B"]);
}

#[test]
fn test_unterminated_dollar_quote_absorbs_rest() {
    assert_eq!(
        parse_text("A; CREATE FUNCTION g() AS $$ x; y"),
        vec!["A", "CREATE FUNCTION g() AS $$ x; y"]
    );
}

#[test]
fn test_is_select_query() {
    assert!(is_select_query("SELECT COUNT(*) FROM _migrations"));
    assert!(is_select_query("  select up_file FROM _migrations"));
    assert!(is_select_query("\n\tSeLeCt 1"));
    assert!(!is_select_query("DELETE FROM test1"));
    assert!(!is_select_query("SEL"));
    assert!(!is_select_query(""));
}
