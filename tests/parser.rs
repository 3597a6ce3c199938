use cornucopia::{
    parse_query_module, NullableIdent, Parsed, ParsedModule, QueryDataStruct, QuerySql,
    TypeAnnotation,
};

fn module(text: &str) -> ParsedModule {
    match parse_query_module("queries/test.sql", text) {
        Ok(m) => m,
        Err(e) => panic!("unexpected diagnostics: {:?}", e.diagnostics),
    }
}

fn field(f: &NullableIdent) -> (String, bool, bool) {
    (f.name.value.clone(), f.nullable, f.inner_nullable)
}

fn bind_names(sql: &QuerySql) -> Vec<String> {
    sql.bind_params.iter().map(|p| p.value.clone()).collect()
}

#[test]
fn repeated_bind_reuses_its_placeholder() {
    let sql = QuerySql::from_statement("SELECT * FROM t WHERE x = :a AND y = :b OR z = :a", 0);
    assert_eq!(sql.sql_str, "SELECT * FROM t WHERE x = $1 AND y = $2 OR z = $1");
    assert_eq!(bind_names(&sql), vec!["a", "b", "a"]);
    assert_eq!(sql.bind_params[0], sql.bind_params[2]);
    assert_eq!((sql.bind_params[0].start, sql.bind_params[0].end), (27, 28));
    assert_eq!((sql.bind_params[2].start, sql.bind_params[2].end), (48, 49));
}

#[test]
fn placeholders_follow_name_order() {
    let sql = QuerySql::from_statement("INSERT INTO t VALUES (:zeta, :alpha, :mid, :alpha)", 0);
    assert_eq!(sql.sql_str, "INSERT INTO t VALUES ($3, $1, $2, $1)");
    assert_eq!(bind_names(&sql), vec!["zeta", "alpha", "mid", "alpha"]);
}

#[test]
fn ten_names_give_two_digit_placeholders() {
    let sql = QuerySql::from_statement(
        "SELECT :a0, :a1, :a2, :a3, :a4, :a5, :a6, :a7, :a8, :a9, :b",
        0,
    );
    assert_eq!(
        sql.sql_str,
        "SELECT $1, $2, $3, $4, $5, $6, $7, $8, $9, $10, $11"
    );
}

#[test]
fn bind_spans_are_shifted_by_the_offset() {
    let sql = QuerySql::from_statement(":id", 100);
    assert_eq!(sql.sql_str, "$1");
    assert_eq!((sql.bind_params[0].start, sql.bind_params[0].end), (101, 103));
}

#[test]
fn single_quoted_literal_hides_binds() {
    let sql = QuerySql::from_statement("SELECT 'x:foo'", 0);
    assert!(sql.bind_params.is_empty());
    assert_eq!(sql.sql_str, "SELECT 'x:foo'");
}

#[test]
fn dollar_quoted_literal_hides_binds() {
    let sql = QuerySql::from_statement("SELECT $tag$:foo$tag$", 0);
    assert!(sql.bind_params.is_empty());
    assert_eq!(sql.sql_str, "SELECT $tag$:foo$tag$");
}

#[test]
fn dollar_quote_ends_only_at_its_own_tag() {
    let sql = QuerySql::from_statement("SELECT $a$ $b$ :x $a$, :y", 0);
    assert_eq!(bind_names(&sql), vec!["y"]);
    assert_eq!(sql.sql_str, "SELECT $a$ $b$ :x $a$, $1");
}

#[test]
fn escaped_string_hides_binds() {
    let sql = QuerySql::from_statement("SELECT E'a:foo'", 0);
    assert!(sql.bind_params.is_empty());
    let sql = QuerySql::from_statement("SELECT e'it\\'s :no', 'a'':no', :yes", 0);
    assert_eq!(bind_names(&sql), vec!["yes"]);
}

#[test]
fn double_quoted_identifier_hides_binds() {
    let sql = QuerySql::from_statement("SELECT \":foo\" FROM t WHERE e = :bar", 0);
    assert_eq!(bind_names(&sql), vec!["bar"]);
    assert_eq!(sql.sql_str, "SELECT \":foo\" FROM t WHERE e = $1");
}

#[test]
fn scan_stops_at_a_colon_without_name() {
    let sql = QuerySql::from_statement("SELECT a::int, :b", 0);
    assert!(sql.bind_params.is_empty());
    assert_eq!(sql.sql_str, "SELECT a::int, :b");
}

#[test]
fn scan_stops_at_adjacent_binds() {
    let sql = QuerySql::from_statement(":a:b, :c", 0);
    assert_eq!(bind_names(&sql), vec!["a"]);
    assert_eq!(sql.sql_str, "$1:b, :c");
}

#[test]
fn type_annotation_with_markers() {
    let m = module("--: Foo(a, b?, c[?])");
    assert_eq!(m.types.len(), 1);
    assert_eq!(m.types[0].name.value, "Foo");
    assert_eq!((m.types[0].name.start, m.types[0].name.end), (4, 7));
    let fields: Vec<_> = m.types[0].fields.iter().map(field).collect();
    assert_eq!(
        fields,
        vec![
            ("a".to_string(), false, false),
            ("b".to_string(), true, false),
            ("c".to_string(), false, true),
        ]
    );
}

#[test]
fn type_annotation_field_list_forms() {
    let m = module("--: A\n--: B()\n--: C( x , y?[?], )");
    assert_eq!(m.types.len(), 3);
    assert!(m.types[0].fields.is_empty());
    assert!(m.types[1].fields.is_empty());
    let fields: Vec<_> = m.types[2].fields.iter().map(field).collect();
    assert_eq!(fields, vec![("x".to_string(), false, false), ("y".to_string(), true, true)]);
}

#[test]
fn query_without_structs_is_implicit_and_empty() {
    let m = module("--! get_user\nSELECT 1;");
    assert_eq!(m.queries.len(), 1);
    let q = &m.queries[0];
    assert_eq!(q.annotation.name.value, "get_user");
    assert!(matches!(&q.annotation.param, QueryDataStruct::Implicit { idents } if idents.is_empty()));
    assert!(matches!(&q.annotation.row, QueryDataStruct::Implicit { idents } if idents.is_empty()));
    assert_eq!(q.sql.sql_str, "SELECT 1");
}

#[test]
fn query_with_param_and_row_shapes() {
    let m = module("--! insert_user (name, age?) : UserRow  \r\nINSERT INTO users VALUES (:name, :age);");
    let q = &m.queries[0];
    match &q.annotation.param {
        QueryDataStruct::Implicit { idents } => {
            let fields: Vec<_> = idents.iter().map(field).collect();
            assert_eq!(fields, vec![("name".to_string(), false, false), ("age".to_string(), true, false)]);
        }
        other => panic!("unexpected param {:?}", other),
    }
    match &q.annotation.row {
        QueryDataStruct::Named(n) => assert_eq!(n.value, "UserRow"),
        other => panic!("unexpected row {:?}", other),
    }
    assert_eq!(q.sql.sql_str, "INSERT INTO users VALUES ($2, $1)");
}

#[test]
fn query_statement_spans_are_in_file_positions() {
    let text = "--! q\nSELECT :a, :b, :a;";
    let m = module(text);
    let sql = &m.queries[0].sql;
    assert_eq!(sql.sql_str, "SELECT $1, $2, $1");
    let spans: Vec<_> = sql.bind_params.iter().map(|p| (p.start, p.end)).collect();
    assert_eq!(spans, vec![(14, 15), (18, 19), (22, 23)]);
    assert_eq!(&text[14..15], "a");
}

#[test]
fn declarations_keep_their_order_by_kind() {
    let m = module("--: A\n--! one\nSELECT 1;\n--: B\n--! two\nSELECT 2;\n");
    let types: Vec<_> = m.types.iter().map(|t| t.name.value.clone()).collect();
    let queries: Vec<_> = m.queries.iter().map(|q| q.annotation.name.value.clone()).collect();
    assert_eq!(types, vec!["A", "B"]);
    assert_eq!(queries, vec!["one", "two"]);
}

#[test]
fn parsing_twice_gives_equal_modules() {
    let text = "--: R(a, b?)\n--! q (x) : R\nSELECT :x FROM t WHERE y = :x;";
    let a = module(text);
    let b = module(text);
    assert_eq!(a.types.len(), b.types.len());
    assert_eq!(a.types[0].name, b.types[0].name);
    let fa: Vec<_> = a.types[0].fields.iter().map(field).collect();
    let fb: Vec<_> = b.types[0].fields.iter().map(field).collect();
    assert_eq!(fa, fb);
    assert_eq!(a.queries[0].sql.sql_str, b.queries[0].sql.sql_str);
    assert_eq!(a.queries[0].sql.bind_params, b.queries[0].sql.bind_params);
    assert_eq!(a.queries[0].annotation.name, b.queries[0].annotation.name);
}

#[test]
fn plain_comment_between_declarations() {
    let m = module("--: A\n-- note\n--: B\n");
    assert_eq!(m.types.len(), 2);
    let m = module("--: A\n--: note\n--: B\n");
    assert_eq!(m.types.len(), 3);
    assert_eq!(m.types[1].name.value, "note");
    let e = parse_query_module("f.sql", "--: A\n--! note\n--: B\n").unwrap_err();
    assert_eq!(e.path, "f.sql");
    assert!(!e.diagnostics.is_empty());
}

#[test]
fn blank_text_is_an_empty_module() {
    let m = module("");
    assert!(m.types.is_empty() && m.queries.is_empty());
    let m = module("  \n-- only a comment\n\t\n");
    assert!(m.types.is_empty() && m.queries.is_empty());
}

#[test]
fn missing_terminator_is_reported_at_the_end() {
    let text = "--! q\nSELECT 1";
    let e = parse_query_module("q.sql", text).unwrap_err();
    assert_eq!(e.diagnostics.len(), 1);
    assert_eq!(e.diagnostics[0].start, text.chars().count());
    assert_eq!(e.diagnostics[0].found, None);
}

#[test]
fn broken_field_list_is_reported_where_it_breaks() {
    let e = parse_query_module("t.sql", "--: T(a b)").unwrap_err();
    assert_eq!(e.diagnostics.len(), 1);
    assert_eq!(e.diagnostics[0].start, 8);
    assert_eq!(e.diagnostics[0].end, 9);
    assert_eq!(e.diagnostics[0].found, Some('b'));
}

#[test]
fn every_broken_declaration_is_reported() {
    let text = "--: 1bad\n--! ok\nSELECT 1;\n--! q (x\nSELECT 2;\n--: Good\nstray";
    let e = parse_query_module("m.sql", text).unwrap_err();
    let starts: Vec<_> = e.diagnostics.iter().map(|d| d.start).collect();
    assert_eq!(starts, vec![4, 34, 54]);
    assert_eq!(e.diagnostics[0].found, Some('1'));
    assert_eq!(e.diagnostics[2].found, Some('s'));
}

#[test]
fn header_must_end_its_line() {
    let e = parse_query_module("h.sql", "--! q x y\nSELECT 1;").unwrap_err();
    assert_eq!(e.diagnostics[0].start, 8);
    let e = parse_query_module("h.sql", "--! q :\nSELECT 1;").unwrap_err();
    assert_eq!(e.diagnostics[0].start, 7);
}

#[test]
fn resolves_implicit_shape_name() {
    let m = module("--! get_user\nSELECT 1;");
    let q = m.queries.into_iter().next().unwrap();
    let name = q.annotation.name.clone();
    let (fields, record) = q.annotation.param.name_and_fields(&vec![], &name, Some("Params"));
    assert!(fields.is_empty());
    assert_eq!(record.value, "GetUserParams");
    assert_eq!((record.start, record.end), (name.start, name.end));
    let (_, record) = q.annotation.row.name_and_fields(&vec![], &name, None);
    assert_eq!(record.value, "GetUser");
}

#[test]
fn resolves_named_shape_including_forward_references() {
    let m = module("--! q User : Missing\nSELECT 1;\n--: User(id, name?)\n--: User(other)");
    let types: Vec<TypeAnnotation> = m.types;
    let q = m.queries.into_iter().next().unwrap();
    let name = q.annotation.name.clone();
    let (fields, record) = q.annotation.param.name_and_fields(&types, &name, Some("Params"));
    assert_eq!(record.value, "User");
    let fields: Vec<_> = fields.iter().map(field).collect();
    assert_eq!(fields, vec![("id".to_string(), false, false), ("name".to_string(), true, false)]);
    let (fields, record) = q.annotation.row.name_and_fields(&types, &name, None);
    assert_eq!(record.value, "Missing");
    assert!(fields.is_empty());
}

#[test]
fn parsed_equality_ignores_spans() {
    let a = Parsed { start: 0, end: 1, value: "x".to_string() };
    let b = Parsed { start: 5, end: 9, value: "x".to_string() };
    let c = Parsed { start: 0, end: 1, value: "y".to_string() };
    assert_eq!(a, b);
    assert_ne!(a, c);
    let d = a.map(|v: &String| v.len());
    assert_eq!((d.start, d.end, d.value), (0, 1, 1));
}

#[test]
fn default_shape_is_empty_implicit() {
    assert!(matches!(QueryDataStruct::default(), QueryDataStruct::Implicit { idents } if idents.is_empty()));
}

#[test]
fn parsed_order_ignores_spans() {
    let p = |start: usize, v: &str| Parsed { start, end: start + v.len(), value: v.to_string() };
    assert_eq!(p(9, "abc").partial_cmp(&p(0, "abd")), Some(std::cmp::Ordering::Less));
    assert_eq!(p(0, "abc").partial_cmp(&p(7, "ab")), Some(std::cmp::Ordering::Greater));
    assert_eq!(p(0, "abc").partial_cmp(&p(3, "abc")), Some(std::cmp::Ordering::Equal));
    assert!(p(5, "B") < p(0, "a"));
}
