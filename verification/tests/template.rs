use parsemaths::template::{
    can_classify, check_matching_pairs, check_symbol_string, generate_html_template_var,
    get_content_type, get_expression_data, get_index_for_symbol, has_expression_data, ContentType,
    Context, ExpressionData, TagType,
};

fn data(head: &str, variable: &str, tail: &str) -> ExpressionData {
    ExpressionData {
        head: Some(head.to_string()),
        variable: variable.to_string(),
        tail: Some(tail.to_string()),
    }
}

#[test]
fn check_literal_test() {
    let s = "<h1>Hello world</h1>";
    assert_eq!(ContentType::Literal(s.to_string()), get_content_type(s));
}

#[test]
fn check_template_var_test() {
    let content = ExpressionData {
        head: Some("Hi ".to_string()),
        variable: "name".to_string(),
        tail: Some(", welcome".to_string()),
    };
    assert_eq!(
        ContentType::TemplateVariable(content),
        get_content_type("Hi {{name}}, welcome")
    );
}

#[test]
fn check_for_tag_test() {
    assert_eq!(
        ContentType::Tag(TagType::ForTag),
        get_content_type("{% for name in names %}, welcome")
    );
}

#[test]
fn check_if_tag_test() {
    assert_eq!(
        ContentType::Tag(TagType::IfTag),
        get_content_type("{% if name == 'Bob' %}")
    );
}

#[test]
fn check_symbol_string_test() {
    assert_eq!(true, check_symbol_string("{{Hello}}", "{{"));
}

#[test]
fn check_matching_pair_test() {
    assert_eq!(true, check_matching_pairs("{{Hello}}", "{{", "}}"));
}

#[test]
fn check_get_expression_data_test() {
    let expression_data = ExpressionData {
        head: Some("Hi ".to_string()),
        variable: "name".to_string(),
        tail: Some(", welcome".to_string()),
    };
    assert_eq!(expression_data, get_expression_data("Hi {{name}}, welcome"));
}

#[test]
fn check_get_index_for_symbol_test() {
    assert_eq!((true, 3), get_index_for_symbol("Hi {name}, welcome", '{'));
}

#[test]
fn symbol_is_sought_everywhere() {
    assert!(check_symbol_string("abc", ""));
    assert!(check_symbol_string("", ""));
    assert!(check_symbol_string("abc", "abc"));
    assert!(check_symbol_string("abc", "bc"));
    assert!(check_symbol_string("aab", "ab"));
    assert!(!check_symbol_string("abc", "ac"));
    assert!(!check_symbol_string("abc", "abcd"));
    assert!(!check_symbol_string("", "a"));
    assert!(check_symbol_string("h\u{e9}llo", "\u{e9}l"));
}

#[test]
fn symbol_is_sought_as_std_seeks_it() {
    let texts = ["", "a", "ab", "aab", "abab", "{{x}}", "{% if %}", "x\u{e9}y"];
    for text in texts {
        for symbol in texts {
            assert_eq!(check_symbol_string(text, symbol), text.contains(symbol));
        }
    }
}

#[test]
fn both_symbols_are_needed() {
    assert!(check_matching_pairs("}}{{", "{{", "}}"));
    assert!(!check_matching_pairs("{{Hello", "{{", "}}"));
    assert!(!check_matching_pairs("Hello}}", "{{", "}}"));
}

#[test]
fn index_is_counted_in_bytes() {
    assert_eq!(get_index_for_symbol("h\u{e9}{", '{'), (true, 3));
    assert_eq!(get_index_for_symbol("\u{20ac}\u{1F600}x", 'x'), (true, 7));
    assert_eq!(get_index_for_symbol("\u{20ac}\u{1F600}x", '\u{1F600}'), (true, 3));
    assert_eq!(get_index_for_symbol("{", '{'), (true, 0));
    assert_eq!(get_index_for_symbol("a{b{", '{'), (true, 1));
}

#[test]
fn missing_symbol_has_index_zero() {
    assert_eq!(get_index_for_symbol("abc", '{'), (false, 0));
    assert_eq!(get_index_for_symbol("", '{'), (false, 0));
}

#[test]
fn index_is_that_of_std() {
    for text in ["Hi {name}", "h\u{e9}llo {x", "\u{1F600}{", "{{"] {
        assert_eq!(get_index_for_symbol(text, '{'), (true, text.find('{').unwrap()));
    }
}

#[test]
fn parts_are_cut_at_the_first_brackets() {
    assert_eq!(get_expression_data("{{a}}"), data("", "a", ""));
    assert_eq!(get_expression_data("<p>{{city}}</p>"), data("<p>", "city", "</p>"));
    assert_eq!(get_expression_data("a{{b}}c{{d}}e"), data("a", "b", "c{{d}}e"));
    assert_eq!(get_expression_data("h\u{e9} {{n}} \u{e9}"), data("h\u{e9} ", "n", " \u{e9}"));
}

#[test]
fn brackets_are_taken_to_be_two_bytes_long() {
    assert_eq!(get_expression_data("a{bc}de"), data("a", "c", "e"));
    assert_eq!(get_expression_data("{x}y"), data("", "", ""));
    assert_eq!(get_expression_data("ab}cd"), data("", "", "d"));
    assert_eq!(get_expression_data("\u{e9}b}cd"), data("", "b", "d"));
}

#[test]
fn lines_with_parts_are_told_from_lines_without() {
    assert!(has_expression_data("Hi {{name}}, welcome"));
    assert!(has_expression_data("{{a}}"));
    assert!(has_expression_data("ab}cd"));
    assert!(!has_expression_data(""));
    assert!(!has_expression_data("{{a"));
    assert!(!has_expression_data("}}{{"));
    assert!(!has_expression_data("{}}"));
    assert!(!has_expression_data("{{a}"));
    assert!(!has_expression_data("{\u{e9}}}"));
    assert!(!has_expression_data("{{a}\u{e9}"));
    assert!(!has_expression_data("a}cd"));
}

#[test]
fn kinds_of_line() {
    assert_eq!(get_content_type("{% endfor %}"), ContentType::Tag(TagType::ForTag));
    assert_eq!(get_content_type("{% endif %}"), ContentType::Tag(TagType::IfTag));
    assert_eq!(get_content_type("{% for x in xs %}{{x}}"), ContentType::Tag(TagType::ForTag));
    assert_eq!(get_content_type("{% if x %} for y in z"), ContentType::Tag(TagType::ForTag));
    assert_eq!(get_content_type("{% include %}"), ContentType::Unrecognised);
    assert_eq!(
        get_content_type("{% x %}{{y}}"),
        ContentType::TemplateVariable(data("", " x %", "{y}}"))
    );
    assert_eq!(get_content_type(""), ContentType::Literal(String::new()));
    assert_eq!(get_content_type("{% if"), ContentType::Literal("{% if".to_string()));
    assert_eq!(get_content_type("{{name"), ContentType::Literal("{{name".to_string()));
}

#[test]
fn lines_that_can_be_classified() {
    assert!(can_classify("<h1>Hello world</h1>"));
    assert!(can_classify("Hi {{name}}, welcome"));
    assert!(can_classify("{% for a in b %}}}{{"));
    assert!(can_classify("{% if a %}}}{{"));
    assert!(can_classify("}}{"));
    assert!(!can_classify("}}{{"));
    assert!(can_classify("{{}}"));
    assert!(can_classify("{{}"));
    assert!(can_classify("{{a}}\u{e9}"));
    assert!(!can_classify("{{a}\u{e9}}}"));
    assert!(!can_classify("{\u{e9}{{a}}"));
}

#[test]
fn variable_is_replaced_by_its_value() {
    let mut context = Context::new();
    context.insert("name".to_string(), "Bob".to_string());
    context.insert("city".to_string(), "London".to_string());
    let html = generate_html_template_var(data("Hi ", "name", ", welcome"), context.clone());
    assert_eq!(html, "Hi Bob, welcome");
    let html = generate_html_template_var(data("<p>", "city", "</p>"), context.clone());
    assert_eq!(html, "<p>London</p>");
}

#[test]
fn variable_without_a_value_is_left_out() {
    let mut context = Context::new();
    context.insert("name".to_string(), "Bob".to_string());
    let html = generate_html_template_var(data("Hi ", "who", "!"), context);
    assert_eq!(html, "Hi !");
}

#[test]
fn missing_head_and_tail_are_left_out() {
    let mut context = Context::new();
    context.insert("name".to_string(), "Bob".to_string());
    let content = ExpressionData { head: None, variable: "name".to_string(), tail: None };
    assert_eq!(generate_html_template_var(content, context), "Bob");
}

#[test]
fn later_value_replaces_the_earlier_one() {
    let mut context = Context::new();
    let name = "name".to_string();
    assert_eq!(context.get(&name), None);
    context.insert("name".to_string(), "Bob".to_string());
    context.insert("city".to_string(), "London".to_string());
    assert_eq!(context.get(&name), Some(&"Bob".to_string()));
    context.insert("name".to_string(), "Alice".to_string());
    assert_eq!(context.get(&name), Some(&"Alice".to_string()));
    assert_eq!(context.get(&"city".to_string()), Some(&"London".to_string()));
}

/// All texts of up to `longest` characters over `alphabet`.
fn texts(alphabet: &[char], longest: usize) -> Vec<String> {
    let mut all = vec![String::new()];
    let mut last = vec![String::new()];
    for _ in 0..longest {
        let mut next = Vec::new();
        for text in &last {
            for c in alphabet {
                let mut longer = text.clone();
                longer.push(*c);
                next.push(longer);
            }
        }
        all.extend(next.iter().cloned());
        last = next;
    }
    all
}

/// The parts of a line, cut by byte ranges of the standard library; `None`
/// where a range is not one of the text.
fn parts_by_byte_ranges(line: &str) -> Option<ExpressionData> {
    let i = line.find('{').unwrap_or(0);
    let k = line.find('}').unwrap_or(0);
    let head = line.get(0..i)?;
    let variable = line.get(i + 2..k)?;
    let tail = line.get(k + 2..)?;
    Some(data(head, variable, tail))
}

#[test]
fn parts_are_those_of_the_byte_ranges() {
    let alphabet = ['{', '}', 'a', '\u{e9}', '\u{20ac}', '\u{1F600}'];
    let mut with_parts = 0;
    for line in texts(&alphabet, 5) {
        let expected = parts_by_byte_ranges(&line);
        assert_eq!(has_expression_data(&line), expected.is_some(), "{:?}", line);
        if let Some(expected) = expected {
            assert_eq!(get_expression_data(&line), expected, "{:?}", line);
            with_parts += 1;
        }
    }
    assert!(with_parts > 100);
}

#[test]
fn index_is_that_of_std_on_every_text() {
    let alphabet = ['{', 'a', '\u{e9}', '\u{20ac}', '\u{1F600}'];
    for line in texts(&alphabet, 5) {
        for symbol in alphabet {
            let expected = match line.find(symbol) {
                Some(at) => (true, at),
                None => (false, 0),
            };
            assert_eq!(get_index_for_symbol(&line, symbol), expected, "{:?}", line);
        }
    }
}

#[test]
fn kind_of_line_is_decided_by_what_the_line_holds() {
    let alphabet = ['{', '}', '%', 'i', 'f', 'x'];
    for line in texts(&alphabet, 5) {
        let tag = line.contains("{%") && line.contains("%}");
        let for_tag = (line.contains("for") && line.contains("in")) || line.contains("endfor");
        let if_tag = line.contains("if") || line.contains("endif");
        let variable = line.contains("{{") && line.contains("}}");
        let expected = if tag && for_tag {
            Some(ContentType::Tag(TagType::ForTag))
        } else if tag && if_tag {
            Some(ContentType::Tag(TagType::IfTag))
        } else if variable {
            parts_by_byte_ranges(&line).map(ContentType::TemplateVariable)
        } else if !tag && !variable {
            Some(ContentType::Literal(line.clone()))
        } else {
            Some(ContentType::Unrecognised)
        };
        assert_eq!(can_classify(&line), expected.is_some(), "{:?}", line);
        if let Some(expected) = expected {
            assert_eq!(get_content_type(&line), expected, "{:?}", line);
        }
    }
}
