use score_calculator::parser::{
    header, number, number_list, number_list_line, parse_input, parse_input_body, parse_output,
    positive_number, Body, Header, Input, Output, Rule,
};

#[test]
fn test_number_1() {
    let r = number("0");
    assert_eq!(r, Ok(("", "0")))
}

#[test]
fn test_number_2() {
    let r = number("42");
    assert_eq!(r, Ok(("", "42")))
}

#[test]
fn test_number_ko() {
    let r = number("not a number");
    assert!(r.is_err())
}

#[test]
fn test_positive_number() {
    let r = positive_number("42");
    assert_eq!(r, Ok(("", 42)))
}

#[test]
fn test_header() {
    let h = header("42 43 44 45");
    assert_eq!(
        h,
        Ok((
            "",
            Header {
                units: 42,
                towers: 43,
                waves: 44,
                budget: 45
            }
        ))
    )
}

#[test]
fn test_number_list() {
    let nbl = number_list("42 43 44");
    assert_eq!(nbl, Ok(("", vec![42, 43, 44])))
}

#[test]
fn test_number_list_line() {
    let nbl = number_list_line("42 43 44\n");
    assert_eq!(nbl, Ok(("", vec![42, 43, 44])))
}

#[test]
fn test_parse_input_body() {
    let header = Header {
        units: 2,
        towers: 2,
        waves: 3,
        budget: 4,
    };
    let text = "\
        0 1\n\
        1 0\n\
        2 2\n\
        1 2 3\n\
        1 1\n\
        2 2\n\
        3 3";
    let body = parse_input_body(text, &header);
    assert_eq!(
        body,
        Ok((
            "",
            Body {
                hits: vec![vec![0, 1], vec![1, 0]],
                waves: vec![vec![1, 1], vec![2, 2], vec![3, 3]],
                bonus: vec![1, 2, 3],
                costs: vec![2, 2]
            }
        ))
    )
}

#[test]
fn test_parse_input_2() {
    let text = "\
        2 2 3 4\n\
        0 1\n\
        1 0\n\
        2 2\n\
        1 2 3\n\
        1 1\n\
        2 2\n\
        3 3";
    let expected_header = Header {
        units: 2,
        towers: 2,
        waves: 3,
        budget: 4,
    };
    let expected_body = Body {
        hits: vec![vec![0, 1], vec![1, 0]],
        waves: vec![vec![1, 1], vec![2, 2], vec![3, 3]],
        bonus: vec![1, 2, 3],
        costs: vec![2, 2],
    };
    let body = parse_input(text);
    assert_eq!(
        body,
        Ok((
            "",
            Input {
                header: expected_header,
                body: expected_body
            }
        ))
    )
}

#[test]
fn test_parse_input_1() {
    let text = "\
        1 1 1 2\n\
        1\n\
        1\n\
        3\n\
        1";
    let expected_header = Header {
        units: 1,
        towers: 1,
        waves: 1,
        budget: 2,
    };
    let expected_body = Body {
        hits: vec![vec![1]],
        waves: vec![vec![1]],
        bonus: vec![3],
        costs: vec![1],
    };
    let body = parse_input(text);
    assert_eq!(
        body,
        Ok((
            "",
            Input {
                header: expected_header,
                body: expected_body
            }
        ))
    )
}

#[test]
fn test_parse_output_with_newline() {
    let text = "1\n";
    let output = parse_output(&text);
    assert_eq!(
        output,
        Ok((
            "\n",
            Output {
                waves: vec![vec![1]]
            }
        ))
    )
}

#[test]
fn test_parse_output_without_newline() {
    let text = "1";
    let output = parse_output(&text);
    assert_eq!(
        output,
        Ok((
            "",
            Output {
                waves: vec![vec![1]]
            }
        ))
    )
}

#[test]
fn test_number_maximal_munch() {
    let r = number("12ab");
    assert_eq!(r, Ok(("ab", "12")))
}

#[test]
fn test_positive_number_overflow() {
    let r = positive_number("340282366920938463463374607431768211456");
    assert!(r.is_err())
}

#[test]
fn test_header_too_few_fields() {
    let h = header("1 2 3");
    assert!(h.is_err())
}

#[test]
fn test_parse_input_wrong_hit_row_width() {
    // header declares 2 unit types and 1 tower type, but the first hit
    // row has two entries: a parse error, not a validation error
    let r = parse_input("2 1 1 5\n1 1\n1\n1\n1\n1");
    assert!(r.is_err())
}

#[test]
fn test_parse_input_error_context() {
    match parse_input("not a document") {
        Err(e) => {
            assert_eq!(e.contexts[0], Rule::Header);
            assert_eq!(e.remaining, 14)
        }
        Ok(_) => panic!("expected a parse error"),
    }
}

#[test]
fn test_parse_output_empty_document() {
    let r = parse_output("");
    assert!(r.is_err())
}

#[test]
fn test_parse_output_two_lines() {
    let output = parse_output("1\n1");
    assert_eq!(
        output,
        Ok((
            "",
            Output {
                waves: vec![vec![1], vec![1]]
            }
        ))
    )
}
