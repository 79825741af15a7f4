use sashiko::nntp::{
    ArticleLine, NntpError, article_command, article_line, check_article_status, check_welcome,
    group_command, parse_group_response,
};

#[test]
fn welcome_codes() {
    assert!(check_welcome("200 news ready").is_ok());
    assert!(check_welcome("201 no posting").is_ok());
    let e = check_welcome("400 go away").unwrap_err();
    assert_eq!(e.message(), "Unexpected welcome message: 400 go away");
}

#[test]
fn group_reply_parsing() {
    assert_eq!(group_command("misc.test"), "GROUP misc.test");
    let g = parse_group_response("misc.test", "211 1234 3000234 3002322 misc.test").unwrap();
    assert_eq!((g.number, g.low, g.high, g.name.as_str()), (1234, 3000234, 3002322, "misc.test"));
    let g = parse_group_response("g", "211  x\t+7 99999999999999999999 g extra").unwrap();
    assert_eq!((g.number, g.low, g.high, g.name.as_str()), (0, 7, 0, "g"));
}

#[test]
fn group_reply_errors() {
    match parse_group_response("g", "411 no such group") {
        Err(e @ NntpError::GroupSelectFailed { .. }) => {
            assert_eq!(e.message(), "Failed to select group g: 411 no such group")
        }
        other => panic!("unexpected: {:?}", other),
    }
    match parse_group_response("g", "211 1 2 3") {
        Err(e @ NntpError::InvalidGroupResponse { .. }) => {
            assert_eq!(e.message(), "Invalid GROUP response format: 211 1 2 3")
        }
        other => panic!("unexpected: {:?}", other),
    }
}

#[test]
fn article_lines_are_unstuffed() {
    assert_eq!(article_command("<a@b>"), "ARTICLE <a@b>");
    assert!(check_article_status("<a@b>", "220 0 <a@b>").is_ok());
    assert_eq!(
        check_article_status("<a@b>", "430 no such article").unwrap_err().message(),
        "Failed to retrieve article <a@b>: 430 no such article"
    );
    assert!(matches!(article_line("."), ArticleLine::End));
    match article_line("..hidden") {
        ArticleLine::Text(t) => assert_eq!(t, ".hidden"),
        ArticleLine::End => panic!("end"),
    }
    match article_line(".x") {
        ArticleLine::Text(t) => assert_eq!(t, ".x"),
        ArticleLine::End => panic!("end"),
    }
    match article_line("") {
        ArticleLine::Text(t) => assert_eq!(t, ""),
        ArticleLine::End => panic!("end"),
    }
}
