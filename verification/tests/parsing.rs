use top_stats::monthly_stat::ParseError;
use top_stats::MonthlyStat;

#[test]
fn parse_stat() {
    let expected = MonthlyStat {
        month: "December 2022".to_string(),
        users: 400,
        lessons: 200,
        project_submissions: 1000,
        projects_liked: 202020,
    };

    let str = r#"December 1st, 2022
400 users signed up
200 lessons completed
1000 project submissions added
202020 projects liked"#;

    let result = MonthlyStat::parse(str).unwrap();
    assert_eq!(expected, result);
}

#[test]
fn parse_another_stat() {
    let expected = MonthlyStat {
        month: "June 1999".to_string(),
        users: 2020,
        lessons: 1010,
        project_submissions: 2,
        projects_liked: 300,
    };

    let str = r#"June 22th, 1999
2020 users signed up
1010 lessons completed
2 project submissions added
300 projects liked"#;

    let result = MonthlyStat::parse(str).unwrap();
    assert_eq!(expected, result);
}

#[test]
fn parse_with_new_lines() {
    let expected = MonthlyStat {
        month: "June 1999".to_string(),
        users: 2020,
        lessons: 1010,
        project_submissions: 2,
        projects_liked: 300,
    };
    let str = "\r\nJune 22th, 1999\r\n2020 users signed up\r\n1010 lessons completed\r\n2 project submissions added\r\n300 projects liked\r\n";

    let result = MonthlyStat::parse(str).unwrap();
    assert_eq!(expected, result);
}

#[test]
fn parse_with_blank_line_padding() {
    let plain = MonthlyStat::parse("May 2nd, 2021\n7 users\n8 lessons\n9 subs\n10 likes").unwrap();
    let padded =
        MonthlyStat::parse("\n\nMay 2nd, 2021\n7 users\n8 lessons\n9 subs\n10 likes\n\n").unwrap();
    assert_eq!(plain, padded);
}

#[test]
fn parse_rejects_missing_fourth_counter() {
    let str = r#"December 1st, 2022
400 users signed up
200 lessons completed
1000 project submissions added"#;

    assert_eq!(MonthlyStat::parse(str), Err(ParseError::MalformedSection));
}

#[test]
fn parse_rejects_short_date_line() {
    let str = r#"December 2022
400 users signed up
200 lessons completed
1000 project submissions added
202020 projects liked"#;

    assert_eq!(MonthlyStat::parse(str), Err(ParseError::MalformedSection));
}

#[test]
fn parse_rejects_empty_section() {
    assert_eq!(MonthlyStat::parse(""), Err(ParseError::MalformedSection));
    assert_eq!(MonthlyStat::parse("\n\n\n"), Err(ParseError::MalformedSection));
}

#[test]
fn parse_skips_lines_without_leading_integer() {
    let str = "March 3rd, 2020\nnote to self\n1 users\n2 lessons\nanother note\n3 subs\n4 likes";
    let result = MonthlyStat::parse(str).unwrap();
    assert_eq!(result.users, 1);
    assert_eq!(result.lessons, 2);
    assert_eq!(result.project_submissions, 3);
    assert_eq!(result.projects_liked, 4);
    assert_eq!(result.month, "March 2020");
}

#[test]
fn parse_accepts_leading_plus_sign() {
    let str = "March 3rd, 2020\n+1 users\n2 lessons\n3 subs\n4 likes";
    let result = MonthlyStat::parse(str).unwrap();
    assert_eq!(result.users, 1);
}

#[test]
fn parse_skips_oversized_numbers() {
    // 5000000000 does not fit a u32, so that line contributes no number
    // and only three remain.
    let str = "March 3rd, 2020\n5000000000 users\n2 lessons\n3 subs\n4 likes";
    assert_eq!(MonthlyStat::parse(str), Err(ParseError::MalformedSection));
}

#[test]
fn parse_takes_first_and_third_date_tokens() {
    let str = "July the 4th, 1776\n1 a\n2 b\n3 c\n4 d";
    let result = MonthlyStat::parse(str).unwrap();
    assert_eq!(result.month, "July 4th,");
}

#[test]
fn adding_another_month() {
    let first = MonthlyStat {
        month: "December 2020".to_string(),
        users: 20,
        lessons: 50,
        project_submissions: 2,
        projects_liked: 300,
    };

    let second = MonthlyStat {
        month: "June 1999".to_string(),
        users: 100,
        lessons: 200,
        project_submissions: 3,
        projects_liked: 300,
    };

    let expect = MonthlyStat {
        month: "December 2020".to_string(),
        users: 120,
        lessons: 250,
        project_submissions: 5,
        projects_liked: 600,
    };

    assert_eq!(expect, first + second);
}
