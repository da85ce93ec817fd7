use top_stats::aggregate::aggregate;
use top_stats::aggregate::parse_sections;
use top_stats::split::split_sections;
use top_stats::MonthlyStat;

fn stat(month: &str, users: u32, lessons: u32, subs: u32, liked: u32) -> MonthlyStat {
    MonthlyStat {
        month: month.to_string(),
        users,
        lessons,
        project_submissions: subs,
        projects_liked: liked,
    }
}

#[test]
fn aggregate_merges_same_key() {
    let input = vec![
        stat("December 2020", 20, 50, 2, 300),
        stat("December 2020", 100, 200, 3, 300),
    ];
    let out = aggregate(input).unwrap();
    assert_eq!(out, vec![stat("December 2020", 120, 250, 5, 600)]);
}

#[test]
fn aggregate_preserves_first_seen_order() {
    // months in order [A, B, A, C, B] come out as [A, B, C], each summed
    let input = vec![
        stat("A", 1, 10, 100, 1000),
        stat("B", 2, 20, 200, 2000),
        stat("A", 3, 30, 300, 3000),
        stat("C", 4, 40, 400, 4000),
        stat("B", 5, 50, 500, 5000),
    ];
    let out = aggregate(input).unwrap();
    assert_eq!(
        out,
        vec![
            stat("A", 4, 40, 400, 4000),
            stat("B", 7, 70, 700, 7000),
            stat("C", 4, 40, 400, 4000),
        ]
    );
}

#[test]
fn aggregate_without_duplicate_keys_is_identity() {
    let input = vec![
        stat("January 2020", 1, 2, 3, 4),
        stat("February 2020", 5, 6, 7, 8),
        stat("March 2020", 9, 10, 11, 12),
    ];
    let out = aggregate(vec![
        stat("January 2020", 1, 2, 3, 4),
        stat("February 2020", 5, 6, 7, 8),
        stat("March 2020", 9, 10, 11, 12),
    ])
    .unwrap();
    assert_eq!(out, input);
}

#[test]
fn aggregate_reports_counter_overflow() {
    let input = vec![
        stat("May 2020", u32::MAX, 0, 0, 0),
        stat("May 2020", 1, 0, 0, 0),
    ];
    assert_eq!(aggregate(input), None);
}

#[test]
fn aggregate_of_empty_run_is_empty() {
    let out = aggregate(Vec::new()).unwrap();
    assert_eq!(out, Vec::<MonthlyStat>::new());
}

#[test]
fn pipeline_splits_parses_and_aggregates() {
    let buf = "June 1st, 2021\n1 users\n2 lessons\n3 subs\n4 likes\n\
               ==============\n\
               July 1st, 2021\n10 users\n20 lessons\n30 subs\n40 likes\n\
               ==============\n\
               June 8th, 2021\n100 users\n200 lessons\n300 subs\n400 likes\n";
    let sections = split_sections(buf);
    let stats = parse_sections(&sections).unwrap();
    let out = aggregate(stats).unwrap();
    assert_eq!(
        out,
        vec![
            stat("June 2021", 101, 202, 303, 404),
            stat("July 2021", 10, 20, 30, 40),
        ]
    );
}

#[test]
fn pipeline_rejects_one_malformed_section() {
    // the second section misses its fourth counter, so the whole run fails
    let buf = "June 1st, 2021\n1 users\n2 lessons\n3 subs\n4 likes\n\
               ==============\n\
               July 1st, 2021\n10 users\n20 lessons\n30 subs\n";
    let sections = split_sections(buf);
    assert!(parse_sections(&sections).is_err());
}
