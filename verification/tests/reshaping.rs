use top_stats::series::month_labels;
use top_stats::series::series_lessons;
use top_stats::series::series_project_submissions;
use top_stats::series::series_projects_liked;
use top_stats::series::series_users;
use top_stats::MonthlyStat;

fn stat(month: &str, users: u32, lessons: u32, subs: u32, liked: u32) -> MonthlyStat {
    MonthlyStat {
        month: month.to_string(),
        users,
        lessons,
        project_submissions: subs,
        projects_liked: liked,
    }
}

#[test]
fn labels_follow_record_order() {
    let stats = vec![stat("A", 1, 2, 3, 4), stat("B", 5, 6, 7, 8)];
    assert_eq!(month_labels(&stats), vec!["A".to_string(), "B".to_string()]);
}

#[test]
fn each_series_pairs_labels_with_its_own_counter() {
    let stats = vec![stat("A", 1, 2, 3, 4), stat("B", 5, 6, 7, 8)];
    assert_eq!(
        series_users(&stats),
        vec![("A".to_string(), 1), ("B".to_string(), 5)]
    );
    assert_eq!(
        series_lessons(&stats),
        vec![("A".to_string(), 2), ("B".to_string(), 6)]
    );
    assert_eq!(
        series_project_submissions(&stats),
        vec![("A".to_string(), 3), ("B".to_string(), 7)]
    );
    assert_eq!(
        series_projects_liked(&stats),
        vec![("A".to_string(), 4), ("B".to_string(), 8)]
    );
}
