use codecrafters_shell::jobs::{Job, Jobs, Status};

#[test]
fn job_status_string_is_padded() {
    let j = Job::new(7, 1, "sleep".to_string(), &vec!["10".to_string()]);
    let st = j.status_string();
    assert_eq!(st.len(), 24);
    assert_eq!(st, format!("Running{}", " ".repeat(17)));
    assert_eq!(Status::Done.string(), "Done");
    assert_eq!(Status::Running.string(), "Running");
}

#[test]
fn jobs_listing_marks_last_two() {
    let mut jobs = Jobs::new();
    assert!(jobs.get_all_jobs().is_empty());
    assert_eq!(jobs.get_next_job_number(), 1);
    jobs.add_job(Job::new(100, 1, "sleep".to_string(), &vec!["5".to_string()]));
    assert_eq!(jobs.get_next_job_number(), 2);
    let one = jobs.get_all_jobs();
    assert_eq!(one, vec![format!("[1]+  Running{}sleep 5", " ".repeat(17))]);
    jobs.add_job(Job::new(101, 2, "cat".to_string(), &vec![]));
    jobs.add_job(Job::new(102, 3, "yes".to_string(), &vec!["a".to_string(), "b".to_string()]));
    let lines = jobs.get_all_jobs();
    assert_eq!(lines.len(), 3);
    assert!(lines[2].contains("]+  "));
    assert!(lines[1].contains("]-  "));
    assert!(!lines[0].contains("]+") && !lines[0].contains("]-"));
    let mut sorted = lines.iter().map(|l| l.replace("+", "").replace("-", "")).collect::<Vec<_>>();
    sorted.sort();
    let pad = " ".repeat(17);
    assert_eq!(
        sorted,
        vec![
            format!("[1]  Running{}sleep 5", pad),
            format!("[2]  Running{}cat ", pad),
            format!("[3]  Running{}yes a b", pad)
        ]
    );
}
