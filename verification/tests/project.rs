use familiar::lists::free_name;
use familiar::project::{
    load_workflow, opened, order_projects, order_threads, order_workflows,
    recent_conversations, safe_slug, slug_of, slugify, temporary_path, with_default, Conversation,
    Project, Store, StoreError, ThreadSummary, ToolSet, Turn, DEFAULT_NAME, DEFAULT_PROJECT,
    LONGEST_SLUG,
};
use familiar::time::Stamp;

fn at(text: &str) -> Stamp {
    let when = chrono::DateTime::parse_from_rfc3339(text).expect("a date");
    Stamp { seconds: when.timestamp(), nanos: when.timestamp_subsec_nanos() }
}

fn store() -> Store {
    Store::new("/home/someone/familiar")
}

fn summary(id: &str, title: &str, updated: &str) -> ThreadSummary {
    ThreadSummary { id: id.into(), title: title.into(), updated: at(updated), turns: 1 }
}

/// A chat that was just saved.
fn chat(user: &str, answer: &str, updated: Stamp) -> Conversation {
    Conversation {
        updated,
        turns: Some(vec![Turn {
            user: user.into(),
            thinking: "The user has never mentioned Cogsworth.".into(),
            answer: answer.into(),
        }]),
    }
}

/// The moment so many days after another.
fn days_after(when: Stamp, days: i64) -> Stamp {
    Stamp { seconds: when.seconds + days * 86_400, nanos: when.nanos }
}

#[test]
fn the_default_project_sorts_first_and_the_rest_by_name() {
    let store = store();
    let projects = with_default(vec![
        store.create_project("Zettelkasten", &vec![]).expect("create"),
        store.create_project("Planning", &vec![]).expect("create"),
        Project::default_project(),
    ]);
    let names: Vec<&str> = order_projects(&projects)
        .into_iter()
        .map(|index| projects[index].name.as_str())
        .collect();
    assert_eq!(names, [DEFAULT_NAME, "Planning", "Zettelkasten"]);
}

#[test]
fn two_projects_of_the_same_name_get_their_own_directories() {
    let store = store();
    let first = store.create_project("Planning", &vec![]).expect("create");
    let second = store.create_project("Planning", &vec![first.slug.clone()]).expect("create");
    assert_eq!(first.slug, "planning");
    assert_eq!(second.slug, "planning-2");
    assert_eq!(second.name, "Planning");
}

#[test]
fn a_slug_cannot_climb_out_of_the_data_directory() {
    let store = store();
    assert!(matches!(
        store.project_directory("../../etc"),
        Err(StoreError::BadName(_))
    ));
    assert!(matches!(
        store.thread_path("../secrets", "x"),
        Err(StoreError::BadName(_))
    ));
    assert!(matches!(
        store.delete_project("."),
        Err(StoreError::BadName(_))
    ));
}

#[test]
fn the_default_project_cannot_be_deleted() {
    let store = store();
    assert!(matches!(
        store.delete_project(DEFAULT_PROJECT),
        Err(StoreError::Protected(_))
    ));
    assert!(store.project_directory(DEFAULT_PROJECT).is_ok());
}

#[test]
fn threads_are_listed_newest_first() {
    let threads = vec![
        summary("1", "first question", "2026-07-30T09:00:00Z"),
        summary("2", "second question", "2026-07-31T09:00:00Z"),
    ];
    let titles: Vec<&str> = order_threads(&threads)
        .into_iter()
        .map(|index| threads[index].title.as_str())
        .collect();
    assert_eq!(titles, ["second question", "first question"]);
}

#[test]
fn an_empty_thread_is_never_written() {
    assert_eq!(store().save_thread(DEFAULT_PROJECT, "2026-07-31", true), Ok(None));
}

#[test]
fn a_workflow_with_no_usable_name_is_refused_rather_than_written_somewhere_odd() {
    assert!(store().save_workflow(DEFAULT_PROJECT, "!!!").is_err());
}

#[test]
fn two_new_threads_never_become_one_file() {
    // Ids are timestamps, and two "New Chat" clicks can land in the same
    // millisecond.
    let store = store();
    let clock = "2026-07-31T14-02-11.000";
    let first = store.new_thread(DEFAULT_PROJECT, clock, &vec![]).expect("new thread");
    let second = store
        .new_thread(DEFAULT_PROJECT, clock, &vec![first.clone()])
        .expect("new thread");
    assert_ne!(first, second);
    let mut files = vec![
        store.save_thread(DEFAULT_PROJECT, &first, false).expect("save"),
        store.save_thread(DEFAULT_PROJECT, &second, false).expect("save"),
    ];
    files.dedup();
    assert_eq!(files.len(), 2);
}

#[test]
fn recent_conversations_are_what_was_said_and_not_what_was_thought() {
    // The thinking is behind a disclosure and is not a record of what came
    // up, so a turn here is the two things that were said.
    let now = at("2026-08-03T12:00:00Z");
    let chats = vec![vec![chat("How is the Kubernetes cluster doing?", "It looks healthy.", now)]];
    let said = recent_conversations(&chats, days_after(now, -30), 50);
    assert_eq!(said.len(), 1, "{said:?}");
    assert!(said[0].contains("Kubernetes"), "{said:?}");
    assert!(said[0].contains("looks healthy"), "{said:?}");
    assert!(!said[0].contains("Cogsworth"), "{said:?}");
}

#[test]
fn a_conversation_older_than_the_window_is_not_evidence_about_this_month() {
    let now = at("2026-08-03T12:00:00Z");
    let chats = vec![vec![chat("How is the Kubernetes cluster doing?", "It looks healthy.", now)]];
    assert!(recent_conversations(&chats, days_after(now, 1), 50).is_empty());
}

#[test]
fn names_slugify_to_something_a_filesystem_can_hold() {
    assert_eq!(slugify("Planning"), "planning");
    assert_eq!(slugify("  Q3 / roadmap!  "), "q3-roadmap");
    assert_eq!(slugify("Ideas — 2026"), "ideas-2026");
    assert_eq!(slugify("…"), "");
}

#[test]
fn a_name_that_slugifies_to_nothing_is_refused() {
    assert!(matches!(
        store().create_project("…", &vec![]),
        Err(StoreError::BadName(_))
    ));
}

#[test]
fn there_is_always_a_default_project() {
    let projects = with_default(vec![]);
    assert_eq!(projects.len(), 1);
    assert!(projects[0].is_default());
    assert_eq!(projects[0].name, DEFAULT_NAME);
    assert_eq!(with_default(projects.clone()), projects);
}

#[test]
fn a_project_whose_settings_were_lost_still_opens() {
    let project = opened("planning", None);
    assert_eq!(project.slug, "planning");
    assert!(!project.is_default());
    let mut kept = Project::named("Planning");
    kept.instructions = Some("You help plan the week.".into());
    kept.slug = "somewhere-else".into();
    let read = opened("planning", Some(kept));
    assert_eq!(read.slug, "planning");
    assert_eq!(read.instructions.as_deref(), Some("You help plan the week."));
    assert_eq!(opened(DEFAULT_PROJECT, None).name, DEFAULT_NAME);
    assert_eq!(store().load_project("planning", None), Ok(opened("planning", None)));
    assert_eq!(
        store().load_project("../planning", None),
        Err(StoreError::BadName("../planning".to_string()))
    );
    assert_eq!(
        store().new_thread("..", "1", &vec![]),
        Err(StoreError::BadName("..".to_string()))
    );
    assert_eq!(
        store().save_thread("..", "1", false),
        Err(StoreError::BadName("..".to_string()))
    );
}

#[test]
fn a_workflow_is_saved_by_its_goal_and_found_by_it() {
    let store = store();
    let (name, path) = store
        .save_workflow(DEFAULT_PROJECT, "Quarterly comparison")
        .expect("save workflow");
    assert_eq!(name, "quarterly-comparison");
    assert_eq!(
        path,
        "/home/someone/familiar/projects/default/workflows/quarterly-comparison.md"
    );
    assert_eq!(
        store.delete_workflow(DEFAULT_PROJECT, "Quarterly comparison"),
        Ok(path)
    );
    let mut filed = vec![name.clone()];
    let found = load_workflow(&filed, "Quarterly comparison").expect("found");
    assert_eq!(filed[found], "quarterly-comparison");
    assert_eq!(filed.len(), 1);
    filed.remove(found);
    assert!(filed.is_empty());
    assert_eq!(load_workflow(&filed, "Quarterly comparison"), None);
}

#[test]
fn a_workflow_is_found_among_others_by_goal_or_by_name() {
    let filed = vec!["other".to_string(), "quarterly-comparison".to_string()];
    assert_eq!(load_workflow(&filed, "Quarterly comparison"), Some(1));
    assert_eq!(load_workflow(&filed, "quarterly-comparison"), Some(1));
    assert_eq!(load_workflow(&filed, "nothing"), None);
    assert_eq!(order_workflows(&vec!["b".to_string(), "a".to_string()]), vec![1, 0]);
}

#[test]
fn everything_is_kept_under_the_root() {
    let store = store();
    assert_eq!(store.root(), "/home/someone/familiar");
    assert_eq!(store.jobs_path(), "/home/someone/familiar/jobs.json");
    assert_eq!(
        store.project_directory("planning"),
        Ok("/home/someone/familiar/projects/planning".to_string())
    );
    assert_eq!(
        store.thread_path("planning", "7"),
        Ok("/home/someone/familiar/projects/planning/threads/7.json".to_string())
    );
    assert_eq!(store.checked("planning"), Ok("planning".to_string()));
    assert_eq!(
        store.delete_project("planning"),
        Ok("/home/someone/familiar/projects/planning".to_string())
    );
    assert_eq!(
        store.migrations()[1],
        (
            "/home/someone/familiar/projects/main-line".to_string(),
            "/home/someone/familiar/projects/default".to_string()
        )
    );
}

#[test]
fn a_project_whose_name_is_too_long_for_a_directory_is_refused() {
    let long = "a".repeat(LONGEST_SLUG + 1);
    assert_eq!(
        store().create_project(&long, &vec![]),
        Err(StoreError::BadName(long.clone()))
    );
}

#[test]
fn a_free_name_is_the_first_one_nothing_has() {
    assert_eq!(free_name("a", &vec![]), "a");
    let taken: Vec<String> = ["a", "a-2", "a-4"].iter().map(|s| s.to_string()).collect();
    assert_eq!(free_name("a", &taken), "a-3");
}

#[test]
fn a_slug_is_already_one() {
    let slug = slugify("An Öld name — with  gaps, and ");
    assert_eq!(slug, "an-ld-name-with-gaps-and");
    assert_eq!(slugify(&slug), slug);
    assert_eq!(safe_slug(&slug), Some(slug));
    let long = "a".repeat(LONGEST_SLUG);
    assert_eq!(safe_slug(&long), Some(long.clone()));
    assert_eq!(safe_slug(&format!("{long}a")), None);
    assert_eq!(slug_of("q3 / roadmap!"), "q3-roadmap");
    assert_eq!(safe_slug(".."), None);
    assert_eq!(safe_slug("a/b"), None);
    assert_eq!(safe_slug(""), None);
}

#[test]
fn every_store_error_says_what_it_is_about() {
    let shown = [
        StoreError::Io { path: "/a".into(), source: "denied".into() }.describe(),
        StoreError::Unreadable { path: "/b".into(), detail: "not json".into() }.describe(),
        StoreError::Thread("broken".into()).describe(),
        StoreError::BadName("..".into()).describe(),
        StoreError::Protected("default".into()).describe(),
    ];
    assert!(shown[0].contains("/a") && shown[0].contains("denied"), "{}", shown[0]);
    assert!(shown[1].contains("/b") && shown[1].contains("not json"), "{}", shown[1]);
    assert!(shown[2].contains("broken"), "{}", shown[2]);
    assert!(shown[3].contains(".."), "{}", shown[3]);
    assert!(shown[4].contains("default"), "{}", shown[4]);
}

#[test]
fn a_file_is_written_beside_itself_first() {
    assert_eq!(temporary_path("/a/project.json"), "/a/project.json.tmp");
    assert!(ToolSet::default().memory);
}

#[test]
fn only_so_many_conversations_are_read() {
    let now = at("2026-08-03T12:00:00Z");
    let chats = vec![
        vec![chat("one", "1", now), Conversation { updated: now, turns: None }],
        vec![chat("two", "2", days_after(now, -1)), chat("three", "3", now)],
    ];
    assert_eq!(recent_conversations(&chats, days_after(now, -30), 2).len(), 2);
    assert_eq!(recent_conversations(&chats, days_after(now, -30), 50).len(), 3);
    // The chats of a project come newest first, so the older one ends its list.
    assert_eq!(recent_conversations(&chats, now, 50).len(), 1);
    assert!(recent_conversations(&chats, days_after(now, -30), 0).is_empty());
}
