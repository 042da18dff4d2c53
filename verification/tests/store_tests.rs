use etab_projects::codec::encode_project;
use etab_projects::error::AppError;
use etab_projects::greet;
use etab_projects::project::Project;
use etab_projects::store::{list_projects_from_contents, load_project_from_content};

#[test]
fn load_missing_file_is_empty_not_error() {
    let r = load_project_from_content(None);
    assert!(matches!(r, Ok(None)));
}

#[test]
fn load_malformed_content_is_database_error() {
    let r = load_project_from_content(Some(b"garbage".to_vec()));
    match r {
        Err(AppError::Database(m)) => {
            assert_eq!(m, "Failed to parse project: not a canonical project record")
        }
        _ => panic!("a malformed record must give a database error"),
    }
}

#[test]
fn load_canonical_content_returns_the_project() {
    let p = Project::new("Alpha".to_string(), "First".to_string());
    match load_project_from_content(Some(encode_project(&p))) {
        Ok(Some(q)) => {
            assert_eq!(q.id, p.id);
            assert_eq!(q.name, p.name);
            assert_eq!(q.description, p.description);
        }
        _ => panic!("a saved record must load back"),
    }
}

#[test]
fn list_empty_root_is_empty() {
    let listed = list_projects_from_contents(&Vec::new());
    assert!(listed.is_empty());
}

#[test]
fn list_returns_saved_projects_and_skips_malformed() {
    let a = Project::new("Alpha".to_string(), "First".to_string());
    let b = Project::new("Beta".to_string(), "Second".to_string());
    let c = Project::new("Gamma".to_string(), "Third".to_string());
    let contents = vec![
        Some(encode_project(&a)),
        Some(b"malformed project.json".to_vec()),
        Some(encode_project(&b)),
        None,
        Some(encode_project(&c)),
    ];
    let listed = list_projects_from_contents(&contents);
    assert_eq!(listed.len(), 3);
    assert_eq!(listed[0].name, "Alpha");
    assert_eq!(listed[1].name, "Beta");
    assert_eq!(listed[2].name, "Gamma");
}

#[test]
fn scenario_two_creates_then_list() {
    let a = Project::new("Alpha".to_string(), "First".to_string());
    let b = Project::new("Beta".to_string(), "Second".to_string());
    let contents = vec![Some(encode_project(&a)), Some(encode_project(&b))];
    let listed = list_projects_from_contents(&contents);
    assert_eq!(listed.len(), 2);
    let names: Vec<&str> = listed.iter().map(|p| p.name.as_str()).collect();
    assert!(names.contains(&"Alpha"));
    assert!(names.contains(&"Beta"));
    assert_ne!(listed[0].id, listed[1].id);
    for p in &listed {
        assert_eq!(p.created_at, p.updated_at);
    }
}

#[test]
fn ten_distinct_creates_list_as_ten() {
    let mut contents = Vec::new();
    let mut ids: Vec<String> = Vec::new();
    let mut i: usize = 0;
    while i < 10 {
        let p = Project::new(format!("Project {}", i), "d".to_string());
        ids.push(p.id.clone());
        contents.push(Some(encode_project(&p)));
        i += 1;
    }
    let listed = list_projects_from_contents(&contents);
    assert_eq!(listed.len(), 10);
    let mut listed_ids: Vec<String> = listed.iter().map(|p| p.id.clone()).collect();
    listed_ids.sort();
    listed_ids.dedup();
    assert_eq!(listed_ids.len(), 10);
    let mut saved_ids = ids.clone();
    saved_ids.sort();
    assert_eq!(listed_ids, saved_ids);
}

#[test]
fn greet_formats_the_fixed_greeting() {
    assert_eq!(greet("World"), "Hello, World! Welcome to ETAB Extension.");
    assert_eq!(greet(""), "Hello, ! Welcome to ETAB Extension.");
}

#[test]
fn error_display_strings_name_each_kind() {
    assert_eq!(
        AppError::Database("x".to_string()).display_string(),
        "Database error: x"
    );
    assert_eq!(
        AppError::Validation("y".to_string()).display_string(),
        "Validation error: y"
    );
    assert_eq!(
        AppError::NotFound("z".to_string()).display_string(),
        "Not found: z"
    );
    assert_eq!(
        AppError::Internal("w".to_string()).display_string(),
        "Internal error: w"
    );
    assert_eq!(
        AppError::Etabs("v".to_string()).display_string(),
        "ETABS error: v"
    );
}
