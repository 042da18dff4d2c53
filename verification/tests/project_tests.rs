use etab_projects::error::AppError;
use etab_projects::project::Project;

#[test]
fn test_create_project() {
    let project = Project::new("Test Project".to_string(), "A test project".to_string());
    assert_eq!(project.name, "Test Project");
}

#[test]
fn test_export_typescript_bindings() {
    let decl = Project::ts_declaration();
    assert!(!decl.is_empty(), "Failed to export Project");
    assert!(decl.contains("export type Project"));
}

#[test]
fn lib_test_export_typescript_bindings() {
    let decl = AppError::ts_declaration();
    assert!(!decl.is_empty(), "Failed to export AppError");
    assert!(decl.contains("export type AppError"));
}

#[test]
fn create_project_keeps_fields_verbatim() {
    let p = Project::new("Alpha".to_string(), "First".to_string());
    assert_eq!(p.name, "Alpha");
    assert_eq!(p.description, "First");
    assert_eq!(p.created_at, p.updated_at);
    assert_eq!(p.id.len(), 36);
    let empty = Project::new(String::new(), String::new());
    assert_eq!(empty.name, "");
    assert_eq!(empty.description, "");
}

#[test]
fn created_projects_have_distinct_ids() {
    let mut ids: Vec<String> = Vec::new();
    let mut i: usize = 0;
    while i < 10 {
        let p = Project::new(format!("Project {}", i), String::new());
        assert!(!ids.contains(&p.id));
        ids.push(p.id);
        i += 1;
    }
    assert_eq!(ids.len(), 10);
}
