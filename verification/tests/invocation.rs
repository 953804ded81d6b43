use f_tree::invocation::{buf, export_request, sim_request, Command, ExportRequest, SimRequest};

#[test]
fn buf_keeps_an_absolute_path() {
    assert_eq!(buf("/etc/trees", "/home/robot".to_string()), "/etc/trees");
    assert_eq!(buf("/", "/home/robot".to_string()), "/");
}

#[test]
fn buf_puts_a_relative_path_below_the_folder() {
    assert_eq!(buf("trees/main.tree", "/home/robot".to_string()), "/home/robot/trees/main.tree");
    assert_eq!(buf("main.tree", "/home/robot/".to_string()), "/home/robot/main.tree");
    assert_eq!(buf("main.tree", "/".to_string()), "/main.tree");
    assert_eq!(buf("main.tree", String::new()), "main.tree");
    assert_eq!(buf("", "/home/robot".to_string()), "/home/robot/");
    assert_eq!(buf("../x", "rel".to_string()), "rel/../x");
}

#[test]
fn commands_are_selected_by_name() {
    assert_eq!(Command::parse("sim"), Some(Command::Sim));
    assert_eq!(Command::parse("vis"), Some(Command::Vis));
    assert_eq!(Command::parse("nav2"), Some(Command::Nav2));
    assert_eq!(Command::parse("print-std-actions"), Some(Command::PrintStdActions));
    assert_eq!(Command::parse("print-ros-nav2"), Some(Command::PrintRosNav2));
    assert_eq!(Command::parse("simulate"), None);
    assert_eq!(Command::parse(""), None);
    assert_eq!(Command::parse("Sim"), None);
}

#[test]
fn sim_request_fills_in_the_defaults() {
    let request = sim_request("/work".to_string(), None, None, None, None);
    assert_eq!(
        request,
        SimRequest {
            root: "/work".to_string(),
            main_file: "main.tree".to_string(),
            main_tree: None,
            profile: None
        }
    );
}

#[test]
fn sim_request_resolves_root_and_profile() {
    let request = sim_request(
        "/work".to_string(),
        Some("project".to_string()),
        Some("patrol.tree".to_string()),
        Some("patrol".to_string()),
        Some("sim/fast.yaml".to_string()),
    );
    assert_eq!(
        request,
        SimRequest {
            root: "/work/project".to_string(),
            main_file: "patrol.tree".to_string(),
            main_tree: Some("patrol".to_string()),
            profile: Some("/work/project/sim/fast.yaml".to_string())
        }
    );
    let request = sim_request(
        "/work".to_string(),
        Some("/srv/project".to_string()),
        None,
        None,
        Some("/etc/profile.yaml".to_string()),
    );
    assert_eq!(request.root, "/srv/project");
    assert_eq!(request.profile, Some("/etc/profile.yaml".to_string()));
}

#[test]
fn export_request_resolves_the_root_only() {
    let request = export_request(
        "/work".to_string(),
        Some("project".to_string()),
        Some("patrol.tree".to_string()),
        None,
        Some("out.svg".to_string()),
    );
    assert_eq!(
        request,
        ExportRequest {
            root: "/work/project".to_string(),
            main_file: Some("patrol.tree".to_string()),
            main_tree: None,
            output: Some("out.svg".to_string())
        }
    );
    let request = export_request("/work".to_string(), None, None, None, None);
    assert_eq!(request.root, "/work");
    assert_eq!(request.output, None);
}
