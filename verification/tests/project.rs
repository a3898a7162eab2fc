use konnect_core::project::{
    find_kicad_library_dirs, find_sheet_path, kicad_config_dir, kicad_env_suffix,
    library_dir_variables, project_name, project_name_for, sheet_instance_context, DirCandidate,
    ProjectView, ServerConfig, SheetFile, SheetRef,
};

fn sheet(uuid: &str, is_target: bool, child: Option<usize>) -> SheetRef {
    SheetRef { uuid: uuid.to_string(), is_target, child }
}

fn board(root_uuid: Option<&str>, root_is_sheet: bool) -> Option<ProjectView> {
    Some(ProjectView {
        stem: Some("board".to_string()),
        root_is_sheet,
        root_uuid: root_uuid.map(|u| u.to_string()),
        files: vec![
            SheetFile { sheets: vec![sheet("SHEETUUID", true, Some(1))] },
            SheetFile { sheets: vec![] },
        ],
        root: 0,
    })
}

#[test]
fn a_child_sheet_keys_instances_to_the_root_not_itself() {
    let context = sheet_instance_context("amp", "CHILDUUID", &board(Some("ROOTUUID"), false));
    assert_eq!(
        context.project_name, "board",
        "the project name is the .kicad_pro stem, not the child file stem"
    );
    assert_eq!(
        context.instance_path, "/ROOTUUID/SHEETUUID",
        "the path must run root -> sheet"
    );
    assert!(context.is_child_sheet);
}

#[test]
fn a_standalone_sheet_still_keys_instances_to_itself() {
    let name = project_name_for("/tmp/loose.kicad_sch");
    let context = sheet_instance_context(&name, "own", &None);
    assert_eq!(context.instance_path, "/own", "a loose sheet is its own root");
    assert_eq!(context.project_name, "loose");
    assert!(!context.is_child_sheet);
}

#[test]
fn a_sheet_the_root_does_not_reach_stands_alone() {
    for project in [board(None, false), board(Some("ROOTUUID"), true)] {
        let context = sheet_instance_context("amp", "CHILDUUID", &project);
        assert_eq!(context.instance_path, "/CHILDUUID");
        assert_eq!(context.project_name, "amp");
    }
    let mut unreachable = board(Some("ROOTUUID"), false).unwrap();
    unreachable.files[0].sheets[0].is_target = false;
    let context = sheet_instance_context("amp", "CHILDUUID", &Some(unreachable));
    assert_eq!(context.instance_path, "/CHILDUUID");
}

#[test]
fn sheets_are_walked_depth_first() {
    let files = vec![
        SheetFile { sheets: vec![sheet("a", false, Some(1)), sheet("b", false, Some(2))] },
        SheetFile { sheets: vec![sheet("a1", false, None)] },
        SheetFile { sheets: vec![sheet("b1", false, None), sheet("b2", true, None)] },
    ];
    let path = find_sheet_path(&files, 0, 0);
    assert_eq!(path, Some(vec!["b".to_string(), "b2".to_string()]));
    assert_eq!(find_sheet_path(&files, 1, 0), None);
    assert_eq!(find_sheet_path(&files, 2, 33), None);
}

#[test]
fn a_cycle_of_sheets_ends() {
    let files = vec![SheetFile { sheets: vec![sheet("loop", false, Some(0))] }];
    assert_eq!(find_sheet_path(&files, 0, 0), None);
}

#[test]
fn a_project_is_named_after_its_file() {
    assert_eq!(project_name_for("/work/amp.kicad_sch"), "amp");
    assert_eq!(project_name_for("amp.v2.kicad_sch"), "amp.v2");
    assert_eq!(project_name_for("/work/.hidden"), ".hidden");
    assert_eq!(project_name_for("/work/amp.kicad_sch/"), "amp");
    assert_eq!(project_name_for("/work/amp.kicad_sch/./."), "amp");
    assert_eq!(project_name_for("amp/.."), "");
    assert_eq!(project_name_for("."), "");
    assert_eq!(project_name_for("..."), "..");
    assert_eq!(project_name_for("/"), "");
    assert_eq!(project_name_for(""), "");
    assert_eq!(project_name(None), "");
    assert_eq!(project_name(Some("x".to_string())), "x");
}

#[test]
fn the_newest_installed_configuration_is_taken() {
    assert_eq!(kicad_config_dir(true, true, true, true), Some("10.0"));
    assert_eq!(kicad_config_dir(false, true, true, true), Some("9.0"));
    assert_eq!(kicad_config_dir(false, false, true, true), Some("8.0"));
    assert_eq!(kicad_config_dir(false, false, false, true), None);
    assert_eq!(kicad_config_dir(false, false, false, false), Some("10.0"));
}

#[test]
fn library_variables_are_singular() {
    assert_eq!(kicad_env_suffix("symbols"), Some("SYMBOL_DIR"));
    assert_eq!(kicad_env_suffix("footprints"), Some("FOOTPRINT_DIR"));
    assert_eq!(kicad_env_suffix("3dmodels"), Some("3DMODEL_DIR"));
    assert_eq!(kicad_env_suffix("templates"), None);
    assert_eq!(
        library_dir_variables("symbols"),
        vec!["KICAD10_SYMBOL_DIR", "KICAD9_SYMBOL_DIR", "KICAD8_SYMBOL_DIR"]
    );
    assert!(library_dir_variables("templates").is_empty());
}

#[test]
fn directories_are_listed_once_and_in_order() {
    let dir = |key, is_dir| DirCandidate { key, is_dir };
    let all = vec![dir(3, true), dir(1, false), dir(2, true), dir(3, true), dir(1, false)];
    let kept: Vec<usize> = find_kicad_library_dirs(&all).iter().map(|i| all[*i].key).collect();
    assert_eq!(kept, vec![3, 2]);
}

#[test]
fn toolsets_are_not_loaded_unless_asked_for() {
    let config = ServerConfig::default();
    assert!(!config.auto_load_toolsets && !config.eager_toolsets);
    assert!(config.project_dir.is_none() && config.kicad_cli.is_empty());
}
