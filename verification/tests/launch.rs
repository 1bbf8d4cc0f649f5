use jsp_lsp::launch::{
    agent_jar, check_configuration, config_directory, launch_arguments, launcher_jar,
    prepare_launch, program, workspace_directory_name, OperatingSystem,
};
use jsp_lsp::session::BridgeError;

#[test]
fn installation_paths() {
    assert_eq!(
        launcher_jar(),
        "jdt-language-server/plugins/org.eclipse.equinox.launcher_1.6.400.v20210924-0641.jar"
    );
    assert_eq!(agent_jar(), "lombok.jar");
    assert_eq!(config_directory(OperatingSystem::Windows), "jdt-language-server/config_win");
    assert_eq!(config_directory(OperatingSystem::MacOs), "jdt-language-server/config_macos");
    assert_eq!(config_directory(OperatingSystem::Linux), "jdt-language-server/config_linux");
}

#[test]
fn configuration_needs_all_four() {
    assert_eq!(check_configuration(true, true, true, true), Ok(()));
    assert_eq!(check_configuration(false, true, true, true), Err(BridgeError::ConfigurationMissing));
    assert_eq!(check_configuration(true, false, true, true), Err(BridgeError::ConfigurationMissing));
    assert_eq!(check_configuration(true, true, false, true), Err(BridgeError::ConfigurationMissing));
    assert_eq!(check_configuration(true, true, true, false), Err(BridgeError::ConfigurationMissing));
    assert_eq!(check_configuration(false, false, false, false), Err(BridgeError::ConfigurationMissing));
}

#[test]
fn command_line() {
    let arguments = launch_arguments("/opt/l.jar", "/opt/config_linux", "/opt/lombok.jar", "/tmp/ws");
    assert_eq!(
        arguments,
        vec![
            "-Declipse.application=org.eclipse.jdt.ls.core.id1",
            "-Dosgi.bundles.defaultStartLevel=4",
            "-Declipse.product=org.eclipse.jdt.ls.core.product",
            "-Dosgi.checkConfiguration=true",
            "-Dosgi.sharedConfiguration.area=/opt/config_linux",
            "-Dosgi.sharedConfiguration.area.readOnly=true",
            "-Dosgi.configuration.cascaded=true",
            "-Xms1G",
            "--add-modules=ALL-SYSTEM",
            "--add-opens",
            "java.base/java.util=ALL-UNNAMED",
            "-javaagent:/opt/lombok.jar",
            "-jar",
            "/opt/l.jar",
            "-configuration",
            "/opt/config_linux",
            "-data",
            "/tmp/ws",
        ]
    );
}

#[test]
fn workspace_name_has_no_separators() {
    assert_eq!(workspace_directory_name("/home/me/project"), "_home_me_project");
    assert_eq!(workspace_directory_name("C:\\Users\\me\\p"), "C:_Users_me_p");
    assert_eq!(workspace_directory_name("a/b\\c//"), "a_b_c__");
    assert_eq!(workspace_directory_name(""), "");
    assert_eq!(workspace_directory_name("plain"), "plain");
    assert_eq!(workspace_directory_name("/caf\u{e9}/\u{65e5}\u{672c}"), "_caf\u{e9}_\u{65e5}\u{672c}");
    assert_eq!(workspace_directory_name("/home/me/project"), workspace_directory_name("\\home\\me/project"));
}

#[test]
fn launch_is_prepared_only_when_nothing_is_missing() {
    assert_eq!(program(), "java");
    let plan = prepare_launch("l", true, "c", true, "a", true, "w", true).unwrap();
    assert_eq!(plan, launch_arguments("l", "c", "a", "w"));
    assert_eq!(plan.len(), 18);
    assert_eq!(
        prepare_launch("l", true, "c", true, "a", false, "w", true),
        Err(BridgeError::ConfigurationMissing)
    );
    assert_eq!(
        prepare_launch("l", true, "c", true, "a", true, "w", false),
        Err(BridgeError::ConfigurationMissing)
    );
}
