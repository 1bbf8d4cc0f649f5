//! What is settled before the Java language server is started: where its
//! files are looked for, whether all of them are there, the command line, and
//! the name of the workspace data directory of a project.

use vstd::prelude::*;
use vstd::string::StringExecFns;
use vstd::string::StringSliceAdditionalSpecFns;
use vstd::utf8::{encode_utf8, is_ascii_chars_encode_utf8};
use crate::session::{string_views, BridgeError};
use crate::unicode::{between_ascii, lemma_encode_utf8_concat};

verus! {

/// The operating systems for which the Java language server brings a
/// configuration.
#[derive(Clone, Copy, Debug, PartialEq, Eq, Structural)]
pub enum OperatingSystem {
    Windows,
    MacOs,
    Linux,
}

/// The program that is started.
pub open spec fn java_program() -> Seq<char> {
    "java"@
}

/// Where the launcher jar lies, relative to the installation root.
pub open spec fn launcher_jar_path() -> Seq<char> {
    "jdt-language-server/plugins/org.eclipse.equinox.launcher_1.6.400.v20210924-0641.jar"@
}

/// Where the agent jar lies, relative to the installation root.
pub open spec fn agent_jar_path() -> Seq<char> {
    "lombok.jar"@
}

/// Where the configuration directory for `os` lies, relative to the
/// installation root.
pub open spec fn config_directory_path(os: OperatingSystem) -> Seq<char> {
    match os {
        OperatingSystem::Windows => "jdt-language-server/config_win"@,
        OperatingSystem::MacOs => "jdt-language-server/config_macos"@,
        OperatingSystem::Linux => "jdt-language-server/config_linux"@,
    }
}

/// The arguments with which the Java language server is started: the fixed
/// flags, with the configuration directory, the agent jar, the launcher jar
/// and the workspace data directory in their places.
pub open spec fn launch_arguments_of(
    launcher: Seq<char>,
    config: Seq<char>,
    agent: Seq<char>,
    workspace: Seq<char>,
) -> Seq<Seq<char>> {
    seq![
        "-Declipse.application=org.eclipse.jdt.ls.core.id1"@,
        "-Dosgi.bundles.defaultStartLevel=4"@,
        "-Declipse.product=org.eclipse.jdt.ls.core.product"@,
        "-Dosgi.checkConfiguration=true"@,
        "-Dosgi.sharedConfiguration.area="@ + config,
        "-Dosgi.sharedConfiguration.area.readOnly=true"@,
        "-Dosgi.configuration.cascaded=true"@,
        "-Xms1G"@,
        "--add-modules=ALL-SYSTEM"@,
        "--add-opens"@,
        "java.base/java.util=ALL-UNNAMED"@,
        "-javaagent:"@ + agent,
        "-jar"@,
        launcher,
        "-configuration"@,
        config,
        "-data"@,
        workspace,
    ]
}

/// True for the bytes `/` and `\`, which part the steps of a path.
pub open spec fn is_separator(b: u8) -> bool {
    b == 0x2f || b == 0x5c
}

/// `path` with `_` in place of every path separator.
pub open spec fn without_separators(path: Seq<u8>) -> Seq<u8> {
    Seq::new(
        path.len(),
        |i: int|
            if is_separator(path[i]) {
                0x5fu8
            } else {
                path[i]
            },
    )
}

/// The name leaves the length of the path as it is and holds no separator;
/// two paths that differ only where one has `/` and the other `\` get the
/// same name, and a path gets the same name every time.
pub proof fn lemma_without_separators(path: Seq<u8>)
    ensures
        without_separators(path).len() == path.len(),
        forall|i: int| 0 <= i < path.len() ==> !is_separator(#[trigger] without_separators(path)[i]),
        without_separators(without_separators(path)) == without_separators(path),
{
    assert(without_separators(without_separators(path)) =~= without_separators(path));
}

/// The name of the program that is started.
pub fn program() -> (name: &'static str)
    ensures
        name@ == java_program(),
{
    "java"
}

/// The path of the launcher jar, relative to the installation root.
pub fn launcher_jar() -> (path: &'static str)
    ensures
        path@ == launcher_jar_path(),
{
    "jdt-language-server/plugins/org.eclipse.equinox.launcher_1.6.400.v20210924-0641.jar"
}

/// The path of the agent jar, relative to the installation root.
pub fn agent_jar() -> (path: &'static str)
    ensures
        path@ == agent_jar_path(),
{
    "lombok.jar"
}

/// The path of the configuration directory for `os`, relative to the
/// installation root.
pub fn config_directory(os: OperatingSystem) -> (path: &'static str)
    ensures
        path@ == config_directory_path(os),
{
    match os {
        OperatingSystem::Windows => "jdt-language-server/config_win",
        OperatingSystem::MacOs => "jdt-language-server/config_macos",
        OperatingSystem::Linux => "jdt-language-server/config_linux",
    }
}

/// Decides whether the Java language server can be started: only when the
/// launcher jar, the configuration directory, the agent jar and the
/// workspace data directory are all there.
pub fn check_configuration(
    launcher_exists: bool,
    config_exists: bool,
    agent_exists: bool,
    workspace_exists: bool,
) -> (checked: Result<(), BridgeError>)
    ensures
        checked is Ok <==> launcher_exists && config_exists && agent_exists && workspace_exists,
        checked is Err ==> checked == Err::<(), BridgeError>(BridgeError::ConfigurationMissing),
{
    if launcher_exists && config_exists && agent_exists && workspace_exists {
        Ok(())
    } else {
        Err(BridgeError::ConfigurationMissing)
    }
}

/// `prefix` followed by `rest`.
fn joined(prefix: &str, rest: &str) -> (text: String)
    ensures
        text@ == prefix@ + rest@,
{
    let mut text = prefix.to_owned();
    text.append(rest);
    text
}

/// The arguments with which the Java language server is started.
pub fn launch_arguments(launcher: &str, config: &str, agent: &str, workspace: &str) -> (arguments:
    Vec<String>)
    ensures
        string_views(arguments@) == launch_arguments_of(launcher@, config@, agent@, workspace@),
{
    let mut arguments: Vec<String> = Vec::new();
    arguments.push("-Declipse.application=org.eclipse.jdt.ls.core.id1".to_owned());
    arguments.push("-Dosgi.bundles.defaultStartLevel=4".to_owned());
    arguments.push("-Declipse.product=org.eclipse.jdt.ls.core.product".to_owned());
    arguments.push("-Dosgi.checkConfiguration=true".to_owned());
    arguments.push(joined("-Dosgi.sharedConfiguration.area=", config));
    arguments.push("-Dosgi.sharedConfiguration.area.readOnly=true".to_owned());
    arguments.push("-Dosgi.configuration.cascaded=true".to_owned());
    arguments.push("-Xms1G".to_owned());
    arguments.push("--add-modules=ALL-SYSTEM".to_owned());
    arguments.push("--add-opens".to_owned());
    arguments.push("java.base/java.util=ALL-UNNAMED".to_owned());
    arguments.push(joined("-javaagent:", agent));
    arguments.push("-jar".to_owned());
    arguments.push(launcher.to_owned());
    arguments.push("-configuration".to_owned());
    arguments.push(config.to_owned());
    arguments.push("-data".to_owned());
    arguments.push(workspace.to_owned());
    assert(string_views(arguments@) =~= launch_arguments_of(
        launcher@,
        config@,
        agent@,
        workspace@,
    ));
    arguments
}

/// Prepares the start of the Java language server: where anything that it
/// needs is missing, there is no command line to start it with.
pub fn prepare_launch(
    launcher: &str,
    launcher_exists: bool,
    config: &str,
    config_exists: bool,
    agent: &str,
    agent_exists: bool,
    workspace: &str,
    workspace_exists: bool,
) -> (plan: Result<Vec<String>, BridgeError>)
    ensures
        plan is Ok <==> launcher_exists && config_exists && agent_exists && workspace_exists,
        plan matches Ok(arguments) ==> string_views(arguments@) == launch_arguments_of(
            launcher@,
            config@,
            agent@,
            workspace@,
        ),
        plan matches Err(e) ==> e == BridgeError::ConfigurationMissing,
{
    match check_configuration(launcher_exists, config_exists, agent_exists, workspace_exists) {
        Ok(()) => Ok(launch_arguments(launcher, config, agent, workspace)),
        Err(e) => Err(e),
    }
}

/// The name of the workspace data directory of the project at `root`: the
/// path of the project with `_` in place of every `/` and `\`. The same
/// project gets the same name every time.
pub fn workspace_directory_name(root: &str) -> (name: String)
    ensures
        encode_utf8(name@) == without_separators(root.spec_bytes()),
{
    let bytes = root.as_bytes();
    let ghost path = bytes@;
    let mut name = String::new();
    let mut start: usize = 0;
    let mut i: usize = 0;
    assert(encode_utf8(name@) =~= without_separators(path).subrange(0, 0));
    while i < bytes.len()
        invariant
            path == bytes@,
            path == root.spec_bytes(),
            start <= i <= path.len(),
            start == 0 || path[start - 1] < 0x80,
            encode_utf8(name@) == without_separators(path).subrange(0, start as int),
            forall|k: int| start <= k < i ==> !is_separator(#[trigger] path[k]),
        decreases path.len() - i,
    {
        if bytes[i] == 0x2f || bytes[i] == 0x5c {
            let part = between_ascii(root, start, i);
            let ghost before = name@;
            name.append(part);
            name.append("_");
            proof {
                reveal_strlit("_");
                is_ascii_chars_encode_utf8("_"@);
                assert(encode_utf8("_"@) =~= seq![0x5fu8]);
                lemma_encode_utf8_concat(before, part@);
                lemma_encode_utf8_concat(before + part@, "_"@);
                assert(encode_utf8(name@) =~= without_separators(path).subrange(0, i + 1));
            }
            start = i + 1;
        }
        i = i + 1;
    }
    let part = between_ascii(root, start, i);
    let ghost before = name@;
    name.append(part);
    proof {
        lemma_encode_utf8_concat(before, part@);
        assert(encode_utf8(name@) =~= without_separators(path));
    }
    name
}

} // verus!
