use wrath::inspect::{detect_entry, detect_runtime, node_package, ProcessInfo, Runtime};
use wrath::process::ProcEntry;

fn args(list: &[&str]) -> Vec<String> {
    list.iter().map(|s| s.to_string()).collect()
}

#[test]
fn test_detect_runtime_known_names() {
    assert_eq!(detect_runtime("java.exe"), Runtime::Java);
    assert_eq!(detect_runtime("javaw"), Runtime::Java);
    assert_eq!(detect_runtime("node"), Runtime::Node);
    assert_eq!(detect_runtime("Node.EXE"), Runtime::Node);
    assert_eq!(detect_runtime("python3.12"), Runtime::Python);
    assert_eq!(detect_runtime("py.exe"), Runtime::Python);
    assert_eq!(detect_runtime("dotnet"), Runtime::DotNet);
    assert_eq!(detect_runtime("deno"), Runtime::Deno);
    assert_eq!(detect_runtime("bun"), Runtime::Bun);
    assert_eq!(detect_runtime("ruby"), Runtime::Ruby);
    assert_eq!(detect_runtime("php-cgi.exe"), Runtime::Php);
    assert_eq!(detect_runtime("perl"), Runtime::Perl);
    assert_eq!(detect_runtime("pwsh.exe"), Runtime::Shell);
    assert_eq!(detect_runtime("wslrelay.exe"), Runtime::Wsl);
    assert_eq!(detect_runtime("com.docker.backend.exe"), Runtime::Docker);
    assert_eq!(detect_runtime("docker-proxy"), Runtime::Docker);
}

#[test]
fn test_detect_runtime_with_path() {
    assert_eq!(detect_runtime("/usr/bin/node"), Runtime::Node);
    assert_eq!(detect_runtime(r"C:\jdk\bin\java.exe"), Runtime::Java);
}

#[test]
fn test_detect_runtime_unknown_is_native() {
    assert_eq!(detect_runtime("nginx"), Runtime::Native);
    assert_eq!(detect_runtime(""), Runtime::Native);
}

#[test]
fn test_runtime_display() {
    assert_eq!(Runtime::Node.to_string(), "Node.js");
    assert_eq!(Runtime::DotNet.to_string(), ".NET");
    assert_eq!(Runtime::Native.to_string(), "Native program");
    assert_eq!(Runtime::Java.to_string(), "Java");
}

#[test]
fn test_detect_entry_java_jar() {
    let entry = detect_entry(
        Runtime::Java,
        &args(&["-Xmx1g", "-jar", "app.jar", "--port"]),
    );
    assert_eq!(
        entry.map(|e| (e.kind, e.value)),
        Some(("Jar", "app.jar".into()))
    );
}

#[test]
fn test_detect_entry_java_main_class_skips_classpath() {
    let entry = detect_entry(
        Runtime::Java,
        &args(&["-cp", "lib/*", "-Dfoo=bar", "com.example.Main", "arg"]),
    );
    assert_eq!(
        entry.map(|e| (e.kind, e.value)),
        Some(("Main class", "com.example.Main".into()))
    );
}

#[test]
fn test_detect_entry_java_module() {
    let entry = detect_entry(Runtime::Java, &args(&["-m", "my.mod/my.Main"]));
    assert_eq!(entry.map(|e| e.kind), Some("Module"));
}

#[test]
fn test_detect_entry_node_script_skips_require() {
    let entry = detect_entry(
        Runtime::Node,
        &args(&["--inspect", "-r", "dotenv/config", "server.js"]),
    );
    let entry = entry.expect("should detect script");
    assert_eq!(entry.kind, "Script");
    assert_eq!(entry.value, "server.js");
    assert_eq!(entry.package, None);
}

#[test]
fn test_detect_entry_node_package() {
    let entry = detect_entry(
        Runtime::Node,
        &args(&[r"C:\app\node_modules\vite\bin\vite.js", "dev"]),
    );
    assert_eq!(entry.and_then(|e| e.package), Some("vite".into()));
}

#[test]
fn test_detect_entry_node_scoped_package() {
    let entry = detect_entry(
        Runtime::Node,
        &args(&["/app/node_modules/@angular/cli/bin/ng.js", "serve"]),
    );
    assert_eq!(entry.and_then(|e| e.package), Some("@angular/cli".into()));
}

#[test]
fn test_detect_entry_python_module_and_script() {
    let module = detect_entry(Runtime::Python, &args(&["-m", "http.server", "8000"]));
    assert_eq!(
        module.map(|e| (e.kind, e.value)),
        Some(("Module", "http.server".into()))
    );

    let script = detect_entry(Runtime::Python, &args(&["-u", "main.py"]));
    assert_eq!(
        script.map(|e| (e.kind, e.value)),
        Some(("Script", "main.py".into()))
    );
}

#[test]
fn test_detect_entry_deno_and_bun_run() {
    let deno = detect_entry(Runtime::Deno, &args(&["run", "--allow-net", "main.ts"]));
    assert_eq!(deno.map(|e| e.value), Some("main.ts".into()));

    let bun = detect_entry(Runtime::Bun, &args(&["index.ts"]));
    assert_eq!(bun.map(|e| e.value), Some("index.ts".into()));
}

#[test]
fn test_detect_entry_dotnet() {
    let entry = detect_entry(Runtime::DotNet, &args(&["MyApi.dll"]));
    assert_eq!(
        entry.map(|e| (e.kind, e.value)),
        Some(("Assembly", "MyApi.dll".into()))
    );
}

#[test]
fn test_detect_entry_none_cases() {
    assert_eq!(detect_entry(Runtime::Native, &args(&["foo"])), None);
    assert_eq!(detect_entry(Runtime::Shell, &args(&["/c", "x"])), None);
    assert_eq!(detect_entry(Runtime::Node, &[]), None);
    assert_eq!(detect_entry(Runtime::Node, &args(&["--inspect"])), None);
    assert_eq!(detect_entry(Runtime::Java, &args(&["-jar"])), None);
    assert_eq!(detect_entry(Runtime::Deno, &args(&["run"])), None);
}

#[test]
fn test_node_package_outside_node_modules() {
    assert_eq!(node_package("/app/server.js"), None);
    assert_eq!(node_package("/app/node_modules/"), None);
    assert_eq!(node_package("/app/node_modules/@scope"), None);
}

#[test]
fn test_process_info_from_current_process() {
    let pid = 4242;
    let process = ProcEntry {
        pid,
        parent: Some(1),
        name: "wrath".to_string(),
        cmd: args(&["wrath", "3000"]),
        exe: Some("/usr/local/bin/wrath".to_string()),
        cwd: Some("/home/me".to_string()),
        user: Some("me".to_string()),
        memory: 1_048_576,
        run_time: 3,
    };

    let info = ProcessInfo::from_process(pid, &process, vec!["child".into()]);
    assert_eq!(info.pid, pid);
    assert!(!info.name.is_empty());
    assert_eq!(info.children, vec!["child".to_string()]);
}

#[test]
fn from_process_reads_runtime_entry_and_command_line() {
    let process = ProcEntry {
        pid: 7,
        parent: None,
        name: "node.exe".to_string(),
        cmd: args(&["node", "--inspect", "/app/node_modules/vite/bin/vite.js", "dev"]),
        exe: None,
        cwd: Some(String::new()),
        user: None,
        memory: 10,
        run_time: 20,
    };
    let info = ProcessInfo::from_process(7, &process, vec![]);
    assert_eq!(info.runtime, Runtime::Node);
    assert_eq!(info.command, "node --inspect /app/node_modules/vite/bin/vite.js dev");
    let entry = info.entry.expect("a script");
    assert_eq!(entry.kind, "Script");
    assert_eq!(entry.value, "/app/node_modules/vite/bin/vite.js");
    assert_eq!(entry.package, Some("vite".to_string()));
    assert_eq!(info.cwd, Some(String::new()));
    assert_eq!(info.memory_bytes, 10);
    assert_eq!(info.uptime_secs, 20);
}

#[test]
fn detect_runtime_lowercases_unicode_names() {
    assert_eq!(detect_runtime("NODE"), Runtime::Node);
    assert_eq!(detect_runtime("PYTHON3"), Runtime::Python);
}
