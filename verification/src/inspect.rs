//! What a process runs: its runtime, guessed from the executable name, and its
//! entry point (script, jar, module, main class...), read from its arguments.

use vstd::prelude::*;

use crate::process::ProcEntry;
use crate::text::{chars_are, chars_of, push_str, range_is, string_of};

verus! {

/// Runtime (or kind of program) a process belongs to.
#[derive(Debug, Clone, Copy, PartialEq, Eq, Structural)]
pub enum Runtime {
    Java,
    Node,
    Deno,
    Bun,
    Python,
    DotNet,
    Ruby,
    Php,
    Perl,
    Shell,
    Docker,
    Wsl,
    Native,
}

/// The name shown for a runtime.
pub open spec fn runtime_label(r: Runtime) -> Seq<char> {
    match r {
        Runtime::Java => "Java"@,
        Runtime::Node => "Node.js"@,
        Runtime::Deno => "Deno"@,
        Runtime::Bun => "Bun"@,
        Runtime::Python => "Python"@,
        Runtime::DotNet => ".NET"@,
        Runtime::Ruby => "Ruby"@,
        Runtime::Php => "PHP"@,
        Runtime::Perl => "Perl"@,
        Runtime::Shell => "Shell"@,
        Runtime::Docker => "Docker"@,
        Runtime::Wsl => "WSL"@,
        Runtime::Native => "Native program"@,
    }
}

impl Runtime {
    /// The name shown for this runtime.
    pub fn to_string(&self) -> (s: String)
        ensures
            s@ == runtime_label(*self),
    {
        let mut s = String::new();
        let label: &str = match self {
            Runtime::Java => "Java",
            Runtime::Node => "Node.js",
            Runtime::Deno => "Deno",
            Runtime::Bun => "Bun",
            Runtime::Python => "Python",
            Runtime::DotNet => ".NET",
            Runtime::Ruby => "Ruby",
            Runtime::Php => "PHP",
            Runtime::Perl => "Perl",
            Runtime::Shell => "Shell",
            Runtime::Docker => "Docker",
            Runtime::Wsl => "WSL",
            Runtime::Native => "Native program",
        };
        push_str(&mut s, label);
        assert(s@ =~= runtime_label(*self));
        s
    }
}

/// What `str::to_lowercase` makes of a text (lowercase as Unicode defines it).
pub uninterp spec fn lowercase(s: Seq<char>) -> Seq<char>;

/// `str::to_lowercase`: the text with every character replaced by its Unicode
/// lowercase mapping. Its result is named, not described: the Unicode tables are
/// not restated here.
#[verifier::external_body]
pub(crate) fn to_lowercase(s: &str) -> (r: String)
    ensures
        r@ == lowercase(s@),
{
    s.to_lowercase()
}

/// The part of `s` after its last `/` or `\` (all of `s` when it has none).
pub open spec fn file_part(s: Seq<char>) -> Seq<char>
    decreases s.len(),
{
    if s.len() == 0 {
        s
    } else if s.last() == '/' || s.last() == '\\' {
        seq![]
    } else {
        file_part(s.drop_last()).push(s.last())
    }
}

/// Whether `s` begins with `prefix`.
pub open spec fn starts_with(s: Seq<char>, prefix: Seq<char>) -> bool {
    prefix.len() <= s.len() && s.subrange(0, prefix.len() as int) == prefix
}

/// Whether `s` ends with `suffix`.
pub open spec fn ends_with(s: Seq<char>, suffix: Seq<char>) -> bool {
    suffix.len() <= s.len() && s.subrange(s.len() - suffix.len(), s.len() as int) == suffix
}

/// `s` without a trailing `.exe`.
pub open spec fn strip_exe(s: Seq<char>) -> Seq<char> {
    if ends_with(s, ".exe"@) {
        s.subrange(0, s.len() - 4)
    } else {
        s
    }
}

/// The runtime that an executable name (lowercase, without directory nor `.exe`)
/// stands for.
pub open spec fn runtime_for(n: Seq<char>) -> Runtime {
    if n == "java"@ || n == "javaw"@ {
        Runtime::Java
    } else if n == "node"@ || n == "nodejs"@ {
        Runtime::Node
    } else if n == "deno"@ {
        Runtime::Deno
    } else if n == "bun"@ {
        Runtime::Bun
    } else if n == "py"@ || n == "pyw"@ {
        Runtime::Python
    } else if n == "dotnet"@ {
        Runtime::DotNet
    } else if n == "ruby"@ {
        Runtime::Ruby
    } else if n == "perl"@ {
        Runtime::Perl
    } else if n == "cmd"@ || n == "powershell"@ || n == "pwsh"@ || n == "bash"@ || n == "sh"@ || n
        == "zsh"@ || n == "fish"@ || n == "dash"@ {
        Runtime::Shell
    } else if n == "wslrelay"@ || n == "wslhost"@ || n == "wsl"@ {
        Runtime::Wsl
    } else if n == "docker-proxy"@ || n == "dockerd"@ || n == "docker"@ || n == "vpnkit"@ {
        Runtime::Docker
    } else if starts_with(n, "com.docker."@) {
        Runtime::Docker
    } else if starts_with(n, "python"@) {
        Runtime::Python
    } else if starts_with(n, "php"@) {
        Runtime::Php
    } else {
        Runtime::Native
    }
}

/// The executable names (lowercase, without directory nor `.exe`) of the known
/// runtimes.
pub open spec fn runtime_names() -> Seq<(Seq<char>, Runtime)> {
    seq![
        ("java"@, Runtime::Java),
        ("javaw"@, Runtime::Java),
        ("node"@, Runtime::Node),
        ("nodejs"@, Runtime::Node),
        ("deno"@, Runtime::Deno),
        ("bun"@, Runtime::Bun),
        ("py"@, Runtime::Python),
        ("pyw"@, Runtime::Python),
        ("dotnet"@, Runtime::DotNet),
        ("ruby"@, Runtime::Ruby),
        ("perl"@, Runtime::Perl),
        ("cmd"@, Runtime::Shell),
        ("powershell"@, Runtime::Shell),
        ("pwsh"@, Runtime::Shell),
        ("bash"@, Runtime::Shell),
        ("sh"@, Runtime::Shell),
        ("zsh"@, Runtime::Shell),
        ("fish"@, Runtime::Shell),
        ("dash"@, Runtime::Shell),
        ("wslrelay"@, Runtime::Wsl),
        ("wslhost"@, Runtime::Wsl),
        ("wsl"@, Runtime::Wsl),
        ("docker-proxy"@, Runtime::Docker),
        ("dockerd"@, Runtime::Docker),
        ("docker"@, Runtime::Docker),
        ("vpnkit"@, Runtime::Docker),
    ]
}

/// How the known executable names and `.exe` are spelled: their lengths and first
/// letters.
proof fn lemma_runtime_names_spelled()
    ensures
        "java"@.len() == 4 && "java"@[0] == 'j' && "java"@[1] == 'a' && "java"@[2] == 'v',
        "javaw"@.len() == 5 && "javaw"@[0] == 'j' && "javaw"@[1] == 'a' && "javaw"@[2] == 'v',
        "node"@.len() == 4 && "node"@[0] == 'n' && "node"@[1] == 'o' && "node"@[2] == 'd',
        "nodejs"@.len() == 6 && "nodejs"@[0] == 'n' && "nodejs"@[1] == 'o' && "nodejs"@[2] == 'd',
        "deno"@.len() == 4 && "deno"@[0] == 'd' && "deno"@[1] == 'e' && "deno"@[2] == 'n',
        "bun"@.len() == 3 && "bun"@[0] == 'b' && "bun"@[1] == 'u' && "bun"@[2] == 'n',
        "py"@.len() == 2 && "py"@[0] == 'p' && "py"@[1] == 'y',
        "pyw"@.len() == 3 && "pyw"@[0] == 'p' && "pyw"@[1] == 'y' && "pyw"@[2] == 'w',
        "dotnet"@.len() == 6 && "dotnet"@[0] == 'd' && "dotnet"@[1] == 'o' && "dotnet"@[2] == 't',
        "ruby"@.len() == 4 && "ruby"@[0] == 'r' && "ruby"@[1] == 'u' && "ruby"@[2] == 'b',
        "perl"@.len() == 4 && "perl"@[0] == 'p' && "perl"@[1] == 'e' && "perl"@[2] == 'r',
        "cmd"@.len() == 3 && "cmd"@[0] == 'c' && "cmd"@[1] == 'm' && "cmd"@[2] == 'd',
        "powershell"@.len() == 10 && "powershell"@[0] == 'p' && "powershell"@[1] == 'o'
            && "powershell"@[2] == 'w' && "powershell"@[6] == 'h',
        "pwsh"@.len() == 4 && "pwsh"@[0] == 'p' && "pwsh"@[1] == 'w' && "pwsh"@[2] == 's',
        "bash"@.len() == 4 && "bash"@[0] == 'b' && "bash"@[1] == 'a' && "bash"@[2] == 's',
        "sh"@.len() == 2 && "sh"@[0] == 's' && "sh"@[1] == 'h',
        "zsh"@.len() == 3 && "zsh"@[0] == 'z' && "zsh"@[1] == 's' && "zsh"@[2] == 'h',
        "fish"@.len() == 4 && "fish"@[0] == 'f' && "fish"@[1] == 'i' && "fish"@[2] == 's',
        "dash"@.len() == 4 && "dash"@[0] == 'd' && "dash"@[1] == 'a' && "dash"@[2] == 's',
        "wslrelay"@.len() == 8 && "wslrelay"@[0] == 'w' && "wslrelay"@[1] == 's'
            && "wslrelay"@[2] == 'l' && "wslrelay"@[4] == 'e',
        "wslhost"@.len() == 7 && "wslhost"@[0] == 'w' && "wslhost"@[1] == 's'
            && "wslhost"@[2] == 'l' && "wslhost"@[3] == 'h',
        "wsl"@.len() == 3 && "wsl"@[0] == 'w' && "wsl"@[1] == 's' && "wsl"@[2] == 'l',
        "docker-proxy"@.len() == 12 && "docker-proxy"@[0] == 'd' && "docker-proxy"@[1] == 'o'
            && "docker-proxy"@[2] == 'c' && "docker-proxy"@[8] == 'r',
        "dockerd"@.len() == 7 && "dockerd"@[0] == 'd' && "dockerd"@[1] == 'o'
            && "dockerd"@[2] == 'c' && "dockerd"@[3] == 'k',
        "docker"@.len() == 6 && "docker"@[0] == 'd' && "docker"@[1] == 'o' && "docker"@[2] == 'c',
        "vpnkit"@.len() == 6 && "vpnkit"@[0] == 'v' && "vpnkit"@[1] == 'p' && "vpnkit"@[2] == 'n',
        ".exe"@.len() == 4 && ".exe"@[0] == '.' && ".exe"@[1] == 'e' && ".exe"@[2] == 'x',
{
    reveal_strlit("java");
    reveal_strlit("javaw");
    reveal_strlit("node");
    reveal_strlit("nodejs");
    reveal_strlit("deno");
    reveal_strlit("bun");
    reveal_strlit("py");
    reveal_strlit("pyw");
    reveal_strlit("dotnet");
    reveal_strlit("ruby");
    reveal_strlit("perl");
    reveal_strlit("cmd");
    reveal_strlit("powershell");
    reveal_strlit("pwsh");
    reveal_strlit("bash");
    reveal_strlit("sh");
    reveal_strlit("zsh");
    reveal_strlit("fish");
    reveal_strlit("dash");
    reveal_strlit("wslrelay");
    reveal_strlit("wslhost");
    reveal_strlit("wsl");
    reveal_strlit("docker-proxy");
    reveal_strlit("dockerd");
    reveal_strlit("docker");
    reveal_strlit("vpnkit");
    reveal_strlit(".exe");
}

#[verifier::spinoff_prover]
proof fn lemma_java_names()
    ensures
        runtime_for("java"@) == Runtime::Java,
        !ends_with("java"@, ".exe"@),
        runtime_for("javaw"@) == Runtime::Java,
        !ends_with("javaw"@, ".exe"@),
{
    lemma_runtime_names_spelled();
    assert("java"@.subrange(0, 4)[0] == 'j');
    assert("javaw"@.subrange(1, 5)[0] == 'a');
}

#[verifier::spinoff_prover]
proof fn lemma_node_names()
    ensures
        runtime_for("node"@) == Runtime::Node,
        !ends_with("node"@, ".exe"@),
        runtime_for("nodejs"@) == Runtime::Node,
        !ends_with("nodejs"@, ".exe"@),
{
    lemma_runtime_names_spelled();
    assert("node"@.subrange(0, 4)[0] == 'n');
    assert("nodejs"@.subrange(2, 6)[0] == 'd');
}

#[verifier::spinoff_prover]
proof fn lemma_deno_names()
    ensures
        runtime_for("deno"@) == Runtime::Deno,
        !ends_with("deno"@, ".exe"@),
{
    lemma_runtime_names_spelled();
    assert("deno"@.subrange(0, 4)[0] == 'd');
}

#[verifier::spinoff_prover]
proof fn lemma_bun_names()
    ensures
        runtime_for("bun"@) == Runtime::Bun,
        !ends_with("bun"@, ".exe"@),
{
    lemma_runtime_names_spelled();
}

#[verifier::spinoff_prover]
proof fn lemma_python_names()
    ensures
        runtime_for("py"@) == Runtime::Python,
        !ends_with("py"@, ".exe"@),
        runtime_for("pyw"@) == Runtime::Python,
        !ends_with("pyw"@, ".exe"@),
{
    lemma_runtime_names_spelled();
}

#[verifier::spinoff_prover]
proof fn lemma_dotnet_names()
    ensures
        runtime_for("dotnet"@) == Runtime::DotNet,
        !ends_with("dotnet"@, ".exe"@),
{
    lemma_runtime_names_spelled();
    assert("dotnet"@.subrange(2, 6)[0] == 't');
}

#[verifier::spinoff_prover]
proof fn lemma_ruby_names()
    ensures
        runtime_for("ruby"@) == Runtime::Ruby,
        !ends_with("ruby"@, ".exe"@),
{
    lemma_runtime_names_spelled();
    assert("ruby"@.subrange(0, 4)[0] == 'r');
}

#[verifier::spinoff_prover]
proof fn lemma_perl_names()
    ensures
        runtime_for("perl"@) == Runtime::Perl,
        !ends_with("perl"@, ".exe"@),
{
    lemma_runtime_names_spelled();
    assert("perl"@.subrange(0, 4)[0] == 'p');
}

#[verifier::spinoff_prover]
proof fn lemma_shell_names()
    ensures
        runtime_for("cmd"@) == Runtime::Shell,
        !ends_with("cmd"@, ".exe"@),
        runtime_for("powershell"@) == Runtime::Shell,
        !ends_with("powershell"@, ".exe"@),
        runtime_for("pwsh"@) == Runtime::Shell,
        !ends_with("pwsh"@, ".exe"@),
        runtime_for("bash"@) == Runtime::Shell,
        !ends_with("bash"@, ".exe"@),
        runtime_for("sh"@) == Runtime::Shell,
        !ends_with("sh"@, ".exe"@),
        runtime_for("zsh"@) == Runtime::Shell,
        !ends_with("zsh"@, ".exe"@),
        runtime_for("fish"@) == Runtime::Shell,
        !ends_with("fish"@, ".exe"@),
        runtime_for("dash"@) == Runtime::Shell,
        !ends_with("dash"@, ".exe"@),
{
    lemma_runtime_names_spelled();
    assert("powershell"@.subrange(6, 10)[0] == 'h');
    assert("pwsh"@.subrange(0, 4)[0] == 'p');
    assert("bash"@.subrange(0, 4)[0] == 'b');
    assert("fish"@.subrange(0, 4)[0] == 'f');
    assert("dash"@.subrange(0, 4)[0] == 'd');
}

#[verifier::spinoff_prover]
proof fn lemma_wsl_names()
    ensures
        runtime_for("wslrelay"@) == Runtime::Wsl,
        !ends_with("wslrelay"@, ".exe"@),
        runtime_for("wslhost"@) == Runtime::Wsl,
        !ends_with("wslhost"@, ".exe"@),
        runtime_for("wsl"@) == Runtime::Wsl,
        !ends_with("wsl"@, ".exe"@),
{
    lemma_runtime_names_spelled();
    assert("wslrelay"@.subrange(4, 8)[0] == 'e');
    assert("wslhost"@.subrange(3, 7)[0] == 'h');
}

#[verifier::spinoff_prover]
proof fn lemma_docker_names()
    ensures
        runtime_for("docker-proxy"@) == Runtime::Docker,
        !ends_with("docker-proxy"@, ".exe"@),
        runtime_for("dockerd"@) == Runtime::Docker,
        !ends_with("dockerd"@, ".exe"@),
        runtime_for("docker"@) == Runtime::Docker,
        !ends_with("docker"@, ".exe"@),
        runtime_for("vpnkit"@) == Runtime::Docker,
        !ends_with("vpnkit"@, ".exe"@),
{
    lemma_runtime_names_spelled();
    assert("docker-proxy"@.subrange(8, 12)[0] == 'r');
    assert("dockerd"@.subrange(3, 7)[0] == 'k');
    assert("docker"@.subrange(2, 6)[0] == 'c');
    assert("vpnkit"@.subrange(2, 6)[0] == 'n');
}

proof fn lemma_runtime_name(i: int)
    requires
        0 <= i < runtime_names().len(),
    ensures
        runtime_for(runtime_names()[i].0) == runtime_names()[i].1,
        strip_exe(runtime_names()[i].0) == runtime_names()[i].0,
        strip_exe(runtime_names()[i].0 + ".exe"@) == runtime_names()[i].0,
{
    reveal_strlit(".exe");
    lemma_java_names();
    lemma_node_names();
    lemma_deno_names();
    lemma_bun_names();
    lemma_python_names();
    lemma_dotnet_names();
    lemma_ruby_names();
    lemma_perl_names();
    lemma_shell_names();
    lemma_wsl_names();
    lemma_docker_names();
    if i == 0 {
        assert(runtime_names()[i] == ("java"@, Runtime::Java));
    }
    if i == 1 {
        assert(runtime_names()[i] == ("javaw"@, Runtime::Java));
    }
    if i == 2 {
        assert(runtime_names()[i] == ("node"@, Runtime::Node));
    }
    if i == 3 {
        assert(runtime_names()[i] == ("nodejs"@, Runtime::Node));
    }
    if i == 4 {
        assert(runtime_names()[i] == ("deno"@, Runtime::Deno));
    }
    if i == 5 {
        assert(runtime_names()[i] == ("bun"@, Runtime::Bun));
    }
    if i == 6 {
        assert(runtime_names()[i] == ("py"@, Runtime::Python));
    }
    if i == 7 {
        assert(runtime_names()[i] == ("pyw"@, Runtime::Python));
    }
    if i == 8 {
        assert(runtime_names()[i] == ("dotnet"@, Runtime::DotNet));
    }
    if i == 9 {
        assert(runtime_names()[i] == ("ruby"@, Runtime::Ruby));
    }
    if i == 10 {
        assert(runtime_names()[i] == ("perl"@, Runtime::Perl));
    }
    if i == 11 {
        assert(runtime_names()[i] == ("cmd"@, Runtime::Shell));
    }
    if i == 12 {
        assert(runtime_names()[i] == ("powershell"@, Runtime::Shell));
    }
    if i == 13 {
        assert(runtime_names()[i] == ("pwsh"@, Runtime::Shell));
    }
    if i == 14 {
        assert(runtime_names()[i] == ("bash"@, Runtime::Shell));
    }
    if i == 15 {
        assert(runtime_names()[i] == ("sh"@, Runtime::Shell));
    }
    if i == 16 {
        assert(runtime_names()[i] == ("zsh"@, Runtime::Shell));
    }
    if i == 17 {
        assert(runtime_names()[i] == ("fish"@, Runtime::Shell));
    }
    if i == 18 {
        assert(runtime_names()[i] == ("dash"@, Runtime::Shell));
    }
    if i == 19 {
        assert(runtime_names()[i] == ("wslrelay"@, Runtime::Wsl));
    }
    if i == 20 {
        assert(runtime_names()[i] == ("wslhost"@, Runtime::Wsl));
    }
    if i == 21 {
        assert(runtime_names()[i] == ("wsl"@, Runtime::Wsl));
    }
    if i == 22 {
        assert(runtime_names()[i] == ("docker-proxy"@, Runtime::Docker));
    }
    if i == 23 {
        assert(runtime_names()[i] == ("dockerd"@, Runtime::Docker));
    }
    if i == 24 {
        assert(runtime_names()[i] == ("docker"@, Runtime::Docker));
    }
    if i == 25 {
        assert(runtime_names()[i] == ("vpnkit"@, Runtime::Docker));
    }
    let n = runtime_names()[i].0;
    assert((n + ".exe"@).subrange(n.len() as int, n.len() + 4int) =~= ".exe"@);
    assert((n + ".exe"@).subrange(0, n.len() as int) =~= n);
}

/// Each known executable name is detected as its runtime, whatever its directory,
/// with or without `.exe`, and whatever its case once lowercased.
pub proof fn known_names_are_detected(name: Seq<char>, i: int)
    requires
        0 <= i < runtime_names().len(),
        lowercase(file_part(name)) == runtime_names()[i].0 || lowercase(file_part(name))
            == runtime_names()[i].0 + ".exe"@,
    ensures
        runtime_for(normalized_exe_name(name)) == runtime_names()[i].1,
{
    lemma_runtime_name(i);
}

/// Names that begin with `com.docker.` are Docker's, names that begin with `python`
/// are Python's, names that begin with `php` are PHP's.
pub proof fn prefixed_names_are_detected(name: Seq<char>)
    ensures
        starts_with(normalized_exe_name(name), "com.docker."@) ==> runtime_for(
            normalized_exe_name(name),
        ) == Runtime::Docker,
        starts_with(normalized_exe_name(name), "python"@) ==> runtime_for(normalized_exe_name(name))
            == Runtime::Python,
        starts_with(normalized_exe_name(name), "php"@) ==> runtime_for(normalized_exe_name(name))
            == Runtime::Php,
{
    reveal_strlit("java");
    reveal_strlit("javaw");
    reveal_strlit("node");
    reveal_strlit("nodejs");
    reveal_strlit("deno");
    reveal_strlit("bun");
    reveal_strlit("py");
    reveal_strlit("pyw");
    reveal_strlit("dotnet");
    reveal_strlit("ruby");
    reveal_strlit("perl");
    reveal_strlit("cmd");
    reveal_strlit("powershell");
    reveal_strlit("pwsh");
    reveal_strlit("bash");
    reveal_strlit("sh");
    reveal_strlit("zsh");
    reveal_strlit("fish");
    reveal_strlit("dash");
    reveal_strlit("wslrelay");
    reveal_strlit("wslhost");
    reveal_strlit("wsl");
    reveal_strlit("docker-proxy");
    reveal_strlit("dockerd");
    reveal_strlit("docker");
    reveal_strlit("vpnkit");
    reveal_strlit(".exe");
    reveal_strlit("com.docker.");
    reveal_strlit("python");
    reveal_strlit("php");
    let n = normalized_exe_name(name);
    if starts_with(n, "com.docker."@) || starts_with(n, "python"@) || starts_with(n, "php"@) {
        assert(n.len() >= 3);
        assert(n[0] == n.subrange(0, 3)[0]);
        assert(n[1] == n.subrange(0, 3)[1]);
        assert(n[2] == n.subrange(0, 3)[2]);
    }
}

/// Bounds of the part of `v` after its last `/` or `\`.
fn file_part_start(v: &Vec<char>) -> (start: usize)
    ensures
        start <= v@.len(),
        v@.subrange(start as int, v@.len() as int) == file_part(v@),
{
    let mut start: usize = v.len();
    assert(v@.subrange(0, start as int) =~= v@);
    assert(v@.subrange(start as int, v@.len() as int) =~= Seq::<char>::empty());
    assert(file_part(v@) =~= file_part(v@.subrange(0, start as int)) + v@.subrange(
        start as int,
        v@.len() as int,
    ));
    while start > 0 && v[start - 1] != '/' && v[start - 1] != '\\'
        invariant
            start <= v@.len(),
            file_part(v@) == file_part(v@.subrange(0, start as int)) + v@.subrange(
                start as int,
                v@.len() as int,
            ),
        decreases start,
    {
        proof {
            let pre = v@.subrange(0, start as int);
            assert(pre.drop_last() =~= v@.subrange(0, start - 1));
            assert(v@.subrange(start - 1, v@.len() as int) =~= seq![pre.last()] + v@.subrange(
                start as int,
                v@.len() as int,
            ));
            assert(file_part(pre) == file_part(pre.drop_last()).push(pre.last()));
            assert(file_part(pre.drop_last()).push(pre.last()) + v@.subrange(
                start as int,
                v@.len() as int,
            ) =~= file_part(pre.drop_last()) + v@.subrange(start - 1, v@.len() as int));
        }
        start = start - 1;
    }
    assert(file_part(v@.subrange(0, start as int)) =~= Seq::<char>::empty());
    assert(v@.subrange(0, v@.len() as int) =~= v@);
    assert(file_part(v@) =~= v@.subrange(start as int, v@.len() as int));
    start
}

/// The runtime of an executable name already lowercased: a trailing `.exe` is
/// ignored.
pub fn runtime_of_lowered(lowered: &str) -> (r: Runtime)
    ensures
        r == runtime_for(strip_exe(lowered@)),
{
    let full = chars_of(lowered);
    proof {
        reveal_strlit(".exe");
    }
    let mut end: usize = full.len();
    if full.len() >= 4 && range_is(&full, full.len() - 4, full.len(), ".exe") {
        end = full.len() - 4;
    }
    let n = string_of(&full, 0, end);
    assert(n@ == strip_exe(lowered@)) by {
        if end == full@.len() {
            assert(full@.subrange(0, end as int) =~= full@);
        }
    };
    let v = chars_of(n.as_str());
    if chars_are(&v, "java") || chars_are(&v, "javaw") {
        Runtime::Java
    } else if chars_are(&v, "node") || chars_are(&v, "nodejs") {
        Runtime::Node
    } else if chars_are(&v, "deno") {
        Runtime::Deno
    } else if chars_are(&v, "bun") {
        Runtime::Bun
    } else if chars_are(&v, "py") || chars_are(&v, "pyw") {
        Runtime::Python
    } else if chars_are(&v, "dotnet") {
        Runtime::DotNet
    } else if chars_are(&v, "ruby") {
        Runtime::Ruby
    } else if chars_are(&v, "perl") {
        Runtime::Perl
    } else if chars_are(&v, "cmd") || chars_are(&v, "powershell") || chars_are(&v, "pwsh")
        || chars_are(&v, "bash") || chars_are(&v, "sh") || chars_are(&v, "zsh") || chars_are(
        &v,
        "fish",
    ) || chars_are(&v, "dash") {
        Runtime::Shell
    } else if chars_are(&v, "wslrelay") || chars_are(&v, "wslhost") || chars_are(&v, "wsl") {
        Runtime::Wsl
    } else if chars_are(&v, "docker-proxy") || chars_are(&v, "dockerd") || chars_are(&v, "docker")
        || chars_are(&v, "vpnkit") {
        Runtime::Docker
    } else if crate::text::range_starts_with(&v, 0, v.len(), "com.docker.") {
        assert(v@.subrange(0, v@.len() as int) =~= v@);
        Runtime::Docker
    } else if crate::text::range_starts_with(&v, 0, v.len(), "python") {
        assert(v@.subrange(0, v@.len() as int) =~= v@);
        Runtime::Python
    } else if crate::text::range_starts_with(&v, 0, v.len(), "php") {
        assert(v@.subrange(0, v@.len() as int) =~= v@);
        Runtime::Php
    } else {
        assert(v@.subrange(0, v@.len() as int) =~= v@);
        Runtime::Native
    }
}

/// Normalize an executable name: lowercase, without directory nor `.exe`.
pub open spec fn normalized_exe_name(name: Seq<char>) -> Seq<char> {
    strip_exe(lowercase(file_part(name)))
}

/// Guess the runtime from the executable name.
pub fn detect_runtime(process_name: &str) -> (r: Runtime)
    ensures
        r == runtime_for(normalized_exe_name(process_name@)),
{
    let v = chars_of(process_name);
    let start = file_part_start(&v);
    let file = string_of(&v, start, v.len());
    let lowered = to_lowercase(file.as_str());
    runtime_of_lowered(lowered.as_str())
}

/// The texts of a list of strings.
pub open spec fn views(args: Seq<String>) -> Seq<Seq<char>> {
    args.map_values(|a: String| a@)
}

/// Whether, for `rt`, the option `arg` consumes the argument that follows it.
pub open spec fn takes_value(rt: Runtime, arg: Seq<char>) -> bool {
    match rt {
        Runtime::Java => arg == "-cp"@ || arg == "-classpath"@ || arg == "--class-path"@ || arg
            == "-p"@ || arg == "--module-path"@ || arg == "--add-modules"@ || arg == "--add-opens"@
            || arg == "--add-exports"@,
        Runtime::Node => arg == "-r"@ || arg == "--require"@ || arg == "--import"@ || arg
            == "--loader"@ || arg == "-C"@,
        Runtime::Python => arg == "-W"@ || arg == "-X"@ || arg == "--check-hash-based-pycs"@,
        Runtime::Ruby => arg == "-I"@ || arg == "-r"@,
        _ => false,
    }
}

/// Options that consume the following argument, per runtime.
fn option_takes_value(rt: Runtime, arg: &Vec<char>) -> (r: bool)
    ensures
        r == takes_value(rt, arg@),
{
    match rt {
        Runtime::Java => chars_are(arg, "-cp") || chars_are(arg, "-classpath") || chars_are(
            arg,
            "--class-path",
        ) || chars_are(arg, "-p") || chars_are(arg, "--module-path") || chars_are(
            arg,
            "--add-modules",
        ) || chars_are(arg, "--add-opens") || chars_are(arg, "--add-exports"),
        Runtime::Node => chars_are(arg, "-r") || chars_are(arg, "--require") || chars_are(
            arg,
            "--import",
        ) || chars_are(arg, "--loader") || chars_are(arg, "-C"),
        Runtime::Python => chars_are(arg, "-W") || chars_are(arg, "-X") || chars_are(
            arg,
            "--check-hash-based-pycs",
        ),
        Runtime::Ruby => chars_are(arg, "-I") || chars_are(arg, "-r"),
        _ => false,
    }
}

/// The first positional argument: the first one that does not start with `-`,
/// skipping the options of `rt` that take a value together with that value.
pub open spec fn first_positional(rt: Runtime, args: Seq<Seq<char>>) -> Option<Seq<char>>
    decreases args.len(),
{
    if args.len() == 0 {
        None
    } else if takes_value(rt, args[0]) {
        if args.len() >= 2 {
            first_positional(rt, args.subrange(2, args.len() as int))
        } else {
            None
        }
    } else if !(args[0].len() > 0 && args[0][0] == '-') {
        Some(args[0])
    } else {
        first_positional(rt, args.drop_first())
    }
}

/// The options that consume the argument that follows them, for each runtime.
pub open spec fn value_options() -> Seq<(Runtime, Seq<char>)> {
    seq![
        (Runtime::Java, "-cp"@),
        (Runtime::Java, "-classpath"@),
        (Runtime::Java, "--class-path"@),
        (Runtime::Java, "-p"@),
        (Runtime::Java, "--module-path"@),
        (Runtime::Java, "--add-modules"@),
        (Runtime::Java, "--add-opens"@),
        (Runtime::Java, "--add-exports"@),
        (Runtime::Node, "-r"@),
        (Runtime::Node, "--require"@),
        (Runtime::Node, "--import"@),
        (Runtime::Node, "--loader"@),
        (Runtime::Node, "-C"@),
        (Runtime::Python, "-W"@),
        (Runtime::Python, "-X"@),
        (Runtime::Python, "--check-hash-based-pycs"@),
        (Runtime::Ruby, "-I"@),
        (Runtime::Ruby, "-r"@),
    ]
}

/// An option that takes a value hides that value from the search for the entry
/// point: after such an option and its value, the next argument that is not an
/// option is the one found, never the value. For Node and Ruby, that argument is the
/// script.
pub proof fn option_values_are_skipped(i: int, x: Seq<char>, s: Seq<char>, rest: Seq<Seq<char>>)
    requires
        0 <= i < value_options().len(),
        s.len() > 0,
        s[0] != '-',
    ensures
        first_positional(value_options()[i].0, seq![value_options()[i].1, x, s] + rest) == Some(s),
        value_options()[i].0 == Runtime::Node || value_options()[i].0 == Runtime::Ruby ==> entry_of(
            value_options()[i].0,
            seq![value_options()[i].1, x, s] + rest,
        ) == Some(("Script"@, s)),
{
    reveal_strlit("--add-exports");
    reveal_strlit("--add-modules");
    reveal_strlit("--add-opens");
    reveal_strlit("--check-hash-based-pycs");
    reveal_strlit("--class-path");
    reveal_strlit("--import");
    reveal_strlit("--loader");
    reveal_strlit("--module-path");
    reveal_strlit("--require");
    reveal_strlit("-C");
    reveal_strlit("-I");
    reveal_strlit("-W");
    reveal_strlit("-X");
    reveal_strlit("-classpath");
    reveal_strlit("-cp");
    reveal_strlit("-p");
    reveal_strlit("-r");
    let rt = value_options()[i].0;
    let opt = value_options()[i].1;
    let args = seq![opt, x, s] + rest;
    assert(takes_value(rt, opt));
    assert(!takes_value(rt, s));
    assert(args[0] == opt);
    assert(args.subrange(2, args.len() as int) =~= seq![s] + rest);
    assert((seq![s] + rest)[0] == s);
    assert(first_positional(rt, seq![s] + rest) == Some(s));
}

/// The argument after the first one that is `f1` or `f2`, if there is one.
pub open spec fn value_after(args: Seq<Seq<char>>, f1: Seq<char>, f2: Seq<char>) -> Option<
    Seq<char>,
>
    decreases args.len(),
{
    if args.len() == 0 {
        None
    } else if args[0] == f1 || args[0] == f2 {
        if args.len() >= 2 {
            Some(args[1])
        } else {
            None
        }
    } else {
        value_after(args.drop_first(), f1, f2)
    }
}

/// The text of an optional string.
pub open spec fn opt_view(o: Option<String>) -> Option<Seq<char>> {
    match o {
        Some(s) => Some(s@),
        None => None,
    }
}

/// Find the first positional argument of `args[from..]`.
fn first_positional_from(rt: Runtime, args: &[String], from: usize) -> (r: Option<String>)
    requires
        from <= args@.len(),
    ensures
        opt_view(r) == first_positional(rt, views(args@).subrange(from as int, args@.len() as int)),
{
    let ghost all = views(args@);
    let mut i: usize = from;
    while i < args.len()
        invariant
            from <= i <= args@.len(),
            all == views(args@),
            first_positional(rt, all.subrange(from as int, args@.len() as int)) == first_positional(
                rt,
                all.subrange(i as int, args@.len() as int),
            ),
        decreases args@.len() - i,
    {
        let arg = chars_of(args[i].as_str());
        let ghost rest = all.subrange(i as int, args@.len() as int);
        assert(rest[0] == arg@);
        if option_takes_value(rt, &arg) {
            if i + 1 < args.len() {
                assert(rest.subrange(2, rest.len() as int) =~= all.subrange(i + 2, args@.len() as int));
                i = i + 2;
            } else {
                return None;
            }
        } else if !(arg.len() > 0 && arg[0] == '-') {
            return Some(args[i].clone());
        } else {
            assert(rest.drop_first() =~= all.subrange(i + 1, args@.len() as int));
            i = i + 1;
        }
    }
    None
}

/// Return the argument of `args[from..]` following `f1` or `f2`, if any.
fn value_after_from(args: &[String], from: usize, f1: &str, f2: &str) -> (r: Option<String>)
    requires
        from <= args@.len(),
    ensures
        opt_view(r) == value_after(views(args@).subrange(from as int, args@.len() as int), f1@, f2@),
{
    let ghost all = views(args@);
    let mut i: usize = from;
    while i < args.len()
        invariant
            from <= i <= args@.len(),
            all == views(args@),
            value_after(all.subrange(from as int, args@.len() as int), f1@, f2@) == value_after(
                all.subrange(i as int, args@.len() as int),
                f1@,
                f2@,
            ),
        decreases args@.len() - i,
    {
        let arg = chars_of(args[i].as_str());
        let ghost rest = all.subrange(i as int, args@.len() as int);
        assert(rest[0] == arg@);
        if chars_are(&arg, f1) || chars_are(&arg, f2) {
            if i + 1 < args.len() {
                assert(rest[1] == args@[i + 1]@);
                return Some(args[i + 1].clone());
            } else {
                return None;
            }
        }
        assert(rest.drop_first() =~= all.subrange(i + 1, args@.len() as int));
        i = i + 1;
    }
    None
}

/// `p` with every `\` turned into `/`.
pub open spec fn slashed(p: Seq<char>) -> Seq<char> {
    p.map_values(|c: char| if c == '\\' { '/' } else { c })
}

/// Whether `pat` occurs in `s` at position `i`.
pub open spec fn occurs_at(s: Seq<char>, pat: Seq<char>, i: int) -> bool {
    0 <= i && i + pat.len() <= s.len() && s.subrange(i, i + pat.len()) == pat
}

/// What follows the last occurrence of `pat` in `s`, if `pat` occurs.
pub open spec fn after_last(s: Seq<char>, pat: Seq<char>) -> Option<Seq<char>> {
    if exists|i: int| occurs_at(s, pat, i) {
        let i = choose|i: int| occurs_at(s, pat, i) && forall|j: int| i < j ==> !occurs_at(s, pat, j);
        Some(s.subrange(i + pat.len(), s.len() as int))
    } else {
        None
    }
}

/// The part of `s` before its first `/` (all of `s` when it has none).
pub open spec fn before_slash(s: Seq<char>) -> Seq<char>
    decreases s.len(),
{
    if s.len() == 0 {
        s
    } else if s[0] == '/' {
        seq![]
    } else {
        seq![s[0]] + before_slash(s.drop_first())
    }
}

/// The package an entry point comes from when its path lies in `node_modules`: the
/// first directory after the last `node_modules/`, or the first two for a scoped
/// (`@scope/name`) package.
pub open spec fn package_in_path(path: Seq<char>) -> Option<Seq<char>> {
    match after_last(slashed(path), "node_modules/"@) {
        None => None,
        Some(rest) => {
            let first = before_slash(rest);
            if first.len() == 0 {
                None
            } else if first[0] == '@' {
                if rest.len() > first.len() {
                    Some(
                        first + "/"@ + before_slash(rest.subrange(first.len() as int + 1, rest.len() as int)),
                    )
                } else {
                    None
                }
            } else {
                Some(first)
            }
        }
    }
}

/// The index of the first `/` in `v[from..]`, or the length of `v`.
fn slash_index(v: &Vec<char>, from: usize) -> (k: usize)
    requires
        from <= v@.len(),
    ensures
        from <= k <= v@.len(),
        v@.subrange(from as int, k as int) == before_slash(v@.subrange(from as int, v@.len() as int)),
        k < v@.len() ==> v@[k as int] == '/',
{
    let mut k: usize = from;
    assert(v@.subrange(from as int, k as int) =~= Seq::<char>::empty());
    assert(before_slash(v@.subrange(from as int, v@.len() as int)) =~= v@.subrange(
        from as int,
        k as int,
    ) + before_slash(v@.subrange(k as int, v@.len() as int)));
    while k < v.len() && v[k] != '/'
        invariant
            from <= k <= v@.len(),
            before_slash(v@.subrange(from as int, v@.len() as int)) == v@.subrange(from as int, k as int)
                + before_slash(v@.subrange(k as int, v@.len() as int)),
        decreases v@.len() - k,
    {
        let ghost rest = v@.subrange(k as int, v@.len() as int);
        assert(rest.drop_first() =~= v@.subrange(k + 1, v@.len() as int));
        assert(v@.subrange(from as int, k + 1) =~= v@.subrange(from as int, k as int) + seq![v@[k as int]]);
        k = k + 1;
    }
    if k == v.len() {
        assert(before_slash(v@.subrange(k as int, v@.len() as int)) =~= Seq::<char>::empty());
    }
    assert(v@.subrange(from as int, k as int) =~= before_slash(
        v@.subrange(from as int, v@.len() as int),
    ));
    k
}

/// Where the last occurrence of `pat` in `v` starts, if `pat` occurs in `v`.
fn last_occurrence(v: &Vec<char>, pat: &str) -> (r: Option<usize>)
    ensures
        match r {
            Some(at) => occurs_at(v@, pat@, at as int) && forall|j: int|
                at < j ==> !occurs_at(v@, pat@, j),
            None => forall|j: int| !occurs_at(v@, pat@, j),
        },
{
    let pn = pat.unicode_len();
    if pn > v.len() {
        return None;
    }
    let len: usize = v.len();
    let mut i: usize = len - pn;
    loop
        invariant
            pn == pat@.len(),
            pn <= v@.len(),
            i + pn <= v@.len(),
            v@.len() <= usize::MAX,
            forall|j: int| i < j ==> !occurs_at(v@, pat@, j),
        decreases i,
    {
        if range_is(v, i, i + pn, pat) {
            return Some(i);
        }
        if i == 0 {
            return None;
        }
        i = i - 1;
    }
}

/// Extract the package name from a path inside `node_modules`.
pub fn node_package(path: &str) -> (r: Option<String>)
    ensures
        opt_view(r) == package_in_path(path@),
{
    let raw = chars_of(path);
    let mut v: Vec<char> = Vec::new();
    let mut i: usize = 0;
    while i < raw.len()
        invariant
            i <= raw@.len(),
            v@ == slashed(raw@.subrange(0, i as int)),
        decreases raw@.len() - i,
    {
        let c = raw[i];
        v.push(if c == '\\' { '/' } else { c });
        i = i + 1;
        assert(v@ =~= slashed(raw@.subrange(0, i as int)));
    }
    assert(raw@.subrange(0, raw@.len() as int) =~= path@);
    let ghost s = v@;
    let pat = "node_modules/";
    let pn = pat.unicode_len();
    let at = match last_occurrence(&v, pat) {
        Some(at) => at,
        None => {
            return None;
        },
    };
    assert(occurs_at(s, pat@, at as int));
    let ghost chosen = choose|i: int|
        occurs_at(s, pat@, i) && forall|j: int| i < j ==> !occurs_at(s, pat@, j);
    assert(chosen == at);
    let start = at + pn;
    let ghost rest = v@.subrange(start as int, v@.len() as int);
    let k = slash_index(&v, start);
    if k == start {
        return None;
    }
    if v[start] == '@' {
        if k == v.len() {
            return None;
        }
        let k2 = slash_index(&v, k + 1);
        let mut out = string_of(&v, start, k);
        push_str(&mut out, "/");
        crate::text::push_range(&mut out, &v, k + 1, k2);
        assert(rest.subrange((k - start) + 1, rest.len() as int) =~= v@.subrange(
            k + 1,
            v@.len() as int,
        ));
        assert(out@ =~= v@.subrange(start as int, k as int) + "/"@ + v@.subrange(
            k + 1,
            k2 as int,
        ));
        return Some(out);
    }
    Some(string_of(&v, start, k))
}

/// What a runtime is actually running (script, jar, module, main class...).
#[derive(Debug, Clone, PartialEq, Eq)]
pub struct EntryPoint {
    /// Short label describing the kind of entry point ("Script", "Jar", ...).
    pub kind: &'static str,
    /// The entry point itself (path, module or class name).
    pub value: String,
    /// Package the entry point comes from, if it lives in `node_modules`.
    pub package: Option<String>,
}

fn make_entry(kind: &'static str, value: String) -> (e: EntryPoint)
    ensures
        e.kind@ == kind@,
        e.value@ == value@,
        opt_view(e.package) == package_in_path(value@),
{
    let package = node_package(value.as_str());
    EntryPoint { kind, value, package }
}

/// The kind and value of the entry point that `rt` runs with arguments `args` (the
/// executable excluded).
pub open spec fn entry_of(rt: Runtime, args: Seq<Seq<char>>) -> Option<(Seq<char>, Seq<char>)> {
    match rt {
        Runtime::Java => match value_after(args, "-jar"@, "-jar"@) {
            Some(v) => Some(("Jar"@, v)),
            None => match value_after(args, "-m"@, "--module"@) {
                Some(v) => Some(("Module"@, v)),
                None => match first_positional(rt, args) {
                    Some(v) => Some(("Main class"@, v)),
                    None => None,
                },
            },
        },
        Runtime::Python => match value_after(args, "-m"@, "-m"@) {
            Some(v) => Some(("Module"@, v)),
            None => match first_positional(rt, args) {
                Some(v) => Some(("Script"@, v)),
                None => None,
            },
        },
        Runtime::Deno | Runtime::Bun => {
            let rest = if args.len() > 0 && args[0] == "run"@ {
                args.drop_first()
            } else {
                args
            };
            match first_positional(rt, rest) {
                Some(v) => Some(("Script"@, v)),
                None => None,
            }
        },
        Runtime::DotNet => match first_positional(rt, args) {
            Some(v) => Some(("Assembly"@, v)),
            None => None,
        },
        Runtime::Node | Runtime::Ruby | Runtime::Php | Runtime::Perl => match first_positional(
            rt,
            args,
        ) {
            Some(v) => Some(("Script"@, v)),
            None => None,
        },
        _ => None,
    }
}

/// Whether `e` is the entry point described by `spec`.
pub open spec fn entry_matches(e: Option<EntryPoint>, spec: Option<(Seq<char>, Seq<char>)>) -> bool {
    match spec {
        None => e is None,
        Some((kind, value)) => e matches Some(p) && p.kind@ == kind && p.value@ == value && opt_view(
            p.package,
        ) == package_in_path(value),
    }
}

fn entry_from(kind: &'static str, value: Option<String>) -> (e: Option<EntryPoint>)
    ensures
        match value {
            Some(v) => e matches Some(p) && p.kind@ == kind@ && p.value@ == v@ && opt_view(p.package)
                == package_in_path(v@),
            None => e is None,
        },
{
    match value {
        Some(v) => Some(make_entry(kind, v)),
        None => None,
    }
}

/// Figure out what `runtime` is executing from `args[from..]`.
fn detect_entry_from(runtime: Runtime, args: &[String], from: usize) -> (r: Option<EntryPoint>)
    requires
        from <= args@.len(),
    ensures
        entry_matches(r, entry_of(runtime, views(args@).subrange(from as int, args@.len() as int))),
{
    let ghost a = views(args@).subrange(from as int, args@.len() as int);
    match runtime {
        Runtime::Java => {
            if let Some(jar) = value_after_from(args, from, "-jar", "-jar") {
                return entry_from("Jar", Some(jar));
            }
            if let Some(module) = value_after_from(args, from, "-m", "--module") {
                return entry_from("Module", Some(module));
            }
            entry_from("Main class", first_positional_from(runtime, args, from))
        },
        Runtime::Python => {
            if let Some(module) = value_after_from(args, from, "-m", "-m") {
                return entry_from("Module", Some(module));
            }
            entry_from("Script", first_positional_from(runtime, args, from))
        },
        Runtime::Deno | Runtime::Bun => {
            let mut skip: usize = from;
            if from < args.len() {
                let first = chars_of(args[from].as_str());
                assert(a[0] == first@);
                if chars_are(&first, "run") {
                    skip = from + 1;
                    assert(a.drop_first() =~= views(args@).subrange(skip as int, args@.len() as int));
                }
            }
            entry_from("Script", first_positional_from(runtime, args, skip))
        },
        Runtime::DotNet => entry_from("Assembly", first_positional_from(runtime, args, from)),
        Runtime::Node | Runtime::Ruby | Runtime::Php | Runtime::Perl => {
            entry_from("Script", first_positional_from(runtime, args, from))
        },
        _ => None,
    }
}

/// Figure out what the runtime is executing from its arguments.
pub fn detect_entry(runtime: Runtime, args: &[String]) -> (r: Option<EntryPoint>)
    ensures
        entry_matches(r, entry_of(runtime, views(args@))),
{
    assert(views(args@).subrange(0, args@.len() as int) =~= views(args@));
    detect_entry_from(runtime, args, 0)
}

/// The parts joined with `sep` between each two.
pub open spec fn joined(parts: Seq<Seq<char>>, sep: Seq<char>) -> Seq<char>
    decreases parts.len(),
{
    if parts.len() == 0 {
        seq![]
    } else if parts.len() == 1 {
        parts[0]
    } else {
        joined(parts.drop_last(), sep) + sep + parts.last()
    }
}

/// The strings of `parts` joined with `sep` between each two.
pub fn join_strings(parts: &[String], sep: &str) -> (s: String)
    ensures
        s@ == joined(views(parts@), sep@),
{
    let mut s = String::new();
    let mut i: usize = 0;
    while i < parts.len()
        invariant
            i <= parts@.len(),
            s@ == joined(views(parts@).subrange(0, i as int), sep@),
        decreases parts@.len() - i,
    {
        let ghost before = s@;
        if i > 0 {
            push_str(&mut s, sep);
        }
        push_str(&mut s, parts[i].as_str());
        proof {
            let now = views(parts@).subrange(0, i + 1);
            assert(now.drop_last() =~= views(parts@).subrange(0, i as int));
            if i == 0 {
                assert(before =~= Seq::<char>::empty());
                assert(s@ =~= now[0]);
            } else {
                assert(s@ =~= joined(now.drop_last(), sep@) + sep@ + now.last());
            }
        }
        i = i + 1;
    }
    assert(views(parts@).subrange(0, parts@.len() as int) =~= views(parts@));
    s
}

/// Everything worth showing about a process before killing it.
#[derive(Debug, Clone, PartialEq)]
pub struct ProcessInfo {
    pub pid: u32,
    pub name: String,
    pub runtime: Runtime,
    pub entry: Option<EntryPoint>,
    pub command: String,
    pub exe: Option<String>,
    pub cwd: Option<String>,
    pub user: Option<String>,
    pub memory_bytes: u64,
    pub uptime_secs: u64,
    /// Names of all descendants that will be killed along with this process.
    pub children: Vec<String>,
}

/// The arguments of a command line, the executable excluded.
pub open spec fn arguments(cmd: Seq<Seq<char>>) -> Seq<Seq<char>> {
    if cmd.len() == 0 {
        cmd
    } else {
        cmd.drop_first()
    }
}

/// Whether `info` describes the process `pid` with entry `p` and descendants named
/// `children`.
pub open spec fn describes(info: ProcessInfo, pid: u32, p: ProcEntry, children: Seq<Seq<char>>) -> bool {
    &&& info.pid == pid
    &&& info.name@ == p.name@
    &&& info.runtime == runtime_for(normalized_exe_name(p.name@))
    &&& entry_matches(info.entry, entry_of(info.runtime, arguments(views(p.cmd@))))
    &&& info.command@ == joined(views(p.cmd@), " "@)
    &&& opt_view(info.exe) == opt_view(p.exe)
    &&& opt_view(info.cwd) == opt_view(p.cwd)
    &&& opt_view(info.user) == opt_view(p.user)
    &&& info.memory_bytes == p.memory
    &&& info.uptime_secs == p.run_time
    &&& views(info.children@) == children
}

fn clone_text(o: &Option<String>) -> (r: Option<String>)
    ensures
        opt_view(r) == opt_view(*o),
{
    match o {
        Some(s) => Some(s.clone()),
        None => None,
    }
}

impl ProcessInfo {
    /// Build the description of `process`, given the names of its descendants.
    pub fn from_process(pid: u32, process: &ProcEntry, children: Vec<String>) -> (info: Self)
        ensures
            describes(info, pid, *process, views(children@)),
    {
        let name = process.name.clone();
        let runtime = detect_runtime(name.as_str());
        let args = process.cmd.as_slice();
        let from: usize = if args.len() > 0 {
            1
        } else {
            0
        };
        let entry = detect_entry_from(runtime, args, from);
        proof {
            if args@.len() > 0 {
                assert(views(args@).subrange(1, args@.len() as int) =~= views(args@).drop_first());
            } else {
                assert(views(args@).subrange(0, 0) =~= views(args@));
            }
        }
        let command = join_strings(args, " ");
        ProcessInfo {
            pid,
            name,
            runtime,
            entry,
            command,
            exe: clone_text(&process.exe),
            cwd: clone_text(&process.cwd),
            user: clone_text(&process.user),
            memory_bytes: process.memory,
            uptime_secs: process.run_time,
            children,
        }
    }
}

} // verus!
