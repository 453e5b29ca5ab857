use pep514_registry::registration::{
    create_registry_entry, plan_registry_entry, record_registry_outcome, write_registry_entry,
    ManagedPep514Error, ManagedPythonInstallation, PythonInstallationKey, RegistryWrite,
};
use target_lexicon::{Architecture, X86_32Architecture};
use windows_result::{Error, HRESULT};

fn installation(arch: Architecture, url: Option<&str>, sha256: Option<&str>) -> ManagedPythonInstallation {
    ManagedPythonInstallation {
        key: PythonInstallationKey {
            implementation: "CPython".to_string(),
            version: "3.13.1".to_string(),
            sys_version: "3.13".to_string(),
            arch,
        },
        path: "C:\\py\\cpython-3.13.1".to_string(),
        executable: "C:\\py\\cpython-3.13.1\\python.exe".to_string(),
        windowed_executable: "C:\\py\\cpython-3.13.1\\pythonw.exe".to_string(),
        url: url.map(|s| s.to_string()),
        sha256: sha256.map(|s| s.to_string()),
    }
}

fn lines(writes: &[RegistryWrite]) -> Vec<String> {
    writes
        .iter()
        .map(|w| match w {
            RegistryWrite::CreateKey(path) => format!("create {path}"),
            RegistryWrite::SetString(name, value) => format!("set {name}={value}"),
        })
        .collect()
}

fn expected(width: &str, extra: &[&str]) -> Vec<String> {
    let mut out = vec![
        "create Software\\Python\\Astral".to_string(),
        "set DisplayName=Astral".to_string(),
        "set SupportUrl=https://github.com/astral-sh/uv".to_string(),
        "create Software\\Python\\Astral\\CPython3.13.1".to_string(),
        format!("set DisplayName=CPython 3.13.1 ({width}-bit)"),
        "set SupportUrl=https://github.com/astral-sh/uv".to_string(),
        "set Version=3.13.1".to_string(),
        "set SysVersion=3.13".to_string(),
        format!("set SysArchitecture={width}bit"),
    ];
    out.extend(extra.iter().map(|s| s.to_string()));
    out.extend([
        "create Software\\Python\\Astral\\CPython3.13.1\\InstallPath".to_string(),
        "set =C:\\py\\cpython-3.13.1".to_string(),
        "set ExecutablePath=C:\\py\\cpython-3.13.1\\python.exe".to_string(),
        "set WindowedExecutablePath=C:\\py\\cpython-3.13.1\\pythonw.exe".to_string(),
    ]);
    out
}

#[test]
fn writes_for_64_bit_without_provenance() {
    let inst = installation(Architecture::X86_64, None, None);
    assert_eq!(lines(&write_registry_entry(&inst, 64)), expected("64", &[]));
}

#[test]
fn writes_include_download_url_and_checksum() {
    let inst = installation(Architecture::X86_64, Some("https://example.com/py.tar.gz"), Some("abc123"));
    assert_eq!(
        lines(&write_registry_entry(&inst, 32)),
        expected(
            "32",
            &["set DownloadUrl=https://example.com/py.tar.gz", "set DownloadSha256=abc123"]
        )
    );
}

#[test]
fn writes_include_checksum_alone() {
    let inst = installation(Architecture::X86_64, None, Some("abc123"));
    assert_eq!(lines(&write_registry_entry(&inst, 64)), expected("64", &["set DownloadSha256=abc123"]));
}

#[test]
fn pointer_width_mapping() {
    let inst = installation(Architecture::Unknown, None, None);
    assert_eq!(lines(&plan_registry_entry(&inst, Some(32)).unwrap()), expected("32", &[]));
    assert_eq!(lines(&plan_registry_entry(&inst, Some(64)).unwrap()), expected("64", &[]));
    assert!(matches!(
        plan_registry_entry(&inst, Some(16)),
        Err(ManagedPep514Error::InvalidPointerSize(Architecture::Unknown))
    ));
    assert!(matches!(
        plan_registry_entry(&inst, None),
        Err(ManagedPep514Error::InvalidPointerSize(Architecture::Unknown))
    ));
}

#[test]
fn create_entry_uses_family_pointer_width() {
    let inst = installation(Architecture::X86_64, None, None);
    assert_eq!(lines(&create_registry_entry(&inst).unwrap()), expected("64", &[]));
    let inst = installation(Architecture::X86_32(X86_32Architecture::I686), None, None);
    assert_eq!(lines(&create_registry_entry(&inst).unwrap()), expected("32", &[]));
}

#[test]
fn create_entry_rejects_unknown_pointer_width() {
    let inst = installation(Architecture::Unknown, None, None);
    assert!(matches!(
        create_registry_entry(&inst),
        Err(ManagedPep514Error::InvalidPointerSize(Architecture::Unknown))
    ));
    let inst = installation(Architecture::Avr, None, None);
    assert!(matches!(
        create_registry_entry(&inst),
        Err(ManagedPep514Error::InvalidPointerSize(Architecture::Avr))
    ));
}

#[test]
fn batch_failure_is_isolated() {
    let first = installation(Architecture::X86_64, None, None);
    let mut second = installation(Architecture::X86_64, None, None);
    second.key.version = "3.12.8".to_string();
    let mut errors: Vec<(PythonInstallationKey, Error)> = Vec::new();
    record_registry_outcome(&first, Err(Error::from_hresult(HRESULT(5))), &mut errors);
    assert!(create_registry_entry(&second).is_ok());
    record_registry_outcome(&second, Ok(()), &mut errors);
    assert_eq!(errors.len(), 1);
    assert_eq!(errors[0].0.version, "3.13.1");
    assert_eq!(errors[0].1.code(), HRESULT(5));
}
