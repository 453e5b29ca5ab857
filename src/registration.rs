//! Registration of a managed installation under the current user's scope.
use vstd::prelude::*;
use vstd::string::*;
use target_lexicon::Architecture;
use windows_result::Error;
use crate::platform::{family_pointer_width, pointer_bits_of};

verus! {

/// The vendor namespace that registered installations are written under.
pub const COMPANY: &'static str = "Astral";

pub const COMPANY_DISPLAY_NAME: &'static str = "Astral";

pub const SUPPORT_URL: &'static str = "https://github.com/astral-sh/uv";

/// The vendor root, relative to a scope.
pub const VENDOR_ROOT: &'static str = "Software\\Python";

/// What identifies an installation.
pub struct PythonInstallationKey {
    /// The implementation's display name, such as `CPython`.
    pub implementation: String,
    /// The full version, such as `3.13.1`.
    pub version: String,
    /// The `major.minor` version, such as `3.13`.
    pub sys_version: String,
    pub arch: Architecture,
}

pub struct KeyView {
    pub implementation: Seq<char>,
    pub version: Seq<char>,
    pub sys_version: Seq<char>,
    pub arch: Architecture,
}

impl View for PythonInstallationKey {
    type V = KeyView;

    open spec fn view(&self) -> KeyView {
        KeyView {
            implementation: self.implementation@,
            version: self.version@,
            sys_version: self.sys_version@,
            arch: self.arch,
        }
    }
}

impl PythonInstallationKey {
    pub fn copy_key(&self) -> (r: PythonInstallationKey)
        ensures
            r@ == self@,
    {
        PythonInstallationKey {
            implementation: self.implementation.clone(),
            version: self.version.clone(),
            sys_version: self.sys_version.clone(),
            arch: self.arch,
        }
    }
}

/// A managed installation, as far as registration reads it.
pub struct ManagedPythonInstallation {
    pub key: PythonInstallationKey,
    /// The installation's root directory.
    pub path: String,
    /// The console executable.
    pub executable: String,
    /// The windowed executable.
    pub windowed_executable: String,
    /// Where the build was downloaded from, if known.
    pub url: Option<String>,
    /// The download's SHA-256 checksum, if known.
    pub sha256: Option<String>,
}

#[derive(Debug)]
pub enum ManagedPep514Error {
    /// The architecture family has no pointer width of 32 or 64 bits.
    InvalidPointerSize(Architecture),
}

/// One mutation of the store, relative to the current user's scope.
pub enum RegistryWrite {
    /// Create (or open) the key at this path; later values go to it.
    CreateKey(String),
    /// Set a text value, by name, on the key created last; the empty name is
    /// the key's default value.
    SetString(String, String),
}

pub enum WriteView {
    CreateKey(Seq<char>),
    SetString(Seq<char>, Seq<char>),
}

impl View for RegistryWrite {
    type V = WriteView;

    open spec fn view(&self) -> WriteView {
        match self {
            RegistryWrite::CreateKey(p) => WriteView::CreateKey(p@),
            RegistryWrite::SetString(n, v) => WriteView::SetString(n@, v@),
        }
    }
}

pub open spec fn write_views(s: Seq<RegistryWrite>) -> Seq<WriteView> {
    s.map_values(|w: RegistryWrite| w@)
}

pub open spec fn width_text(width: u32) -> Seq<char> {
    if width == 32 {
        "32"@
    } else {
        "64"@
    }
}

pub open spec fn company_path() -> Seq<char> {
    VENDOR_ROOT@ + "\\"@ + COMPANY@
}

/// The tag, such as `CPython3.13.1`.
pub open spec fn tag_name(key: KeyView) -> Seq<char> {
    key.implementation + key.version
}

pub open spec fn tag_path(key: KeyView) -> Seq<char> {
    company_path() + "\\"@ + tag_name(key)
}

/// Such as `CPython 3.13.1 (64-bit)`.
pub open spec fn display_name(key: KeyView, width: u32) -> Seq<char> {
    key.implementation + " "@ + key.version + " ("@ + width_text(width) + "-bit)"@
}

pub open spec fn optional_value(name: Seq<char>, value: Option<String>) -> Seq<WriteView> {
    match value {
        Some(v) => seq![WriteView::SetString(name, v@)],
        None => Seq::empty(),
    }
}

/// Every mutation that registers `inst` with the given pointer width, in order.
pub open spec fn registry_writes(inst: ManagedPythonInstallation, width: u32) -> Seq<WriteView> {
    let key = inst.key@;
    seq![
        WriteView::CreateKey(company_path()),
        WriteView::SetString("DisplayName"@, COMPANY_DISPLAY_NAME@),
        WriteView::SetString("SupportUrl"@, SUPPORT_URL@),
        WriteView::CreateKey(tag_path(key)),
        WriteView::SetString("DisplayName"@, display_name(key, width)),
        WriteView::SetString("SupportUrl"@, SUPPORT_URL@),
        WriteView::SetString("Version"@, key.version),
        WriteView::SetString("SysVersion"@, key.sys_version),
        WriteView::SetString("SysArchitecture"@, width_text(width) + "bit"@),
    ] + optional_value("DownloadUrl"@, inst.url) + optional_value("DownloadSha256"@, inst.sha256)
        + seq![
        WriteView::CreateKey(tag_path(key) + "\\InstallPath"@),
        WriteView::SetString(""@, inst.path@),
        WriteView::SetString("ExecutablePath"@, inst.executable@),
        WriteView::SetString("WindowedExecutablePath"@, inst.windowed_executable@),
    ]
}

/// The registration of `inst` for a family whose pointer width in bits is
/// `bits` (`None`: unknown): the writes for a 32 or 64 bit width, and
/// otherwise the unsupported pointer width error, with nothing to write.
pub open spec fn registration_for(inst: ManagedPythonInstallation, bits: Option<u8>) -> Result<
    Seq<WriteView>,
    ManagedPep514Error,
> {
    match bits {
        Some(b) => if b == 32 || b == 64 {
            Ok(registry_writes(inst, b as u32))
        } else {
            Err(ManagedPep514Error::InvalidPointerSize(inst.key.arch))
        },
        None => Err(ManagedPep514Error::InvalidPointerSize(inst.key.arch)),
    }
}

/// The error list after one installation's writes ended with `outcome`.
pub open spec fn recorded(
    errors: Seq<(KeyView, Error)>,
    key: KeyView,
    outcome: Result<(), Error>,
) -> Seq<(KeyView, Error)> {
    match outcome {
        Ok(_) => errors,
        Err(e) => errors.push((key, e)),
    }
}

pub open spec fn error_views(s: Seq<(PythonInstallationKey, Error)>) -> Seq<(KeyView, Error)> {
    s.map_values(|p: (PythonInstallationKey, Error)| (p.0@, p.1))
}

/// In a batch, an installation whose writes failed is recorded with its own
/// error, and a later one whose writes succeeded adds no error.
pub proof fn lemma_batch_isolation(
    errors: Seq<(KeyView, Error)>,
    failed: KeyView,
    e: Error,
    succeeded: KeyView,
)
    ensures
        recorded(recorded(errors, failed, Err(e)), succeeded, Ok(())) == errors.push((failed, e)),
{
}

fn text(s: &str) -> (r: String)
    ensures
        r@ == s@,
{
    String::from_str(s)
}

fn join(a: &String, b: &str) -> (r: String)
    ensures
        r@ == a@ + b@,
{
    a.clone().concat(b)
}

/// The writes that register `installation` with a pointer width of
/// `pointer_width` bits.
pub fn write_registry_entry(installation: &ManagedPythonInstallation, pointer_width: u32) -> (r: Vec<
    RegistryWrite,
>)
    requires
        pointer_width == 32 || pointer_width == 64,
    ensures
        write_views(r@) == registry_writes(*installation, pointer_width),
{
    let key = &installation.key;
    let width = if pointer_width == 32 {
        text("32")
    } else {
        text("64")
    };
    let company = join(&join(&text(VENDOR_ROOT), "\\"), COMPANY);
    let tag = join(&join(&company, "\\"), key.implementation.as_str());
    let tag = join(&tag, key.version.as_str());
    let display = join(&join(&key.implementation, " "), key.version.as_str());
    let display = join(&join(&join(&display, " ("), width.as_str()), "-bit)");
    let install_path = join(&tag, "\\InstallPath");
    proof {
        assert(company@ =~= company_path());
        assert(tag@ =~= tag_path(key@));
        assert(display@ =~= display_name(key@, pointer_width));
        assert(install_path@ =~= tag_path(key@) + "\\InstallPath"@);
    }
    let mut writes: Vec<RegistryWrite> = Vec::new();
    writes.push(RegistryWrite::CreateKey(company));
    writes.push(RegistryWrite::SetString(text("DisplayName"), text(COMPANY_DISPLAY_NAME)));
    writes.push(RegistryWrite::SetString(text("SupportUrl"), text(SUPPORT_URL)));
    writes.push(RegistryWrite::CreateKey(tag));
    writes.push(RegistryWrite::SetString(text("DisplayName"), display));
    writes.push(RegistryWrite::SetString(text("SupportUrl"), text(SUPPORT_URL)));
    writes.push(RegistryWrite::SetString(text("Version"), key.version.clone()));
    writes.push(RegistryWrite::SetString(text("SysVersion"), key.sys_version.clone()));
    writes.push(RegistryWrite::SetString(text("SysArchitecture"), join(&width, "bit")));
    let ghost fixed = write_views(writes@);
    proof {
        assert(fixed =~= registry_writes(*installation, pointer_width).take(9));
    }
    match &installation.url {
        Some(url) => writes.push(RegistryWrite::SetString(text("DownloadUrl"), url.clone())),
        None => {},
    }
    let ghost with_url = write_views(writes@);
    proof {
        assert(with_url =~= fixed + optional_value("DownloadUrl"@, installation.url));
    }
    match &installation.sha256 {
        Some(sha256) => writes.push(
            RegistryWrite::SetString(text("DownloadSha256"), sha256.clone()),
        ),
        None => {},
    }
    let ghost with_sha = write_views(writes@);
    proof {
        assert(with_sha =~= with_url + optional_value("DownloadSha256"@, installation.sha256));
    }
    writes.push(RegistryWrite::CreateKey(install_path));
    writes.push(RegistryWrite::SetString(text(""), installation.path.clone()));
    writes.push(RegistryWrite::SetString(text("ExecutablePath"), installation.executable.clone()));
    writes.push(
        RegistryWrite::SetString(
            text("WindowedExecutablePath"),
            installation.windowed_executable.clone(),
        ),
    );
    proof {
        let tail = seq![
            WriteView::CreateKey(tag_path(key@) + "\\InstallPath"@),
            WriteView::SetString(""@, installation.path@),
            WriteView::SetString("ExecutablePath"@, installation.executable@),
            WriteView::SetString("WindowedExecutablePath"@, installation.windowed_executable@),
        ];
        assert(write_views(writes@) =~= with_sha + tail);
        assert(write_views(writes@) =~= registry_writes(*installation, pointer_width));
    }
    writes
}

/// The registration of `installation` for a family whose pointer width in
/// bits is `bits`: its writes where the width is 32 or 64, otherwise the
/// unsupported pointer width error and nothing to write.
pub fn plan_registry_entry(installation: &ManagedPythonInstallation, bits: Option<u8>) -> (r:
    Result<Vec<RegistryWrite>, ManagedPep514Error>)
    ensures
        match (r, registration_for(*installation, bits)) {
            (Ok(w), Ok(expected)) => write_views(w@) == expected,
            (Err(e), Err(expected)) => e == expected,
            _ => false,
        },
{
    match bits {
        Some(32) => Ok(write_registry_entry(installation, 32)),
        Some(64) => Ok(write_registry_entry(installation, 64)),
        _ => Err(ManagedPep514Error::InvalidPointerSize(installation.key.arch)),
    }
}

/// Decides how to register `installation`: the writes to perform for the
/// pointer width of its architecture family, or, where that width is neither
/// 32 nor 64 bits, the unsupported pointer width error before anything is
/// written.
pub fn create_registry_entry(installation: &ManagedPythonInstallation) -> (r: Result<
    Vec<RegistryWrite>,
    ManagedPep514Error,
>)
    ensures
        match (r, registration_for(*installation, pointer_bits_of(installation.key.arch))) {
            (Ok(w), Ok(expected)) => write_views(w@) == expected,
            (Err(e), Err(expected)) => e == expected,
            _ => false,
        },
{
    let bits = family_pointer_width(installation.key.arch);
    plan_registry_entry(installation, bits)
}

/// Records the outcome of performing one installation's writes: a failure
/// is appended to `errors` under the installation's key, a success leaves
/// `errors` as it was.
pub fn record_registry_outcome(
    installation: &ManagedPythonInstallation,
    outcome: Result<(), Error>,
    errors: &mut Vec<(PythonInstallationKey, Error)>,
)
    ensures
        error_views(final(errors)@) == recorded(error_views(old(errors)@), installation.key@, outcome),
{
    let ghost before = error_views(errors@);
    let ghost o = outcome;
    match outcome {
        Ok(()) => {},
        Err(e) => {
            errors.push((installation.key.copy_key(), e));
            proof {
                assert(error_views(errors@) =~= recorded(before, installation.key@, o));
            }
        },
    }
}

} // verus!
