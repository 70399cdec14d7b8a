//! The install pipeline: asset naming, download locations, and the
//! order-sensitive trust chain as a state machine.  The unverified shell
//! performs each fetch and runs the signature check; this module decides
//! every step and refuses to hand out a binary unless the checksum stage
//! passed.  Archive decoding runs through the zip crate behind one trusted
//! wrapper; choosing the executable entry is verified.

use vstd::prelude::*;
use crate::chars::{occurs_at, occurs_at_exec, str_eq_str};
use crate::trust::{
    checksum_ok, spec_signature_enabled, signature_enabled, verify_checksum, TrustError,
};

verus! {

// ---------- platform naming ----------

/// Map the platform's operating-system name to the release file name.
pub open spec fn spec_map_os(os: Seq<char>) -> Seq<char> {
    if os == "macos"@ {
        "darwin"@
    } else {
        os
    }
}

pub fn map_os(os: &str) -> (r: String)
    ensures
        r@ == spec_map_os(os@),
{
    if str_eq_str(os, "macos") {
        String::from_str("darwin")
    } else {
        os.to_owned()
    }
}

/// Map the platform's architecture name to the release file name.
pub open spec fn spec_map_arch(arch: Seq<char>) -> Seq<char> {
    if arch == "x86_64"@ {
        "amd64"@
    } else if arch == "aarch64"@ {
        "arm64"@
    } else {
        arch
    }
}

pub fn map_arch(arch: &str) -> (r: String)
    ensures
        r@ == spec_map_arch(arch@),
{
    if str_eq_str(arch, "x86_64") {
        String::from_str("amd64")
    } else if str_eq_str(arch, "aarch64") {
        String::from_str("arm64")
    } else {
        arch.to_owned()
    }
}

/// The executable's file name on the platform.
pub open spec fn spec_binary_name(windows: bool) -> Seq<char> {
    if windows {
        "terraform.exe"@
    } else {
        "terraform"@
    }
}

pub fn terraform_binary_name(windows: bool) -> (r: &'static str)
    ensures
        r@ == spec_binary_name(windows),
{
    if windows {
        "terraform.exe"
    } else {
        "terraform"
    }
}

// ---------- asset naming and locations ----------

/// `<product>_<version>_<os>_<arch>.zip`.
pub open spec fn spec_asset_name(
    product: Seq<char>,
    version: Seq<char>,
    os: Seq<char>,
    arch: Seq<char>,
) -> Seq<char> {
    product + "_"@ + version + "_"@ + os + "_"@ + arch + ".zip"@
}

pub fn asset_name(product: &str, version: &str, os: &str, arch: &str) -> (r: String)
    ensures
        r@ == spec_asset_name(product@, version@, os@, arch@),
{
    let mut out = product.to_owned();
    out.append("_");
    out.append(version);
    out.append("_");
    out.append(os);
    out.append("_");
    out.append(arch);
    out.append(".zip");
    out
}

/// Where the asset is downloaded from: under `<remote>/<version>/` for
/// the terraform index, under `<remote>/v<version>/` for a tag-style
/// release page.
pub open spec fn spec_asset_url(
    product: Seq<char>,
    remote: Seq<char>,
    version: Seq<char>,
    asset: Seq<char>,
) -> Seq<char> {
    let base = if remote.len() > 0 && remote.last() == '/' {
        remote
    } else {
        remote + "/"@
    };
    if product == "terraform"@ {
        base + version + "/"@ + asset
    } else {
        base + "v"@ + version + "/"@ + asset
    }
}

pub fn asset_url(product: &str, remote: &str, version: &str, asset: &str) -> (r: String)
    ensures
        r@ == spec_asset_url(product@, remote@, version@, asset@),
{
    let n = remote.unicode_len();
    let mut out = remote.to_owned();
    if n == 0 || remote.get_char(n - 1) != '/' {
        out.append("/");
    }
    if str_eq_str(product, "terraform") {
        out.append(version);
        out.append("/");
        out.append(asset);
    } else {
        out.append("v");
        out.append(version);
        out.append("/");
        out.append(asset);
    }
    out
}

/// Where an installed version's executable stands.
pub open spec fn spec_installed_binary_path(
    config_dir: Seq<char>,
    version: Seq<char>,
    windows: bool,
) -> Seq<char> {
    config_dir + "/versions/"@ + version + "/"@ + spec_binary_name(windows)
}

pub fn installed_binary_path(config_dir: &str, version: &str, windows: bool) -> (r: String)
    ensures
        r@ == spec_installed_binary_path(config_dir@, version@, windows),
{
    let mut out = config_dir.to_owned();
    out.append("/versions/");
    out.append(version);
    out.append("/");
    out.append(terraform_binary_name(windows));
    out
}

// ---------- the archive (outside crate) ----------

/// Whether the bytes decode as a readable zip archive.
pub uninterp spec fn zip_ok(data: Seq<u8>) -> bool;

/// The named entries of the archive, in archive order.
pub uninterp spec fn zip_entries(data: Seq<u8>) -> Seq<(Seq<char>, Seq<u8>)>;

/// Relies on zip::ZipArchive (new, len, by_index, ZipFile::name) and
/// std::io::Read::read_to_end: whether bytes decode as an archive and
/// which named entries they hold depend on the bytes alone.
#[verifier::external_body]
fn unzip_entries(data: &Vec<u8>) -> (r: Option<Vec<(String, Vec<u8>)>>)
    ensures
        r is Some <==> zip_ok(data@),
        r matches Some(v) ==> v@.len() == zip_entries(data@).len() && forall|i: int|
            0 <= i < v@.len() ==> (#[trigger] v@[i]).0@ == zip_entries(data@)[i].0 && v@[i].1@
                == zip_entries(data@)[i].1,
{
    let mut ar = zip::ZipArchive::new(std::io::Cursor::new(data.as_slice())).ok()?;
    let mut out = Vec::new();
    for i in 0..ar.len() {
        let mut e = ar.by_index(i).ok()?;
        let name = e.name().to_string();
        let mut buf = Vec::new();
        std::io::Read::read_to_end(&mut e, &mut buf).ok()?;
        out.push((name, buf));
    }
    Some(out)
}

// ---------- choosing the executable entry ----------

pub open spec fn ends_with(s: Seq<char>, suf: Seq<char>) -> bool {
    suf.len() <= s.len() && s.skip(s.len() - suf.len()) == suf
}

fn str_ends_with(s: &str, suf: &str) -> (r: bool)
    ensures
        r == ends_with(s@, suf@),
{
    let n = s.unicode_len();
    let m = suf.unicode_len();
    if m > n {
        return false;
    }
    let r = occurs_at_exec(s, suf, n - m);
    proof {
        if occurs_at(s@, suf@, n - m) {
            assert(s@.skip(n - m) =~= s@.subrange(n - m, n as int));
        }
        if ends_with(s@, suf@) {
            assert(s@.subrange(n - m, n as int) =~= s@.skip(n - m));
        }
    }
    r
}

/// An archive entry that carries the executable: its name ends with the
/// platform's binary name, or with the bare product name.
pub open spec fn entry_matches(name: Seq<char>, windows: bool) -> bool {
    ends_with(name, spec_binary_name(windows)) || ends_with(name, "terraform"@)
}

/// Index of the first matching entry, or the length if none matches.
pub open spec fn entry_idx(es: Seq<(Seq<char>, Seq<u8>)>, windows: bool) -> int
    decreases es.len(),
{
    if es.len() == 0 {
        0
    } else if entry_matches(es[0].0, windows) {
        0
    } else {
        1 + entry_idx(es.drop_first(), windows)
    }
}

proof fn lemma_entry_idx_is(es: Seq<(Seq<char>, Seq<u8>)>, windows: bool, i: int)
    requires
        0 <= i <= es.len(),
        forall|m: int| 0 <= m < i ==> !entry_matches((#[trigger] es[m]).0, windows),
        i < es.len() ==> entry_matches(es[i].0, windows),
    ensures
        entry_idx(es, windows) == i,
    decreases es.len(),
{
    if es.len() == 0 {
    } else if entry_matches(es[0].0, windows) {
        assert(i == 0);
    } else {
        assert(i >= 1) by {
            if i == 0 {
                assert(entry_matches(es[0].0, windows));
            }
        }
        assert forall|m: int|
            0 <= m < i - 1 implies !entry_matches((#[trigger] es.drop_first()[m]).0, windows) by {
            assert(es.drop_first()[m] == es[m + 1]);
        }
        assert(i - 1 < es.drop_first().len() ==> entry_matches(es.drop_first()[i - 1].0, windows));
        lemma_entry_idx_is(es.drop_first(), windows, i - 1);
    }
}

/// What can go wrong while installing.
#[derive(Debug)]
pub enum InstallError {
    /// `latest` must be resolved to a concrete version before installing.
    LatestNotExplicit,
    /// The checksum stage failed; installation must not proceed.
    Checksum(TrustError),
    /// The digest list's signature did not verify.
    SignatureInvalid,
    /// The downloaded bytes are not a readable archive.
    BadArchive,
    /// No archive entry carries the executable.
    BinaryNotFound,
}

/// The bytes of the executable inside a verified archive.
pub open spec fn binary_from_archive(data: Seq<u8>, windows: bool, binary: Seq<u8>) -> bool {
    &&& zip_ok(data)
    &&& entry_idx(zip_entries(data), windows) < zip_entries(data).len()
    &&& binary == zip_entries(data)[entry_idx(zip_entries(data), windows)].1
}

/// Pick the executable out of the downloaded archive bytes.
pub fn extract_binary(data: &Vec<u8>, windows: bool) -> (r: Result<Vec<u8>, InstallError>)
    ensures
        match r {
            Ok(b) => binary_from_archive(data@, windows, b@),
            Err(e) => match e {
                InstallError::BadArchive => !zip_ok(data@),
                InstallError::BinaryNotFound => zip_ok(data@) && entry_idx(
                    zip_entries(data@),
                    windows,
                ) >= zip_entries(data@).len(),
                _ => false,
            },
        },
{
    let entries = match unzip_entries(data) {
        Some(v) => v,
        None => {
            return Err(InstallError::BadArchive);
        },
    };
    let ghost es = zip_entries(data@);
    let bin_name = terraform_binary_name(windows);
    let mut i: usize = 0;
    while i < entries.len()
        invariant
            bin_name@ == spec_binary_name(windows),
            0 <= i <= entries.len(),
            es == zip_entries(data@),
            zip_ok(data@),
            entries@.len() == es.len(),
            forall|m: int|
                0 <= m < es.len() ==> (#[trigger] entries@[m]).0@ == es[m].0 && entries@[m].1@
                    == es[m].1,
            forall|m: int| 0 <= m < i ==> !entry_matches((#[trigger] es[m]).0, windows),
        decreases entries.len() - i,
    {
        let name = &entries[i].0;
        proof {
            assert(name@ == entries@[i as int].0@);
            assert(entries@[i as int].0@ == es[i as int].0);
        }
        if str_ends_with(name.as_str(), bin_name) || str_ends_with(name.as_str(), "terraform") {
            proof {
                assert(entry_matches(es[i as int].0, windows));
                lemma_entry_idx_is(es, windows, i as int);
            }
            let pair = &entries[i];
            return Ok(pair.1.clone());
        }
        proof {
            assert(!entry_matches(es[i as int].0, windows));
        }
        i += 1;
    }
    proof {
        lemma_entry_idx_is(es, windows, es.len() as int);
    }
    Err(InstallError::BinaryNotFound)
}

// ---------- the install state machine ----------

/// Where an install stands.  The byte payloads travel with the state so
/// that nothing can be unpacked but what was verified.
pub enum InstallState {
    /// Fetch the asset from its download location.
    NeedAsset,
    /// Fetch the digest list from the canonical trust root.
    NeedSums { data: Vec<u8> },
    /// Fetch the detached signature and run the signature check.
    NeedSig { data: Vec<u8> },
    /// All enabled trust stages passed; the archive may be unpacked.
    Ready { data: Vec<u8> },
    /// The executable's bytes, ready to be placed and marked executable.
    Unpacked { binary: Vec<u8> },
    /// The install is aborted; nothing may be placed.
    Failed(InstallError),
}

/// What the checksum stage established, carried as ghost history.
pub ghost enum TrustEvidence {
    NotChecked,
    Checked { sums: Seq<char>, data: Seq<u8> },
}

/// One install operation, strictly sequential.
pub struct InstallSession {
    pub product: String,
    pub version: String,
    pub remote: String,
    pub asset: String,
    pub windows: bool,
    pub sig_required: bool,
    pub state: InstallState,
    pub evidence: Ghost<TrustEvidence>,
}

impl InstallSession {
    /// The trust-chain invariant: for the product the trust root covers,
    /// bytes reach `Ready` or `Unpacked` only with checksum evidence.
    pub open spec fn inv(self) -> bool {
        match self.state {
            InstallState::NeedSig { data } => self.product@ == "terraform"@ ==> (self.evidence@
                matches TrustEvidence::Checked { sums, data: bytes } && bytes == data@
                && checksum_ok(sums, self.asset@, bytes)),
            InstallState::Ready { data } => self.product@ == "terraform"@ ==> (self.evidence@
                matches TrustEvidence::Checked { sums, data: bytes } && bytes == data@
                && checksum_ok(sums, self.asset@, bytes)),
            InstallState::Unpacked { binary } => self.product@ == "terraform"@ ==> (self.evidence@
                matches TrustEvidence::Checked { sums, data: bytes } && checksum_ok(
                sums,
                self.asset@,
                bytes,
            ) && binary_from_archive(bytes, self.windows, binary@)),
            _ => true,
        }
    }

    /// Start an install of a concrete version.  A bare `latest` is
    /// refused: resolution is a separate, earlier step.
    pub fn new(
        product: String,
        version: String,
        remote: String,
        os: &str,
        arch: &str,
        windows: bool,
        trust_var: &Option<String>,
        marker_exists: bool,
    ) -> (r: Result<InstallSession, InstallError>)
        ensures
            match r {
                Ok(s) => {
                    &&& version@ != "latest"@
                    &&& s.inv()
                    &&& s.state is NeedAsset
                    &&& s.product@ == product@
                    &&& s.version@ == version@
                    &&& s.remote@ == remote@
                    &&& s.windows == windows
                    &&& s.asset@ == spec_asset_name(product@, version@, os@, arch@)
                    &&& s.sig_required == spec_signature_enabled(
                        match trust_var {
                            Some(t) => Some(t@),
                            None => None,
                        },
                        marker_exists,
                    )
                },
                Err(e) => version@ == "latest"@ && e is LatestNotExplicit,
            },
    {
        if str_eq_str(version.as_str(), "latest") {
            return Err(InstallError::LatestNotExplicit);
        }
        let asset = asset_name(product.as_str(), version.as_str(), os, arch);
        let sig_required = signature_enabled(trust_var, marker_exists);
        Ok(
            InstallSession {
                product,
                version,
                remote,
                asset,
                windows,
                sig_required,
                state: InstallState::NeedAsset,
                evidence: Ghost(TrustEvidence::NotChecked),
            },
        )
    }

    /// Where to fetch the asset.
    pub fn download_url(&self) -> (r: String)
        ensures
            r@ == spec_asset_url(self.product@, self.remote@, self.version@, self.asset@),
    {
        asset_url(
            self.product.as_str(),
            self.remote.as_str(),
            self.version.as_str(),
            self.asset.as_str(),
        )
    }

    /// The asset was fetched.  For the product the trust root covers the
    /// digest list comes next; for any other product verification is
    /// skipped entirely (a known, visible trust gap).
    pub fn on_asset(self, data: Vec<u8>) -> (r: Self)
        requires
            self.inv(),
            self.state is NeedAsset,
        ensures
            r.inv(),
            r.product == self.product,
            r.version == self.version,
            r.remote == self.remote,
            r.asset == self.asset,
            r.windows == self.windows,
            r.sig_required == self.sig_required,
            self.product@ == "terraform"@ ==> (r.state matches InstallState::NeedSums { data: d }
                && d@ == data@),
            self.product@ != "terraform"@ ==> (r.state matches InstallState::Ready { data: d }
                && d@ == data@),
    {
        if str_eq_str(self.product.as_str(), "terraform") {
            InstallSession { state: InstallState::NeedSums { data }, ..self }
        } else {
            InstallSession { state: InstallState::Ready { data }, ..self }
        }
    }

    /// The digest list was fetched: run the checksum stage.  On mismatch
    /// or a missing digest line the install fails here, before anything
    /// is unpacked or placed.
    pub fn on_sums(self, sums: &str) -> (r: Self)
        requires
            self.inv(),
            self.state is NeedSums,
        ensures
            r.inv(),
            r.product == self.product,
            r.version == self.version,
            r.remote == self.remote,
            r.asset == self.asset,
            r.windows == self.windows,
            r.sig_required == self.sig_required,
            ({
                let data = self.state->NeedSums_data;
                if checksum_ok(sums@, self.asset@, data@) {
                    if self.sig_required {
                        r.state matches InstallState::NeedSig { data: d } && d@ == data@
                    } else {
                        r.state matches InstallState::Ready { data: d } && d@ == data@
                    }
                } else {
                    r.state matches InstallState::Failed(e) && e matches InstallError::Checksum(_)
                }
            }),
    {
        let data = match self.state {
            InstallState::NeedSums { data } => data,
            _ => {
                proof {
                    assert(false);
                }
                Vec::new()
            },
        };
        match verify_checksum(sums, self.asset.as_str(), &data) {
            Ok(()) => {
                let evidence = Ghost(TrustEvidence::Checked { sums: sums@, data: data@ });
                if self.sig_required {
                    InstallSession {
                        state: InstallState::NeedSig { data },
                        evidence,
                        product: self.product,
                        version: self.version,
                        remote: self.remote,
                        asset: self.asset,
                        windows: self.windows,
                        sig_required: self.sig_required,
                    }
                } else {
                    InstallSession {
                        state: InstallState::Ready { data },
                        evidence,
                        product: self.product,
                        version: self.version,
                        remote: self.remote,
                        asset: self.asset,
                        windows: self.windows,
                        sig_required: self.sig_required,
                    }
                }
            },
            Err(e) => {
                InstallSession {
                    state: InstallState::Failed(InstallError::Checksum(e)),
                    product: self.product,
                    version: self.version,
                    remote: self.remote,
                    asset: self.asset,
                    windows: self.windows,
                    sig_required: self.sig_required,
                    evidence: self.evidence,
                }
            },
        }
    }

    /// The signature stage's verdict, reported by the shell that ran the
    /// verifier over the fetched digest list and detached signature.
    pub fn on_sig(self, sig_ok: bool) -> (r: Self)
        requires
            self.inv(),
            self.state is NeedSig,
        ensures
            r.inv(),
            r.product == self.product,
            r.version == self.version,
            r.remote == self.remote,
            r.asset == self.asset,
            r.windows == self.windows,
            sig_ok ==> (r.state matches InstallState::Ready { data: d } && d@ == self
                .state->NeedSig_data@),
            !sig_ok ==> (r.state matches InstallState::Failed(e) && e is SignatureInvalid),
    {
        let data = match self.state {
            InstallState::NeedSig { data } => data,
            _ => {
                proof {
                    assert(false);
                }
                Vec::new()
            },
        };
        if sig_ok {
            InstallSession {
                state: InstallState::Ready { data },
                product: self.product,
                version: self.version,
                remote: self.remote,
                asset: self.asset,
                windows: self.windows,
                sig_required: self.sig_required,
                evidence: self.evidence,
            }
        } else {
            InstallSession {
                state: InstallState::Failed(InstallError::SignatureInvalid),
                product: self.product,
                version: self.version,
                remote: self.remote,
                asset: self.asset,
                windows: self.windows,
                sig_required: self.sig_required,
                evidence: self.evidence,
            }
        }
    }

    /// Unpack the verified archive and keep the executable's bytes.
    pub fn unpack(self) -> (r: Self)
        requires
            self.inv(),
            self.state is Ready,
        ensures
            r.inv(),
            r.product == self.product,
            r.version == self.version,
            r.remote == self.remote,
            r.asset == self.asset,
            r.windows == self.windows,
            ({
                let data = self.state->Ready_data;
                match r.state {
                    InstallState::Unpacked { binary } => binary_from_archive(
                        data@,
                        self.windows,
                        binary@,
                    ),
                    InstallState::Failed(e) => e is BadArchive && !zip_ok(data@) || e
                        is BinaryNotFound && zip_ok(data@) && entry_idx(
                        zip_entries(data@),
                        self.windows,
                    ) >= zip_entries(data@).len(),
                    _ => false,
                }
            }),
    {
        let data = match self.state {
            InstallState::Ready { data } => data,
            _ => {
                proof {
                    assert(false);
                }
                Vec::new()
            },
        };
        match extract_binary(&data, self.windows) {
            Ok(binary) => {
                InstallSession {
                    state: InstallState::Unpacked { binary },
                    product: self.product,
                    version: self.version,
                    remote: self.remote,
                    asset: self.asset,
                    windows: self.windows,
                    sig_required: self.sig_required,
                    evidence: self.evidence,
                }
            },
            Err(e) => {
                InstallSession {
                    state: InstallState::Failed(e),
                    product: self.product,
                    version: self.version,
                    remote: self.remote,
                    asset: self.asset,
                    windows: self.windows,
                    sig_required: self.sig_required,
                    evidence: self.evidence,
                }
            },
        }
    }
}

/// The trust chain at placement: for the covered product, an unpacked
/// binary came out of archive bytes whose published digest matched the
/// computed one.  A checksum mismatch can therefore never reach the
/// filesystem: the failing session is stuck in `Failed`.
pub proof fn lemma_unpacked_trusted(s: InstallSession)
    requires
        s.inv(),
        s.state is Unpacked,
        s.product@ == "terraform"@,
    ensures
        s.evidence@ matches TrustEvidence::Checked { sums, data } && checksum_ok(
            sums,
            s.asset@,
            data,
        ) && binary_from_archive(data, s.windows, s.state->Unpacked_binary@),
{
}


/// Installing the same version twice places the same content: the
/// executable's bytes are a function of the verified archive bytes, so a
/// second successful run over the same release leaves the binary
/// unchanged.
pub proof fn lemma_install_deterministic(data: Seq<u8>, windows: bool, b1: Seq<u8>, b2: Seq<u8>)
    requires
        binary_from_archive(data, windows, b1),
        binary_from_archive(data, windows, b2),
    ensures
        b1 == b2,
{
}

} // verus!
