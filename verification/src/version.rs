//! Version and build metadata.

use vstd::prelude::*;
use vstd::string::StringSliceAdditionalSpecFns;

verus! {

broadcast use vstd::string::group_string_axioms;

/// Version string of this build.
#[allow(non_upper_case_globals)]
pub const Version: &'static str = "0.1.0";

/// Git commit the build was made from.
pub const GIT_COMMIT: &'static str = "unknown";

/// Whether the working tree had uncommitted changes.
pub const GIT_DIRTY: bool = false;

/// Unix timestamp (seconds) of the build.
pub const BUILD_TIMESTAMP: &'static str = "0";

/// Target triple of the build.
pub const BUILD_TARGET: &'static str = "unknown-target";

/// Cargo profile of the build.
pub const BUILD_PROFILE: &'static str = "unknown";

/// Compiler version of the build.
pub const RUSTC_VERSION: &'static str = "unknown";

/// Everything known about how the binary was built.
#[derive(Debug, Clone, Copy, PartialEq, Eq)]
pub struct BuildMetadata {
    pub version: &'static str,
    pub git_commit: &'static str,
    pub git_dirty: bool,
    pub build_timestamp: &'static str,
    pub build_target: &'static str,
    pub build_profile: &'static str,
    pub rustc_version: &'static str,
}

/// The build metadata of this crate.
pub fn metadata() -> (m: BuildMetadata)
    ensures
        m.version == Version,
        m.git_commit == GIT_COMMIT,
        m.git_dirty == GIT_DIRTY,
        m.build_timestamp == BUILD_TIMESTAMP,
        m.build_target == BUILD_TARGET,
        m.build_profile == BUILD_PROFILE,
        m.rustc_version == RUSTC_VERSION,
{
    BuildMetadata {
        version: Version,
        git_commit: GIT_COMMIT,
        git_dirty: GIT_DIRTY,
        build_timestamp: BUILD_TIMESTAMP,
        build_target: BUILD_TARGET,
        build_profile: BUILD_PROFILE,
        rustc_version: RUSTC_VERSION,
    }
}

/// The server's answer to a version request, in specifications: the
/// version and the build metadata under their names.
pub open spec fn spec_version_json(m: BuildMetadata) -> crate::json::JsonV {
    crate::json::JsonV::Object(
        seq![
            ("version"@, crate::json::JsonV::Str(m.version@)),
            ("git_commit"@, crate::json::JsonV::Str(m.git_commit@)),
            ("git_dirty"@, crate::json::JsonV::Bool(m.git_dirty)),
            ("build_timestamp"@, crate::json::JsonV::Str(m.build_timestamp@)),
            ("build_target"@, crate::json::JsonV::Str(m.build_target@)),
            ("build_profile"@, crate::json::JsonV::Str(m.build_profile@)),
            ("rustc_version"@, crate::json::JsonV::Str(m.rustc_version@)),
        ],
    )
}

fn text_entry(key: &str, value: &str) -> (e: (Vec<char>, crate::json::Json))
    ensures
        e.0@ == key@,
        crate::json::jv(e.1) == crate::json::JsonV::Str(value@),
{
    (crate::text::chars_of(key), crate::json::Json::Str(crate::text::chars_of(value)))
}

/// The server's answer to a version request: the version and the build
/// metadata of this crate, as a JSON object.
pub fn version_json() -> (j: crate::json::Json)
    ensures
        crate::json::jv(j) == spec_version_json(metadata_spec()),
{
    let m = metadata();
    let mut e: Vec<(Vec<char>, crate::json::Json)> = Vec::new();
    e.push(text_entry("version", m.version));
    e.push(text_entry("git_commit", m.git_commit));
    e.push((crate::text::chars_of("git_dirty"), crate::json::Json::Bool(m.git_dirty)));
    e.push(text_entry("build_timestamp", m.build_timestamp));
    e.push(text_entry("build_target", m.build_target));
    e.push(text_entry("build_profile", m.build_profile));
    e.push(text_entry("rustc_version", m.rustc_version));
    let j = crate::json::Json::Object(e);
    assert(crate::json::jentries(e@) =~= match spec_version_json(metadata_spec()) {
        crate::json::JsonV::Object(x) => x,
        _ => Seq::empty(),
    });
    j
}

/// The build metadata of this crate, in specifications.
pub open spec fn metadata_spec() -> BuildMetadata {
    BuildMetadata {
        version: Version,
        git_commit: GIT_COMMIT,
        git_dirty: GIT_DIRTY,
        build_timestamp: BUILD_TIMESTAMP,
        build_target: BUILD_TARGET,
        build_profile: BUILD_PROFILE,
        rustc_version: RUSTC_VERSION,
    }
}

/// An ASCII capital made lowercase; other bytes unchanged.
pub open spec fn spec_to_lower(b: u8) -> u8 {
    if 65 <= b <= 90 {
        (b + 32) as u8
    } else {
        b
    }
}

/// Equal byte strings, ignoring ASCII case.
pub open spec fn spec_eq_ignore_case(a: Seq<u8>, b: Seq<u8>) -> bool {
    a.len() == b.len() && forall|i: int| 0 <= i < a.len() ==> spec_to_lower(#[trigger] a[i])
        == spec_to_lower(b[i])
}

/// The spellings read as true: `1`, `true`, `t`, `yes`, `y`, in any case.
pub open spec fn spec_parse_bool(s: Seq<u8>) -> bool {
    spec_eq_ignore_case(s, seq![49u8]) || spec_eq_ignore_case(s, seq![116u8, 114u8, 117u8, 101u8])
        || spec_eq_ignore_case(s, seq![116u8]) || spec_eq_ignore_case(s, seq![121u8, 101u8, 115u8])
        || spec_eq_ignore_case(s, seq![121u8])
}

/// Lowercases an ASCII capital.
pub fn to_lower(b: u8) -> (r: u8)
    ensures
        r == spec_to_lower(b),
{
    if b >= 65 && b <= 90 {
        b + 32
    } else {
        b
    }
}

fn eq_ignore_case_bytes(a: &[u8], b: &[u8]) -> (r: bool)
    ensures
        r == spec_eq_ignore_case(a@, b@),
{
    if a.len() != b.len() {
        return false;
    }
    let mut i: usize = 0;
    while i < a.len()
        invariant
            i <= a@.len(),
            a@.len() == b@.len(),
            forall|j: int| 0 <= j < i ==> spec_to_lower(#[trigger] a@[j]) == spec_to_lower(b@[j]),
        decreases a@.len() - i,
    {
        if to_lower(a[i]) != to_lower(b[i]) {
            return false;
        }
        i += 1;
    }
    true
}

/// Whether the UTF-8 bytes of `a` and `b` are equal ignoring ASCII case.
pub fn eq_ignore_case(a: &str, b: &str) -> (r: bool)
    ensures
        r == spec_eq_ignore_case(a.spec_bytes(), b.spec_bytes()),
{
    eq_ignore_case_bytes(a.as_bytes(), b.as_bytes())
}

/// Reads a flag: `1`, `true`, `t`, `yes` or `y` in any case is true,
/// anything else false.
pub fn parse_bool(input: &str) -> (r: bool)
    ensures
        r == spec_parse_bool(input.spec_bytes()),
{
    let b = input.as_bytes();
    let one: [u8; 1] = [49u8];
    let tr: [u8; 4] = [116u8, 114u8, 117u8, 101u8];
    let t: [u8; 1] = [116u8];
    let yes: [u8; 3] = [121u8, 101u8, 115u8];
    let y: [u8; 1] = [121u8];
    assert(one@ == seq![49u8]);
    assert(tr@ == seq![116u8, 114u8, 117u8, 101u8]);
    assert(t@ == seq![116u8]);
    assert(yes@ == seq![121u8, 101u8, 115u8]);
    assert(y@ == seq![121u8]);
    eq_ignore_case_bytes(b, &one) || eq_ignore_case_bytes(b, &tr) || eq_ignore_case_bytes(b, &t)
        || eq_ignore_case_bytes(b, &yes) || eq_ignore_case_bytes(b, &y)
}

} // verus!
