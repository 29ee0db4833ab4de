//! Core of the pyxis image-building pipeline: parcel references, the
//! dependency resolver, the hook-file parser, the in-memory parcel tree with
//! its tar translator and extractor, and the decision logic of the image
//! builder.  Everything here is verified; the surrounding binary performs the
//! filesystem, network and process work and hands plain values in and out.

use vstd::prelude::*;

pub mod archive;
pub mod extract;
pub mod hookfile;
pub mod image;
pub mod local;
pub mod chroot;
pub mod manifest;
pub mod parcel;
pub mod resolver;
pub mod text;
pub mod upstream;

use crate::text::{count_char, count_char_exec, find_char, find_char_exec};
use vstd::string::StrSliceExecFns;
use vstd::string::StringExecFns;

verus! {

/// The two sources a parcel can come from.
#[derive(Debug, Copy, Clone, PartialEq, Eq, Structural)]
pub enum ParcelProvider {
    Upstream,
    Local,
}

/// The mathematical value of a [`ParcelRef`]: its provider tag and the
/// character sequence of its name.
pub type RefView = (ParcelProvider, Seq<char>);

/// A `(provider, name)` pair identifying one parcel.  Two refs are equal
/// exactly when both components match.
#[derive(Debug, Clone)]
pub struct ParcelRef {
    pub provider: ParcelProvider,
    pub name: String,
}

impl View for ParcelRef {
    type V = RefView;

    open spec fn view(&self) -> RefView {
        (self.provider, self.name@)
    }
}

impl ParcelProvider {
    /// The lowercase tag used in the textual form `"<provider>|<name>"`.
    pub fn as_str(self) -> (r: &'static str)
        ensures
            r@ == spec_provider_tag(self),
    {
        match self {
            ParcelProvider::Upstream => "upstream",
            ParcelProvider::Local => "local",
        }
    }
}

/// The textual tag of a provider.
pub open spec fn spec_provider_tag(p: ParcelProvider) -> Seq<char> {
    match p {
        ParcelProvider::Upstream => "upstream"@,
        ParcelProvider::Local => "local"@,
    }
}

impl ParcelRef {
    /// An owned copy with the same value.
    pub fn duplicate(&self) -> (r: ParcelRef)
        ensures
            r == *self,
    {
        ParcelRef { provider: self.provider, name: self.name.clone() }
    }
}

/// Why a piece of configuration was rejected.
#[derive(Debug, Copy, Clone, PartialEq, Eq, Structural)]
pub enum ManifestError {
    /// A ref text carries no `"<provider>|"` prefix.
    MissingProvider,
    /// A ref text has several `|` separators or an empty name.
    MalformedRef,
    /// The provider tag is neither `upstream` nor `local`.
    UnknownProvider,
}

/// The ref denoted by `s`, if `s` is a well-formed `"<provider>|<name>"` text:
/// exactly one `|`, a known lowercase provider tag, and a non-empty name.
pub open spec fn spec_parse_ref(s: Seq<char>) -> Option<RefView> {
    if count_char(s, '|') != 1 {
        None
    } else {
        let i = find_char(s, '|');
        let tag = s.subrange(0, i);
        let name = s.subrange(i + 1, s.len() as int);
        if name.len() == 0 {
            None
        } else if tag == spec_provider_tag(ParcelProvider::Upstream) {
            Some((ParcelProvider::Upstream, name))
        } else if tag == spec_provider_tag(ParcelProvider::Local) {
            Some((ParcelProvider::Local, name))
        } else {
            None
        }
    }
}

/// Splits a `"<provider>|<name>"` text into a [`ParcelRef`].
///
/// Returns exactly the ref `spec_parse_ref` assigns to the text; the error
/// states which of the fatal configuration conditions was hit.
pub fn get_provider(package: &str) -> (r: Result<ParcelRef, ManifestError>)
    ensures
        match r {
            Ok(p) => spec_parse_ref(package@) == Some(p@),
            Err(e) => spec_parse_ref(package@) is None && match e {
                ManifestError::MissingProvider => count_char(package@, '|') == 0,
                ManifestError::MalformedRef => count_char(package@, '|') > 1 || (count_char(
                    package@,
                    '|',
                ) == 1 && package@.len() - find_char(package@, '|') == 1),
                ManifestError::UnknownProvider => count_char(package@, '|') == 1,
            },
        },
{
    let bars = count_char_exec(package, '|');
    if bars == 0 {
        return Err(ManifestError::MissingProvider);
    }
    if bars > 1 {
        return Err(ManifestError::MalformedRef);
    }
    let i = match find_char_exec(package, '|') {
        Some(i) => i,
        None => {
            proof {
                crate::text::lemma_find_char(package@, '|');
                crate::text::lemma_count_char_zero(package@, '|');
            }
            return Err(ManifestError::MissingProvider);
        },
    };
    let len = package.unicode_len();
    let tag = package.substring_char(0, i);
    let name = package.substring_char(i + 1, len);
    if name.unicode_len() == 0 {
        return Err(ManifestError::MalformedRef);
    }
    if crate::text::str_eq(tag, "upstream") {
        Ok(ParcelRef { provider: ParcelProvider::Upstream, name: name.to_owned() })
    } else if crate::text::str_eq(tag, "local") {
        Ok(ParcelRef { provider: ParcelProvider::Local, name: name.to_owned() })
    } else {
        Err(ManifestError::UnknownProvider)
    }
}

/// The textual form `"<provider>|<name>"` of a ref.
pub fn ref_text(r: &ParcelRef) -> (t: String)
    ensures
        t@ == spec_provider_tag(r.provider) + seq!['|'] + r.name@,
{
    let mut t = r.provider.as_str().to_owned();
    t.append("|");
    t.append(r.name.as_str());
    proof {
        reveal_strlit("|");
        assert("|"@ =~= seq!['|']);
    }
    t
}

/// The parcel store path `<home>/.pyxis/parcel/<provider>/<package>.parcel`.
pub fn get_parcel_path(home: &str, provider: ParcelProvider, package: &str) -> (p: String)
    ensures
        p@ == home@ + "/.pyxis/parcel/"@ + spec_provider_tag(provider) + "/"@ + package@
            + ".parcel"@,
{
    let mut p = home.to_owned();
    p.append("/.pyxis/parcel/");
    p.append(provider.as_str());
    p.append("/");
    p.append(package);
    p.append(".parcel");
    p
}

/// The recipe directory path `<home>/.pyxis/recipe/<package>`.
pub fn get_recipe_path(home: &str, package: &str) -> (p: String)
    ensures
        p@ == home@ + "/.pyxis/recipe/"@ + package@,
{
    let mut p = home.to_owned();
    p.append("/.pyxis/recipe/");
    p.append(package);
    p
}

} // verus!
