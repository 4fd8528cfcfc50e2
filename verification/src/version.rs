//! Version strings for the badge and the about line.

use vstd::prelude::*;

verus! {

/// The package version.
pub const PKG_VERSION: &'static str = "0.0.1";

/// `v` and the package version: the badge text.
pub open spec fn short_text() -> Seq<char> {
    seq!['v'] + PKG_VERSION@
}

/// The short version for the badge: `v0.0.1`.
pub fn short() -> (s: String)
    ensures
        s@ == short_text(),
{
    let mut s = "v".to_owned();
    proof {
        reveal_strlit("v");
    }
    s.append(PKG_VERSION);
    s
}

/// The full version; debug builds carry a `-dev` mark.
pub fn full(debug_build: bool) -> (s: String)
    ensures
        s@ == if debug_build {
            short_text() + "-dev"@
        } else {
            short_text()
        },
{
    let mut s = short();
    if debug_build {
        s.append("-dev");
    }
    s
}


/// The full version starts with the short one, in both build profiles.
pub proof fn lemma_full_starts_with_short(debug_build: bool)
    ensures
        short_text().is_prefix_of(
            if debug_build {
                short_text() + "-dev"@
            } else {
                short_text()
            },
        ),
        short_text()[0] == 'v',
{
    let full = if debug_build {
        short_text() + "-dev"@
    } else {
        short_text()
    };
    assert(full.take(short_text().len() as int) =~= short_text());
}

} // verus!
