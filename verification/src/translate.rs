//! The translation pipeline: root rewrite, tilde expansion, separator
//! normalization, then dot-segment canonicalization, in that order.
//! The order is load-bearing: the root rewrite must see the raw leading
//! `/<letter>/`, the expanded home value must still pass through separator
//! normalization, and canonicalization needs a clean native-style string.

use vstd::prelude::*;
use vstd::string::*;

use crate::CpError;
use crate::canon::{dots_resolved, lemma_dots_canonical, resolve_dots};
use crate::rewrite::{
    fix_root,
    fix_tilde,
    lemma_norm_fixpoint,
    lemma_norm_shape,
    norm_shape,
    normalize_slash,
    rooted,
    root_rewritten,
    slash_normalized,
    tilde_expanded,
    wants_home,
};
use crate::text::is_sep;

verus! {

/// Ceiling on a canonicalized path's length, in characters: the size of the
/// bounded scratch buffer a native canonicalization call would be given.
pub const PATH_BUFFER_CEILING: usize = 32768;

/// The view of an optional borrowed string.
pub open spec fn opt_view(home: Option<&str>) -> Option<Seq<char>> {
    match home {
        Some(h) => Some(h@),
        None => None,
    }
}

/// What the whole pipeline returns: the composition of the four stages,
/// or the error of the first stage that rejects the input.
pub open spec fn spec_translate(s: Seq<char>, home: Option<Seq<char>>) -> Result<
    Seq<char>,
    CpError,
> {
    let a = root_rewritten(s);
    if wants_home(a) && home is None {
        Err(CpError::EnvironmentVariableMissing)
    } else {
        let b = match home {
            Some(h) => tilde_expanded(a, h),
            None => a,
        };
        let c = slash_normalized(b);
        if c.len() >= PATH_BUFFER_CEILING {
            Err(CpError::PathNormalizationFailure)
        } else {
            Ok(dots_resolved(c))
        }
    }
}

/// Translates one raw path argument into a canonical native path:
/// `resolve_dots(normalize_slash(fix_tilde(fix_root(path))))`. `home`
/// carries the home-directory environment value, if the caller found one.
/// A successful result uses single backslashes as its only separators.
pub fn canonicalize(path: &str, home: Option<&str>) -> (r: Result<String, CpError>)
    ensures
        r is Ok <==> spec_translate(path@, opt_view(home)) is Ok,
        r is Ok ==> r->Ok_0@ == spec_translate(path@, opt_view(home))->Ok_0,
        r is Err ==> r->Err_0 == spec_translate(path@, opt_view(home))->Err_0,
        r matches Ok(p) ==> norm_shape(p@),
{
    let a = fix_root(path);
    let b = match fix_tilde(a.as_str(), home) {
        Ok(b) => b,
        Err(e) => {
            return Err(e);
        },
    };
    let c = normalize_slash(b.as_str());
    if c.as_str().unicode_len() >= PATH_BUFFER_CEILING {
        return Err(CpError::PathNormalizationFailure);
    }
    let out = resolve_dots(c.as_str());
    proof {
        lemma_norm_shape(b@);
        lemma_dots_canonical(c@);
    }
    Ok(out)
}

/// Translation is idempotent: its output — an already-canonical native
/// path — passes through a second translation unchanged. The home value
/// must be non-empty and must not itself start with `~`: such a value can
/// put a fresh leading `~` into the first pass's output, which a second
/// pass would expand again.
pub proof fn lemma_translate_idempotent(s: Seq<char>, home: Option<Seq<char>>)
    requires
        spec_translate(s, home) is Ok,
        match home {
            Some(h) => h.len() > 0 && h[0] != '~',
            None => true,
        },
    ensures
        spec_translate(spec_translate(s, home)->Ok_0, home) == spec_translate(s, home),
{
    let a = root_rewritten(s);
    let b = match home {
        Some(h) => tilde_expanded(a, h),
        None => a,
    };
    let n = slash_normalized(b);
    let c = dots_resolved(n);
    assert(spec_translate(s, home)->Ok_0 == c);
    assert(b.len() > 0 ==> b[0] != '~') by {
        match home {
            Some(h) => {
                if wants_home(a) {
                    assert(b == h + a.skip(1));
                    assert(b[0] == h[0]);
                }
            },
            None => {},
        }
    }
    lemma_norm_shape(b);
    lemma_dots_canonical(n);
    assert(!rooted(c)) by {
        if c.len() >= 3 {
            assert(c[0] != '/');
        }
    }
    assert(root_rewritten(c) == c);
    assert(!wants_home(c)) by {
        if c.len() > 0 {
            if c[0] == '\\' {
            } else {
                assert(n.len() > 0 && c[0] == n[0]);
                assert(b.len() > 0);
                if is_sep(b[0]) {
                    assert(n[0] == '\\');
                } else {
                    assert(n[0] == b[0]);
                }
            }
        }
    }
    lemma_norm_fixpoint(c);
    assert(c.len() < PATH_BUFFER_CEILING);
    assert(spec_translate(c, home) == Ok::<Seq<char>, CpError>(c));
}

} // verus!
