//! The three text rewrite stages: drive-root rewriting, tilde expansion,
//! and separator normalization. Each is a pure transformation whose
//! meaning is given by a spec function over character sequences.

use vstd::prelude::*;
use vstd::string::*;

use crate::CpError;
use crate::text::{is_sep, is_drive_letter, upper, sep, drive_letter, to_upper, push_char};

verus! {

/// A path that starts with a drive in foreign notation: `/<letter>/...`.
pub open spec fn rooted(s: Seq<char>) -> bool {
    s.len() >= 3 && s[0] == '/' && is_drive_letter(s[1]) && s[2] == '/'
}

/// The drive-root rewrite: `/<letter>/<rest>` becomes `<LETTER>:\<rest>`,
/// anchored at the start; anything else is unchanged.
pub open spec fn root_rewritten(s: Seq<char>) -> Seq<char> {
    if rooted(s) {
        seq![upper(s[1]), ':', '\\'] + s.skip(3)
    } else {
        s
    }
}

/// Rewrites a leading `/<letter>/` drive prefix to `<LETTER>:\`, upper-casing
/// the drive letter and leaving the remainder untouched. Total: a string
/// without that prefix comes back unchanged.
pub fn fix_root(s: &str) -> (r: String)
    ensures
        r@ == root_rewritten(s@),
{
    let len = s.unicode_len();
    if len >= 3 && s.get_char(0) == '/' && drive_letter(s.get_char(1)) && s.get_char(2) == '/' {
        let mut out = String::new();
        push_char(&mut out, to_upper(s.get_char(1)));
        push_char(&mut out, ':');
        push_char(&mut out, '\\');
        let rest = s.substring_char(3, len);
        out.append(rest);
        proof {
            assert(out@ =~= root_rewritten(s@));
        }
        out
    } else {
        String::from_str(s)
    }
}

/// The tilde expansion: a leading `~` is replaced by the home value;
/// anything else, including a `~` later in the string, is unchanged.
pub open spec fn tilde_expanded(s: Seq<char>, home: Seq<char>) -> Seq<char> {
    if s.len() >= 1 && s[0] == '~' {
        home + s.skip(1)
    } else {
        s
    }
}

/// Whether the tilde expansion would need a home value for this string.
pub open spec fn wants_home(s: Seq<char>) -> bool {
    s.len() >= 1 && s[0] == '~'
}

/// Replaces a leading `~` with the home-directory value, leaving the rest of
/// the string untouched. `home` carries the environment lookup's outcome:
/// with no home value at hand, a string that starts with `~` is rejected.
pub fn fix_tilde(s: &str, home: Option<&str>) -> (r: Result<String, CpError>)
    ensures
        r is Err <==> home is None && wants_home(s@),
        r is Err ==> r->Err_0 == CpError::EnvironmentVariableMissing,
        r is Ok ==> r->Ok_0@ == (match home {
            Some(h) => tilde_expanded(s@, h@),
            None => s@,
        }),
{
    let len = s.unicode_len();
    if len >= 1 && s.get_char(0) == '~' {
        match home {
            Some(h) => {
                let mut out = String::from_str(h);
                let rest = s.substring_char(1, len);
                out.append(rest);
                proof {
                    assert(out@ =~= tilde_expanded(s@, h@));
                }
                Ok(out)
            },
            None => Err(CpError::EnvironmentVariableMissing),
        }
    } else {
        Ok(String::from_str(s))
    }
}

/// The root rewrite hits exactly the anchored pattern: for any drive letter
/// and any remainder at all, `/<letter>/<rest>` becomes the upper-cased
/// letter, a colon and a backslash, with the remainder passed through
/// verbatim.
pub proof fn lemma_root_rewrite_match(l: char, rest: Seq<char>)
    requires
        is_drive_letter(l),
    ensures
        root_rewritten(seq!['/', l, '/'] + rest) == seq![upper(l), ':', '\\'] + rest,
{
    let s = seq!['/', l, '/'] + rest;
    assert(s.len() >= 3 && s[0] == '/' && s[1] == l && s[2] == '/');
    assert(s.skip(3) =~= rest);
}

/// The root rewrite leaves any string that does not start with
/// `/<letter>/` untouched.
pub proof fn lemma_root_rewrite_no_op(s: Seq<char>)
    requires
        !rooted(s),
    ensures
        root_rewritten(s) == s,
{
}

/// Separator normalization: every maximal run of `/` and `\` characters,
/// of any length and in any mixture, becomes a single `\`.
pub open spec fn slash_normalized(s: Seq<char>) -> Seq<char>
    decreases s.len(),
{
    if s.len() == 0 {
        Seq::empty()
    } else if is_sep(s[0]) && s.len() >= 2 && is_sep(s[1]) {
        slash_normalized(s.skip(1))
    } else if is_sep(s[0]) {
        seq!['\\'] + slash_normalized(s.skip(1))
    } else {
        seq![s[0]] + slash_normalized(s.skip(1))
    }
}

/// Collapses every maximal run of separators to a single backslash. Total
/// and idempotent; a string with no separators comes back unchanged.
pub fn normalize_slash(s: &str) -> (r: String)
    ensures
        r@ == slash_normalized(s@),
{
    let len = s.unicode_len();
    let mut out = String::new();
    let mut i: usize = 0;
    proof {
        assert(s@.skip(0) =~= s@);
        assert(out@ + slash_normalized(s@) =~= slash_normalized(s@));
    }
    while i < len
        invariant
            len == s@.len(),
            i <= len,
            slash_normalized(s@) == out@ + slash_normalized(s@.skip(i as int)),
        decreases len - i,
    {
        let c = s.get_char(i);
        proof {
            assert(s@.skip(i as int)[0] == s@[i as int]);
            assert(s@.skip(i as int).skip(1) =~= s@.skip(i as int + 1));
        }
        if sep(c) && i + 1 < len && sep(s.get_char(i + 1)) {
            proof {
                assert(s@.skip(i as int)[1] == s@[i as int + 1]);
            }
        } else if sep(c) {
            push_char(&mut out, '\\');
            proof {
                assert(out@ + slash_normalized(s@.skip(i as int + 1)) =~= (out@.drop_last()
                    + (seq!['\\'] + slash_normalized(s@.skip(i as int + 1)))));
            }
        } else {
            push_char(&mut out, c);
            proof {
                assert(out@ + slash_normalized(s@.skip(i as int + 1)) =~= (out@.drop_last()
                    + (seq![s@[i as int]] + slash_normalized(s@.skip(i as int + 1)))));
            }
        }
        i = i + 1;
    }
    proof {
        assert(s@.skip(len as int) =~= Seq::<char>::empty());
        assert(out@ + slash_normalized(s@.skip(len as int)) =~= out@);
    }
    out
}

/// A string already in normalized shape: no forward slash anywhere, and no
/// two adjacent separators. Exactly the strings separator normalization
/// leaves unchanged.
pub open spec fn norm_shape(s: Seq<char>) -> bool {
    &&& forall|i: int| 0 <= i < s.len() ==> s[i] != '/'
    &&& forall|i: int| 0 <= i && i + 1 < s.len() ==> !(is_sep(s[i]) && is_sep(#[trigger] s[i + 1]))
}

/// Separator normalization always yields a string in normalized shape, at
/// most as long as its input, and keeps a non-separator first character.
pub proof fn lemma_norm_shape(s: Seq<char>)
    ensures
        norm_shape(slash_normalized(s)),
        slash_normalized(s).len() <= s.len(),
        s.len() == 0 ==> slash_normalized(s).len() == 0,
        s.len() > 0 && !is_sep(s[0]) ==> slash_normalized(s).len() > 0 && slash_normalized(s)[0]
            == s[0],
        s.len() > 0 && is_sep(s[0]) ==> slash_normalized(s).len() > 0 && slash_normalized(s)[0]
            == '\\',
    decreases s.len(),
{
    if s.len() == 0 {
    } else {
        lemma_norm_shape(s.skip(1));
        let rest = slash_normalized(s.skip(1));
        assert(s.skip(1).len() > 0 <==> s.len() >= 2);
        assert(s.len() >= 2 ==> s.skip(1)[0] == s[1]);
        if is_sep(s[0]) && s.len() >= 2 && is_sep(s[1]) {
        } else {
            let h = if is_sep(s[0]) {
                '\\'
            } else {
                s[0]
            };
            let r = seq![h] + rest;
            assert(slash_normalized(s) == r);
            assert forall|i: int| 0 <= i < r.len() implies r[i] != '/' by {
                if i > 0 {
                    assert(r[i] == rest[i - 1]);
                }
            }
            assert forall|i: int| 0 <= i && i + 1 < r.len() implies !(is_sep(r[i]) && is_sep(
                #[trigger] r[i + 1],
            )) by {
                if i == 0 {
                    assert(r[1] == rest[0]);
                    if is_sep(s[0]) {
                        // the next input character, if any, is not a separator
                        // here, so neither is the head of the normalized rest
                        assert(rest.len() > 0);
                        assert(s.skip(1).len() > 0);
                        assert(s.skip(1)[0] == s[1]);
                        assert(!is_sep(s[1]));
                        assert(rest[0] == s[1]);
                        assert(!is_sep(rest[0]));
                    }
                } else {
                    let j = i - 1;
                    assert(r[i] == rest[j] && r[i + 1] == rest[j + 1]);
                    assert(!(is_sep(rest[j]) && is_sep(rest[j + 1])));
                }
            }
        }
    }
}

/// A string in normalized shape is a fixpoint of separator normalization.
pub proof fn lemma_norm_fixpoint(s: Seq<char>)
    requires
        norm_shape(s),
    ensures
        slash_normalized(s) == s,
    decreases s.len(),
{
    if s.len() == 0 {
        assert(slash_normalized(s) =~= s);
    } else {
        let t = s.skip(1);
        assert forall|i: int| 0 <= i < t.len() implies t[i] != '/' by {
            assert(t[i] == s[i + 1]);
        }
        assert forall|i: int| 0 <= i && i + 1 < t.len() implies !(is_sep(t[i]) && is_sep(
            #[trigger] t[i + 1],
        )) by {
            assert(t[i] == s[i + 1] && t[i + 1] == s[i + 2]);
        }
        assert(norm_shape(t));
        lemma_norm_fixpoint(s.skip(1));
        if is_sep(s[0]) {
            assert(s[0] != '/');
            assert(s.len() >= 2 ==> !is_sep(s[1]));
            assert(slash_normalized(s) =~= s);
        } else {
            assert(slash_normalized(s) =~= s);
        }
    }
}

/// Normalization distributes over concatenation at a non-separator
/// boundary: nothing merges across it.
proof fn lemma_norm_concat(a: Seq<char>, t: Seq<char>)
    requires
        a.len() > 0 ==> !is_sep(a.last()),
    ensures
        slash_normalized(a + t) == slash_normalized(a) + slash_normalized(t),
    decreases a.len(),
{
    let s = a + t;
    if a.len() == 0 {
        assert(s =~= t);
        assert(slash_normalized(a) + slash_normalized(t) =~= slash_normalized(t));
    } else if a.len() == 1 {
        assert(!is_sep(s[0]));
        assert(s.skip(1) =~= t);
        assert(a.skip(1) =~= Seq::<char>::empty());
        assert(slash_normalized(a.skip(1)) =~= Seq::<char>::empty());
        assert(slash_normalized(a) =~= seq![a[0]]);
        assert(seq![a[0]] + slash_normalized(t) =~= slash_normalized(a) + slash_normalized(t));
    } else {
        lemma_norm_concat(a.skip(1), t);
        assert(s.skip(1) =~= a.skip(1) + t);
        assert(s[0] == a[0] && s[1] == a[1]);
        if is_sep(a[0]) && is_sep(a[1]) {
        } else if is_sep(a[0]) {
            assert(seq!['\\'] + (slash_normalized(a.skip(1)) + slash_normalized(t)) =~= (
            seq!['\\'] + slash_normalized(a.skip(1))) + slash_normalized(t));
        } else {
            assert(seq![a[0]] + (slash_normalized(a.skip(1)) + slash_normalized(t)) =~= (
            seq![a[0]] + slash_normalized(a.skip(1))) + slash_normalized(t));
        }
    }
}

/// A run of separators followed by a non-separator (or the string end)
/// normalizes to one backslash followed by the normalized remainder.
proof fn lemma_norm_run(run: Seq<char>, b: Seq<char>)
    requires
        run.len() >= 1,
        forall|i: int| 0 <= i < run.len() ==> is_sep(#[trigger] run[i]),
        b.len() > 0 ==> !is_sep(b[0]),
    ensures
        slash_normalized(run + b) == seq!['\\'] + slash_normalized(b),
    decreases run.len(),
{
    let s = run + b;
    assert(is_sep(s[0]));
    if run.len() == 1 {
        assert(s.len() >= 2 ==> (s[1] == b[0] && !is_sep(s[1])));
        assert(s.skip(1) =~= b);
    } else {
        lemma_norm_run(run.skip(1), b);
        assert(s[1] == run[1] && is_sep(s[1]));
        assert(s.skip(1) =~= run.skip(1) + b);
    }
}

/// Every maximal separator run — bounded by a non-separator or the string
/// end on both sides — collapses to exactly one backslash, wherever it
/// stands in the string.
pub proof fn lemma_slash_run_collapse(a: Seq<char>, run: Seq<char>, b: Seq<char>)
    requires
        run.len() >= 1,
        forall|i: int| 0 <= i < run.len() ==> is_sep(#[trigger] run[i]),
        a.len() > 0 ==> !is_sep(a.last()),
        b.len() > 0 ==> !is_sep(b[0]),
    ensures
        slash_normalized(a + run + b) == slash_normalized(a) + seq!['\\'] + slash_normalized(b),
{
    lemma_norm_concat(a, run + b);
    lemma_norm_run(run, b);
    assert(a + run + b =~= a + (run + b));
    assert(slash_normalized(a) + (seq!['\\'] + slash_normalized(b)) =~= slash_normalized(a)
        + seq!['\\'] + slash_normalized(b));
}

} // verus!
