//! Argument-level logic: flag extraction, source validation, and the
//! resolution of a destination argument and a list of sources into the
//! ordered (destination, source) copy pairs.

use vstd::prelude::*;
use vstd::string::*;

use crate::CpError;
use crate::text::{is_sep, push_char, sep, str_eq};

verus! {

/// A resolved copy request: whether existing targets may be overwritten,
/// and the ordered (destination, source) pairs to hand to the copy call.
pub struct Todo {
    pub overwrite: bool,
    pub copy_pairs: Vec<(String, String)>,
}

/// The three flags the command line accepts.
#[derive(Clone, Copy, Debug, PartialEq, Eq, Structural)]
pub enum FlagKind {
    Help,
    Version,
    Force,
}

/// The spellings each flag answers to.
pub open spec fn spec_is_flag(k: FlagKind, s: Seq<char>) -> bool {
    match k {
        FlagKind::Help => s == "-h"@ || s == "-H"@ || s == "--help"@,
        FlagKind::Version => s == "-v"@ || s == "-V"@ || s == "--version"@,
        FlagKind::Force => s == "-f"@ || s == "-F"@ || s == "--force"@,
    }
}

/// Runtime test matching `spec_is_flag`.
pub fn matches_flag(k: FlagKind, s: &str) -> (r: bool)
    ensures
        r == spec_is_flag(k, s@),
{
    match k {
        FlagKind::Help => str_eq(s, "-h") || str_eq(s, "-H") || str_eq(s, "--help"),
        FlagKind::Version => str_eq(s, "-v") || str_eq(s, "-V") || str_eq(s, "--version"),
        FlagKind::Force => str_eq(s, "-f") || str_eq(s, "-F") || str_eq(s, "--force"),
    }
}

/// Removes every spelling of one flag from the argument list, reporting
/// whether any was present; the order of the other arguments is kept.
pub fn bin_flag(args: Vec<String>, kind: FlagKind) -> (r: (bool, Vec<String>))
    ensures
        r.1@.map_values(|t: String| t@) == args@.map_values(|t: String| t@).filter(
            |t: Seq<char>| !spec_is_flag(kind, t),
        ),
        r.0 == exists|i: int|
            0 <= i < args@.len() && spec_is_flag(kind, #[trigger] args@[i]@),
{
    broadcast use vstd::seq_lib::group_filter_ensures;

    let ghost all = args@.map_values(|t: String| t@);
    let ghost keep = |t: Seq<char>| !spec_is_flag(kind, t);
    let mut flag = false;
    let mut v: Vec<String> = Vec::new();
    let mut i: usize = 0;
    proof {
        assert(all.take(0) =~= Seq::<Seq<char>>::empty());
        assert(Seq::<Seq<char>>::empty().filter(keep) =~= Seq::<Seq<char>>::empty());
        assert(v@.map_values(|t: String| t@) =~= Seq::<Seq<char>>::empty());
    }
    while i < args.len()
        invariant
            i <= args@.len(),
            all == args@.map_values(|t: String| t@),
            keep == (|t: Seq<char>| !spec_is_flag(kind, t)),
            v@.map_values(|t: String| t@) == all.take(i as int).filter(keep),
            flag == exists|j: int| 0 <= j < i && spec_is_flag(kind, #[trigger] args@[j]@),
        decreases args@.len() - i,
    {
        let item = &args[i];
        let ghost pre = v@;
        if matches_flag(kind, item.as_str()) {
            flag = true;
            proof {
                assert(spec_is_flag(kind, args@[i as int]@));
            }
        } else {
            v.push(item.clone());
            proof {
                assert(v@.map_values(|t: String| t@) =~= pre.map_values(|t: String| t@).push(
                    item@,
                ));
            }
        }
        proof {
            assert(all.take(i as int + 1) =~= all.take(i as int).push(all[i as int]));
            assert(all[i as int] == args@[i as int]@);
            all.take(i as int).lemma_filter_push(all[i as int], keep);
            assert(all.take(i as int + 1).filter(keep) == if keep(all[i as int]) {
                all.take(i as int).filter(keep).push(all[i as int])
            } else {
                all.take(i as int).filter(keep)
            });
        }
        i = i + 1;
    }
    proof {
        assert(all.take(args@.len() as int) =~= all);
    }
    (flag, v)
}

/// The file-name component: everything after the last separator. Empty
/// when the path ends in a separator or is itself empty.
pub open spec fn file_name_of(s: Seq<char>) -> Seq<char>
    decreases s.len(),
{
    if s.len() == 0 {
        s
    } else if is_sep(s.last()) {
        Seq::empty()
    } else {
        file_name_of(s.drop_last()).push(s.last())
    }
}

proof fn lemma_file_name_suffix(s: Seq<char>, j: int)
    requires
        0 <= j <= s.len(),
        forall|k: int| j <= k < s.len() ==> !is_sep(s[k]),
        j > 0 ==> is_sep(s[j - 1]),
    ensures
        file_name_of(s) == s.skip(j),
    decreases s.len(),
{
    if j == s.len() {
        if s.len() == 0 {
            assert(file_name_of(s) =~= s.skip(j));
        } else {
            assert(is_sep(s.last()));
            assert(file_name_of(s) =~= s.skip(j));
        }
    } else {
        assert(!is_sep(s[s.len() - 1]));
        lemma_file_name_suffix(s.drop_last(), j);
        assert(s.drop_last().skip(j).push(s.last()) =~= s.skip(j));
    }
}

/// Extracts the file-name component of a path.
pub fn file_name(s: &str) -> (r: String)
    ensures
        r@ == file_name_of(s@),
{
    let len = s.unicode_len();
    let mut j: usize = len;
    while j > 0 && !sep(s.get_char(j - 1))
        invariant
            j <= len,
            len == s@.len(),
            forall|k: int| j <= k < s@.len() ==> !is_sep(s@[k]),
        decreases j,
    {
        j = j - 1;
    }
    proof {
        lemma_file_name_suffix(s@, j as int);
    }
    String::from_str(s.substring_char(j, len))
}

/// A path whose final component is a usable file name: nonempty, and not
/// one of the dot components `.` and `..`, which name directories and
/// carry no file name.
pub open spec fn has_file_name(s: Seq<char>) -> bool {
    &&& file_name_of(s).len() > 0
    &&& file_name_of(s) != seq!['.']
    &&& file_name_of(s) != seq!['.', '.']
}

/// Joining a file name onto a destination: a single backslash is inserted
/// unless the destination already ends in a separator or is empty.
pub open spec fn joined(dest: Seq<char>, name: Seq<char>) -> Seq<char> {
    if dest.len() == 0 {
        name
    } else if is_sep(dest.last()) {
        dest + name
    } else {
        dest + seq!['\\'] + name
    }
}

/// Under directory semantics (a trailing separator on the raw destination,
/// or an existing destination directory) the source's file name is appended
/// to the destination; otherwise the destination stands as given and
/// nothing is returned. The input must carry a usable file name: one whose
/// final component is empty, `.` or `..` has none to append.
pub fn modify_dest_path(dest_buf: &str, trailing_slash: bool, is_dir: bool, input: &str) -> (r:
    Option<String>)
    requires
        has_file_name(input@),
    ensures
        r is Some <==> (trailing_slash || is_dir),
        r matches Some(d) ==> d@ == joined(dest_buf@, file_name_of(input@)),
{
    if trailing_slash || is_dir {
        let name = file_name(input);
        let mut buf = String::from_str(dest_buf);
        let dlen = dest_buf.unicode_len();
        if dlen == 0 {
            Some(name)
        } else if sep(dest_buf.get_char(dlen - 1)) {
            buf.append(name.as_str());
            Some(buf)
        } else {
            push_char(&mut buf, '\\');
            buf.append(name.as_str());
            proof {
                assert(buf@ =~= dest_buf@ + seq!['\\'] + file_name_of(input@));
            }
            Some(buf)
        }
    } else {
        None
    }
}

/// Every source must name an existing regular file; the caller reports in
/// `is_file` what the filesystem said of each. The first missing one fails
/// the whole request, before any destination resolution.
pub fn validate_sources(is_file: &Vec<bool>) -> (r: Result<(), CpError>)
    ensures
        r is Ok <==> (forall|i: int| 0 <= i < is_file@.len() ==> is_file@[i]),
        r is Err ==> r->Err_0 == CpError::SourceNotFound,
{
    let mut i: usize = 0;
    while i < is_file.len()
        invariant
            i <= is_file@.len(),
            forall|k: int| 0 <= k < i ==> is_file@[k],
        decreases is_file@.len() - i,
    {
        if !is_file[i] {
            return Err(CpError::SourceNotFound);
        }
        i = i + 1;
    }
    Ok(())
}

/// Resolves the copy pairs. One source: directory semantics when either
/// signal says so, otherwise the destination is taken verbatim as the new
/// file's path. Several sources: the destination must be a directory by
/// one of the two signals, and each source keeps its file name; order is
/// preserved.
pub fn resolve_copy_pairs(
    sources: Vec<String>,
    dest: String,
    trailing_slash: bool,
    dest_is_dir: bool,
) -> (r: Result<Vec<(String, String)>, CpError>)
    requires
        sources@.len() >= 1,
        forall|i: int| 0 <= i < sources@.len() ==> has_file_name(#[trigger] sources@[i]@),
    ensures
        r is Err <==> (sources@.len() > 1 && !trailing_slash && !dest_is_dir),
        r is Err ==> r->Err_0 == CpError::InvalidDestination,
        r matches Ok(pairs) ==> {
            &&& pairs@.len() == sources@.len()
            &&& forall|i: int|
                0 <= i < pairs@.len() ==> (#[trigger] pairs@[i]).1@ == sources@[i]@
            &&& (trailing_slash || dest_is_dir) ==> forall|i: int|
                0 <= i < pairs@.len() ==> (#[trigger] pairs@[i]).0@ == joined(
                    dest@,
                    file_name_of(sources@[i]@),
                )
            &&& !(trailing_slash || dest_is_dir) ==> pairs@.len() == 1 && pairs@[0].0@ == dest@
        },
{
    let mut sources = sources;
    if sources.len() == 1 {
        let src = sources.pop().unwrap();
        match modify_dest_path(dest.as_str(), trailing_slash, dest_is_dir, src.as_str()) {
            Some(new_dest) => Ok(vec![(new_dest, src)]),
            None => Ok(vec![(dest, src)]),
        }
    } else if !dest_is_dir && !trailing_slash {
        Err(CpError::InvalidDestination)
    } else {
        let mut pairs: Vec<(String, String)> = Vec::new();
        let mut i: usize = 0;
        while i < sources.len()
            invariant
                i <= sources@.len(),
                trailing_slash || dest_is_dir,
                forall|k: int| 0 <= k < sources@.len() ==> has_file_name(#[trigger] sources@[k]@),
                pairs@.len() == i,
                forall|k: int| 0 <= k < i ==> (#[trigger] pairs@[k]).1@ == sources@[k]@,
                forall|k: int|
                    0 <= k < i ==> (#[trigger] pairs@[k]).0@ == joined(
                        dest@,
                        file_name_of(sources@[k]@),
                    ),
            decreases sources@.len() - i,
        {
            let src = &sources[i];
            let new_dest = modify_dest_path(
                dest.as_str(),
                trailing_slash,
                dest_is_dir,
                src.as_str(),
            ).unwrap();
            pairs.push((new_dest, src.clone()));
            i = i + 1;
        }
        Ok(pairs)
    }
}

} // verus!
