//! WSL distro names and the mapping of paths inside a distro to paths on the
//! Windows host.
use crate::paths::path_exists;
use crate::text::{
    ascii_upper, ascii_upper_char, back_slashes, chars_of, contains_chars, contains_spec, occurs_at,
    forward_slashed, forward_slashes, has_prefix, is_ascii_alnum, is_ascii_alnum_char,
    is_ascii_alpha, is_ascii_alpha_char, lemma_trim_leading_at, push_back_slashed, push_char,
    skip_char, trim_leading,
};
use vstd::prelude::*;
use vstd::string::*;

verus! {

/// A character that a distro name may hold.
pub open spec fn distro_char_ok(c: char) -> bool {
    is_ascii_alnum(c) || c == '.' || c == '_' || c == '-' || c == ' '
}

/// A WSL distro name that is safe to splice into a UNC path: 1 to 255
/// characters, each alphanumeric or one of `.`, `_`, `-` and space, not
/// starting with `.` and holding no `..`. Every accepted character is ASCII, so
/// the length is also the length in bytes.
pub open spec fn safe_distro_name(s: Seq<char>) -> bool {
    &&& 0 < s.len() <= 255
    &&& s[0] != '.'
    &&& forall|i: int| 0 <= i < s.len() ==> distro_char_ok(#[trigger] s[i])
    &&& !contains_spec(s, seq!['.', '.'])
}

/// The prefix `\\wsl.localhost\` of the WSL network share.
pub open spec fn localhost_share() -> Seq<char> {
    "\\\\wsl.localhost\\"@
}

/// The prefix `\\wsl$\` of the older WSL network share.
pub open spec fn dollar_share() -> Seq<char> {
    "\\\\wsl$\\"@
}

/// The path handed out for a distro name that is not safe: it names no
/// directory, so the checks that follow reject it.
pub open spec fn invalid_distro_path() -> Seq<char> {
    "\\\\wsl.localhost\\__terax_invalid_distro__"@
}

/// A safe distro name is not empty and holds no path separator, no drive
/// colon, no wildcard, no control character and no `..`, so a UNC path built
/// from it stays under the share's own directory for it.
pub proof fn lemma_safe_name_has_no_separator(name: Seq<char>)
    requires
        safe_distro_name(name),
    ensures
        name.len() > 0,
        forall|i: int|
            0 <= i < name.len() ==> {
                &&& #[trigger] name[i] != '\\'
                &&& name[i] != '/'
                &&& name[i] != ':'
                &&& name[i] != '?'
                &&& name[i] != '*'
                &&& name[i] as u32 >= 0x20
            },
        !contains_spec(name, seq!['.', '.']),
{
    assert forall|i: int| 0 <= i < name.len() implies {
        &&& #[trigger] name[i] != '\\'
        &&& name[i] != '/'
        &&& name[i] != ':'
        &&& name[i] != '?'
        &&& name[i] != '*'
        &&& name[i] as u32 >= 0x20
    } by {
        assert(distro_char_ok(name[i]));
    }
}

/// The path handed out for an unsafe name holds no `\..\` step.
pub proof fn lemma_invalid_path_has_no_parent_step()
    ensures
        !contains_spec(invalid_distro_path(), "\\..\\"@),
{
    reveal_strlit("\\\\wsl.localhost\\__terax_invalid_distro__");
    reveal_strlit("\\..\\");
    let hay = invalid_distro_path();
    let needle = "\\..\\"@;
    assert(hay =~= seq!['\\', '\\', 'w', 's', 'l', '.', 'l', 'o', 'c', 'a', 'l', 'h', 'o', 's', 't', '\\', '_', '_', 't', 'e', 'r', 'a', 'x', '_', 'i', 'n', 'v', 'a', 'l', 'i', 'd', '_', 'd', 'i', 's', 't', 'r', 'o', '_', '_']);
    assert(needle =~= seq!['\\', '.', '.', '\\']);
    assert forall|pos: int| !occurs_at(hay, needle, pos) by {
        if occurs_at(hay, needle, pos) {
            assert(hay.subrange(pos, pos + 4)[1] == '.');
            assert(hay.subrange(pos, pos + 4)[2] == '.');
            assert(hay[pos + 1] == '.' && hay[pos + 2] == '.');
            assert(0 <= pos <= 36);
        }
    }
}

/// Whether `name` is a safe distro name (see `safe_distro_name`).
pub fn is_safe_distro_name(name: &str) -> (b: bool)
    ensures
        b == safe_distro_name(name@),
{
    let v = chars_of(name);
    if v.len() == 0 || v.len() > 255 {
        return false;
    }
    if v[0] == '.' {
        return false;
    }
    let mut i: usize = 0;
    while i < v.len()
        invariant
            v@ == name@,
            i <= v@.len(),
            forall|k: int| 0 <= k < i ==> distro_char_ok(#[trigger] v@[k]),
        decreases v@.len() - i,
    {
        let c = v[i];
        if !(is_ascii_alnum_char(c) || c == '.' || c == '_' || c == '-' || c == ' ') {
            assert(!distro_char_ok(v@[i as int]));
            return false;
        }
        i = i + 1;
    }
    let dots = vec!['.', '.'];
    assert(dots@ =~= seq!['.', '.']);
    !contains_chars(&v, &dots)
}

/// `Ok` exactly when `distro` is a safe name; otherwise the error names it.
pub fn validate_wsl_distro_name(distro: &str) -> (r: Result<(), String>)
    ensures
        r is Ok <==> safe_distro_name(distro@),
        r matches Err(e) ==> e@ == "unsafe WSL distro name: "@ + distro@,
{
    if is_safe_distro_name(distro) {
        Ok(())
    } else {
        let mut e = String::from_str("unsafe WSL distro name: ");
        e.append(distro);
        Err(e)
    }
}

/// The Windows path of a path under a WSL drvfs mount: `/mnt/<letter>` and
/// `/mnt/<letter>/<rest>` (either slash accepted) become `<LETTER>:\` and
/// `<LETTER>:\<rest>` with backslashes. `None` for any other path.
pub open spec fn drvfs_host_path(path: Seq<char>) -> Option<Seq<char>> {
    let n = forward_slashes(path);
    if !seq!['/', 'm', 'n', 't', '/'].is_prefix_of(n) {
        None
    } else {
        let rest = n.skip(5);
        if rest.len() == 0 || !is_ascii_alpha(rest[0]) || (rest.len() > 1 && rest[1] != '/') {
            None
        } else {
            let suffix = if rest.len() > 1 {
                rest.skip(2)
            } else {
                Seq::<char>::empty()
            };
            Some(seq![ascii_upper(rest[0]), ':', '\\'] + back_slashes(suffix))
        }
    }
}

/// Maps a drvfs path (`/mnt/c/...`) to the native Windows drive path.
pub fn wsl_drvfs_to_windows(path: &str) -> (r: Option<String>)
    ensures
        match r {
            Some(h) => drvfs_host_path(path@) == Some(h@),
            None => drvfs_host_path(path@) is None,
        },
{
    let v = chars_of(path);
    let n = forward_slashed(&v);
    let mnt = vec!['/', 'm', 'n', 't', '/'];
    assert(mnt@ =~= seq!['/', 'm', 'n', 't', '/']);
    if !has_prefix(&n, &mnt) {
        return None;
    }
    let ghost rest = n@.skip(5);
    let len = n.len();
    if len == 5 || !is_ascii_alpha_char(n[5]) || (len > 6 && n[6] != '/') {
        assert(rest.len() == 0 || !is_ascii_alpha(rest[0]) || (rest.len() > 1 && rest[1] != '/'));
        return None;
    }
    let mut host = String::new();
    push_char(&mut host, ascii_upper_char(n[5]));
    push_char(&mut host, ':');
    push_char(&mut host, '\\');
    assert(host@ =~= seq![ascii_upper(rest[0]), ':', '\\']);
    if len > 6 {
        push_back_slashed(&mut host, &n, 7, len);
        assert(n@.subrange(7, len as int) =~= rest.skip(2));
    } else {
        assert(back_slashes(Seq::<char>::empty()) =~= Seq::<char>::empty());
        assert(host@ =~= seq![ascii_upper(rest[0]), ':', '\\'] + back_slashes(
            Seq::<char>::empty(),
        ));
    }
    Some(host)
}

/// The part of a distro path that follows the share and distro name in a UNC
/// path: separators turned to `\` and leading separators dropped.
pub open spec fn unc_relative(path: Seq<char>) -> Seq<char> {
    back_slashes(trim_leading(forward_slashes(path), '/'))
}

/// `<share><distro>\<relative path>`.
pub open spec fn unc_under(share: Seq<char>, distro: Seq<char>, path: Seq<char>) -> Seq<char> {
    share + distro + seq!['\\'] + unc_relative(path)
}

/// The UNC path of `path` inside `distro`: the invalid path for an unsafe
/// name, else the path under `\\wsl.localhost\` when that exists and the path
/// under `\\wsl$\` when it does not.
pub open spec fn unc_path_spec(distro: Seq<char>, path: Seq<char>, primary_exists: bool) -> Seq<
    char,
> {
    if !safe_distro_name(distro) {
        invalid_distro_path()
    } else if primary_exists {
        unc_under(localhost_share(), distro, path)
    } else {
        unc_under(dollar_share(), distro, path)
    }
}

/// `<share><distro>\<relative path>`, built.
fn unc_path_under(share: &str, distro: &str, path: &str) -> (r: String)
    ensures
        r@ == unc_under(share@, distro@, path@),
{
    let v = chars_of(path);
    let n = forward_slashed(&v);
    let start = skip_char(&n, 0, n.len(), '/');
    proof {
        lemma_trim_leading_at(n@, '/', start as int);
    }
    let mut r = String::from_str(share);
    r.append(distro);
    push_char(&mut r, '\\');
    push_back_slashed(&mut r, &n, start, n.len());
    assert(r@ =~= unc_under(share@, distro@, path@));
    r
}

/// The UNC path of `path` inside `distro`, given whether the path under
/// `\\wsl.localhost\` exists.
pub fn wsl_unc_path(distro: &str, path: &str, primary_exists: bool) -> (r: String)
    ensures
        r@ == unc_path_spec(distro@, path@, primary_exists),
{
    if !is_safe_distro_name(distro) {
        String::from_str("\\\\wsl.localhost\\__terax_invalid_distro__")
    } else if primary_exists {
        unc_path_under("\\\\wsl.localhost\\", distro, path)
    } else {
        unc_path_under("\\\\wsl$\\", distro, path)
    }
}

/// The UNC path of `path` inside `distro`. A distro name that could escape the
/// share root gives the invalid path; otherwise the path under
/// `\\wsl.localhost\` is used when the file system says it exists, and the
/// path under `\\wsl$\` when it does not.
pub fn wsl_path_to_unc(distro: &str, path: &str) -> (r: String)
    ensures
        r@ == unc_path_spec(distro@, path@, true) || r@ == unc_path_spec(distro@, path@, false),
        !safe_distro_name(distro@) ==> r@ == invalid_distro_path(),
{
    if !is_safe_distro_name(distro) {
        return String::from_str("\\\\wsl.localhost\\__terax_invalid_distro__");
    }
    let primary = unc_path_under("\\\\wsl.localhost\\", distro, path);
    let exists = path_exists(primary.as_str());
    wsl_unc_path(distro, path, exists)
}

/// The host path of `path` inside `distro`: the drive path for a drvfs path,
/// else the UNC path.
pub open spec fn host_path_spec(distro: Seq<char>, path: Seq<char>, primary_exists: bool) -> Seq<
    char,
> {
    match drvfs_host_path(path) {
        Some(h) => h,
        None => unc_path_spec(distro, path, primary_exists),
    }
}

/// The Windows host path of `path` inside `distro`. Paths under `/mnt/<drive>`
/// map to the native drive (reading them through the share can be refused);
/// other paths go through the WSL share.
pub fn wsl_path_to_host(distro: &str, path: &str) -> (r: String)
    ensures
        r@ == host_path_spec(distro@, path@, true) || r@ == host_path_spec(
            distro@,
            path@,
            false,
        ),
        drvfs_host_path(path@) matches Some(h) ==> r@ == h,
{
    match wsl_drvfs_to_windows(path) {
        Some(h) => h,
        None => wsl_path_to_unc(distro, path),
    }
}

} // verus!
