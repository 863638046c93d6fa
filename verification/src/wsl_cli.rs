//! What the library makes of `wsl.exe`: the arguments it is run with, and the
//! reading of what it prints (distro lists, probed values).
use crate::decode::{decode_command_output, decode_output_spec};
use crate::split::{
    bounds_within, join_bounds, join_spec, lemma_join_len, lemma_nonempty_pieces,
    lemma_split_concat, lemma_split_len, lemma_split_single, lines_spec, pieces_of, split_bounds, split_by,
    word_bounds, words_spec, Separator,
};
use crate::text::{
    ascii_lower, ascii_lower_char, chars_of, lemma_trim_idempotent, lemma_trim_leading_at,
    skip_char, string_of_range, trim_bounds, trim_end_spec, trim_leading, trim_spec,
    trim_start_spec, trim_str,
};
use crate::wsl::{safe_distro_name, validate_wsl_distro_name};
use vstd::prelude::*;
use vstd::string::*;

verus! {

/// A WSL distro as `wsl.exe --list --verbose` reports it.
#[derive(Clone, Debug)]
pub struct WslDistro {
    pub name: String,
    pub default: bool,
    pub running: bool,
}

/// The shell script that prints the login shell of the current user of a
/// distro: the passwd entry's shell, else `$SHELL`, else `/bin/sh`.
pub const LOGIN_SHELL_SCRIPT: &'static str =
    "uid=\"$(id -u 2>/dev/null || printf '')\"
entry=''
if [ -n \"$uid\" ] && command -v getent >/dev/null 2>&1; then
  entry=\"$(getent passwd \"$uid\" 2>/dev/null || true)\"
fi
if [ -z \"$entry\" ] && [ -n \"$uid\" ] && [ -r /etc/passwd ]; then
  entry=\"$(awk -F: -v u=\"$uid\" '$3 == u { print; exit }' /etc/passwd 2>/dev/null)\"
fi
shell=''
if [ -n \"$entry\" ]; then
  shell=\"${entry##*:}\"
fi
if [ -z \"$shell\" ] && [ -n \"$SHELL\" ]; then
  shell=\"$SHELL\"
fi
if [ -z \"$shell\" ]; then
  shell=/bin/sh
fi
printf %s \"$shell\"";

/// The script that prints the home directory of the current user of a distro.
pub const HOME_SCRIPT: &'static str = "printf %s \"$HOME\"";

// ---------------------------------------------------------------------------
// The last non-empty line of a probe's output.

/// The last line of `ls` that is not blank, trimmed.
pub open spec fn last_nonempty_trimmed(ls: Seq<Seq<char>>) -> Option<Seq<char>>
    decreases ls.len(),
{
    if ls.len() == 0 {
        None
    } else if trim_spec(ls.last()).len() > 0 {
        Some(trim_spec(ls.last()))
    } else {
        last_nonempty_trimmed(ls.drop_last())
    }
}

/// The value a probe printed: its last non-blank line, trimmed, or `fallback`
/// when every line is blank.
pub open spec fn normalize_spec(output: Seq<char>, fallback: Seq<char>) -> Seq<char> {
    match last_nonempty_trimmed(lines_spec(output)) {
        Some(v) => v,
        None => fallback,
    }
}

/// The last non-blank line, when there is one, is non-empty and trimmed.
proof fn lemma_last_nonempty_trimmed(ls: Seq<Seq<char>>)
    ensures
        last_nonempty_trimmed(ls) matches Some(v) ==> v.len() > 0 && trim_spec(v) == v,
    decreases ls.len(),
{
    if ls.len() > 0 {
        lemma_trim_idempotent(ls.last());
        lemma_last_nonempty_trimmed(ls.drop_last());
    }
}

/// The value a probe printed is the fallback when every line is blank, and
/// otherwise a non-empty text with no whitespace around it.
pub proof fn lemma_normalize_value(output: Seq<char>, fallback: Seq<char>)
    ensures
        last_nonempty_trimmed(lines_spec(output)) is None ==> normalize_spec(output, fallback)
            == fallback,
        last_nonempty_trimmed(lines_spec(output)) is Some ==> normalize_spec(output, fallback).len()
            > 0 && trim_spec(normalize_spec(output, fallback)) == normalize_spec(output, fallback),
{
    lemma_last_nonempty_trimmed(lines_spec(output));
}

/// Output of a single line (no line feed) gives that line, trimmed, unless it
/// is blank, in which case it gives the fallback: a last line counts whether
/// or not a line feed ends it.
pub proof fn lemma_normalize_single_line(s: Seq<char>, fallback: Seq<char>)
    requires
        forall|k: int| 0 <= k < s.len() ==> #[trigger] s[k] != '\n',
    ensures
        normalize_spec(s, fallback) == if trim_spec(s).len() > 0 {
            trim_spec(s)
        } else {
            fallback
        },
{
    lemma_split_single(s, Separator::Char('\n'));
    let ls = seq![s];
    assert(lines_spec(s) == ls);
    assert(ls.last() == s);
    assert(ls.drop_last() =~= Seq::<Seq<char>>::empty());
    assert(last_nonempty_trimmed(ls.drop_last()) is None);
}

/// The output read from its end: after a last line feed, a line `b` that is
/// not blank is the value (trimmed); a blank one leaves the value of what
/// comes before the line feed.
pub proof fn lemma_normalize_last_line(a: Seq<char>, b: Seq<char>, fallback: Seq<char>)
    requires
        forall|k: int| 0 <= k < b.len() ==> #[trigger] b[k] != '\n',
    ensures
        normalize_spec(a.push('\n') + b, fallback) == if trim_spec(b).len() > 0 {
            trim_spec(b)
        } else {
            normalize_spec(a, fallback)
        },
{
    let sep = Separator::Char('\n');
    lemma_split_single(b, sep);
    lemma_split_concat(a, '\n', b, sep);
    let x = split_by(a, sep);
    assert((x + seq![b]).drop_last() =~= x);
    assert((x + seq![b]).last() == b);
}

/// A line feed at the end of the output changes nothing.
pub proof fn lemma_normalize_trailing_newline(s: Seq<char>, fallback: Seq<char>)
    ensures
        normalize_spec(s.push('\n'), fallback) == normalize_spec(s, fallback),
{
    let e = Seq::<char>::empty();
    lemma_normalize_last_line(s, e, fallback);
    assert(s.push('\n') + e =~= s.push('\n'));
    assert(trim_start_spec(e) == e);
    assert(trim_end_spec(e) == e);
}

/// The value a probe printed (see `normalize_spec`). Shell startup files may
/// print banners before it, so only the last non-blank line counts.
pub fn normalize_wsl_value(output: String, fallback: &str) -> (r: String)
    ensures
        r@ == normalize_spec(output@, fallback@),
{
    let v = chars_of(output.as_str());
    let lines = split_bounds(&v, 0, v.len(), Separator::Char('\n'));
    let ghost ls = pieces_of(v@, lines@);
    assert(v@.subrange(0, v@.len() as int) =~= v@);
    assert(ls.take(lines@.len() as int) =~= ls);
    let mut k = lines.len();
    while k > 0
        invariant
            k <= lines@.len(),
            v@ == output@,
            ls == pieces_of(v@, lines@),
            ls == lines_spec(v@),
            bounds_within(lines@, 0, v@.len() as int),
            last_nonempty_trimmed(ls) == last_nonempty_trimmed(ls.take(k as int)),
        decreases k,
    {
        let b = lines[k - 1];
        let (i, j) = trim_bounds(&v, b.0, b.1);
        assert(ls.take(k as int).drop_last() =~= ls.take(k - 1));
        assert(ls.take(k as int).last() == v@.subrange(b.0 as int, b.1 as int));
        if i < j {
            assert(last_nonempty_trimmed(ls.take(k as int)) == Some(v@.subrange(i as int, j as int)));
            return string_of_range(&v, i, j);
        }
        k = k - 1;
    }
    assert(ls.take(0) =~= Seq::<Seq<char>>::empty());
    String::from_str(fallback)
}

/// The home directory that the home probe printed, or an error naming the
/// distro when it printed nothing. Where WSL is not available (any host other
/// than Windows) the probe cannot run, its output is ignored, and the answer
/// is the error that says so.
pub fn wsl_home(distro: &str, wsl_available: bool, output: String) -> (r: Result<String, String>)
    ensures
        !wsl_available ==> (r matches Err(e) && e@ == "WSL is only available on Windows"@),
        wsl_available ==> match r {
            Ok(h) => h@ == normalize_spec(output@, Seq::empty()) && h@.len() > 0,
            Err(e) => normalize_spec(output@, Seq::empty()).len() == 0 && e@
                == "could not resolve WSL home for "@ + distro@,
        },
{
    if !wsl_available {
        return Err(String::from_str("WSL is only available on Windows"));
    }
    proof {
        reveal_strlit("");
    }
    let home = normalize_wsl_value(output, "");
    if home.unicode_len() == 0 {
        let mut e = String::from_str("could not resolve WSL home for ");
        e.append(distro);
        Err(e)
    } else {
        Ok(home)
    }
}

/// The login shell that `LOGIN_SHELL_SCRIPT` printed, or `/bin/sh` when it
/// printed nothing.
pub fn wsl_login_shell(output: String) -> (r: String)
    ensures
        r@ == normalize_spec(output@, "/bin/sh"@),
{
    normalize_wsl_value(output, "/bin/sh")
}

// ---------------------------------------------------------------------------
// Running wsl.exe.

/// The arguments of `wsl.exe` that run `program` with `args` inside `distro`,
/// or the error for an unsafe distro name.
pub fn wsl_exec_args(distro: &str, program: &str, args: &[&str]) -> (r: Result<Vec<String>, String>)
    ensures
        r is Ok <==> safe_distro_name(distro@),
        r matches Err(e) ==> e@ == "unsafe WSL distro name: "@ + distro@,
        r matches Ok(a) ==> {
            &&& a@.len() == 4 + args@.len()
            &&& a@[0]@ == "-d"@
            &&& a@[1]@ == distro@
            &&& a@[2]@ == "--exec"@
            &&& a@[3]@ == program@
            &&& forall|i: int| 0 <= i < args@.len() ==> (#[trigger] a@[4 + i])@ == args@[i]@
        },
{
    match validate_wsl_distro_name(distro) {
        Err(e) => Err(e),
        Ok(()) => {
            let mut a: Vec<String> = Vec::new();
            a.push(String::from_str("-d"));
            a.push(String::from_str(distro));
            a.push(String::from_str("--exec"));
            a.push(String::from_str(program));
            let mut i: usize = 0;
            while i < args.len()
                invariant
                    i <= args@.len(),
                    a@.len() == 4 + i,
                    a@[0]@ == "-d"@,
                    a@[1]@ == distro@,
                    a@[2]@ == "--exec"@,
                    a@[3]@ == program@,
                    forall|k: int| 0 <= k < i ==> (#[trigger] a@[4 + k])@ == args@[k]@,
                decreases args@.len() - i,
            {
                a.push(String::from_str(args[i]));
                i = i + 1;
            }
            Ok(a)
        },
    }
}

/// What a finished `wsl.exe` run amounts to: its decoded output when it
/// succeeded, else its decoded error output, trimmed, as the error.
pub fn wsl_capture_result(success: bool, stdout: &[u8], stderr: &[u8]) -> (r: Result<
    String,
    String,
>)
    ensures
        success ==> (r matches Ok(s) && s@ == decode_output_spec(stdout@)),
        !success ==> (r matches Err(e) && e@ == trim_spec(decode_output_spec(stderr@))),
{
    if !success {
        let err = decode_command_output(stderr);
        Err(trim_str(err.as_str()))
    } else {
        Ok(decode_command_output(stdout))
    }
}

// ---------------------------------------------------------------------------
// The distro list.

/// ASCII case-insensitive equality (`str::eq_ignore_ascii_case`).
pub open spec fn eq_ignore_ascii_case_spec(a: Seq<char>, b: Seq<char>) -> bool {
    a.len() == b.len() && forall|i: int| 0 <= i < a.len() ==> ascii_lower(#[trigger] a[i])
        == ascii_lower(b[i])
}

/// A distro as the spec sees it: name, default flag, running flag.
pub type DistroView = (Seq<char>, bool, bool);

/// The distro described by the words of a list line once its `*` is taken
/// off: the last two words are the state and the version, and the words before
/// them, joined by single spaces, are the name. Fewer than three words
/// describe no distro.
pub open spec fn distro_from_words(ws: Seq<Seq<char>>, default: bool) -> Option<DistroView> {
    if ws.len() < 3 {
        None
    } else {
        let k = ws.len() - 2;
        Some((join_spec(ws.take(k), seq![' ']), default, eq_ignore_ascii_case_spec(ws[k], "Running"@)))
    }
}

/// One line of `wsl.exe --list --verbose` after the header: blank lines are
/// skipped; a leading `*` marks the default distro; the rest is read by
/// `distro_from_words`.
#[verifier::opaque]
pub open spec fn parse_distro_line(line: Seq<char>) -> Option<DistroView> {
    let t = trim_spec(line);
    if t.len() == 0 {
        None
    } else {
        distro_from_words(words_spec(trim_spec(trim_leading(t, '*'))), t[0] == '*')
    }
}

/// The distros of some lines, in order.
pub open spec fn parse_distro_lines(ls: Seq<Seq<char>>) -> Seq<DistroView>
    decreases ls.len(),
{
    if ls.len() == 0 {
        Seq::empty()
    } else {
        match parse_distro_line(ls.last()) {
            Some(d) => parse_distro_lines(ls.drop_last()).push(d),
            None => parse_distro_lines(ls.drop_last()),
        }
    }
}

/// What `parse_distro_line` says, unfolded.
proof fn lemma_parse_line_unfold(line: Seq<char>)
    ensures
        parse_distro_line(line) == if trim_spec(line).len() == 0 {
            None
        } else {
            distro_from_words(
                words_spec(trim_spec(trim_leading(trim_spec(line), '*'))),
                trim_spec(line)[0] == '*',
            )
        },
{
    reveal(parse_distro_line);
}

/// A distro read from a line always has a name.
proof fn lemma_parsed_line_has_name(line: Seq<char>)
    ensures
        parse_distro_line(line) matches Some(d) ==> d.0.len() > 0,
{
    lemma_parse_line_unfold(line);
    let t = trim_spec(line);
    if t.len() > 0 {
        let ws = words_spec(trim_spec(trim_leading(t, '*')));
        if ws.len() >= 3 {
            lemma_nonempty_pieces(split_by(
                trim_spec(trim_leading(t, '*')),
                Separator::Whitespace,
            ));
            assert(ws.take(ws.len() - 2)[0] == ws[0]);
            lemma_join_len(ws.take(ws.len() - 2), seq![' ']);
        }
    }
}

/// Every distro read from lines has a name.
proof fn lemma_parsed_lines_have_names(ls: Seq<Seq<char>>)
    ensures
        forall|i: int|
            0 <= i < parse_distro_lines(ls).len() ==> (#[trigger] parse_distro_lines(ls)[i]).0.len()
                > 0,
    decreases ls.len(),
{
    if ls.len() > 0 {
        lemma_parsed_lines_have_names(ls.drop_last());
        lemma_parsed_line_has_name(ls.last());
        let r = parse_distro_lines(ls.drop_last());
        assert forall|i: int| 0 <= i < parse_distro_lines(ls).len() implies (
        #[trigger] parse_distro_lines(ls)[i]).0.len() > 0 by {
            if i < r.len() {
                assert(parse_distro_lines(ls)[i] == r[i]);
            }
        }
    }
}

/// Every distro that a list reports has a non-empty name.
pub proof fn lemma_listed_distros_have_names(out: Seq<char>)
    ensures
        forall|i: int|
            0 <= i < parse_distro_list_spec(out).len() ==> (
            #[trigger] parse_distro_list_spec(out)[i]).0.len() > 0,
{
    lemma_parsed_lines_have_names(lines_spec(out).skip(1));
}

/// A line describes a default distro exactly when, trimmed, it starts with
/// `*`, whatever its state column says.
pub proof fn lemma_distro_line_default(line: Seq<char>)
    ensures
        parse_distro_line(line) matches Some(d) ==> trim_spec(line).len() > 0 && (d.1 <==> trim_spec(
            line,
        )[0] == '*'),
{
    lemma_parse_line_unfold(line);
}

/// Every distro read from lines is read from one of them.
proof fn lemma_parsed_lines_from(ls: Seq<Seq<char>>)
    ensures
        forall|i: int|
            0 <= i < parse_distro_lines(ls).len() ==> exists|j: int|
                0 <= j < ls.len() && parse_distro_line(#[trigger] ls[j]) == Some(
                    #[trigger] parse_distro_lines(ls)[i],
                ),
    decreases ls.len(),
{
    if ls.len() > 0 {
        let init = ls.drop_last();
        lemma_parsed_lines_from(init);
        let r = parse_distro_lines(init);
        assert forall|i: int| 0 <= i < parse_distro_lines(ls).len() implies exists|j: int|
            0 <= j < ls.len() && parse_distro_line(#[trigger] ls[j]) == Some(
                #[trigger] parse_distro_lines(ls)[i],
            ) by {
            if i < r.len() {
                assert(parse_distro_lines(ls)[i] == r[i]);
                let j = choose|j: int| 0 <= j < init.len() && parse_distro_line(#[trigger] init[j]) == Some(
                    #[trigger] r[i],
                );
                assert(ls[j] == init[j]);
            } else {
                assert(ls[ls.len() - 1] == ls.last());
            }
        }
    }
}

/// The distros that `wsl.exe --list --verbose` printed: every line after the
/// header line, read with `parse_distro_line`.
pub open spec fn parse_distro_list_spec(out: Seq<char>) -> Seq<DistroView> {
    parse_distro_lines(lines_spec(out).skip(1))
}

/// Every distro that a list reports comes from one of its lines after the
/// header, and is marked default exactly when that line, trimmed, starts with
/// `*`, whatever its state.
pub proof fn lemma_listed_distro_default(out: Seq<char>)
    ensures
        forall|i: int|
            0 <= i < parse_distro_list_spec(out).len() ==> exists|j: int|
                1 <= j < lines_spec(out).len() && parse_distro_line(#[trigger] lines_spec(out)[j])
                    == Some(#[trigger] parse_distro_list_spec(out)[i]) && trim_spec(
                    lines_spec(out)[j],
                ).len() > 0 && (parse_distro_list_spec(out)[i].1 <==> trim_spec(
                    lines_spec(out)[j],
                )[0] == '*'),
{
    let ls = lines_spec(out);
    let rest = ls.skip(1);
    let r = parse_distro_list_spec(out);
    lemma_split_len(out, Separator::Char('\n'));
    lemma_parsed_lines_from(rest);
    assert forall|i: int| 0 <= i < r.len() implies exists|j: int|
        1 <= j < ls.len() && parse_distro_line(#[trigger] ls[j]) == Some(#[trigger] r[i])
            && trim_spec(ls[j]).len() > 0 && (r[i].1 <==> trim_spec(ls[j])[0] == '*') by {
        assert(r[i] == parse_distro_lines(rest)[i]);
        let j = choose|j: int|
            0 <= j < rest.len() && parse_distro_line(#[trigger] rest[j]) == Some(
                #[trigger] parse_distro_lines(rest)[i],
            );
        assert(rest[j] == ls[j + 1]);
        lemma_distro_line_default(ls[j + 1]);
        assert(1 <= j + 1 < ls.len() && parse_distro_line(ls[j + 1]) == Some(r[i]));
    }
}

/// The view of a distro.
pub open spec fn distro_view(d: WslDistro) -> DistroView {
    (d.name@, d.default, d.running)
}

/// Whether `v[from..to]` equals `b` ignoring ASCII case.
fn range_eq_ignore_ascii_case(v: &Vec<char>, from: usize, to: usize, b: &Vec<char>) -> (r: bool)
    requires
        from <= to <= v@.len(),
    ensures
        r == eq_ignore_ascii_case_spec(v@.subrange(from as int, to as int), b@),
{
    let ghost a = v@.subrange(from as int, to as int);
    if to - from != b.len() {
        return false;
    }
    let mut i: usize = 0;
    while i < b.len()
        invariant
            from <= to <= v@.len(),
            a == v@.subrange(from as int, to as int),
            a.len() == b@.len(),
            i <= b@.len(),
            forall|k: int| 0 <= k < i ==> ascii_lower(#[trigger] a[k]) == ascii_lower(b@[k]),
        decreases b@.len() - i,
    {
        if ascii_lower_char(v[from + i]) != ascii_lower_char(b[i]) {
            assert(a[i as int] == v@[from + i]);
            return false;
        }
        i = i + 1;
    }
    true
}

/// The distro that the words `words` of `v` describe (see `distro_from_words`).
fn distro_from_word_bounds(
    v: &Vec<char>,
    words: &Vec<(usize, usize)>,
    default: bool,
    running: &Vec<char>,
) -> (r: Option<WslDistro>)
    requires
        bounds_within(words@, 0, v@.len() as int),
        running@ == "Running"@,
    ensures
        match r {
            Some(d) => distro_from_words(pieces_of(v@, words@), default) == Some(distro_view(d)),
            None => distro_from_words(pieces_of(v@, words@), default) is None,
        },
{
    let ghost ws = pieces_of(v@, words@);
    let n = words.len();
    if n < 3 {
        return None;
    }
    let k = n - 2;
    let name = join_bounds(v, words, k, ' ');
    let state = words[k];
    assert(ws[k as int] == v@.subrange(state.0 as int, state.1 as int));
    let running_now = range_eq_ignore_ascii_case(v, state.0, state.1, running);
    Some(WslDistro { name, default, running: running_now })
}

/// The distro on the line `v[from..to]`, if any (see `parse_distro_line`).
fn parse_distro_line_at(v: &Vec<char>, from: usize, to: usize, running: &Vec<char>) -> (r: Option<
    WslDistro,
>)
    requires
        from <= to <= v@.len(),
        running@ == "Running"@,
    ensures
        match r {
            Some(d) => parse_distro_line(v@.subrange(from as int, to as int)) == Some(
                distro_view(d),
            ),
            None => parse_distro_line(v@.subrange(from as int, to as int)) is None,
        },
{
    let ghost line = v@.subrange(from as int, to as int);
    proof {
        lemma_parse_line_unfold(line);
    }
    let (i, j) = trim_bounds(v, from, to);
    let ghost t = v@.subrange(i as int, j as int);
    if i == j {
        return None;
    }
    assert(t[0] == v@[i as int]);
    let default = v[i] == '*';
    let s = skip_char(v, i, j, '*');
    proof {
        assert forall|k: int| 0 <= k < s - i implies #[trigger] t[k] == '*' by {
            assert(t[k] == v@[k + i]);
        }
        if s < j {
            assert(t[s - i] == v@[s as int]);
        }
        lemma_trim_leading_at(t, '*', s - i);
        assert(t.subrange(s - i, t.len() as int) =~= v@.subrange(s as int, j as int));
    }
    let (p, q) = trim_bounds(v, s, j);
    let words = word_bounds(v, p, q);
    assert(words_spec(trim_spec(trim_leading(t, '*'))) == pieces_of(v@, words@));
    distro_from_word_bounds(v, &words, default, running)
}

/// The distros that `wsl.exe --list --verbose` printed (see
/// `parse_distro_list_spec`).
pub fn parse_distro_list(out: &str) -> (r: Vec<WslDistro>)
    ensures
        r@.map_values(|d: WslDistro| distro_view(d)) == parse_distro_list_spec(out@),
{
    let v = chars_of(out);
    let running = chars_of("Running");
    let lines = split_bounds(&v, 0, v.len(), Separator::Char('\n'));
    let ghost ls = pieces_of(v@, lines@);
    assert(v@.subrange(0, v@.len() as int) =~= v@);
    let ghost rest = ls.skip(1);
    let mut r: Vec<WslDistro> = Vec::new();
    let mut k: usize = 1;
    assert(rest.take(0) =~= Seq::<Seq<char>>::empty());
    assert(r@.map_values(|d: WslDistro| distro_view(d)) =~= Seq::<DistroView>::empty());
    while k < lines.len()
        invariant
            1 <= k <= lines@.len(),
            ls == pieces_of(v@, lines@),
            ls == lines_spec(v@),
            rest == ls.skip(1),
            running@ == "Running"@,
            bounds_within(lines@, 0, v@.len() as int),
            r@.map_values(|d: WslDistro| distro_view(d)) == parse_distro_lines(rest.take(k - 1)),
        decreases lines@.len() - k,
    {
        let b = lines[k];
        assert(rest.take(k as int).drop_last() =~= rest.take(k - 1));
        assert(rest.take(k as int).last() == v@.subrange(b.0 as int, b.1 as int));
        match parse_distro_line_at(&v, b.0, b.1, &running) {
            Some(d) => {
                r.push(d);
                assert(r@.map_values(|d: WslDistro| distro_view(d)) =~= parse_distro_lines(
                    rest.take(k - 1),
                ).push(distro_view(d)));
            },
            None => {},
        }
        k = k + 1;
    }
    assert(rest.take(lines@.len() - 1) =~= rest);
    r
}

/// The name of the default distro, or of the first one when none is marked
/// default; `None` when there are none.
pub fn default_distro_name(distros: &Vec<WslDistro>) -> (r: Option<String>)
    ensures
        match r {
            None => distros@.len() == 0,
            Some(n) => {
                ||| exists|i: int|
                    0 <= i < distros@.len() && (#[trigger] distros@[i]).default && n@
                        == distros@[i].name@ && forall|j: int|
                        0 <= j < i ==> !(#[trigger] distros@[j]).default
                ||| (forall|j: int| 0 <= j < distros@.len() ==> !(#[trigger] distros@[j]).default)
                    && distros@.len() > 0 && n@ == distros@[0].name@
            },
        },
{
    let mut i: usize = 0;
    while i < distros.len()
        invariant
            i <= distros@.len(),
            forall|j: int| 0 <= j < i ==> !(#[trigger] distros@[j]).default,
        decreases distros@.len() - i,
    {
        if distros[i].default {
            return Some(distros[i].name.clone());
        }
        i = i + 1;
    }
    if distros.len() > 0 {
        Some(distros[0].name.clone())
    } else {
        None
    }
}

} // verus!
